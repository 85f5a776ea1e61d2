use gguf_chisel::dump::{dump_json, fmt_bytes, fmt_size, headroom, render_show, value_json};
use gguf_chisel::json::{encode, parse, Json};
use gguf_chisel::patch::coerce;
use gguf_chisel::reader::{parse_head, Gguf};
use gguf_chisel::types::{kv, GgufType, GgufValue};
use gguf_chisel::writer::sample_bytes;

fn sample() -> Gguf {
    let img = sample_bytes(0);
    parse_head(&img[..], img.len() as u64).unwrap()
}

#[test]
fn dump_output_is_valid_json_that_reparses() {
    let doc = parse(&dump_json(&sample())).expect("dump output parses");
    assert_eq!(doc.get("gguf_version"), Some(&Json::Int(3)));
    assert_eq!(doc.get("alignment"), Some(&Json::Int(32)));
    let meta = doc.get("metadata").unwrap();
    let ctx = meta.get("sample.context_length").unwrap();
    assert_eq!(ctx.get("type"), Some(&Json::Str("u32".into())));
    assert_eq!(ctx.get("value"), Some(&Json::Int(4096)));

    let doc = parse(&dump_json(&sample())).unwrap();
    let Json::Arr(tensors) = doc.get("tensors").unwrap() else {
        panic!()
    };
    assert_eq!(tensors.len(), 2);
    assert_eq!(
        tensors[0].get("name"),
        Some(&Json::Str("token_embd.weight".into()))
    );
    assert_eq!(tensors[0].get("type"), Some(&Json::Str("F32".into())));
    assert_eq!(tensors[0].get("bytes"), Some(&Json::Int(128)));
}

#[test]
fn value_json_keeps_u64_exact_and_arrays_elementwise() {
    assert_eq!(
        value_json(&GgufValue::U64(u64::MAX)),
        Json::Int(u64::MAX as i128)
    );
    let arr = GgufValue::Array(
        GgufType::Str,
        vec![GgufValue::Str("a".into()), GgufValue::Str("b".into())],
    );
    assert_eq!(
        value_json(&arr),
        Json::Arr(vec![Json::Str("a".into()), Json::Str("b".into())])
    );
}

#[test]
fn fmt_size_picks_sane_units() {
    assert_eq!(fmt_size(0), "0 bytes");
    assert_eq!(fmt_size(1), "1 byte", "singular, never '1 bytes'");
    assert_eq!(fmt_size(999), "999 bytes");
    assert_eq!(fmt_size(1536), "1.5 KiB");
    assert_eq!(fmt_size(40 * (1 << 30)), "40.0 GiB");
}

#[test]
fn show_reports_layout_facts_and_every_key() {
    let g = sample();
    let text = render_show(&g, "sample.gguf", true);
    assert!(text.contains("gguf:       v3 little-endian"), "{text}");
    assert!(text.contains("tensors:    2"), "{text}");
    assert!(text.contains("sample.context_length"), "{text}");
    assert!(text.contains("headroom"), "{text}");
    assert!(text.contains("token_embd.weight"), "{text}");
    assert!(text.contains("[8, 4]"), "{text}");
}

#[test]
fn show_renders_managed_pad_as_headroom_not_spaces() {
    let img = sample_bytes(256);
    let g = parse_head(&img[..], img.len() as u64).unwrap();
    let text = render_show(&g, "s.gguf", false);
    assert!(text.contains("256 bytes of managed headroom"), "{text}");
    assert!(!text.contains("\"    "), "no raw runs of spaces: {text}");
}

#[test]
fn headroom_counts_pad_and_alignment_slack() {
    let img = sample_bytes(300);
    let g = parse_head(&img[..], img.len() as u64).unwrap();
    // Stripping the pad frees its 30-byte overhead + 300-byte value,
    // plus whatever alignment slack the layout already had.
    assert!(headroom(&g) >= 330, "headroom = {}", headroom(&g));
    assert!(headroom(&g) < 330 + 32, "headroom = {}", headroom(&g));
}

#[test]
fn sizes_round_to_tenths_ties_to_even() {
    assert_eq!(fmt_size(1023), "1023 bytes");
    assert_eq!(fmt_size(1024), "1.0 KiB");
    assert_eq!(fmt_size(1280), "1.2 KiB");
    assert_eq!(fmt_size(1792), "1.8 KiB");
    assert_eq!(fmt_size((1 << 20) - 1), "1024.0 KiB");
    assert_eq!(fmt_size(1 << 20), "1.0 MiB");
    assert_eq!(fmt_size((1 << 40) + (1 << 39)), "1.5 TiB");
    for n in [
        u64::MAX,
        u64::MAX - 1024,
        (1 << 53) + 1,
        (1 << 54) + 2,
        123_456_789_012_345_678,
        987_654_321,
        5_000_000_000,
        1_234,
        99_999,
    ] {
        let (scale, unit) = if n >= 1 << 40 {
            (1u64 << 40, "TiB")
        } else if n >= 1 << 30 {
            (1 << 30, "GiB")
        } else if n >= 1 << 20 {
            (1 << 20, "MiB")
        } else {
            (1 << 10, "KiB")
        };
        assert_eq!(fmt_size(n), format!("{:.1} {unit}", n as f64 / scale as f64));
    }
    assert_eq!(fmt_bytes(1), "1 byte");
    assert_eq!(fmt_bytes(0), "0 bytes");
    assert_eq!(fmt_bytes(1 << 40), "1099511627776 bytes");
}

#[test]
fn show_lays_out_its_columns() {
    let g = sample();
    let text = render_show(&g, "m", true);
    let lines: Vec<&str> = text.lines().collect();
    assert_eq!(lines[0], "file:       m");
    assert_eq!(lines[2], "gguf:       v3 little-endian");
    assert_eq!(lines[3], "alignment:  32");
    assert_eq!(lines[4], "tensors:    2 (160 bytes of tensor data)");
    assert_eq!(
        lines[5],
        format!(
            "data at:    0x{:x} (headroom for in-place edits: {})",
            g.data_start,
            fmt_bytes(headroom(&g))
        )
    );
    assert_eq!(lines[6], "metadata:   9 keys");
    assert_eq!(
        lines[7],
        format!("  {:<36} {:<13} {}", "general.architecture", "string", "\"sample\"")
    );
    assert_eq!(
        lines[lines.len() - 1],
        format!("  {:<28} {:<8} [8]  offset 0x80", "output.weight", "F32")
    );
}

#[test]
fn dumps_read_back_exactly() {
    let mut g = sample();
    g.kvs.push(kv("x.f32", GgufValue::F32(0.1f32.to_bits())));
    g.kvs.push(kv("x.f64", GgufValue::F64(0.1f64.to_bits())));
    g.kvs.push(kv("x.nan", GgufValue::F32(f32::NAN.to_bits())));
    g.kvs.push(kv("x.u64", GgufValue::U64(u64::MAX)));
    g.kvs.push(kv("x.text", GgufValue::Str("a\n\u{1}\"\\é😀".into())));
    g.kvs.push(kv("x.none", GgufValue::Array(GgufType::U8, vec![])));
    let doc = parse(&dump_json(&g)).unwrap();
    let value = |key: &str| doc.get("metadata").unwrap().get(key).unwrap().get("value").unwrap();
    assert_eq!(value("x.f32"), &Json::Float((0.1f32 as f64).to_bits()));
    assert_eq!(value("x.f64"), &Json::Float(0.1f64.to_bits()));
    assert_eq!(value("x.nan"), &Json::Null);
    assert_eq!(value("x.u64"), &Json::Int(u64::MAX as i128));
    assert_eq!(value("x.text"), &Json::Str("a\n\u{1}\"\\é😀".into()));
    assert_eq!(value("x.none"), &Json::Arr(vec![]));
    // A dumped scalar, given back with its type, is the value it was.
    for kv in &g.kvs {
        match &kv.value {
            GgufValue::Str(_) | GgufValue::Array(_, _) => {}
            v if kv.key == "x.nan" => assert_eq!(v.ty(), GgufType::F32),
            v => assert_eq!(&coerce(v.ty(), &encode(value(&kv.key))).unwrap(), v),
        }
    }
}
