use gguf_chisel::dump::headroom;
use gguf_chisel::reader::parse_head;
use gguf_chisel::types::{kv, GgufType, GgufValue, KvPair, TensorInfo};
use gguf_chisel::writer::{
    build_full, head_region, pad_overhead, plan_in_place, rewrite_prefix, sample_bytes,
    serialize_head, strip_pad, FitPlan, PAD_KEY,
};

fn demo_kvs() -> Vec<KvPair> {
    vec![
        kv("general.architecture", GgufValue::Str("demo".into())),
        kv("demo.context_length", GgufValue::U32(2048)),
        kv("demo.rope.freq_base", GgufValue::F32(10000.0f32.to_bits())),
        kv("demo.flag", GgufValue::Bool(true)),
        kv(
            "demo.stops",
            GgufValue::Array(
                GgufType::Str,
                vec![
                    GgufValue::Str("</s>".into()),
                    GgufValue::Str("<eot>".into()),
                ],
            ),
        ),
        kv("demo.big", GgufValue::U64(1 << 40)),
        kv("demo.neg", GgufValue::I64(-9)),
        kv("demo.pi", GgufValue::F64(std::f64::consts::PI.to_bits())),
    ]
}

fn demo_tensor() -> TensorInfo {
    TensorInfo {
        name: "blk.0.attn.weight".into(),
        dims: vec![8, 4],
        type_code: 0,
        offset: 0,
    }
}

#[test]
fn serialize_then_parse_roundtrips_deterministically() {
    let kvs = demo_kvs();
    let tensors = vec![demo_tensor()];
    let head = serialize_head(3, &kvs, &tensors);
    let g = parse_head(&head[..], head.len() as u64).expect("own output parses");
    assert_eq!(g.kvs, kvs);
    assert_eq!(g.tensors, tensors);

    let a = serialize_head(3, &demo_kvs(), &[demo_tensor()]);
    let b = serialize_head(3, &demo_kvs(), &[demo_tensor()]);
    assert_eq!(a, b);
}

#[test]
fn build_full_aligns_data_and_preserves_payload() {
    let data = [0xAAu8; 64];
    let img = build_full(3, &demo_kvs(), &[demo_tensor()], &data, 32, 0);
    let g = parse_head(&img[..], img.len() as u64).unwrap();
    assert_eq!(g.data_start % 32, 0);
    assert_eq!(&img[g.data_start as usize..], &data[..]);
}

#[test]
fn planner_handles_no_change_small_shrink_and_growth() {
    let img = build_full(3, &demo_kvs(), &[demo_tensor()], &[0u8; 32], 32, 0);
    let g = parse_head(&img[..], img.len() as u64).unwrap();
    match plan_in_place(3, &g.kvs, &g.tensors, g.data_start, g.alignment) {
        FitPlan::InPlace { head, zero_fill } => {
            assert_eq!(head.len() as u64 + zero_fill, g.data_start);
        }
        other => panic!("expected InPlace, got {other:?}"),
    }

    // Removing "demo.flag" (bool) shrinks the head by 8+9+4+1 = 22 bytes;
    // combined slack can exceed 32, so accept either mechanism but insist
    // the head still ends exactly at data_start.
    let img = build_full(3, &demo_kvs(), &[demo_tensor()], &[0u8; 32], 32, 0);
    let g = parse_head(&img[..], img.len() as u64).unwrap();
    let kvs: Vec<KvPair> = g
        .kvs
        .iter()
        .filter(|kv| kv.key != "demo.flag")
        .cloned()
        .collect();
    match plan_in_place(3, &kvs, &g.tensors, g.data_start, g.alignment) {
        FitPlan::InPlace { head, zero_fill } => {
            assert_eq!(head.len() as u64 + zero_fill, g.data_start);
            assert!(zero_fill < 32, "zero fill stays below alignment");
        }
        other => panic!("expected InPlace, got {other:?}"),
    }
}

#[test]
fn large_shrink_inserts_a_byte_exact_pad_key() {
    // Dropping the chat-template-sized string frees far more than one
    // alignment unit, so the planner must synthesize chisel.pad.
    let mut kvs = demo_kvs();
    kvs.push(kv("demo.blob", GgufValue::Str("x".repeat(500))));
    let img = build_full(3, &kvs, &[demo_tensor()], &[0u8; 32], 32, 0);
    let g = parse_head(&img[..], img.len() as u64).unwrap();
    let shrunk: Vec<KvPair> = g
        .kvs
        .iter()
        .filter(|kv| kv.key != "demo.blob")
        .cloned()
        .collect();
    match plan_in_place(3, &shrunk, &g.tensors, g.data_start, g.alignment) {
        FitPlan::InPlace { head, zero_fill } => {
            assert_eq!(zero_fill, 0, "pad key lands the head exactly");
            assert_eq!(head.len() as u64, g.data_start);
            let reparsed = parse_head(&head[..], head.len() as u64).unwrap();
            assert!(reparsed.get(PAD_KEY).is_some(), "pad key present");
        }
        other => panic!("expected InPlace, got {other:?}"),
    }

    let img = build_full(3, &demo_kvs(), &[demo_tensor()], &[0u8; 32], 32, 0);
    let g = parse_head(&img[..], img.len() as u64).unwrap();
    let mut kvs = g.kvs.clone();
    kvs.push(kv("demo.long", GgufValue::Str("y".repeat(4096))));
    match plan_in_place(3, &kvs, &g.tensors, g.data_start, g.alignment) {
        FitPlan::NeedsRewrite { needed, available } => {
            assert!(needed > available);
            assert_eq!(available, g.data_start);
        }
        other => panic!("expected NeedsRewrite, got {other:?}"),
    }
}

#[test]
fn existing_pad_is_reclaimed_before_planning() {
    // A file built with 200 reserved bytes can absorb a 100-byte growth
    // in place: the pad shrinks instead of the data moving.
    let img = build_full(3, &demo_kvs(), &[demo_tensor()], &[0u8; 32], 32, 200);
    let g = parse_head(&img[..], img.len() as u64).unwrap();
    assert!(g.get(PAD_KEY).is_some(), "reserve materialized as pad");
    let mut kvs = g.kvs.clone();
    kvs.push(kv("demo.extra", GgufValue::Str("z".repeat(100))));
    match plan_in_place(3, &kvs, &g.tensors, g.data_start, g.alignment) {
        FitPlan::InPlace { head, zero_fill } => {
            assert_eq!(head.len() as u64 + zero_fill, g.data_start);
            let reparsed = parse_head(&head[..], head.len() as u64).unwrap();
            let pad = reparsed.get(PAD_KEY).expect("pad still present");
            if let GgufValue::Str(s) = pad {
                assert!(s.len() < 200, "pad shrank to absorb the growth");
            } else {
                panic!("pad is not a string");
            }
        }
        other => panic!("expected InPlace, got {other:?}"),
    }
}

#[test]
fn narrow_window_with_tiny_alignment_falls_back_to_rewrite() {
    // alignment 8: a 16-byte gap is too big for slack (< 8 required) and
    // too small for the 30-byte pad key overhead. The planner must not
    // guess — it reports a rewrite.
    let mut kvs = vec![kv("general.alignment", GgufValue::U32(8))];
    kvs.extend(demo_kvs());
    let base_len = serialize_head(3, &kvs, &[]).len() as u64;
    let data_start = base_len + 16;
    match plan_in_place(3, &kvs, &[], data_start, 8) {
        FitPlan::NeedsRewrite { needed, available } => {
            assert_eq!(needed, base_len);
            assert_eq!(available, data_start);
        }
        other => panic!("expected NeedsRewrite, got {other:?}"),
    }
}

#[test]
fn reserve_headroom_survives_roundtrip_and_absorbs_growth() {
    let img = build_full(3, &demo_kvs(), &[demo_tensor()], &[0u8; 32], 32, 128);
    let g = parse_head(&img[..], img.len() as u64).unwrap();
    let mut kvs = g.kvs.clone();
    kvs.push(kv(
        "demo.note",
        GgufValue::Str("fits in the headroom".into()),
    ));
    assert!(matches!(
        plan_in_place(3, &kvs, &g.tensors, g.data_start, g.alignment),
        FitPlan::InPlace { .. }
    ));
}

#[test]
fn write_in_place_touches_only_the_head_region() {
    let img = build_full(3, &demo_kvs(), &[demo_tensor()], &[0x5Au8; 64], 32, 64);
    let g = parse_head(&img[..], img.len() as u64).unwrap();

    let mut kvs = g.kvs.clone();
    for kv in &mut kvs {
        if kv.key == "demo.context_length" {
            kv.value = GgufValue::U32(65536);
        }
    }
    let plan = plan_in_place(3, &kvs, &g.tensors, g.data_start, g.alignment);
    let FitPlan::InPlace { head, zero_fill } = plan else {
        panic!("same-size edit must fit");
    };
    let region = head_region(head, zero_fill);
    assert_eq!(region.len() as u64, g.data_start);
    let mut after = img.clone();
    after[..region.len()].copy_from_slice(&region);

    assert_eq!(after.len(), img.len(), "file size unchanged");
    assert_eq!(
        &after[g.data_start as usize..],
        &img[g.data_start as usize..],
        "tensor data bytes are bit-identical"
    );
    let reparsed = parse_head(&after[..], after.len() as u64).unwrap();
    assert_eq!(
        reparsed.get("demo.context_length"),
        Some(&GgufValue::U32(65536))
    );
}

#[test]
fn rewrite_streams_tensor_data_verbatim_with_new_headroom() {
    let payload: Vec<u8> = (0..96u8).collect();
    let img = build_full(3, &demo_kvs(), &[demo_tensor()], &payload, 32, 0);
    let g = parse_head(&img[..], img.len() as u64).unwrap();

    let mut edited = g.clone();
    edited
        .kvs
        .push(kv("demo.grown", GgufValue::Str("g".repeat(1000))));
    let (mut out, head_len) = rewrite_prefix(&edited, 256).unwrap();
    out.extend_from_slice(&img[g.data_start as usize..]);

    let ng = parse_head(&out[..], out.len() as u64).unwrap();
    assert_eq!(ng.data_len(), payload.len() as u64);
    assert_eq!(head_len, ng.head_end);
    assert_eq!(
        ng.get("demo.grown"),
        Some(&GgufValue::Str("g".repeat(1000)))
    );
    assert!(ng.get(PAD_KEY).is_some(), "reserve pad written");
    assert_eq!(ng.tensors, g.tensors, "tensor descriptors unchanged");
    assert_eq!(&out[ng.data_start as usize..], &payload[..]);
}

#[test]
fn sample_bytes_parse_cleanly_and_carry_a_chat_template() {
    let img = sample_bytes(0);
    let g = parse_head(&img[..], img.len() as u64).unwrap();
    assert_eq!(g.version, 3);
    assert_eq!(g.tensors.len(), 2);
    assert_eq!(g.kvs.len(), 9);
    assert!(matches!(
        g.get("tokenizer.chat_template"),
        Some(GgufValue::Str(_))
    ));
    assert_eq!(g.data_len(), 160);
    // Reserve variant grows the head but keeps the same payload.
    let img2 = sample_bytes(512);
    let g2 = parse_head(&img2[..], img2.len() as u64).unwrap();
    assert!(g2.get(PAD_KEY).is_some());
    assert_eq!(g2.data_len(), 160);
}

/// The bytes of a file after `region` was written over its head.
fn patched(img: &[u8], region: &[u8]) -> Vec<u8> {
    let mut out = img.to_vec();
    out[..region.len()].copy_from_slice(region);
    out
}

#[test]
fn reserved_bytes_are_headroom_for_later_edits() {
    let img = build_full(3, &demo_kvs(), &[demo_tensor()], &[7; 32], 32, 500);
    let g = parse_head(&img, img.len() as u64).unwrap();
    assert!(headroom(&g) >= 500);
    // An edit that takes exactly the headroom fits, one byte more does not.
    let room = headroom(&g) as usize;
    for (extra, fits) in [(room, true), (room + 1, false)] {
        let mut kvs = g.kvs.clone();
        // Key length, key, type, value length: 21 bytes around the value.
        kvs.push(kv("k", GgufValue::Str("v".repeat(extra - 21))));
        let plan = plan_in_place(3, &kvs, &g.tensors, g.data_start, g.alignment);
        assert_eq!(matches!(plan, FitPlan::InPlace { .. }), fits);
    }
}

#[test]
fn repeated_edits_do_not_drift_and_keep_one_pad() {
    let mut img = build_full(3, &demo_kvs(), &[demo_tensor()], &[9; 64], 32, 300);
    let start = parse_head(&img, img.len() as u64).unwrap().data_start;
    let data = img[start as usize..].to_vec();
    for n in [10usize, 200, 0, 77, 200, 10] {
        let g = parse_head(&img, img.len() as u64).unwrap();
        let mut kvs: Vec<KvPair> = g.kvs.iter().filter(|p| p.key != "note").cloned().collect();
        if n > 0 {
            kvs.push(kv("note", GgufValue::Str("n".repeat(n))));
        }
        let FitPlan::InPlace { head, zero_fill } =
            plan_in_place(g.version, &kvs, &g.tensors, g.data_start, g.alignment)
        else {
            panic!("fits");
        };
        img = patched(&img, &head_region(head, zero_fill));
        let after = parse_head(&img, img.len() as u64).unwrap();
        assert_eq!(after.data_start, start);
        assert_eq!(after.kvs.iter().filter(|p| p.key == PAD_KEY).count(), 1);
        assert_eq!(strip_pad(&after.kvs), strip_pad(&kvs));
        assert_eq!(&img[start as usize..], &data[..]);
    }
}

#[test]
fn heads_are_written_byte_for_byte() {
    let kvs = vec![
        kv("a", GgufValue::U8(1)),
        kv("b", GgufValue::Array(GgufType::I16, vec![GgufValue::I16(-2)])),
    ];
    let tensors = vec![TensorInfo {
        name: "t".into(),
        dims: vec![3],
        type_code: 1,
        offset: 32,
    }];
    let mut want = b"GGUF".to_vec();
    want.extend_from_slice(&3u32.to_le_bytes());
    want.extend_from_slice(&1u64.to_le_bytes());
    want.extend_from_slice(&2u64.to_le_bytes());
    want.extend_from_slice(&1u64.to_le_bytes());
    want.extend_from_slice(b"a");
    want.extend_from_slice(&0u32.to_le_bytes());
    want.push(1);
    want.extend_from_slice(&1u64.to_le_bytes());
    want.extend_from_slice(b"b");
    want.extend_from_slice(&9u32.to_le_bytes());
    want.extend_from_slice(&3u32.to_le_bytes());
    want.extend_from_slice(&1u64.to_le_bytes());
    want.extend_from_slice(&(-2i16).to_le_bytes());
    want.extend_from_slice(&1u64.to_le_bytes());
    want.extend_from_slice(b"t");
    want.extend_from_slice(&1u32.to_le_bytes());
    want.extend_from_slice(&3u64.to_le_bytes());
    want.extend_from_slice(&1u32.to_le_bytes());
    want.extend_from_slice(&32u64.to_le_bytes());
    assert_eq!(serialize_head(3, &kvs, &tensors), want);
    assert_eq!(pad_overhead(), 30);
}

#[test]
fn a_rewrite_pads_up_to_a_wide_alignment() {
    let kvs = vec![kv("general.alignment", GgufValue::U64(1 << 20))];
    let img = build_full(3, &kvs, &[], &[], 1 << 20, 0);
    let g = parse_head(&img, img.len() as u64).unwrap();
    let (prefix, head_len) = rewrite_prefix(&g, 0).unwrap();
    assert_eq!(prefix.len(), 1 << 20);
    assert_eq!(head_len, g.head_end);
    assert!(prefix[head_len as usize..].iter().all(|b| *b == 0));
}

#[test]
fn heads_that_were_read_are_written_back() {
    let img = sample_bytes(64);
    let g = parse_head(&img, img.len() as u64).unwrap();
    assert_eq!(
        serialize_head(g.version, &g.kvs, &g.tensors),
        &img[..g.head_end as usize]
    );
    // A bool stored as another byte than 0 or 1 is normalized.
    let mut odd = serialize_head(3, &[kv("f", GgufValue::Bool(true))], &[]);
    *odd.last_mut().unwrap() = 2;
    let g = parse_head(&odd, odd.len() as u64).unwrap();
    let written = serialize_head(3, &g.kvs, &g.tensors);
    assert_eq!(written.len(), odd.len());
    assert_eq!(written.last(), Some(&1));
}

#[test]
fn planning_what_was_read_back_gives_the_same_head() {
    let img = build_full(3, &demo_kvs(), &[demo_tensor()], &[0x5Au8; 64], 32, 256);
    let g = parse_head(&img[..], img.len() as u64).unwrap();
    let mut edited = g.kvs.clone();
    edited.push(kv("demo.note", GgufValue::Str("hello".into())));
    for kvs in [g.kvs.clone(), edited, demo_kvs()] {
        let FitPlan::InPlace { head, zero_fill } =
            plan_in_place(3, &kvs, &g.tensors, g.data_start, g.alignment)
        else {
            panic!("must fit");
        };
        let again = parse_head(&head[..], g.data_start + 64).unwrap();
        assert_eq!(
            plan_in_place(3, &again.kvs, &again.tensors, g.data_start, g.alignment),
            FitPlan::InPlace { head, zero_fill }
        );
        assert!(again.kvs.iter().filter(|p| p.key == PAD_KEY).count() <= 1);
        assert_eq!(strip_pad(&again.kvs), strip_pad(&kvs));
    }
}

#[test]
fn a_head_beyond_the_caps_is_refused_and_never_misread() {
    let dims = TensorInfo { dims: vec![1; 9], ..demo_tensor() };
    let deep = (0..6).fold(GgufValue::U8(1), |v, i| {
        GgufValue::Array(if i == 0 { GgufType::U8 } else { GgufType::Array }, vec![v])
    });
    let head = serialize_head(3, &demo_kvs(), &[dims]);
    assert!(parse_head(&head[..], head.len() as u64).is_err());
    let head = serialize_head(3, &[kv("deep", deep)], &[]);
    assert!(parse_head(&head[..], head.len() as u64).is_err());
}
