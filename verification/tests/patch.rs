use gguf_chisel::json;
use gguf_chisel::patch::{
    apply_ops, coerce, infer, ops_from_json, parse_set_arg, parse_size, EditOp, ValueSpec,
};
use gguf_chisel::types::{kv, GgufType, GgufValue, KvPair};
use gguf_chisel::writer::PAD_KEY;

fn base_kvs() -> Vec<KvPair> {
    vec![
        kv("general.architecture", GgufValue::Str("demo".into())),
        kv("demo.context_length", GgufValue::U32(4096)),
        kv("demo.small", GgufValue::U16(8)),
        kv("demo.temp", GgufValue::F32(0.7f32.to_bits())),
        kv("demo.flag", GgufValue::Bool(false)),
        kv(
            "demo.stops",
            GgufValue::Array(GgufType::Str, vec![GgufValue::Str("</s>".into())]),
        ),
    ]
}

#[test]
fn parse_set_arg_covers_inferred_typed_and_error_forms() {
    let op = parse_set_arg("general.name=My Model").unwrap();
    assert_eq!(
        op,
        EditOp::Assign {
            key: "general.name".into(),
            spec: ValueSpec::Inferred("My Model".into())
        }
    );

    let op = parse_set_arg("demo.n=u16:9").unwrap();
    assert_eq!(
        op,
        EditOp::Assign {
            key: "demo.n".into(),
            spec: ValueSpec::Typed(GgufValue::U16(9))
        }
    );

    // "https" is not a type name, so the whole value stays inferred text.
    let op = parse_set_arg("general.url=https://example.test/m").unwrap();
    let EditOp::Assign { spec, .. } = op else {
        panic!()
    };
    assert_eq!(spec, ValueSpec::Inferred("https://example.test/m".into()));

    assert!(parse_set_arg("no-equals").is_err());
    assert!(parse_set_arg("=5").is_err());
}

#[test]
fn coerce_covers_every_scalar_type() {
    assert_eq!(coerce(GgufType::U8, "255").unwrap(), GgufValue::U8(255));
    assert_eq!(coerce(GgufType::I8, "-128").unwrap(), GgufValue::I8(-128));
    assert_eq!(coerce(GgufType::U16, "9").unwrap(), GgufValue::U16(9));
    assert_eq!(coerce(GgufType::I16, "-9").unwrap(), GgufValue::I16(-9));
    assert_eq!(
        coerce(GgufType::U32, "70000").unwrap(),
        GgufValue::U32(70000)
    );
    assert_eq!(
        coerce(GgufType::I32, "-70000").unwrap(),
        GgufValue::I32(-70000)
    );
    assert_eq!(
        coerce(GgufType::U64, &u64::MAX.to_string()).unwrap(),
        GgufValue::U64(u64::MAX)
    );
    assert_eq!(coerce(GgufType::I64, "-1").unwrap(), GgufValue::I64(-1));
    assert_eq!(coerce(GgufType::F32, "0.5").unwrap(), GgufValue::F32(0.5f32.to_bits()));
    assert_eq!(coerce(GgufType::F64, "2.5").unwrap(), GgufValue::F64(2.5f64.to_bits()));
    assert_eq!(
        coerce(GgufType::Bool, "true").unwrap(),
        GgufValue::Bool(true)
    );
    assert_eq!(
        coerce(GgufType::Str, "123").unwrap(),
        GgufValue::Str("123".into())
    );
}

#[test]
fn coerce_rejects_out_of_range_bad_bool_and_array_values() {
    let e = coerce(GgufType::U8, "256").unwrap_err();
    assert!(e.0.contains("does not fit u8"), "{e:?}");
    assert!(e.0.contains("0..=255"), "{e:?}");
    assert!(coerce(GgufType::U32, "-1").is_err());
    assert!(coerce(GgufType::I16, "40000").is_err());

    assert!(coerce(GgufType::Bool, "TRUE").is_err());
    assert!(coerce(GgufType::Bool, "1").is_err());

    let e = coerce(GgufType::Array, "x").unwrap_err();
    assert!(e.0.contains("0.1.0"), "{e:?}");
}

#[test]
fn infer_picks_bool_u32_i32_f32_then_string() {
    assert_eq!(infer("true"), GgufValue::Bool(true));
    assert_eq!(infer("32768"), GgufValue::U32(32768));
    assert_eq!(infer("-40"), GgufValue::I32(-40));
    assert_eq!(infer("5000000000"), GgufValue::U64(5_000_000_000));
    assert_eq!(infer("-5000000000"), GgufValue::I64(-5_000_000_000));
    assert_eq!(infer("0.7"), GgufValue::F32(0.7f32.to_bits()));
    assert_eq!(infer("hello world"), GgufValue::Str("hello world".into()));
    assert_eq!(infer("1.2.3"), GgufValue::Str("1.2.3".into()));
}

#[test]
fn set_respects_existing_types_positions_and_range_checks() {
    let mut kvs = base_kvs();
    let ops = [parse_set_arg("demo.context_length=32768").unwrap()];
    let summary = apply_ops(&mut kvs, &ops).unwrap();
    assert_eq!(
        kvs.iter()
            .find(|kv| kv.key == "demo.context_length")
            .unwrap()
            .value,
        GgufValue::U32(32768)
    );
    assert!(
        summary.lines[0].contains("u32 4096 -> u32 32768"),
        "{:?}",
        summary.lines
    );

    let mut kvs = base_kvs();
    let ops = [parse_set_arg("demo.small=70000").unwrap()];
    let e = apply_ops(&mut kvs, &ops).unwrap_err();
    assert!(e.0.contains("u16"), "{e:?}");

    let mut kvs = base_kvs();
    let ops = [parse_set_arg("general.architecture=123").unwrap()];
    apply_ops(&mut kvs, &ops).unwrap();
    assert_eq!(kvs[0].value, GgufValue::Str("123".into()));

    let mut kvs = base_kvs();
    let ops = [
        parse_set_arg("demo.temp=0.9").unwrap(),
        parse_set_arg("demo.new_key=hello").unwrap(),
    ];
    apply_ops(&mut kvs, &ops).unwrap();
    assert_eq!(kvs[3].key, "demo.temp", "edited key keeps its slot");
    assert_eq!(kvs.last().unwrap().key, "demo.new_key");
}

#[test]
fn set_on_array_key_without_explicit_type_is_refused() {
    let mut kvs = base_kvs();
    let ops = [parse_set_arg("demo.stops=</s>").unwrap()];
    let e = apply_ops(&mut kvs, &ops).unwrap_err();
    assert!(e.0.contains("array"), "{e:?}");
}

#[test]
fn remove_is_atomic_on_missing_keys() {
    let mut kvs = base_kvs();
    let before = kvs.clone();
    let ops = [
        EditOp::Remove {
            key: "demo.flag".into(),
        },
        EditOp::Remove {
            key: "demo.nope".into(),
        },
    ];
    let e = apply_ops(&mut kvs, &ops).unwrap_err();
    assert!(e.0.contains("demo.nope"), "{e:?}");
    assert_eq!(kvs, before, "nothing applied when any op fails");
}

#[test]
fn rename_moves_the_key_and_rejects_collisions() {
    let mut kvs = base_kvs();
    let ops = [EditOp::Rename {
        from: "demo.flag".into(),
        to: "demo.enabled".into(),
    }];
    apply_ops(&mut kvs, &ops).unwrap();
    assert!(kvs.iter().any(|kv| kv.key == "demo.enabled"));

    let collide = [EditOp::Rename {
        from: "demo.enabled".into(),
        to: "demo.temp".into(),
    }];
    let e = apply_ops(&mut kvs, &collide).unwrap_err();
    assert!(e.0.contains("already exists"), "{e:?}");
}

#[test]
fn protected_and_managed_keys_are_refused() {
    let mut kvs = base_kvs();
    let e = apply_ops(&mut kvs, &[parse_set_arg("general.alignment=64").unwrap()]).unwrap_err();
    assert!(e.0.contains("alignment"), "{e:?}");
    let e = apply_ops(
        &mut kvs,
        &[EditOp::Remove {
            key: PAD_KEY.into(),
        }],
    )
    .unwrap_err();
    assert!(e.0.contains("managed"), "{e:?}");
}

#[test]
fn ops_from_json_builds_delete_rename_set_in_fixed_order() {
    let doc = json::parse(
        r#"{"set": {"a": 1, "b": {"type": "u16", "value": 2}},
            "delete": ["c"],
            "rename": {"d": "e"}}"#,
    )
    .unwrap();
    let ops = ops_from_json(&doc).unwrap();
    assert_eq!(ops.len(), 4);
    assert!(matches!(ops[0], EditOp::Remove { .. }), "delete first");
    assert!(matches!(ops[1], EditOp::Rename { .. }), "rename second");
    assert_eq!(
        ops[3],
        EditOp::Assign {
            key: "b".into(),
            spec: ValueSpec::Typed(GgufValue::U16(2))
        }
    );

    let doc =
        json::parse(r#"{"set": {"s": "text", "i": 7, "f": 2.0, "b": true}}"#).unwrap();
    let ops = ops_from_json(&doc).unwrap();
    let specs: Vec<&ValueSpec> = ops
        .iter()
        .map(|op| match op {
            EditOp::Assign { spec, .. } => spec,
            _ => panic!(),
        })
        .collect();
    assert_eq!(*specs[0], ValueSpec::Typed(GgufValue::Str("text".into())));
    assert_eq!(*specs[1], ValueSpec::Inferred("7".into()));
    // Floats keep a decimal point so they never coerce into integer keys.
    assert_eq!(*specs[2], ValueSpec::Inferred("2.0".into()));
    assert_eq!(*specs[3], ValueSpec::Inferred("true".into()));
}

#[test]
fn ops_from_json_rejects_unknown_sections_null_and_arrays() {
    let bad = json::parse(r#"{"sett": {}}"#).unwrap();
    assert!(ops_from_json(&bad).unwrap_err().0.contains("sett"));
    let null = json::parse(r#"{"set": {"k": null}}"#).unwrap();
    assert!(ops_from_json(&null).unwrap_err().0.contains("delete"));
    let arr = json::parse(r#"{"set": {"k": [1]}}"#).unwrap();
    assert!(ops_from_json(&arr).unwrap_err().0.contains("0.1.0"));
    let empty = json::parse("{}").unwrap();
    assert!(ops_from_json(&empty)
        .unwrap_err()
        .0
        .contains("no operations"));
}

#[test]
fn parse_size_accepts_binary_suffixes() {
    assert_eq!(parse_size("4096").unwrap(), 4096);
    assert_eq!(parse_size("16K").unwrap(), 16 * 1024);
    assert_eq!(parse_size("2m").unwrap(), 2 * 1024 * 1024);
    assert_eq!(parse_size("1G").unwrap(), 1 << 30);
    assert!(parse_size("lots").is_err());
    assert!(parse_size("").is_err());
}

#[test]
fn errors_name_the_value_the_type_and_the_bounds() {
    let text = |ty, raw: &str| coerce(ty, raw).unwrap_err().to_text();
    assert_eq!(text(GgufType::U8, "256"), "256 does not fit u8 (0..=255)");
    assert_eq!(
        text(GgufType::I64, "9223372036854775808"),
        "9223372036854775808 does not fit i64 (-9223372036854775808..=9223372036854775807)"
    );
    assert_eq!(text(GgufType::U32, "4.5"), "'4.5' is not an integer");
    assert_eq!(text(GgufType::F32, "x"), "'x' is not a number");
    assert_eq!(
        text(GgufType::Bool, "yes"),
        "'yes' is not a bool (use 'true' or 'false')"
    );
    assert_eq!(
        text(GgufType::Array, "x"),
        "array values cannot be written in 0.1.0"
    );
    assert_eq!(
        parse_set_arg("novalue").unwrap_err().to_text(),
        "'novalue' is not KEY=VALUE (missing '=')"
    );
    assert_eq!(
        parse_set_arg("=5").unwrap_err().to_text(),
        "'=5' has an empty key"
    );
    assert_eq!(
        parse_set_arg("k=u8:300").unwrap_err().to_text(),
        "300 does not fit u8 (0..=255)"
    );
    let mut kvs = base_kvs();
    let e = apply_ops(&mut kvs, &[parse_set_arg("demo.small=70000").unwrap()]).unwrap_err();
    assert_eq!(
        e.0,
        "demo.small: 70000 does not fit u16 (0..=65535) (existing type is u16)"
    );
    let e = apply_ops(&mut kvs, &[parse_set_arg("demo.stops=x").unwrap()]).unwrap_err();
    assert_eq!(
        e.0,
        "'demo.stops' holds an array; array writes are not supported in 0.1.0 (rm the key and set a scalar if you really mean it)"
    );
    let e = apply_ops(&mut kvs, &[parse_set_arg("general.alignment=64").unwrap()]).unwrap_err();
    assert_eq!(
        e.0,
        "refusing to edit 'general.alignment': changing the alignment would move every tensor; this is not supported in 0.1.0"
    );
    let e = apply_ops(
        &mut kvs,
        &[EditOp::Rename {
            from: "demo.flag".into(),
            to: PAD_KEY.into(),
        }],
    )
    .unwrap_err();
    assert_eq!(
        e.0,
        "'chisel.pad' is managed automatically (it is resized on every write); use --reserve to control headroom"
    );
    let e = apply_ops(
        &mut kvs,
        &[EditOp::Rename {
            from: "nope".into(),
            to: "other".into(),
        }],
    )
    .unwrap_err();
    assert_eq!(e.0, "no such key 'nope'");
}

#[test]
fn operations_are_described_one_line_each() {
    let mut kvs = base_kvs();
    let ops = [
        parse_set_arg("demo.temp=0.5").unwrap(),
        parse_set_arg("demo.new=12").unwrap(),
        EditOp::Remove {
            key: "demo.stops".into(),
        },
        EditOp::Rename {
            from: "demo.flag".into(),
            to: "demo.enabled".into(),
        },
    ];
    let summary = apply_ops(&mut kvs, &ops).unwrap();
    assert_eq!(
        summary.lines,
        [
            "set demo.temp: f32 0.7 -> f32 0.5",
            "add demo.new: u32 12",
            "rm  demo.stops (array<string>, was array<string>[1] {\"</s>\"})",
            "rename demo.flag -> demo.enabled",
        ]
    );
    // The renamed pair keeps its place and its value.
    assert_eq!(kvs[4].key, "demo.enabled");
    assert_eq!(kvs[4].value, GgufValue::Bool(false));
    assert_eq!(ops[1].clone(), ops[1]);
}

#[test]
fn existing_keys_keep_their_type() {
    let mut kvs = base_kvs();
    let ops = [
        parse_set_arg("demo.small=12").unwrap(),
        parse_set_arg("demo.temp=3").unwrap(),
        parse_set_arg("general.architecture=7").unwrap(),
    ];
    apply_ops(&mut kvs, &ops).unwrap();
    assert_eq!(kvs[2].value, GgufValue::U16(12));
    assert_eq!(kvs[3].value, GgufValue::F32(3f32.to_bits()));
    assert_eq!(kvs[0].value, GgufValue::Str("7".into()));
    // An explicit type replaces the old one.
    apply_ops(&mut kvs, &[parse_set_arg("demo.small=str:x").unwrap()]).unwrap();
    assert_eq!(kvs[2].value, GgufValue::Str("x".into()));
}

#[test]
fn inference_at_the_edges() {
    assert_eq!(infer("4294967295"), GgufValue::U32(u32::MAX));
    assert_eq!(infer("4294967296"), GgufValue::U64(1 << 32));
    assert_eq!(infer("-2147483648"), GgufValue::I32(i32::MIN));
    assert_eq!(infer("-2147483649"), GgufValue::I64(-2147483649));
    assert_eq!(infer("+7"), GgufValue::U32(7));
    assert_eq!(infer("-0"), GgufValue::U32(0));
    assert_eq!(infer("18446744073709551615"), GgufValue::U64(u64::MAX));
    assert_eq!(
        infer("18446744073709551616"),
        GgufValue::F32((18446744073709551616f64 as f32).to_bits())
    );
    assert_eq!(infer("1e5"), GgufValue::F32(1e5f32.to_bits()));
    assert_eq!(infer("1e400"), GgufValue::F32(f32::INFINITY.to_bits()));
    assert_eq!(infer("inf"), GgufValue::Str("inf".into()));
    assert_eq!(infer("nan"), GgufValue::Str("nan".into()));
    assert_eq!(infer("1_000"), GgufValue::Str("1_000".into()));
    assert_eq!(infer("."), GgufValue::Str(".".into()));
    assert_eq!(infer(""), GgufValue::Str(String::new()));
    assert_eq!(infer("True"), GgufValue::Str("True".into()));
}

#[test]
fn patch_documents_report_each_mistake() {
    let text = |src: &str| {
        ops_from_json(&json::parse(src).unwrap())
            .unwrap_err()
            .to_text()
    };
    assert_eq!(text("[]"), "patch document must be a JSON object");
    assert_eq!(
        text(r#"{"delete": 1}"#),
        "\"delete\" must be an array of key names"
    );
    assert_eq!(
        text(r#"{"delete": [1]}"#),
        "\"delete\" entries must be strings"
    );
    assert_eq!(
        text(r#"{"rename": []}"#),
        "\"rename\" must be an object of old: new pairs"
    );
    assert_eq!(
        text(r#"{"rename": {"a": 1}}"#),
        "rename target for 'a' must be a string"
    );
    assert_eq!(
        text(r#"{"set": "x"}"#),
        "\"set\" must be an object of key: value pairs"
    );
    assert_eq!(
        text(r#"{"set": {"k": {"type": "u8"}}}"#),
        "k: object values must be {\"type\": ..., \"value\": ...}"
    );
    assert_eq!(
        text(r#"{"set": {"k": {"type": "u9", "value": 1}}}"#),
        "k: unknown type 'u9'"
    );
    assert_eq!(
        text(r#"{"set": {"k": {"type": "u8", "value": 256}}}"#),
        "k: 256 does not fit u8 (0..=255)"
    );
    assert_eq!(
        text(r#"{"set": {"k": {"type": "u8", "value": null}}}"#),
        "k: null has no GGUF representation"
    );
    assert_eq!(
        text(r#"{"set": {"k": {"type": "u8", "value": []}}}"#),
        "k: array/object values are not supported in 0.1.0"
    );
    assert_eq!(
        text(r#"{"set": {"k": null}}"#),
        "k: null has no GGUF representation (use \"delete\")"
    );
    assert_eq!(
        text(r#"{"set": {"k": [1]}}"#),
        "k: array writes are not supported in 0.1.0"
    );
    assert_eq!(
        text(r#"{"other": {}}"#),
        "unknown patch section \"other\" (expected delete/rename/set)"
    );
    assert_eq!(
        text(r#"{"set": {}}"#),
        "patch document contains no operations"
    );
}

#[test]
fn sizes_overflow_and_signs() {
    assert_eq!(parse_size("+5k").unwrap(), 5120);
    assert_eq!(parse_size("17179869183G").unwrap(), 17179869183 << 30);
    assert_eq!(
        parse_size("17179869184G").unwrap_err().to_text(),
        "'17179869184G' overflows"
    );
    assert_eq!(
        parse_size("-1").unwrap_err().to_text(),
        "'-1' is not a size (use N, NK, NM or NG)"
    );
    assert!(parse_size("K").is_err());
    assert!(parse_size("18446744073709551616").is_err());
    assert_eq!(parse_size("18446744073709551615").unwrap(), u64::MAX);
}
