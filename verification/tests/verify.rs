use gguf_chisel::reader::{parse_head, Gguf};
use gguf_chisel::types::{kv, GgufValue, KvPair, TensorInfo};
use gguf_chisel::verify::verify;
use gguf_chisel::writer::{build_full, sample_bytes};

fn parse(img: &[u8]) -> Gguf {
    parse_head(img, img.len() as u64).expect("fixture parses")
}

fn arch() -> KvPair {
    kv("general.architecture", GgufValue::Str("demo".into()))
}

fn f32_tensor(name: &str, ne0: u64, offset: u64) -> TensorInfo {
    TensorInfo {
        name: name.into(),
        dims: vec![ne0],
        type_code: 0,
        offset,
    }
}

#[test]
fn the_builtin_sample_verifies_clean() {
    let img = sample_bytes(0);
    let r = verify(&parse(&img));
    assert!(r.ok(), "errors: {:?}", r.errors);
    assert!(r.warnings.is_empty(), "warnings: {:?}", r.warnings);
}

#[test]
fn duplicate_keys_error_and_odd_charset_warns() {
    let kvs = vec![
        arch(),
        kv("x.y", GgufValue::U32(1)),
        kv("x.y", GgufValue::U32(2)),
    ];
    let img = build_full(3, &kvs, &[], &[], 32, 0);
    let r = verify(&parse(&img));
    assert!(
        r.errors
            .iter()
            .any(|e| e.contains("duplicate metadata key 'x.y'")),
        "{r:?}"
    );

    let kvs = vec![arch(), kv("weird key!", GgufValue::U32(1))];
    let img = build_full(3, &kvs, &[], &[], 32, 0);
    let r = verify(&parse(&img));
    assert!(r.ok());
    assert!(r.warnings.iter().any(|w| w.contains("weird key!")), "{r:?}");
}

#[test]
fn unaligned_tensor_offset_is_an_error() {
    let t = f32_tensor("t", 8, 7); // 7 is not a multiple of 32
    let img = build_full(3, &[arch()], &[t], &[0u8; 64], 32, 0);
    let r = verify(&parse(&img));
    assert!(
        r.errors.iter().any(|e| e.contains("not a multiple")),
        "{r:?}"
    );
}

#[test]
fn tensor_past_the_end_of_the_data_section_is_an_error() {
    let t = f32_tensor("t", 64, 0); // needs 256 bytes, data has 64
    let img = build_full(3, &[arch()], &[t], &[0u8; 64], 32, 0);
    let r = verify(&parse(&img));
    assert!(r.errors.iter().any(|e| e.contains("extends past")), "{r:?}");
}

#[test]
fn overlapping_tensors_and_duplicate_names_are_errors() {
    let a = f32_tensor("a", 32, 0); // 128 bytes at 0
    let b = f32_tensor("b", 8, 64); // 32 bytes at 64 — inside a
    let img = build_full(3, &[arch()], &[a, b], &[0u8; 128], 32, 0);
    let r = verify(&parse(&img));
    assert!(
        r.errors
            .iter()
            .any(|e| e.contains("'a'") && e.contains("'b'") && e.contains("overlap")),
        "{r:?}"
    );

    let a = f32_tensor("same", 8, 0);
    let b = f32_tensor("same", 8, 32);
    let img = build_full(3, &[arch()], &[a, b], &[0u8; 64], 32, 0);
    let r = verify(&parse(&img));
    assert!(
        r.errors.iter().any(|e| e.contains("duplicate tensor name")),
        "{r:?}"
    );
}

#[test]
fn unknown_ggml_type_warns_and_skips_size_math() {
    let t = TensorInfo {
        name: "mystery".into(),
        dims: vec![8],
        type_code: 200,
        offset: 0,
    };
    let img = build_full(3, &[arch()], &[t], &[0u8; 32], 32, 0);
    let r = verify(&parse(&img));
    assert!(r.ok(), "{r:?}");
    assert!(
        r.warnings
            .iter()
            .any(|w| w.contains("unknown ggml type 200")),
        "{r:?}"
    );
}

#[test]
fn missing_architecture_and_odd_alignment_warn() {
    let kvs = vec![kv("general.alignment", GgufValue::U32(24))];
    let img = build_full(3, &kvs, &[], &[], 24, 0);
    let r = verify(&parse(&img));
    assert!(r.ok());
    assert!(
        r.warnings.iter().any(|w| w.contains("power of two")),
        "{r:?}"
    );
    assert!(
        r.warnings
            .iter()
            .any(|w| w.contains("general.architecture")),
        "{r:?}"
    );
}

#[test]
fn chat_template_problems_warn_and_wrong_type_errors() {
    let kvs = vec![
        arch(),
        kv(
            "tokenizer.chat_template",
            GgufValue::Str("{% for m in messages %}{{ m }} add_generation_prompt".into()),
        ),
    ];
    let img = build_full(3, &kvs, &[], &[], 32, 0);
    let r = verify(&parse(&img));
    assert!(r.ok(), "template problems are warnings, not errors: {r:?}");
    assert!(
        r.warnings
            .iter()
            .any(|w| w.contains("tokenizer.chat_template")),
        "{r:?}"
    );

    let kvs = vec![arch(), kv("tokenizer.chat_template", GgufValue::U32(1))];
    let img = build_full(3, &kvs, &[], &[], 32, 0);
    let r = verify(&parse(&img));
    assert!(r.errors.iter().any(|e| e.contains("not a string")), "{r:?}");
}

#[test]
fn truncated_data_section_is_an_error() {
    let t = f32_tensor("t", 8, 0);
    let mut img = build_full(3, &[arch()], &[t], &[0u8; 32], 32, 0);
    // Chop the file inside the head padding: data_start > file_len.
    let g = parse(&img);
    img.truncate(g.data_start as usize - 1);
    let cut = parse_head(&img[..], img.len() as u64).expect("head still parses");
    let r = verify(&cut);
    assert!(r.errors.iter().any(|e| e.contains("truncated")), "{r:?}");
}

#[test]
fn findings_are_worded_and_ordered() {
    let t = |name: &str, dims: Vec<u64>, type_code: u32, offset: u64| TensorInfo {
        name: name.into(),
        dims,
        type_code,
        offset,
    };
    let kvs = vec![
        kv("", GgufValue::U32(1)),
        kv("a b\n", GgufValue::U32(1)),
        kv("general.alignment", GgufValue::U32(24)),
        kv("tokenizer.chat_template", GgufValue::Bool(true)),
    ];
    let tensors = vec![
        t("x", vec![0], 0, 0),
        t("q", vec![31, 2], 2, 24),
        t("u", vec![8], 99, 48),
        t("i", vec![256], 16, 48),
        t("z", vec![4], 0, 1),
        t("z", vec![1 << 40, 1 << 20], 0, 24),
    ];
    let img = build_full(3, &kvs, &tensors, &[0; 100], 24, 0);
    let r = verify(&parse(&img));
    assert_eq!(
        r.errors,
        [
            "metadata key #0 is empty",
            "tensor 'x' has a zero-sized dimension",
            "duplicate tensor name 'z'",
            "tensor 'z' offset 1 is not a multiple of the alignment (24)",
            "tensor 'z' (4611686018427387904 bytes at offset 24) extends past the data section (100 bytes)",
            "tokenizer.chat_template is not a string value",
        ]
    );
    assert_eq!(
        r.warnings,
        [
            "key 'a b\\n' contains characters outside [A-Za-z0-9._-]",
            "general.alignment 24 is not a power of two",
            "no general.architecture key; most runtimes require it",
            "tensor 'q' (Q4_0, dims [31, 2]) is not a whole number of blocks; size check skipped",
            "tensor 'u' has unknown ggml type 99 (size checks skipped)",
        ]
    );
    assert!(!r.ok());
}

#[test]
fn overlaps_are_found_between_neighbours_by_offset() {
    let tensors = vec![
        f32_tensor("c", 8, 64),
        f32_tensor("a", 16, 0),
        f32_tensor("b", 8, 32),
        f32_tensor("d", 8, 64),
    ];
    let img = build_full(3, &[arch()], &tensors, &[0; 96], 32, 0);
    let r = verify(&parse(&img));
    assert_eq!(
        r.errors,
        [
            "tensors 'a' and 'b' overlap (0+64 > 32)",
            "tensors 'c' and 'd' overlap (64+32 > 64)",
        ]
    );
    // Side by side there is nothing to say.
    let tensors = vec![f32_tensor("b", 8, 32), f32_tensor("a", 8, 0)];
    let img = build_full(3, &[arch()], &tensors, &[0; 64], 32, 0);
    let r = verify(&parse(&img));
    assert!(r.ok() && r.warnings.is_empty(), "{r:?}");
}

#[test]
fn template_problems_carry_their_position() {
    let kvs = vec![
        arch(),
        kv("tokenizer.chat_template", GgufValue::Str("a\n{{ messages".into())),
    ];
    let img = build_full(3, &kvs, &[], &[], 32, 0);
    let r = verify(&parse(&img));
    assert!(r.ok());
    assert_eq!(
        r.warnings,
        ["tokenizer.chat_template: unclosed '{{' expression at 2:1 (run 'template check' for details)"]
    );
}
