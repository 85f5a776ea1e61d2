use gguf_chisel::types::{
    align_up, escape_short, ggml_type_name, ggml_type_size, GgufType, GgufValue, TensorInfo,
};

#[test]
fn type_codes_and_names_roundtrip_for_all_thirteen_types() {
    for code in 0u32..=12 {
        let ty = GgufType::from_code(code).expect("code in range");
        assert_eq!(ty.code(), code);
        assert_eq!(GgufType::from_name(ty.name()), Some(ty));
    }
    assert_eq!(GgufType::from_code(13), None);

    assert_eq!(GgufType::from_name("str"), Some(GgufType::Str));
    assert_eq!(GgufType::from_name("string"), Some(GgufType::Str));
    assert_eq!(GgufType::from_name("float"), None);
    assert_eq!(GgufType::from_name("U32"), None, "type names are lowercase");
}

#[test]
fn type_label_distinguishes_scalars_and_arrays() {
    assert_eq!(GgufValue::U32(1).type_label(), "u32");
    let arr = GgufValue::Array(GgufType::Str, vec![]);
    assert_eq!(arr.type_label(), "array<string>");
    let nested = GgufValue::Array(GgufType::Array, vec![arr]);
    assert_eq!(nested.type_label(), "array<array>");
}

#[test]
fn as_u64_widens_unsigned_and_non_negative_signed_only() {
    assert_eq!(GgufValue::U8(7).as_u64(), Some(7));
    assert_eq!(GgufValue::U64(u64::MAX).as_u64(), Some(u64::MAX));
    assert_eq!(GgufValue::I32(32).as_u64(), Some(32));
    assert_eq!(GgufValue::I32(-1).as_u64(), None);
    assert_eq!(GgufValue::F32(1.0f32.to_bits()).as_u64(), None);
    assert_eq!(GgufValue::Str("32".into()).as_u64(), None);
}

#[test]
fn preview_truncates_strings_and_summarizes_arrays() {
    let long = GgufValue::Str("line one\nline two and much more text".into());
    let p = long.preview(12);
    assert!(p.starts_with('"'), "preview is quoted: {p}");
    assert!(p.contains("\\n"), "newline escaped: {p}");
    assert!(p.contains("(36 bytes)"), "byte length reported: {p}");
    let short = GgufValue::Str("hi".into());
    assert_eq!(short.preview(12), "\"hi\"");

    let arr = GgufValue::Array(GgufType::U32, (0..5).map(GgufValue::U32).collect());
    let p = arr.preview(60);
    assert!(p.starts_with("array<u32>[5]"), "{p}");
    assert!(p.contains("{0, 1, 2, …}"), "{p}");
}

#[test]
fn ggml_type_table_names_types_and_block_size_math() {
    assert_eq!(ggml_type_name(0), "F32");
    assert_eq!(ggml_type_name(12), "Q4_K");
    assert_eq!(ggml_type_name(30), "BF16");
    assert_eq!(ggml_type_name(99), "type#99");

    // 8x4 F32 = 32 elements * 4 bytes.
    let t = TensorInfo {
        name: "t".into(),
        dims: vec![8, 4],
        type_code: 0,
        offset: 0,
    };
    assert_eq!(t.byte_size(), Some(128));
    // Q4_K: 256-element blocks of 144 bytes; [256, 2] = 2 blocks * 2 rows.
    let q = TensorInfo {
        name: "q".into(),
        dims: vec![256, 2],
        type_code: 12,
        offset: 0,
    };
    assert_eq!(q.byte_size(), Some(288));
}

#[test]
fn size_math_defends_against_partial_blocks_unknown_types_and_overflow() {
    let ragged = TensorInfo {
        name: "r".into(),
        dims: vec![100],
        type_code: 2, // Q4_0 has 32-element blocks; 100 is not a multiple
        offset: 0,
    };
    assert_eq!(ragged.byte_size(), None);
    let unknown = TensorInfo {
        name: "u".into(),
        dims: vec![32],
        type_code: 16, // IQ2_XXS: named, size deliberately untracked
        offset: 0,
    };
    assert_eq!(unknown.byte_size(), None);

    let t = TensorInfo {
        name: "huge".into(),
        dims: vec![u64::MAX, u64::MAX, 2],
        type_code: 0,
        offset: 0,
    };
    assert_eq!(t.n_elements(), None);
    assert_eq!(t.byte_size(), None);
}

#[test]
fn align_up_handles_boundaries_and_zero_alignment() {
    assert_eq!(align_up(0, 32), 0);
    assert_eq!(align_up(1, 32), 32);
    assert_eq!(align_up(32, 32), 32);
    assert_eq!(align_up(33, 32), 64);
    assert_eq!(align_up(7, 0), 7, "zero alignment treated as 1");
}

#[test]
fn previews_of_every_kind() {
    assert_eq!(GgufValue::I8(-5).preview(9), "-5");
    assert_eq!(GgufValue::U64(u64::MAX).preview(0), "18446744073709551615");
    assert_eq!(GgufValue::F32(0.7f32.to_bits()).preview(9), "0.7");
    assert_eq!(GgufValue::F64(1e21f64.to_bits()).preview(9), "1000000000000000000000");
    assert_eq!(GgufValue::Bool(true).preview(9), "true");
    assert_eq!(GgufValue::Str("abcé".into()).preview(3), "\"abc…\" (5 bytes)");
    let nested = GgufValue::Array(
        GgufType::Array,
        vec![GgufValue::Array(GgufType::Str, vec![GgufValue::Str("x".repeat(30))])],
    );
    assert_eq!(
        nested.preview(99),
        format!("array<array>[1] {{array<string>[1] {{\"{}…\" (30 bytes)}}}}", "x".repeat(24))
    );
    assert_eq!(GgufValue::Array(GgufType::U8, vec![]).preview(9), "array<u8>[0]");
    assert_eq!(escape_short("\"\r\u{7}\u{85}é"), "\\\"\\r\\u{7}\\u{85}é");
}

#[test]
fn sizes_of_every_type_in_the_table() {
    assert_eq!(ggml_type_size(0), Some((1, 4)));
    assert_eq!(ggml_type_size(12), Some((256, 144)));
    assert_eq!(ggml_type_size(16), None);
    assert_eq!(ggml_type_size(4), None);
    assert_eq!(ggml_type_name(16), "IQ2_XXS");
    assert_eq!(ggml_type_name(4), "type#4");
    let t = |dims: Vec<u64>, type_code: u32| TensorInfo {
        name: "t".into(),
        dims,
        type_code,
        offset: 0,
    };
    assert_eq!(t(vec![2, 3, 4], 1).n_elements(), Some(24));
    assert_eq!(t(vec![2, 3, 4], 1).byte_size(), Some(48));
    assert_eq!(t(vec![], 1).n_elements(), None);
    assert_eq!(t(vec![], 1).byte_size(), None);
    assert_eq!(t(vec![1 << 63, 2], 0).n_elements(), None);
    assert_eq!(t(vec![1 << 62], 0).byte_size(), None);
    assert_eq!(t(vec![0, 5], 0).byte_size(), Some(0));
    assert_eq!(t(vec![1], 0).clone(), t(vec![1], 0));
    assert_eq!(align_up(u64::MAX - 31, 32), u64::MAX - 31);
    assert_eq!(align_up(5, u64::MAX), u64::MAX);
}
