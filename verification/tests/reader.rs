use gguf_chisel::reader::{parse_head, read_step, Gguf, GgufError, ReadStep, FIRST_READ};
use gguf_chisel::types::{align_up, GgufType, GgufValue};
use gguf_chisel::writer::sample_bytes;

/// Hand-rolled byte builder, deliberately independent from `writer` so a
/// shared encoding bug cannot cancel itself out across the two modules.
struct Raw(Vec<u8>);

impl Raw {
    fn new(version: u32, tensor_count: u64, kv_count: u64) -> Raw {
        let mut b = Vec::new();
        b.extend_from_slice(b"GGUF");
        b.extend_from_slice(&version.to_le_bytes());
        b.extend_from_slice(&tensor_count.to_le_bytes());
        b.extend_from_slice(&kv_count.to_le_bytes());
        Raw(b)
    }
    fn str(&mut self, s: &str) -> &mut Self {
        self.0.extend_from_slice(&(s.len() as u64).to_le_bytes());
        self.0.extend_from_slice(s.as_bytes());
        self
    }
    fn u32(&mut self, v: u32) -> &mut Self {
        self.0.extend_from_slice(&v.to_le_bytes());
        self
    }
    fn u64(&mut self, v: u64) -> &mut Self {
        self.0.extend_from_slice(&v.to_le_bytes());
        self
    }
    fn bytes(&mut self, v: &[u8]) -> &mut Self {
        self.0.extend_from_slice(v);
        self
    }
    fn parse(&self) -> Result<Gguf, GgufError> {
        parse_head(&self.0[..], self.0.len() as u64)
    }
}

#[test]
fn parses_minimal_v3_and_v2_files() {
    let g = Raw::new(3, 0, 0).parse().expect("minimal file parses");
    assert_eq!(g.version, 3);
    assert!(g.kvs.is_empty());
    assert!(g.tensors.is_empty());
    assert_eq!(g.head_end, 24);
    assert_eq!(g.alignment, 32);
    assert_eq!(g.data_start, 32, "24 rounded up to the default alignment");

    let g = Raw::new(2, 0, 0).parse().expect("v2 parses");
    assert_eq!(g.version, 2);
}

#[test]
fn parses_scalar_metadata_of_every_type() {
    let mut r = Raw::new(3, 0, 4);
    r.str("a.u8").u32(0).bytes(&[7]);
    r.str("a.i16").u32(3).bytes(&(-2i16).to_le_bytes());
    r.str("a.f32").u32(6).bytes(&1.5f32.to_le_bytes());
    r.str("a.bool").u32(7).bytes(&[1]);
    let g = r.parse().expect("scalars parse");
    assert_eq!(g.get("a.u8"), Some(&GgufValue::U8(7)));
    assert_eq!(g.get("a.i16"), Some(&GgufValue::I16(-2)));
    assert_eq!(g.get("a.f32"), Some(&GgufValue::F32(1.5f32.to_bits())));
    assert_eq!(g.get("a.bool"), Some(&GgufValue::Bool(true)));
}

#[test]
fn parses_string_and_string_array_values() {
    let mut r = Raw::new(3, 0, 2);
    r.str("general.name").u32(8).str("demo");
    r.str("tokenizer.ggml.tokens").u32(9).u32(8).u64(2);
    r.str("<s>").str("</s>");
    let g = r.parse().expect("strings parse");
    assert_eq!(g.get("general.name"), Some(&GgufValue::Str("demo".into())));
    assert_eq!(
        g.get("tokenizer.ggml.tokens"),
        Some(&GgufValue::Array(
            GgufType::Str,
            vec![GgufValue::Str("<s>".into()), GgufValue::Str("</s>".into())]
        ))
    );
}

#[test]
fn parses_nested_arrays() {
    // array<array>[1] whose single element is array<u32>[2] {5, 6}
    let mut r = Raw::new(3, 0, 1);
    r.str("nested")
        .u32(9)
        .u32(9)
        .u64(1)
        .u32(4)
        .u64(2)
        .u32(5)
        .u32(6);
    let g = r.parse().expect("nested arrays parse");
    let expected = GgufValue::Array(
        GgufType::Array,
        vec![GgufValue::Array(
            GgufType::U32,
            vec![GgufValue::U32(5), GgufValue::U32(6)],
        )],
    );
    assert_eq!(g.get("nested"), Some(&expected));
}

#[test]
fn parses_tensor_descriptors_and_computes_data_start() {
    let mut r = Raw::new(3, 1, 0);
    r.str("token_embd.weight")
        .u32(2)
        .u64(8)
        .u64(4)
        .u32(0)
        .u64(0);
    let g = r.parse().expect("tensor parses");
    assert_eq!(g.tensors.len(), 1);
    assert_eq!(g.tensors[0].dims, vec![8, 4]);
    assert_eq!(g.tensors[0].type_code, 0);
    assert_eq!(g.data_start, align_up(g.head_end, 32));
}

#[test]
fn alignment_key_is_honored_and_validated() {
    let mut r = Raw::new(3, 0, 1);
    r.str("general.alignment").u32(4).u32(64);
    let g = r.parse().expect("alignment parses");
    assert_eq!(g.alignment, 64);
    assert_eq!(g.data_start % 64, 0);

    let mut zero = Raw::new(3, 0, 1);
    zero.str("general.alignment").u32(4).u32(0);
    let e = zero.parse().unwrap_err();
    assert!(e.message.contains("alignment is 0"), "{e:?}");

    let mut stringy = Raw::new(3, 0, 1);
    stringy.str("general.alignment").u32(8).str("32");
    let e = stringy.parse().unwrap_err();
    assert!(e.message.contains("unsigned integer"), "{e:?}");
}

#[test]
fn rejects_bad_magic_with_hex_context() {
    let mut b = Raw::new(3, 0, 0).0;
    b[0] = b'X';
    let e = parse_head(&b[..], b.len() as u64).unwrap_err();
    assert!(e.message.contains("not a GGUF file"), "{e:?}");
    assert_eq!(e.offset, 0);
}

#[test]
fn rejects_v1_big_endian_and_future_versions() {
    let e = Raw::new(1, 0, 0).parse().unwrap_err();
    assert!(e.message.contains("v1"), "{e:?}");
    assert!(e.message.contains("not supported"), "{e:?}");

    let e = Raw::new(3u32.swap_bytes(), 0, 0).parse().unwrap_err();
    assert!(e.message.contains("big-endian"), "{e:?}");

    let e = Raw::new(99, 0, 0).parse().unwrap_err();
    assert!(e.message.contains("unsupported GGUF version 99"), "{e:?}");
}

#[test]
fn rejects_truncated_oversized_and_non_utf8_strings() {
    let mut r = Raw::new(3, 0, 1);
    r.str("k").u32(8).u64(1000); // declares 1000 bytes, provides none
    let e = r.parse().unwrap_err();
    assert!(e.message.contains("unexpected end of file"), "{e:?}");

    let mut r = Raw::new(3, 0, 1);
    r.str("k").u32(8).u64(u64::MAX);
    let e = r.parse().unwrap_err();
    assert!(e.message.contains("sanity cap"), "{e:?}");

    let mut r = Raw::new(3, 0, 1);
    r.str("k").u32(8).u64(2).bytes(&[0xff, 0xfe]);
    let e = r.parse().unwrap_err();
    assert!(e.message.contains("not valid UTF-8"), "{e:?}");
}

#[test]
fn rejects_unknown_value_type_code_naming_the_key() {
    let mut r = Raw::new(3, 0, 1);
    r.str("weird.key").u32(13).u32(0);
    let e = r.parse().unwrap_err();
    assert!(e.message.contains("type code 13"), "{e:?}");
    assert!(e.message.contains("weird.key"), "{e:?}");
}

#[test]
fn rejects_tensors_with_zero_or_too_many_dims() {
    let mut zero = Raw::new(3, 1, 0);
    zero.str("t").u32(0).u32(0).u64(0);
    let e = zero.parse().unwrap_err();
    assert!(e.message.contains("0 dimensions"), "{e:?}");

    let mut five = Raw::new(3, 1, 0);
    five.str("t").u32(5);
    for _ in 0..5 {
        five.u64(1);
    }
    five.u32(0).u64(0);
    let e = five.parse().unwrap_err();
    assert!(e.message.contains("5 dimensions"), "{e:?}");
}

#[test]
fn data_len_is_zero_when_file_ends_at_the_head() {
    let g = Raw::new(3, 0, 0).parse().unwrap();
    // file_len (24) < data_start (32): no data section, not an error here.
    assert_eq!(g.data_len(), 0);
}

#[test]
fn errors_say_what_and_where() {
    let text = |r: Raw| r.parse().unwrap_err().to_text();
    assert_eq!(
        text(Raw(b"NOPE".to_vec())),
        "not a GGUF file (magic [4e, 4f, 50, 45], expected \"GGUF\") (at byte offset 0)"
    );
    assert_eq!(
        text(Raw(b"GG".to_vec())),
        "unexpected end of file while reading the head (truncated file?) (at byte offset 0)"
    );
    assert_eq!(
        text(Raw::new(1, 0, 0)),
        "GGUF v1 (32-bit lengths) is not supported; convert it to v3 first (at byte offset 4)"
    );
    assert_eq!(
        text(Raw::new(3, (1 << 20) + 1, 0)),
        "tensor count 1048577 exceeds the sanity cap (at byte offset 8)"
    );
    assert_eq!(
        text(Raw::new(3, 0, u64::MAX)),
        "metadata count 18446744073709551615 exceeds the sanity cap (at byte offset 16)"
    );
    let mut r = Raw::new(3, 0, 1);
    r.u64(1 << 40);
    assert_eq!(
        text(r),
        "metadata key length 1099511627776 exceeds the 268435456-byte sanity cap (at byte offset 24)"
    );
    let mut r = Raw::new(3, 0, 1);
    r.str("k").u32(9).u32(77);
    assert_eq!(
        text(r),
        "unknown array element type code 77 (at byte offset 37)"
    );
    let mut r = Raw::new(3, 0, 1);
    r.str("k").u32(9).u32(0).u64((1 << 28) + 1);
    assert_eq!(
        text(r),
        "array length 268435457 exceeds the 268435456-element sanity cap (at byte offset 37)"
    );
    let mut r = Raw::new(3, 0, 1);
    r.str("k").u32(9);
    for _ in 0..4 {
        r.u32(9).u64(1);
    }
    assert_eq!(
        text(r),
        "arrays nested deeper than 4 levels (at byte offset 85)"
    );
    let mut r = Raw::new(3, 0, 1);
    r.str("k").u32(4);
    assert_eq!(
        text(r),
        "unexpected end of file while reading the head (truncated file?) (at byte offset 37)"
    );
    let mut r = Raw::new(3, 1, 0);
    r.u64(2).bytes(&[0xc3, 0x28]);
    assert_eq!(text(r), "tensor name is not valid UTF-8 (at byte offset 24)");
    let mut r = Raw::new(3, 1, 0);
    r.str("t").u32(5);
    assert_eq!(
        text(r),
        "tensor 't' has 5 dimensions (GGUF allows 1..=4) (at byte offset 33)"
    );
}

#[test]
fn every_value_type_is_decoded() {
    let mut r = Raw::new(3, 0, 13);
    r.str("a").u32(0).bytes(&[200]);
    r.str("b").u32(1).bytes(&[200]);
    r.str("c").u32(2).bytes(&[1, 2]);
    r.str("d").u32(3).bytes(&[0xff, 0xff]);
    r.str("e").u32(4).u32(0xdead_beef);
    r.str("f").u32(5).u32(u32::MAX);
    r.str("g").u32(6).bytes(&(-2.5f32).to_le_bytes());
    r.str("h").u32(7).bytes(&[2]);
    r.str("i").u32(8).str("é");
    r.str("j").u32(9).u32(7).u64(3).bytes(&[0, 1, 0]);
    r.str("k").u32(10).u64(u64::MAX);
    r.str("l").u32(11).u64(u64::MAX);
    r.str("m").u32(12).bytes(&0.1f64.to_le_bytes());
    let g = r.parse().unwrap();
    let values: Vec<GgufValue> = g.kvs.iter().map(|kv| kv.value.clone()).collect();
    assert_eq!(
        values,
        vec![
            GgufValue::U8(200),
            GgufValue::I8(-56),
            GgufValue::U16(513),
            GgufValue::I16(-1),
            GgufValue::U32(0xdead_beef),
            GgufValue::I32(-1),
            GgufValue::F32((-2.5f32).to_bits()),
            GgufValue::Bool(true),
            GgufValue::Str("é".into()),
            GgufValue::Array(
                GgufType::Bool,
                vec![
                    GgufValue::Bool(false),
                    GgufValue::Bool(true),
                    GgufValue::Bool(false)
                ]
            ),
            GgufValue::U64(u64::MAX),
            GgufValue::I64(-1),
            GgufValue::F64(0.1f64.to_bits()),
        ]
    );
}

#[test]
fn the_first_bytes_decide() {
    let img = sample_bytes(0);
    let whole = parse_head(&img, img.len() as u64).unwrap();
    let end = whole.head_end as usize;
    // Any prefix that holds the head gives the same head; a shorter one asks
    // for more.
    for n in [end, end + 1, img.len()] {
        let ReadStep::Done(Ok(g)) = read_step(&img[..n], img.len() as u64) else {
            panic!("{n} bytes are enough")
        };
        assert_eq!(g.kvs, whole.kvs);
        assert_eq!(g.tensors, whole.tensors);
        assert_eq!(g.file_len, img.len() as u64);
    }
    for n in [0, 3, 24, end - 1] {
        let ReadStep::More(wanted) = read_step(&img[..n], img.len() as u64) else {
            panic!("{n} bytes are too few")
        };
        assert_eq!(wanted, FIRST_READ);
        assert!(parse_head(&img[..n], 0).unwrap_err().is_truncated());
    }
    // What is wrong for good is reported at once.
    assert!(matches!(
        read_step(b"XXXX", 1 << 40),
        ReadStep::Done(Err(_))
    ));
}

#[test]
fn alignment_beyond_the_head_is_kept() {
    let mut r = Raw::new(3, 0, 1);
    r.str("general.alignment").u32(10).u64(1 << 50);
    let g = r.parse().unwrap();
    assert_eq!(g.data_start, 1 << 50);
    let copy = g.clone();
    assert_eq!(copy.alignment, 1 << 50);
    assert_eq!(copy.kvs, g.kvs);
}

#[test]
fn heads_and_errors_lie_inside_the_bytes() {
    let img = sample_bytes(0);
    let whole = parse_head(&img[..], img.len() as u64).unwrap();
    for n in 0..whole.head_end as usize {
        let e = parse_head(&img[..n], img.len() as u64).unwrap_err();
        assert!(e.offset <= n as u64, "{n}");
    }
    let n = whole.head_end as usize;
    let cut = parse_head(&img[..n], img.len() as u64).unwrap();
    assert_eq!(cut.head_end as usize, n);
}
