//! The GGUF head as bytes: how each part is encoded, what each byte string
//! decodes to, and the laws that tie the two together.
//!
//! Decoding is stated as functions from a byte sequence and a position to
//! either a value and the position after it, or an error with the offset at
//! which it was detected.

use crate::reader::{
    MAX_ARRAY_DEPTH, MAX_ARRAY_LEN, MAX_DIMS, MAX_KV_COUNT, MAX_STRING_LEN, MAX_TENSOR_COUNT,
};
use crate::text::{byte_len, dec, hex_char, starts_at};
use crate::types::{
    aligned, label_text, type_code, type_of_code, value_as_u64, value_type, GgufType, SpecKv,
    SpecTensor, SpecValue, ALIGNMENT_KEY, DEFAULT_ALIGNMENT,
};
use vstd::prelude::*;
use vstd::utf8::*;

verus! {

// ---------------------------------------------------------------------------
// Little-endian integers
// ---------------------------------------------------------------------------

/// 256 to the power `n`.
pub open spec fn pow256(n: nat) -> nat
    decreases n,
{
    if n == 0 {
        1
    } else {
        256 * pow256((n - 1) as nat)
    }
}

/// The number that a little-endian byte string stands for.
pub open spec fn le_value(s: Seq<u8>) -> nat
    decreases s.len(),
{
    if s.len() == 0 {
        0
    } else {
        s[0] as nat + 256 * le_value(s.drop_first())
    }
}

/// The `k` low bytes of `n`, least significant first.
pub open spec fn le_bytes(n: nat, k: nat) -> Seq<u8>
    decreases k,
{
    if k == 0 {
        Seq::empty()
    } else {
        seq![(n % 256) as u8] + le_bytes(n / 256, (k - 1) as nat)
    }
}

/// Powers of 256 that bound the integers of the format.
pub proof fn lemma_pow256_values()
    ensures
        pow256(1) == 0x100,
        pow256(2) == 0x1_0000,
        pow256(4) == 0x1_0000_0000,
        pow256(8) == 0x1_0000_0000_0000_0000,
{
    reveal_with_fuel(pow256, 9);
}

/// A byte string of length `n` stands for a number below 256 to the `n`.
pub proof fn lemma_le_value_bound(s: Seq<u8>)
    ensures
        le_value(s) < pow256(s.len()),
    decreases s.len(),
{
    if s.len() > 0 {
        lemma_le_value_bound(s.drop_first());
    }
}

/// Reading the `k` bytes of a number gives the number back.
pub proof fn lemma_le_roundtrip(n: nat, k: nat)
    requires
        n < pow256(k),
    ensures
        le_bytes(n, k).len() == k,
        le_value(le_bytes(n, k)) == n,
    decreases k,
{
    if k > 0 {
        assert(n / 256 < pow256((k - 1) as nat));
        lemma_le_roundtrip(n / 256, (k - 1) as nat);
        assert(le_bytes(n, k).drop_first() =~= le_bytes(n / 256, (k - 1) as nat));
    }
}

/// `k` bytes are written for a number, whatever it is.
pub proof fn lemma_le_len(n: nat, k: nat)
    ensures
        le_bytes(n, k).len() == k,
    decreases k,
{
    if k > 0 {
        lemma_le_len(n / 256, (k - 1) as nat);
    }
}

// ---------------------------------------------------------------------------
// Encoding
// ---------------------------------------------------------------------------

/// A string: its byte length, then its UTF-8 bytes.
pub open spec fn enc_str(s: Seq<char>) -> Seq<u8> {
    le_bytes(byte_len(s), 8) + encode_utf8(s)
}

/// A value, without its type code.
pub open spec fn enc_value(v: SpecValue) -> Seq<u8>
    decreases v, 0nat,
{
    match v {
        SpecValue::U8(x) => seq![x],
        SpecValue::I8(x) => seq![x as u8],
        SpecValue::U16(x) => le_bytes(x as nat, 2),
        SpecValue::I16(x) => le_bytes(x as u16 as nat, 2),
        SpecValue::U32(x) => le_bytes(x as nat, 4),
        SpecValue::I32(x) => le_bytes(x as u32 as nat, 4),
        SpecValue::F32(x) => le_bytes(x as nat, 4),
        SpecValue::Bool(x) => seq![
            if x {
                1u8
            } else {
                0u8
            },
        ],
        SpecValue::Str(s) => enc_str(s),
        SpecValue::U64(x) => le_bytes(x as nat, 8),
        SpecValue::I64(x) => le_bytes(x as u64 as nat, 8),
        SpecValue::F64(x) => le_bytes(x as nat, 8),
        SpecValue::Array(t, items) => le_bytes(type_code(t) as nat, 4) + le_bytes(items.len(), 8)
            + enc_values(items),
    }
}

/// Values, one after the other.
pub open spec fn enc_values(items: Seq<SpecValue>) -> Seq<u8>
    decreases items, items.len(),
{
    if items.len() == 0 {
        Seq::empty()
    } else {
        enc_value(items[0]) + enc_values(items.subrange(1, items.len() as int))
    }
}

/// A metadata pair: key, type code, value.
pub open spec fn enc_kv(kv: SpecKv) -> Seq<u8> {
    enc_str(kv.key) + le_bytes(type_code(value_type(kv.value)) as nat, 4) + enc_value(kv.value)
}

/// Metadata pairs, one after the other.
pub open spec fn enc_kvs(kvs: Seq<SpecKv>) -> Seq<u8>
    decreases kvs.len(),
{
    if kvs.len() == 0 {
        Seq::empty()
    } else {
        enc_kv(kvs[0]) + enc_kvs(kvs.skip(1))
    }
}

/// Dimensions, one after the other.
pub open spec fn enc_dims(dims: Seq<u64>) -> Seq<u8>
    decreases dims.len(),
{
    if dims.len() == 0 {
        Seq::empty()
    } else {
        le_bytes(dims[0] as nat, 8) + enc_dims(dims.skip(1))
    }
}

/// A tensor descriptor: name, dimensions, type code, data offset.
pub open spec fn enc_tensor(t: SpecTensor) -> Seq<u8> {
    enc_str(t.name) + le_bytes(t.dims.len(), 4) + enc_dims(t.dims) + le_bytes(
        t.type_code as nat,
        4,
    ) + le_bytes(t.offset as nat, 8)
}

/// Tensor descriptors, one after the other.
pub open spec fn enc_tensors(tensors: Seq<SpecTensor>) -> Seq<u8>
    decreases tensors.len(),
{
    if tensors.len() == 0 {
        Seq::empty()
    } else {
        enc_tensor(tensors[0]) + enc_tensors(tensors.skip(1))
    }
}

/// The fixed part of a head: magic, version, tensor count, metadata count.
pub open spec fn enc_counts(version: u32, n_kvs: nat, n_tensors: nat) -> Seq<u8> {
    seq![0x47u8, 0x47u8, 0x55u8, 0x46u8] + le_bytes(version as nat, 4) + le_bytes(n_tensors, 8)
        + le_bytes(n_kvs, 8)
}

/// A complete head, magic through the last tensor descriptor.
pub open spec fn enc_head(version: u32, kvs: Seq<SpecKv>, tensors: Seq<SpecTensor>) -> Seq<u8> {
    enc_counts(version, kvs.len(), tensors.len()) + enc_kvs(kvs) + enc_tensors(tensors)
}

// ---------------------------------------------------------------------------
// Decoding
// ---------------------------------------------------------------------------

/// What is reported when a head does not decode.
pub struct HeadError {
    pub message: Seq<char>,
    pub offset: int,
}

/// The message for bytes that end before the head does.
pub open spec fn eof_text() -> Seq<char> {
    "unexpected end of file while reading the head (truncated file?)"@
}

/// A value and the position after it, or an error.
pub type Decoded<T> = Result<(T, int), HeadError>;

/// The `k` bytes at `p`.
pub open spec fn bytes_at(b: Seq<u8>, p: int, k: nat) -> Decoded<Seq<u8>> {
    if p + k <= b.len() {
        Ok((b.subrange(p, p + k), p + k))
    } else {
        Err(HeadError { message: eof_text(), offset: p })
    }
}

/// The unsigned integer of `k` bytes at `p`.
pub open spec fn uint_at(b: Seq<u8>, p: int, k: nat) -> Decoded<nat> {
    match bytes_at(b, p, k) {
        Ok((s, q)) => Ok((le_value(s), q)),
        Err(e) => Err(e),
    }
}

/// The string at `p`; `what` names it in errors.
pub open spec fn string_at(b: Seq<u8>, p: int, what: Seq<char>) -> Decoded<Seq<char>> {
    match uint_at(b, p, 8) {
        Err(e) => Err(e),
        Ok((len, q)) => if len > MAX_STRING_LEN {
            Err(
                HeadError {
                    message: what + " length "@ + dec(len) + " exceeds the "@ + dec(
                        MAX_STRING_LEN as nat,
                    ) + "-byte sanity cap"@,
                    offset: p,
                },
            )
        } else {
            match bytes_at(b, q, len) {
                Err(e) => Err(e),
                Ok((s, r)) => if valid_utf8(s) {
                    Ok((decode_utf8(s), r))
                } else {
                    Err(HeadError { message: what + " is not valid UTF-8"@, offset: p })
                },
            }
        },
    }
}

/// The value of type `ty` at `p`, inside `depth` arrays.
pub open spec fn value_at(b: Seq<u8>, p: int, ty: GgufType, depth: nat) -> Decoded<SpecValue>
    decreases 8 - depth, 0nat,
{
    match ty {
        GgufType::U8 => match uint_at(b, p, 1) {
            Ok((n, q)) => Ok((SpecValue::U8(n as u8), q)),
            Err(e) => Err(e),
        },
        GgufType::I8 => match uint_at(b, p, 1) {
            Ok((n, q)) => Ok((SpecValue::I8(n as u8 as i8), q)),
            Err(e) => Err(e),
        },
        GgufType::U16 => match uint_at(b, p, 2) {
            Ok((n, q)) => Ok((SpecValue::U16(n as u16), q)),
            Err(e) => Err(e),
        },
        GgufType::I16 => match uint_at(b, p, 2) {
            Ok((n, q)) => Ok((SpecValue::I16(n as u16 as i16), q)),
            Err(e) => Err(e),
        },
        GgufType::U32 => match uint_at(b, p, 4) {
            Ok((n, q)) => Ok((SpecValue::U32(n as u32), q)),
            Err(e) => Err(e),
        },
        GgufType::I32 => match uint_at(b, p, 4) {
            Ok((n, q)) => Ok((SpecValue::I32(n as u32 as i32), q)),
            Err(e) => Err(e),
        },
        GgufType::F32 => match uint_at(b, p, 4) {
            Ok((n, q)) => Ok((SpecValue::F32(n as u32), q)),
            Err(e) => Err(e),
        },
        GgufType::Bool => match uint_at(b, p, 1) {
            Ok((n, q)) => Ok((SpecValue::Bool(n != 0), q)),
            Err(e) => Err(e),
        },
        GgufType::Str => match string_at(b, p, "string value"@) {
            Ok((s, q)) => Ok((SpecValue::Str(s), q)),
            Err(e) => Err(e),
        },
        GgufType::U64 => match uint_at(b, p, 8) {
            Ok((n, q)) => Ok((SpecValue::U64(n as u64), q)),
            Err(e) => Err(e),
        },
        GgufType::I64 => match uint_at(b, p, 8) {
            Ok((n, q)) => Ok((SpecValue::I64(n as u64 as i64), q)),
            Err(e) => Err(e),
        },
        GgufType::F64 => match uint_at(b, p, 8) {
            Ok((n, q)) => Ok((SpecValue::F64(n as u64), q)),
            Err(e) => Err(e),
        },
        GgufType::Array => if depth >= MAX_ARRAY_DEPTH {
            Err(
                HeadError {
                    message: "arrays nested deeper than "@ + dec(MAX_ARRAY_DEPTH as nat)
                        + " levels"@,
                    offset: p,
                },
            )
        } else {
            match array_header_at(b, p) {
                Err(e) => Err(e),
                Ok(((elem, count), q)) => match values_at(b, q, elem, depth + 1, count) {
                    Ok((items, r)) => Ok((SpecValue::Array(elem, items), r)),
                    Err(e) => Err(e),
                },
            }
        },
    }
}

/// The element type and element count of the array at `p`.
pub open spec fn array_header_at(b: Seq<u8>, p: int) -> Decoded<(GgufType, nat)> {
    match uint_at(b, p, 4) {
        Err(e) => Err(e),
        Ok((code, q)) => match type_of_code(code as u32) {
            None => Err(
                HeadError { message: "unknown array element type code "@ + dec(code), offset: p },
            ),
            Some(elem) => match uint_at(b, q, 8) {
                Err(e) => Err(e),
                Ok((count, r)) => if count > MAX_ARRAY_LEN {
                    Err(
                        HeadError {
                            message: "array length "@ + dec(count) + " exceeds the "@ + dec(
                                MAX_ARRAY_LEN as nat,
                            ) + "-element sanity cap"@,
                            offset: p,
                        },
                    )
                } else {
                    Ok(((elem, count), r))
                },
            },
        },
    }
}

/// `count` values of type `ty`, one after the other, from `p`.
pub open spec fn values_at(b: Seq<u8>, p: int, ty: GgufType, depth: nat, count: nat) -> Decoded<
    Seq<SpecValue>,
>
    decreases 8 - depth, count + 1,
{
    if count == 0 {
        Ok((Seq::empty(), p))
    } else {
        match value_at(b, p, ty, depth) {
            Err(e) => Err(e),
            Ok((v, q)) => match values_at(b, q, ty, depth, (count - 1) as nat) {
                Err(e) => Err(e),
                Ok((rest, r)) => Ok((seq![v] + rest, r)),
            },
        }
    }
}

/// The metadata pair at `p`.
pub open spec fn kv_at(b: Seq<u8>, p: int) -> Decoded<SpecKv> {
    match string_at(b, p, "metadata key"@) {
        Err(e) => Err(e),
        Ok((key, q)) => match uint_at(b, q, 4) {
            Err(e) => Err(e),
            Ok((code, r)) => match type_of_code(code as u32) {
                None => Err(
                    HeadError {
                        message: "unknown metadata value type code "@ + dec(code) + " for key '"@
                            + key + "'"@,
                        offset: q,
                    },
                ),
                Some(ty) => match value_at(b, r, ty, 0) {
                    Err(e) => Err(e),
                    Ok((value, end)) => Ok((SpecKv { key, value }, end)),
                },
            },
        },
    }
}

/// `count` metadata pairs, one after the other, from `p`.
pub open spec fn kvs_at(b: Seq<u8>, p: int, count: nat) -> Decoded<Seq<SpecKv>>
    decreases count,
{
    if count == 0 {
        Ok((Seq::empty(), p))
    } else {
        match kv_at(b, p) {
            Err(e) => Err(e),
            Ok((kv, q)) => match kvs_at(b, q, (count - 1) as nat) {
                Err(e) => Err(e),
                Ok((rest, r)) => Ok((seq![kv] + rest, r)),
            },
        }
    }
}

/// `count` dimensions, one after the other, from `p`.
pub open spec fn dims_at(b: Seq<u8>, p: int, count: nat) -> Decoded<Seq<u64>>
    decreases count,
{
    if count == 0 {
        Ok((Seq::empty(), p))
    } else {
        match uint_at(b, p, 8) {
            Err(e) => Err(e),
            Ok((d, q)) => match dims_at(b, q, (count - 1) as nat) {
                Err(e) => Err(e),
                Ok((rest, r)) => Ok((seq![d as u64] + rest, r)),
            },
        }
    }
}

/// The tensor descriptor at `p`.
pub open spec fn tensor_at(b: Seq<u8>, p: int) -> Decoded<SpecTensor> {
    match string_at(b, p, "tensor name"@) {
        Err(e) => Err(e),
        Ok((name, q)) => match uint_at(b, q, 4) {
            Err(e) => Err(e),
            Ok((n_dims, r)) => if n_dims == 0 || n_dims > MAX_DIMS {
                Err(
                    HeadError {
                        message: "tensor '"@ + name + "' has "@ + dec(n_dims)
                            + " dimensions (GGUF allows 1..="@ + dec(MAX_DIMS as nat) + ")"@,
                        offset: q,
                    },
                )
            } else {
                match dims_at(b, r, n_dims) {
                    Err(e) => Err(e),
                    Ok((dims, t)) => match uint_at(b, t, 4) {
                        Err(e) => Err(e),
                        Ok((code, u)) => match uint_at(b, u, 8) {
                            Err(e) => Err(e),
                            Ok((offset, end)) => Ok(
                                (
                                    SpecTensor {
                                        name,
                                        dims,
                                        type_code: code as u32,
                                        offset: offset as u64,
                                    },
                                    end,
                                ),
                            ),
                        },
                    },
                }
            },
        },
    }
}

/// `count` tensor descriptors, one after the other, from `p`.
pub open spec fn tensors_at(b: Seq<u8>, p: int, count: nat) -> Decoded<Seq<SpecTensor>>
    decreases count,
{
    if count == 0 {
        Ok((Seq::empty(), p))
    } else {
        match tensor_at(b, p) {
            Err(e) => Err(e),
            Ok((t, q)) => match tensors_at(b, q, (count - 1) as nat) {
                Err(e) => Err(e),
                Ok((rest, r)) => Ok((seq![t] + rest, r)),
            },
        }
    }
}

/// A byte as two hexadecimal digits.
pub open spec fn hex_byte(x: u8) -> Seq<char> {
    seq![hex_char(x as int / 16), hex_char(x as int % 16)]
}

/// The complaint about four bytes that are not the magic.
pub open spec fn magic_text(m: Seq<u8>) -> Seq<char> {
    "not a GGUF file (magic ["@ + hex_byte(m[0]) + ", "@ + hex_byte(m[1]) + ", "@ + hex_byte(m[2])
        + ", "@ + hex_byte(m[3]) + "], expected \"GGUF\")"@
}

/// Version, tensor count and metadata count from the start of the bytes.
pub open spec fn counts_at(b: Seq<u8>) -> Decoded<(u32, nat, nat)> {
    match bytes_at(b, 0, 4) {
        Err(e) => Err(e),
        Ok((magic, _)) => if magic != seq![0x47u8, 0x47u8, 0x55u8, 0x46u8] {
            Err(HeadError { message: magic_text(magic), offset: 0 })
        } else {
            match uint_at(b, 4, 4) {
                Err(e) => Err(e),
                Ok((version, _)) => if version == 1 {
                    Err(
                        HeadError {
                            message:
                                "GGUF v1 (32-bit lengths) is not supported; convert it to v3 first"@,
                            offset: 4,
                        },
                    )
                } else if version == 0x0100_0000 || version == 0x0200_0000 || version
                    == 0x0300_0000 {
                    Err(
                        HeadError {
                            message:
                                "big-endian GGUF is not supported (the version field is byte-swapped)"@,
                            offset: 4,
                        },
                    )
                } else if version != 2 && version != 3 {
                    Err(
                        HeadError {
                            message: "unsupported GGUF version "@ + dec(version),
                            offset: 4,
                        },
                    )
                } else {
                    match uint_at(b, 8, 8) {
                        Err(e) => Err(e),
                        Ok((n_tensors, _)) => if n_tensors > MAX_TENSOR_COUNT {
                            Err(
                                HeadError {
                                    message: "tensor count "@ + dec(n_tensors)
                                        + " exceeds the sanity cap"@,
                                    offset: 8,
                                },
                            )
                        } else {
                            match uint_at(b, 16, 8) {
                                Err(e) => Err(e),
                                Ok((n_kvs, p)) => if n_kvs > MAX_KV_COUNT {
                                    Err(
                                        HeadError {
                                            message: "metadata count "@ + dec(n_kvs)
                                                + " exceeds the sanity cap"@,
                                            offset: 16,
                                        },
                                    )
                                } else {
                                    Ok(((version as u32, n_tensors, n_kvs), p))
                                },
                            }
                        },
                    }
                },
            }
        },
    }
}

/// The first value under a key.
pub open spec fn value_of(kvs: Seq<SpecKv>, key: Seq<char>) -> Option<SpecValue>
    decreases kvs.len(),
{
    if kvs.len() == 0 {
        None
    } else if kvs[0].key == key {
        Some(kvs[0].value)
    } else {
        value_of(kvs.skip(1), key)
    }
}

/// The alignment that the metadata asks for, or the complaint about it.
pub open spec fn alignment_of(kvs: Seq<SpecKv>, head_end: int) -> Result<u64, HeadError> {
    match value_of(kvs, ALIGNMENT_KEY@) {
        None => Ok(DEFAULT_ALIGNMENT),
        Some(v) => match value_as_u64(v) {
            Some(a) => if a == 0 {
                Err(
                    HeadError {
                        message: "general.alignment is 0, which is invalid"@,
                        offset: head_end,
                    },
                )
            } else {
                Ok(a)
            },
            None => Err(
                HeadError {
                    message: "general.alignment must be an unsigned integer, found "@
                        + label_text(v),
                    offset: head_end,
                },
            ),
        },
    }
}

/// A decoded head and the layout facts that editing needs.
pub struct SpecHead {
    pub version: u32,
    pub kvs: Seq<SpecKv>,
    pub tensors: Seq<SpecTensor>,
    pub alignment: u64,
    pub head_end: int,
    pub data_start: int,
}

/// The head at the start of a byte sequence.
pub open spec fn head_of(b: Seq<u8>) -> Result<SpecHead, HeadError> {
    match counts_at(b) {
        Err(e) => Err(e),
        Ok(((version, n_tensors, n_kvs), p)) => match kvs_at(b, p, n_kvs) {
            Err(e) => Err(e),
            Ok((kvs, q)) => match tensors_at(b, q, n_tensors) {
                Err(e) => Err(e),
                Ok((tensors, head_end)) => match alignment_of(kvs, head_end) {
                    Err(e) => Err(e),
                    Ok(alignment) => Ok(
                        SpecHead {
                            version,
                            kvs,
                            tensors,
                            alignment,
                            head_end,
                            data_start: aligned(head_end, alignment as int),
                        },
                    ),
                },
            },
        },
    }
}

// ---------------------------------------------------------------------------
// Laws: what is written is read back
// ---------------------------------------------------------------------------

/// A string that the reader accepts.
pub open spec fn wf_str(s: Seq<char>) -> bool {
    byte_len(s) <= MAX_STRING_LEN
}

/// A value that the reader accepts inside `depth` arrays: strings and arrays
/// within their caps, array items of the array's element type.
pub open spec fn wf_value(v: SpecValue, depth: nat) -> bool
    decreases v,
{
    match v {
        SpecValue::Str(s) => wf_str(s),
        SpecValue::Array(t, items) => {
            &&& depth < MAX_ARRAY_DEPTH
            &&& items.len() <= MAX_ARRAY_LEN
            &&& forall|i: int|
                0 <= i < items.len() ==> value_type(#[trigger] items[i]) == t && wf_value(
                    items[i],
                    depth + 1,
                )
        },
        _ => true,
    }
}

/// A pair that the reader accepts.
pub open spec fn wf_kv(kv: SpecKv) -> bool {
    wf_str(kv.key) && wf_value(kv.value, 0)
}

/// A tensor descriptor that the reader accepts.
pub open spec fn wf_tensor(t: SpecTensor) -> bool {
    wf_str(t.name) && 1 <= t.dims.len() <= MAX_DIMS
}

/// A head that the reader accepts, alignment aside.
pub open spec fn wf_head(version: u32, kvs: Seq<SpecKv>, tensors: Seq<SpecTensor>) -> bool {
    &&& version == 2 || version == 3
    &&& kvs.len() <= MAX_KV_COUNT
    &&& tensors.len() <= MAX_TENSOR_COUNT
    &&& forall|i: int| 0 <= i < kvs.len() ==> wf_kv(#[trigger] kvs[i])
    &&& forall|i: int| 0 <= i < tensors.len() ==> wf_tensor(#[trigger] tensors[i])
}

/// Where a concatenation stands, both parts stand.
pub proof fn lemma_starts_split<T>(b: Seq<T>, p: int, x: Seq<T>, y: Seq<T>)
    requires
        starts_at(b, p, x + y),
    ensures
        starts_at(b, p, x),
        starts_at(b, p + x.len(), y),
{
    let s = b.subrange(p, p + (x + y).len());
    assert(b.subrange(p, p + x.len()) =~= s.subrange(0, x.len() as int));
    assert(s.subrange(0, x.len() as int) =~= x);
    assert(b.subrange(p + x.len(), p + x.len() + y.len()) =~= s.subrange(
        x.len() as int,
        s.len() as int,
    ));
    assert(s.subrange(x.len() as int, s.len() as int) =~= y);
}

/// An integer is read back as it was written.
proof fn lemma_uint_read(b: Seq<u8>, p: int, n: nat, k: nat)
    requires
        starts_at(b, p, le_bytes(n, k)),
        n < pow256(k),
    ensures
        uint_at(b, p, k) == Ok::<(nat, int), HeadError>((n, p + k)),
{
    lemma_le_roundtrip(n, k);
}

/// A string is read back as it was written.
proof fn lemma_string_read(b: Seq<u8>, p: int, s: Seq<char>, what: Seq<char>)
    requires
        starts_at(b, p, enc_str(s)),
        wf_str(s),
    ensures
        string_at(b, p, what) == Ok::<(Seq<char>, int), HeadError>((s, p + enc_str(s).len())),
{
    lemma_pow256_values();
    lemma_starts_split(b, p, le_bytes(byte_len(s), 8), encode_utf8(s));
    lemma_le_len(byte_len(s), 8);
    lemma_uint_read(b, p, byte_len(s), 8);
    encode_utf8_valid_utf8(s);
    encode_utf8_decode_utf8(s);
}

/// A value is read back as it was written.
pub proof fn lemma_value_read(b: Seq<u8>, p: int, v: SpecValue, depth: nat)
    requires
        starts_at(b, p, enc_value(v)),
        wf_value(v, depth),
    ensures
        value_at(b, p, value_type(v), depth) == Ok::<(SpecValue, int), HeadError>(
            (v, p + enc_value(v).len()),
        ),
    decreases v, 0nat,
{
    lemma_pow256_values();
    match v {
        SpecValue::U8(x) => {
            reveal_with_fuel(le_bytes, 2);
            assert(seq![x] =~= le_bytes(x as nat, 1));
            lemma_uint_read(b, p, x as nat, 1);
        },
        SpecValue::I8(x) => {
            reveal_with_fuel(le_bytes, 2);
            assert((x as u8) as i8 == x) by (bit_vector);
            assert(seq![x as u8] =~= le_bytes(x as u8 as nat, 1));
            lemma_uint_read(b, p, x as u8 as nat, 1);
        },
        SpecValue::Bool(x) => {
            let n: u8 = if x {
                1
            } else {
                0
            };
            reveal_with_fuel(le_bytes, 2);
            assert(seq![n] =~= le_bytes(n as nat, 1));
            lemma_uint_read(b, p, n as nat, 1);
        },
        SpecValue::U16(x) => {
            lemma_le_len(x as nat, 2);
            lemma_uint_read(b, p, x as nat, 2);
        },
        SpecValue::I16(x) => {
            assert((x as u16) as i16 == x) by (bit_vector);
            lemma_le_len(x as u16 as nat, 2);
            lemma_uint_read(b, p, x as u16 as nat, 2);
        },
        SpecValue::U32(x) => {
            lemma_le_len(x as nat, 4);
            lemma_uint_read(b, p, x as nat, 4);
        },
        SpecValue::I32(x) => {
            assert((x as u32) as i32 == x) by (bit_vector);
            lemma_le_len(x as u32 as nat, 4);
            lemma_uint_read(b, p, x as u32 as nat, 4);
        },
        SpecValue::F32(x) => {
            lemma_le_len(x as nat, 4);
            lemma_uint_read(b, p, x as nat, 4);
        },
        SpecValue::U64(x) => {
            lemma_le_len(x as nat, 8);
            lemma_uint_read(b, p, x as nat, 8);
        },
        SpecValue::I64(x) => {
            assert((x as u64) as i64 == x) by (bit_vector);
            lemma_le_len(x as u64 as nat, 8);
            lemma_uint_read(b, p, x as u64 as nat, 8);
        },
        SpecValue::F64(x) => {
            lemma_le_len(x as nat, 8);
            lemma_uint_read(b, p, x as nat, 8);
        },
        SpecValue::Str(s) => {
            lemma_string_read(b, p, s, "string value"@);
        },
        SpecValue::Array(t, items) => {
            let code = le_bytes(type_code(t) as nat, 4);
            let count = le_bytes(items.len(), 8);
            lemma_starts_split(b, p, code + count, enc_values(items));
            lemma_starts_split(b, p, code, count);
            lemma_le_len(type_code(t) as nat, 4);
            lemma_le_len(items.len(), 8);
            lemma_uint_read(b, p, type_code(t) as nat, 4);
            lemma_uint_read(b, p + 4, items.len(), 8);
            lemma_values_read(b, p + 12, t, items, depth + 1);
        },
    }
}

/// A run of values is read back as it was written.
proof fn lemma_values_read(b: Seq<u8>, p: int, t: GgufType, items: Seq<SpecValue>, depth: nat)
    requires
        starts_at(b, p, enc_values(items)),
        forall|i: int|
            0 <= i < items.len() ==> value_type(#[trigger] items[i]) == t && wf_value(
                items[i],
                depth,
            ),
    ensures
        values_at(b, p, t, depth, items.len()) == Ok::<(Seq<SpecValue>, int), HeadError>(
            (items, p + enc_values(items).len()),
        ),
    decreases items, items.len(),
{
    if items.len() == 0 {
        assert(items =~= Seq::empty());
    } else {
        let rest = items.subrange(1, items.len() as int);
        lemma_starts_split(b, p, enc_value(items[0]), enc_values(rest));
        lemma_value_read(b, p, items[0], depth);
        assert forall|i: int| 0 <= i < rest.len() implies value_type(#[trigger] rest[i]) == t
            && wf_value(rest[i], depth) by {
            assert(rest[i] == items[i + 1]);
        }
        lemma_values_read(b, p + enc_value(items[0]).len(), t, rest, depth);
        assert(seq![items[0]] + rest =~= items);
    }
}

/// A run of pairs is read back as it was written.
proof fn lemma_kvs_read(b: Seq<u8>, p: int, kvs: Seq<SpecKv>)
    requires
        starts_at(b, p, enc_kvs(kvs)),
        forall|i: int| 0 <= i < kvs.len() ==> wf_kv(#[trigger] kvs[i]),
    ensures
        kvs_at(b, p, kvs.len()) == Ok::<(Seq<SpecKv>, int), HeadError>(
            (kvs, p + enc_kvs(kvs).len()),
        ),
    decreases kvs.len(),
{
    if kvs.len() == 0 {
        assert(kvs =~= Seq::empty());
    } else {
        let kv = kvs[0];
        let rest = kvs.skip(1);
        let key = enc_str(kv.key);
        let code = le_bytes(type_code(value_type(kv.value)) as nat, 4);
        lemma_pow256_values();
        lemma_starts_split(b, p, enc_kv(kv), enc_kvs(rest));
        lemma_starts_split(b, p, key + code, enc_value(kv.value));
        lemma_starts_split(b, p, key, code);
        lemma_string_read(b, p, kv.key, "metadata key"@);
        lemma_le_len(type_code(value_type(kv.value)) as nat, 4);
        lemma_uint_read(b, p + key.len(), type_code(value_type(kv.value)) as nat, 4);
        lemma_value_read(b, p + key.len() + 4, kv.value, 0);
        assert forall|i: int| 0 <= i < rest.len() implies wf_kv(#[trigger] rest[i]) by {
            assert(rest[i] == kvs[i + 1]);
        }
        lemma_kvs_read(b, p + enc_kv(kv).len(), rest);
        assert(seq![kv] + rest =~= kvs);
    }
}

/// A run of dimensions is read back as it was written.
proof fn lemma_dims_read(b: Seq<u8>, p: int, dims: Seq<u64>)
    requires
        starts_at(b, p, enc_dims(dims)),
    ensures
        dims_at(b, p, dims.len()) == Ok::<(Seq<u64>, int), HeadError>(
            (dims, p + enc_dims(dims).len()),
        ),
    decreases dims.len(),
{
    if dims.len() == 0 {
        assert(dims =~= Seq::empty());
    } else {
        let rest = dims.skip(1);
        lemma_pow256_values();
        lemma_starts_split(b, p, le_bytes(dims[0] as nat, 8), enc_dims(rest));
        lemma_le_len(dims[0] as nat, 8);
        lemma_uint_read(b, p, dims[0] as nat, 8);
        lemma_dims_read(b, p + 8, rest);
        assert(seq![dims[0]] + rest =~= dims);
    }
}

/// A tensor descriptor is read back as it was written.
proof fn lemma_tensor_read(b: Seq<u8>, p: int, t: SpecTensor)
    requires
        starts_at(b, p, enc_tensor(t)),
        wf_tensor(t),
    ensures
        tensor_at(b, p) == Ok::<(SpecTensor, int), HeadError>((t, p + enc_tensor(t).len())),
{
    let name = enc_str(t.name);
    let n_dims = le_bytes(t.dims.len(), 4);
    let dims = enc_dims(t.dims);
    let code = le_bytes(t.type_code as nat, 4);
    let offset = le_bytes(t.offset as nat, 8);
    lemma_pow256_values();
    lemma_starts_split(b, p, name + n_dims + dims + code, offset);
    lemma_starts_split(b, p, name + n_dims + dims, code);
    lemma_starts_split(b, p, name + n_dims, dims);
    lemma_starts_split(b, p, name, n_dims);
    lemma_le_len(t.dims.len(), 4);
    lemma_le_len(t.type_code as nat, 4);
    lemma_le_len(t.offset as nat, 8);
    lemma_string_read(b, p, t.name, "tensor name"@);
    lemma_uint_read(b, p + name.len(), t.dims.len(), 4);
    lemma_dims_read(b, p + name.len() + 4, t.dims);
    lemma_uint_read(b, p + name.len() + 4 + dims.len(), t.type_code as nat, 4);
    lemma_uint_read(b, p + name.len() + 8 + dims.len(), t.offset as nat, 8);
}

/// A run of tensor descriptors is read back as it was written.
proof fn lemma_tensors_read(b: Seq<u8>, p: int, tensors: Seq<SpecTensor>)
    requires
        starts_at(b, p, enc_tensors(tensors)),
        forall|i: int| 0 <= i < tensors.len() ==> wf_tensor(#[trigger] tensors[i]),
    ensures
        tensors_at(b, p, tensors.len()) == Ok::<(Seq<SpecTensor>, int), HeadError>(
            (tensors, p + enc_tensors(tensors).len()),
        ),
    decreases tensors.len(),
{
    if tensors.len() == 0 {
        assert(tensors =~= Seq::empty());
    } else {
        let t = tensors[0];
        let rest = tensors.skip(1);
        lemma_starts_split(b, p, enc_tensor(t), enc_tensors(rest));
        lemma_tensor_read(b, p, t);
        assert forall|i: int| 0 <= i < rest.len() implies wf_tensor(#[trigger] rest[i]) by {
            assert(rest[i] == tensors[i + 1]);
        }
        lemma_tensors_read(b, p + enc_tensor(t).len(), rest);
        assert(seq![t] + rest =~= tensors);
    }
}

/// The fixed part of a head is read back as it was written.
proof fn lemma_counts_read(b: Seq<u8>, version: u32, n_kvs: nat, n_tensors: nat)
    requires
        starts_at(b, 0, enc_counts(version, n_kvs, n_tensors)),
        version == 2 || version == 3,
        n_kvs <= MAX_KV_COUNT,
        n_tensors <= MAX_TENSOR_COUNT,
    ensures
        enc_counts(version, n_kvs, n_tensors).len() == 24,
        counts_at(b) == Ok::<((u32, nat, nat), int), HeadError>(
            ((version, n_tensors, n_kvs), 24),
        ),
{
    let magic = seq![0x47u8, 0x47u8, 0x55u8, 0x46u8];
    let v = le_bytes(version as nat, 4);
    let nt = le_bytes(n_tensors, 8);
    let nk = le_bytes(n_kvs, 8);
    lemma_pow256_values();
    lemma_starts_split(b, 0, magic + v + nt, nk);
    lemma_starts_split(b, 0, magic + v, nt);
    lemma_starts_split(b, 0, magic, v);
    lemma_le_len(version as nat, 4);
    lemma_le_len(n_tensors, 8);
    lemma_le_len(n_kvs, 8);
    lemma_uint_read(b, 4, version as nat, 4);
    lemma_uint_read(b, 8, n_tensors, 8);
    lemma_uint_read(b, 16, n_kvs, 8);
}

/// Where the parts of a written head stand.
proof fn lemma_head_parts(
    version: u32,
    kvs: Seq<SpecKv>,
    tensors: Seq<SpecTensor>,
    rest: Seq<u8>,
)
    ensures
        ({
            let b = enc_head(version, kvs, tensors) + rest;
            let counts = enc_counts(version, kvs.len(), tensors.len());
            &&& counts.len() == 24
            &&& starts_at(b, 0, counts)
            &&& starts_at(b, 24, enc_kvs(kvs))
            &&& starts_at(b, 24 + enc_kvs(kvs).len() as int, enc_tensors(tensors))
        }),
{
    let head = enc_head(version, kvs, tensors);
    let b = head + rest;
    let counts = enc_counts(version, kvs.len(), tensors.len());
    lemma_le_len(version as nat, 4);
    lemma_le_len(tensors.len(), 8);
    lemma_le_len(kvs.len(), 8);
    assert(b.subrange(0, head.len() as int) =~= head);
    lemma_starts_split(b, 0, counts + enc_kvs(kvs), enc_tensors(tensors));
    lemma_starts_split(b, 0, counts, enc_kvs(kvs));
}

/// The head that its parts make up.
proof fn lemma_head_of_parts(
    b: Seq<u8>,
    version: u32,
    kvs: Seq<SpecKv>,
    tensors: Seq<SpecTensor>,
    q: int,
    end: int,
)
    requires
        counts_at(b) == Ok::<((u32, nat, nat), int), HeadError>(
            ((version, tensors.len(), kvs.len()), 24),
        ),
        kvs_at(b, 24, kvs.len()) == Ok::<(Seq<SpecKv>, int), HeadError>((kvs, q)),
        tensors_at(b, q, tensors.len()) == Ok::<(Seq<SpecTensor>, int), HeadError>(
            (tensors, end),
        ),
    ensures
        match alignment_of(kvs, end) {
            Ok(alignment) => head_of(b) == Ok::<SpecHead, HeadError>(
                SpecHead {
                    version,
                    kvs,
                    tensors,
                    alignment,
                    head_end: end,
                    data_start: aligned(end, alignment as int),
                },
            ),
            Err(e) => head_of(b) == Err::<SpecHead, HeadError>(e),
        },
{
}

/// A head that was written is read back with the same version, metadata and
/// tensors, whatever bytes follow it, and ends where its bytes end; only an
/// unusable `general.alignment` makes reading fail.
#[verifier::spinoff_prover]
pub proof fn law_written_head_is_read_back(
    version: u32,
    kvs: Seq<SpecKv>,
    tensors: Seq<SpecTensor>,
    rest: Seq<u8>,
)
    requires
        wf_head(version, kvs, tensors),
    ensures
        ({
            let head = enc_head(version, kvs, tensors);
            match alignment_of(kvs, head.len() as int) {
                Ok(alignment) => head_of(head + rest) == Ok::<SpecHead, HeadError>(
                    SpecHead {
                        version,
                        kvs,
                        tensors,
                        alignment,
                        head_end: head.len() as int,
                        data_start: aligned(head.len() as int, alignment as int),
                    },
                ),
                Err(e) => head_of(head + rest) == Err::<SpecHead, HeadError>(e),
            }
        }),
{
    let head = enc_head(version, kvs, tensors);
    let b = head + rest;
    let q = 24 + enc_kvs(kvs).len() as int;
    lemma_head_parts(version, kvs, tensors, rest);
    lemma_counts_read(b, version, kvs.len(), tensors.len());
    lemma_kvs_read(b, 24, kvs);
    lemma_tensors_read(b, q, tensors);
    lemma_head_of_parts(b, version, kvs, tensors, q, head.len() as int);
}

// ---------------------------------------------------------------------------
// Laws: what can be read at all is what was written
// ---------------------------------------------------------------------------

/// Every array in a value holds only items of its element type.
pub open spec fn typed_value(v: SpecValue) -> bool
    decreases v,
{
    match v {
        SpecValue::Array(t, items) => forall|i: int|
            0 <= i < items.len() ==> value_type(#[trigger] items[i]) == t && typed_value(items[i]),
        _ => true,
    }
}

/// Every array in the metadata holds only items of its element type.
pub open spec fn typed_kvs(kvs: Seq<SpecKv>) -> bool {
    forall|i: int| 0 <= i < kvs.len() ==> typed_value((#[trigger] kvs[i]).value)
}

/// The dimension counts fit in the 32 bits that they are stored in.
pub open spec fn dims_fit(tensors: Seq<SpecTensor>) -> bool {
    forall|i: int| 0 <= i < tensors.len() ==> (#[trigger] tensors[i]).dims.len() <= u32::MAX
}

/// A value takes at least one byte.
proof fn lemma_value_len(v: SpecValue)
    ensures
        enc_value(v).len() >= 1,
{
    match v {
        SpecValue::U16(x) => lemma_le_len(x as nat, 2),
        SpecValue::I16(x) => lemma_le_len(x as u16 as nat, 2),
        SpecValue::U32(x) => lemma_le_len(x as nat, 4),
        SpecValue::I32(x) => lemma_le_len(x as u32 as nat, 4),
        SpecValue::F32(x) => lemma_le_len(x as nat, 4),
        SpecValue::U64(x) => lemma_le_len(x as nat, 8),
        SpecValue::I64(x) => lemma_le_len(x as u64 as nat, 8),
        SpecValue::F64(x) => lemma_le_len(x as nat, 8),
        SpecValue::Str(s) => lemma_le_len(byte_len(s), 8),
        SpecValue::Array(t, items) => lemma_le_len(items.len(), 8),
        _ => {},
    }
}

/// Values take at least one byte each.
proof fn lemma_values_len(items: Seq<SpecValue>)
    ensures
        enc_values(items).len() >= items.len(),
    decreases items.len(),
{
    if items.len() > 0 {
        lemma_value_len(items[0]);
        lemma_values_len(items.subrange(1, items.len() as int));
    }
}

/// Pairs take at least one byte each.
proof fn lemma_kvs_len(kvs: Seq<SpecKv>)
    ensures
        enc_kvs(kvs).len() >= kvs.len(),
    decreases kvs.len(),
{
    if kvs.len() > 0 {
        lemma_value_len(kvs[0].value);
        lemma_kvs_len(kvs.skip(1));
    }
}

/// Tensor descriptors take at least one byte each.
proof fn lemma_tensors_len(tensors: Seq<SpecTensor>)
    ensures
        enc_tensors(tensors).len() >= tensors.len(),
    decreases tensors.len(),
{
    if tensors.len() > 0 {
        lemma_le_len(tensors[0].offset as nat, 8);
        lemma_tensors_len(tensors.skip(1));
    }
}

/// A written string that can be read is within its cap.
proof fn lemma_string_accepted(b: Seq<u8>, p: int, s: Seq<char>, what: Seq<char>)
    requires
        starts_at(b, p, enc_str(s)),
        enc_str(s).len() <= u64::MAX,
        string_at(b, p, what) is Ok,
    ensures
        wf_str(s),
{
    lemma_pow256_values();
    lemma_starts_split(b, p, le_bytes(byte_len(s), 8), encode_utf8(s));
    lemma_le_len(byte_len(s), 8);
    lemma_uint_read(b, p, byte_len(s), 8);
}

/// A written value that can be read is within the caps.
proof fn lemma_value_accepted(b: Seq<u8>, p: int, v: SpecValue, depth: nat)
    requires
        starts_at(b, p, enc_value(v)),
        enc_value(v).len() <= u64::MAX,
        typed_value(v),
        value_at(b, p, value_type(v), depth) is Ok,
    ensures
        wf_value(v, depth),
    decreases v, 0nat,
{
    match v {
        SpecValue::Str(s) => {
            lemma_string_accepted(b, p, s, "string value"@);
        },
        SpecValue::Array(t, items) => {
            let code = le_bytes(type_code(t) as nat, 4);
            let count = le_bytes(items.len(), 8);
            lemma_pow256_values();
            lemma_starts_split(b, p, code + count, enc_values(items));
            lemma_starts_split(b, p, code, count);
            lemma_le_len(type_code(t) as nat, 4);
            lemma_le_len(items.len(), 8);
            lemma_values_len(items);
            lemma_uint_read(b, p, type_code(t) as nat, 4);
            lemma_uint_read(b, p + 4, items.len(), 8);
            lemma_values_accepted(b, p + 12, t, items, depth + 1);
        },
        _ => {},
    }
}

/// Written values that can be read are within the caps.
proof fn lemma_values_accepted(b: Seq<u8>, p: int, t: GgufType, items: Seq<SpecValue>, depth: nat)
    requires
        starts_at(b, p, enc_values(items)),
        enc_values(items).len() <= u64::MAX,
        forall|i: int|
            0 <= i < items.len() ==> value_type(#[trigger] items[i]) == t && typed_value(items[i]),
        values_at(b, p, t, depth, items.len()) is Ok,
    ensures
        forall|i: int| 0 <= i < items.len() ==> wf_value(#[trigger] items[i], depth),
    decreases items, items.len(),
{
    if items.len() > 0 {
        let rest = items.subrange(1, items.len() as int);
        lemma_starts_split(b, p, enc_value(items[0]), enc_values(rest));
        assert(value_type(items[0]) == t);
        lemma_value_accepted(b, p, items[0], depth);
        lemma_value_read(b, p, items[0], depth);
        assert forall|i: int| 0 <= i < rest.len() implies value_type(#[trigger] rest[i]) == t
            && typed_value(rest[i]) by {
            assert(rest[i] == items[i + 1]);
        }
        lemma_values_accepted(b, p + enc_value(items[0]).len(), t, rest, depth);
        assert forall|i: int| 0 <= i < items.len() implies wf_value(#[trigger] items[i], depth) by {
            if i > 0 {
                assert(rest[i - 1] == items[i]);
            }
        }
    }
}

/// Written pairs that can be read are within the caps.
proof fn lemma_kvs_accepted(b: Seq<u8>, p: int, kvs: Seq<SpecKv>)
    requires
        starts_at(b, p, enc_kvs(kvs)),
        enc_kvs(kvs).len() <= u64::MAX,
        typed_kvs(kvs),
        kvs_at(b, p, kvs.len()) is Ok,
    ensures
        forall|i: int| 0 <= i < kvs.len() ==> wf_kv(#[trigger] kvs[i]),
    decreases kvs.len(),
{
    if kvs.len() > 0 {
        let kv = kvs[0];
        let rest = kvs.skip(1);
        let key = enc_str(kv.key);
        let code = le_bytes(type_code(value_type(kv.value)) as nat, 4);
        lemma_pow256_values();
        lemma_starts_split(b, p, enc_kv(kv), enc_kvs(rest));
        lemma_starts_split(b, p, key + code, enc_value(kv.value));
        lemma_starts_split(b, p, key, code);
        lemma_string_accepted(b, p, kv.key, "metadata key"@);
        lemma_string_read(b, p, kv.key, "metadata key"@);
        lemma_le_len(type_code(value_type(kv.value)) as nat, 4);
        lemma_uint_read(b, p + key.len(), type_code(value_type(kv.value)) as nat, 4);
        lemma_value_accepted(b, p + key.len() + 4, kv.value, 0);
        lemma_value_read(b, p + key.len() + 4, kv.value, 0);
        assert forall|i: int| 0 <= i < rest.len() implies typed_value(
            (#[trigger] rest[i]).value,
        ) by {
            assert(rest[i] == kvs[i + 1]);
        }
        lemma_kvs_accepted(b, p + enc_kv(kv).len(), rest);
        assert forall|i: int| 0 <= i < kvs.len() implies wf_kv(#[trigger] kvs[i]) by {
            if i > 0 {
                assert(rest[i - 1] == kvs[i]);
            }
        }
    }
}

/// Written tensor descriptors that can be read are within the caps.
proof fn lemma_tensors_accepted(b: Seq<u8>, p: int, tensors: Seq<SpecTensor>)
    requires
        starts_at(b, p, enc_tensors(tensors)),
        enc_tensors(tensors).len() <= u64::MAX,
        dims_fit(tensors),
        tensors_at(b, p, tensors.len()) is Ok,
    ensures
        forall|i: int| 0 <= i < tensors.len() ==> wf_tensor(#[trigger] tensors[i]),
    decreases tensors.len(),
{
    if tensors.len() > 0 {
        let t = tensors[0];
        let rest = tensors.skip(1);
        let name = enc_str(t.name);
        let n_dims = le_bytes(t.dims.len(), 4);
        let dims = enc_dims(t.dims);
        let code = le_bytes(t.type_code as nat, 4);
        let offset = le_bytes(t.offset as nat, 8);
        lemma_pow256_values();
        lemma_starts_split(b, p, enc_tensor(t), enc_tensors(rest));
        lemma_starts_split(b, p, name + n_dims + dims + code, offset);
        lemma_starts_split(b, p, name + n_dims + dims, code);
        lemma_starts_split(b, p, name + n_dims, dims);
        lemma_starts_split(b, p, name, n_dims);
        lemma_string_accepted(b, p, t.name, "tensor name"@);
        lemma_string_read(b, p, t.name, "tensor name"@);
        lemma_uint_read(b, p + name.len(), t.dims.len(), 4);
        lemma_tensor_read(b, p, t);
        assert forall|i: int| 0 <= i < rest.len() implies (#[trigger] rest[i]).dims.len()
            <= u32::MAX by {
            assert(rest[i] == tensors[i + 1]);
        }
        lemma_tensors_accepted(b, p + enc_tensor(t).len(), rest);
        assert forall|i: int| 0 <= i < tensors.len() implies wf_tensor(#[trigger] tensors[i]) by {
            if i > 0 {
                assert(rest[i - 1] == tensors[i]);
            }
        }
    }
}

/// The fixed part of a written head that can be read is within the caps.
proof fn lemma_counts_accepted(b: Seq<u8>, version: u32, n_kvs: nat, n_tensors: nat)
    requires
        starts_at(b, 0, enc_counts(version, n_kvs, n_tensors)),
        n_kvs <= u64::MAX,
        n_tensors <= u64::MAX,
        counts_at(b) is Ok,
    ensures
        version == 2 || version == 3,
        n_kvs <= MAX_KV_COUNT,
        n_tensors <= MAX_TENSOR_COUNT,
{
    let magic = seq![0x47u8, 0x47u8, 0x55u8, 0x46u8];
    let v = le_bytes(version as nat, 4);
    let nt = le_bytes(n_tensors, 8);
    let nk = le_bytes(n_kvs, 8);
    lemma_pow256_values();
    lemma_starts_split(b, 0, magic + v + nt, nk);
    lemma_starts_split(b, 0, magic + v, nt);
    lemma_starts_split(b, 0, magic, v);
    lemma_le_len(version as nat, 4);
    lemma_le_len(n_tensors, 8);
    lemma_uint_read(b, 4, version as nat, 4);
    lemma_uint_read(b, 8, n_tensors, 8);
    lemma_uint_read(b, 16, n_kvs, 8);
}

/// Whatever was written, within the caps or not: if the bytes can be read, what
/// is read is what was written. Items of another type than their array's are
/// written as they are and read as the array's type, so they are left out, and
/// so are dimension counts that their 32 bits cannot hold.
pub proof fn law_what_is_read_is_what_was_written(
    version: u32,
    kvs: Seq<SpecKv>,
    tensors: Seq<SpecTensor>,
    rest: Seq<u8>,
)
    requires
        typed_kvs(kvs),
        dims_fit(tensors),
        enc_head(version, kvs, tensors).len() <= u64::MAX,
    ensures
        head_of(enc_head(version, kvs, tensors) + rest) matches Ok(h) ==> {
            &&& wf_head(version, kvs, tensors)
            &&& h.version == version
            &&& h.kvs == kvs
            &&& h.tensors == tensors
            &&& h.head_end == enc_head(version, kvs, tensors).len()
        },
{
    let head = enc_head(version, kvs, tensors);
    let b = head + rest;
    if head_of(b) is Ok {
        lemma_head_parts(version, kvs, tensors, rest);
        lemma_kvs_len(kvs);
        lemma_tensors_len(tensors);
        lemma_counts_accepted(b, version, kvs.len(), tensors.len());
        lemma_counts_read(b, version, kvs.len(), tensors.len());
        lemma_kvs_accepted(b, 24, kvs);
        lemma_kvs_read(b, 24, kvs);
        lemma_tensors_accepted(b, 24 + enc_kvs(kvs).len() as int, tensors);
        law_written_head_is_read_back(version, kvs, tensors, rest);
    }
}

// ---------------------------------------------------------------------------
// Laws: where errors point
// ---------------------------------------------------------------------------

/// What was read from `p` on ends inside the bytes; an error points into them,
/// or just past their end.
#[verifier::opaque]
spec fn stays_inside<T>(b: Seq<u8>, p: int, d: Decoded<T>) -> bool {
    match d {
        Ok((_, q)) => p <= q <= b.len(),
        Err(e) => 0 <= e.offset <= b.len(),
    }
}

/// An integer stays inside the bytes.
proof fn lemma_uint_inside(b: Seq<u8>, p: int, k: nat)
    requires
        0 <= p <= b.len(),
    ensures
        stays_inside(b, p, uint_at(b, p, k)),
{
    reveal(stays_inside);
}

/// A string stays inside the bytes.
proof fn lemma_string_inside(b: Seq<u8>, p: int, what: Seq<char>)
    requires
        0 <= p <= b.len(),
    ensures
        stays_inside(b, p, string_at(b, p, what)),
{
    reveal(stays_inside);
}

/// A value stays inside the bytes.
proof fn lemma_value_inside(b: Seq<u8>, p: int, ty: GgufType, depth: nat)
    requires
        0 <= p <= b.len(),
        depth <= MAX_ARRAY_DEPTH,
    ensures
        stays_inside(b, p, value_at(b, p, ty, depth)),
    decreases 8 - depth, 0nat,
{
    reveal(stays_inside);
    match ty {
        GgufType::Str => {
            lemma_string_inside(b, p, "string value"@);
        },
        GgufType::Array => {
            if depth < MAX_ARRAY_DEPTH {
                if let Ok(((elem, count), q)) = array_header_at(b, p) {
                    lemma_values_inside(b, q, elem, depth + 1, count);
                }
            }
        },
        _ => {},
    }
}

/// A run of values stays inside the bytes.
proof fn lemma_values_inside(b: Seq<u8>, p: int, ty: GgufType, depth: nat, count: nat)
    requires
        0 <= p <= b.len(),
        depth <= MAX_ARRAY_DEPTH,
    ensures
        stays_inside(b, p, values_at(b, p, ty, depth, count)),
    decreases 8 - depth, count + 1,
{
    reveal(stays_inside);
    if count > 0 {
        lemma_value_inside(b, p, ty, depth);
        if let Ok((v, q)) = value_at(b, p, ty, depth) {
            lemma_values_inside(b, q, ty, depth, (count - 1) as nat);
        }
    }
}

/// A run of pairs stays inside the bytes.
proof fn lemma_kvs_inside(b: Seq<u8>, p: int, count: nat)
    requires
        0 <= p <= b.len(),
    ensures
        stays_inside(b, p, kvs_at(b, p, count)),
    decreases count,
{
    reveal(stays_inside);
    if count > 0 {
        lemma_string_inside(b, p, "metadata key"@);
        if let Ok((key, q)) = string_at(b, p, "metadata key"@) {
            lemma_uint_inside(b, q, 4);
            if let Ok((code, r)) = uint_at(b, q, 4) {
                if let Some(ty) = type_of_code(code as u32) {
                    lemma_value_inside(b, r, ty, 0);
                }
            }
        }
        if let Ok((kv, end)) = kv_at(b, p) {
            lemma_kvs_inside(b, end, (count - 1) as nat);
        }
    }
}

/// A run of dimensions stays inside the bytes.
proof fn lemma_dims_inside(b: Seq<u8>, p: int, count: nat)
    requires
        0 <= p <= b.len(),
    ensures
        stays_inside(b, p, dims_at(b, p, count)),
    decreases count,
{
    reveal(stays_inside);
    if count > 0 {
        lemma_uint_inside(b, p, 8);
        if let Ok((d, q)) = uint_at(b, p, 8) {
            lemma_dims_inside(b, q, (count - 1) as nat);
        }
    }
}

/// A tensor descriptor stays inside the bytes.
proof fn lemma_tensor_inside(b: Seq<u8>, p: int)
    requires
        0 <= p <= b.len(),
    ensures
        stays_inside(b, p, tensor_at(b, p)),
{
    reveal(stays_inside);
    lemma_string_inside(b, p, "tensor name"@);
    if let Ok((name, q)) = string_at(b, p, "tensor name"@) {
        lemma_uint_inside(b, q, 4);
        if let Ok((n_dims, r)) = uint_at(b, q, 4) {
            lemma_dims_inside(b, r, n_dims);
            if let Ok((dims, t)) = dims_at(b, r, n_dims) {
                lemma_uint_inside(b, t, 4);
                if let Ok((code, u)) = uint_at(b, t, 4) {
                    lemma_uint_inside(b, u, 8);
                }
            }
        }
    }
}

/// A run of tensor descriptors stays inside the bytes.
proof fn lemma_tensors_inside(b: Seq<u8>, p: int, count: nat)
    requires
        0 <= p <= b.len(),
    ensures
        stays_inside(b, p, tensors_at(b, p, count)),
    decreases count,
{
    reveal(stays_inside);
    if count > 0 {
        lemma_tensor_inside(b, p);
        if let Ok((t, q)) = tensor_at(b, p) {
            lemma_tensors_inside(b, q, (count - 1) as nat);
        }
    }
}

/// A head that is read ends inside the bytes. Every error names the offset of a
/// byte, or of the end.
pub proof fn law_head_and_errors_lie_in_the_bytes(b: Seq<u8>)
    ensures
        match head_of(b) {
            Ok(h) => 24 <= h.head_end <= b.len(),
            Err(e) => 0 <= e.offset <= b.len(),
        },
{
    reveal(stays_inside);
    if let Ok(((version, n_tensors, n_kvs), p)) = counts_at(b) {
        lemma_kvs_inside(b, p, n_kvs);
        if let Ok((kvs, q)) = kvs_at(b, p, n_kvs) {
            lemma_tensors_inside(b, q, n_tensors);
        }
    }
}

// ---------------------------------------------------------------------------
// Laws: what was read is written back
// ---------------------------------------------------------------------------

/// Writing the number that `k` bytes stand for gives the bytes back.
proof fn lemma_le_rewrite(s: Seq<u8>)
    ensures
        le_bytes(le_value(s), s.len()) == s,
    decreases s.len(),
{
    if s.len() > 0 {
        lemma_le_rewrite(s.drop_first());
        let n = le_value(s);
        assert(n % 256 == s[0] as nat);
        assert(n / 256 == le_value(s.drop_first()));
        assert(seq![s[0]] + s.drop_first() =~= s);
    } else {
        assert(s =~= Seq::empty());
    }
}

/// Whether every boolean of the value at `p` is stored as 0 or 1. (The reader
/// takes any other byte for true, and the writer stores true as 1.)
pub open spec fn plain_value(b: Seq<u8>, p: int, ty: GgufType, depth: nat) -> bool
    decreases 8 - depth, 0nat,
{
    match ty {
        GgufType::Bool => b[p] <= 1,
        GgufType::Array => match array_header_at(b, p) {
            Ok(((elem, count), q)) => depth < MAX_ARRAY_DEPTH ==> plain_values(
                b,
                q,
                elem,
                depth + 1,
                count,
            ),
            Err(_) => true,
        },
        _ => true,
    }
}

/// Whether every boolean in `count` values from `p` is stored as 0 or 1.
pub open spec fn plain_values(b: Seq<u8>, p: int, ty: GgufType, depth: nat, count: nat) -> bool
    decreases 8 - depth, count + 1,
{
    count == 0 || (plain_value(b, p, ty, depth) && match value_at(b, p, ty, depth) {
        Ok((_, q)) => plain_values(b, q, ty, depth, (count - 1) as nat),
        Err(_) => true,
    })
}

/// Whether every boolean in `count` pairs from `p` is stored as 0 or 1.
pub open spec fn plain_kvs(b: Seq<u8>, p: int, count: nat) -> bool
    decreases count,
{
    if count == 0 {
        true
    } else {
        match string_at(b, p, "metadata key"@) {
            Ok((_, q)) => match uint_at(b, q, 4) {
                Ok((code, r)) => match (type_of_code(code as u32), kv_at(b, p)) {
                    (Some(ty), Ok((_, next))) => plain_value(b, r, ty, 0) && plain_kvs(
                        b,
                        next,
                        (count - 1) as nat,
                    ),
                    _ => true,
                },
                Err(_) => true,
            },
            Err(_) => true,
        }
    }
}

/// An integer that was read has the bytes it was read from.
proof fn lemma_uint_exact(b: Seq<u8>, p: int, k: nat)
    requires
        0 <= p,
        uint_at(b, p, k) is Ok,
    ensures
        uint_at(b, p, k) matches Ok((n, q)) ==> {
            &&& q == p + k <= b.len()
            &&& n < pow256(k)
            &&& le_bytes(n, k) == b.subrange(p, q)
            &&& le_bytes(n, k).len() == k
        },
{
    lemma_le_rewrite(b.subrange(p, p + k));
    lemma_le_value_bound(b.subrange(p, p + k));
}

/// A string that was read has the bytes it was read from.
proof fn lemma_string_exact(b: Seq<u8>, p: int, what: Seq<char>)
    requires
        0 <= p,
        string_at(b, p, what) is Ok,
    ensures
        string_at(b, p, what) matches Ok((s, q)) ==> {
            &&& p <= q <= b.len()
            &&& wf_str(s)
            &&& enc_str(s) == b.subrange(p, q)
        },
{
    lemma_uint_exact(b, p, 8);
    let (len, q) = uint_at(b, p, 8)->Ok_0;
    let (raw, r) = bytes_at(b, q, len)->Ok_0;
    decode_utf8_encode_utf8(raw);
    assert(b.subrange(p, q) + raw =~= b.subrange(p, r));
}

/// A value that was read has its type, is acceptable, takes as many bytes as
/// were read, and has these bytes where booleans are plain.
pub proof fn lemma_value_exact(b: Seq<u8>, p: int, ty: GgufType, depth: nat)
    requires
        0 <= p,
        value_at(b, p, ty, depth) is Ok,
    ensures
        value_at(b, p, ty, depth) matches Ok((v, q)) ==> {
            &&& p <= q <= b.len()
            &&& value_type(v) == ty
            &&& wf_value(v, depth)
            &&& enc_value(v).len() == q - p
            &&& plain_value(b, p, ty, depth) ==> enc_value(v) == b.subrange(p, q)
        },
    decreases 8 - depth, 0nat,
{
    lemma_pow256_values();
    match ty {
        GgufType::U8 | GgufType::I8 | GgufType::Bool => {
            lemma_uint_exact(b, p, 1);
            let n = uint_at(b, p, 1)->Ok_0.0;
            reveal_with_fuel(le_bytes, 2);
            let x = n as u8;
            assert((x as i8) as u8 == x) by (bit_vector);
            assert(le_bytes(n, 1) =~= seq![x]);
            assert(b.subrange(p, p + 1)[0] == b[p]);
        },
        GgufType::U16 | GgufType::I16 => {
            lemma_uint_exact(b, p, 2);
            let x = uint_at(b, p, 2)->Ok_0.0 as u16;
            assert((x as i16) as u16 == x) by (bit_vector);
            lemma_le_len(x as nat, 2);
        },
        GgufType::U32 | GgufType::I32 | GgufType::F32 => {
            lemma_uint_exact(b, p, 4);
            let x = uint_at(b, p, 4)->Ok_0.0 as u32;
            assert((x as i32) as u32 == x) by (bit_vector);
            lemma_le_len(x as nat, 4);
        },
        GgufType::U64 | GgufType::I64 | GgufType::F64 => {
            lemma_uint_exact(b, p, 8);
            let x = uint_at(b, p, 8)->Ok_0.0 as u64;
            assert((x as i64) as u64 == x) by (bit_vector);
            lemma_le_len(x as nat, 8);
        },
        GgufType::Str => {
            lemma_string_exact(b, p, "string value"@);
        },
        GgufType::Array => {
            lemma_array_header_exact(b, p);
            let ((elem, count), q) = array_header_at(b, p)->Ok_0;
            lemma_values_exact(b, q, elem, depth + 1, count);
            let (items, r) = values_at(b, q, elem, depth + 1, count)->Ok_0;
            let head = le_bytes(type_code(elem) as nat, 4) + le_bytes(items.len(), 8);
            assert(enc_value(SpecValue::Array(elem, items)) == head + enc_values(items));
            assert(b.subrange(p, q) + b.subrange(q, r) =~= b.subrange(p, r));
        },
    }
}

/// An array header that was read has the bytes it was read from.
proof fn lemma_array_header_exact(b: Seq<u8>, p: int)
    requires
        0 <= p,
        array_header_at(b, p) is Ok,
    ensures
        array_header_at(b, p) matches Ok(((elem, count), q)) ==> {
            &&& q == p + 12 <= b.len()
            &&& count <= MAX_ARRAY_LEN
            &&& le_bytes(type_code(elem) as nat, 4) + le_bytes(count, 8) == b.subrange(p, q)
        },
{
    lemma_pow256_values();
    lemma_uint_exact(b, p, 4);
    lemma_uint_exact(b, p + 4, 8);
    assert(b.subrange(p, p + 4) + b.subrange(p + 4, p + 12) =~= b.subrange(p, p + 12));
}

/// Values that were read are as many as asked for, each exact.
proof fn lemma_values_exact(b: Seq<u8>, p: int, ty: GgufType, depth: nat, count: nat)
    requires
        0 <= p <= b.len(),
        values_at(b, p, ty, depth, count) is Ok,
    ensures
        values_at(b, p, ty, depth, count) matches Ok((items, q)) ==> {
            &&& p <= q <= b.len()
            &&& items.len() == count
            &&& forall|i: int|
                0 <= i < items.len() ==> value_type(#[trigger] items[i]) == ty && wf_value(
                    items[i],
                    depth,
                )
            &&& enc_values(items).len() == q - p
            &&& plain_values(b, p, ty, depth, count) ==> enc_values(items) == b.subrange(p, q)
        },
    decreases 8 - depth, count + 1,
{
    if count > 0 {
        lemma_value_exact(b, p, ty, depth);
        let (v, q) = value_at(b, p, ty, depth)->Ok_0;
        lemma_values_exact(b, q, ty, depth, (count - 1) as nat);
        let (rest, r) = values_at(b, q, ty, depth, (count - 1) as nat)->Ok_0;
        let items = seq![v] + rest;
        assert(items.subrange(1, items.len() as int) =~= rest);
        assert forall|i: int| 0 <= i < items.len() implies value_type(#[trigger] items[i]) == ty
            && wf_value(items[i], depth) by {
            if i > 0 {
                assert(items[i] == rest[i - 1]);
            }
        }
        assert(b.subrange(p, q) + b.subrange(q, r) =~= b.subrange(p, r));
    } else {
        assert(b.subrange(p, p) =~= Seq::<u8>::empty());
    }
}

/// Pairs that were read are as many as asked for, each exact.
proof fn lemma_kvs_exact(b: Seq<u8>, p: int, count: nat)
    requires
        0 <= p <= b.len(),
        kvs_at(b, p, count) is Ok,
    ensures
        kvs_at(b, p, count) matches Ok((kvs, q)) ==> {
            &&& p <= q <= b.len()
            &&& kvs.len() == count
            &&& forall|i: int| 0 <= i < kvs.len() ==> wf_kv(#[trigger] kvs[i])
            &&& enc_kvs(kvs).len() == q - p
            &&& plain_kvs(b, p, count) ==> enc_kvs(kvs) == b.subrange(p, q)
        },
    decreases count,
{
    if count > 0 {
        lemma_pow256_values();
        lemma_string_exact(b, p, "metadata key"@);
        let (key, q) = string_at(b, p, "metadata key"@)->Ok_0;
        lemma_uint_exact(b, q, 4);
        let (code, r) = uint_at(b, q, 4)->Ok_0;
        let ty = type_of_code(code as u32)->Some_0;
        lemma_value_exact(b, r, ty, 0);
        let (value, t) = value_at(b, r, ty, 0)->Ok_0;
        let kv = SpecKv { key, value };
        assert(type_code(ty) == code);
        assert(plain_value(b, r, ty, 0) ==> enc_kv(kv) =~= b.subrange(p, t)) by {
            assert(b.subrange(p, q) + b.subrange(q, r) + b.subrange(r, t) =~= b.subrange(p, t));
        }
        assert(kv_at(b, p) == Ok::<(SpecKv, int), HeadError>((kv, t)));
        lemma_kvs_exact(b, t, (count - 1) as nat);
        let (rest, u) = kvs_at(b, t, (count - 1) as nat)->Ok_0;
        let kvs = seq![kv] + rest;
        assert(kvs.skip(1) =~= rest);
        assert forall|i: int| 0 <= i < kvs.len() implies wf_kv(#[trigger] kvs[i]) by {
            if i > 0 {
                assert(kvs[i] == rest[i - 1]);
            }
        }
        assert(b.subrange(p, t) + b.subrange(t, u) =~= b.subrange(p, u));
    } else {
        assert(b.subrange(p, p) =~= Seq::<u8>::empty());
    }
}

/// Dimensions that were read have the bytes they were read from.
proof fn lemma_dims_exact(b: Seq<u8>, p: int, count: nat)
    requires
        0 <= p <= b.len(),
        dims_at(b, p, count) is Ok,
    ensures
        dims_at(b, p, count) matches Ok((dims, q)) ==> {
            &&& p <= q <= b.len()
            &&& dims.len() == count
            &&& enc_dims(dims) == b.subrange(p, q)
        },
    decreases count,
{
    if count > 0 {
        lemma_pow256_values();
        lemma_uint_exact(b, p, 8);
        let (d, q) = uint_at(b, p, 8)->Ok_0;
        lemma_dims_exact(b, q, (count - 1) as nat);
        let (rest, r) = dims_at(b, q, (count - 1) as nat)->Ok_0;
        let dims = seq![d as u64] + rest;
        assert(dims.skip(1) =~= rest);
        assert(b.subrange(p, q) + b.subrange(q, r) =~= b.subrange(p, r));
    } else {
        assert(b.subrange(p, p) =~= Seq::<u8>::empty());
    }
}

/// Tensor descriptors that were read have the bytes they were read from.
proof fn lemma_tensors_exact(b: Seq<u8>, p: int, count: nat)
    requires
        0 <= p <= b.len(),
        tensors_at(b, p, count) is Ok,
    ensures
        tensors_at(b, p, count) matches Ok((tensors, q)) ==> {
            &&& p <= q <= b.len()
            &&& tensors.len() == count
            &&& forall|i: int| 0 <= i < tensors.len() ==> wf_tensor(#[trigger] tensors[i])
            &&& enc_tensors(tensors) == b.subrange(p, q)
        },
    decreases count,
{
    if count > 0 {
        lemma_pow256_values();
        lemma_string_exact(b, p, "tensor name"@);
        let (name, q) = string_at(b, p, "tensor name"@)->Ok_0;
        lemma_uint_exact(b, q, 4);
        let (n_dims, r) = uint_at(b, q, 4)->Ok_0;
        lemma_dims_exact(b, r, n_dims);
        let (dims, s) = dims_at(b, r, n_dims)->Ok_0;
        lemma_uint_exact(b, s, 4);
        let (code, t) = uint_at(b, s, 4)->Ok_0;
        lemma_uint_exact(b, t, 8);
        let (offset, u) = uint_at(b, t, 8)->Ok_0;
        let tensor = tensor_at(b, p)->Ok_0.0;
        assert(enc_tensor(tensor) =~= b.subrange(p, u)) by {
            assert(b.subrange(p, q) + b.subrange(q, r) + b.subrange(r, s) + b.subrange(s, t)
                + b.subrange(t, u) =~= b.subrange(p, u));
        }
        lemma_tensors_exact(b, u, (count - 1) as nat);
        let (rest, w) = tensors_at(b, u, (count - 1) as nat)->Ok_0;
        let tensors = seq![tensor] + rest;
        assert(tensors.skip(1) =~= rest);
        assert forall|i: int| 0 <= i < tensors.len() implies wf_tensor(#[trigger] tensors[i]) by {
            if i > 0 {
                assert(tensors[i] == rest[i - 1]);
            }
        }
        assert(b.subrange(p, u) + b.subrange(u, w) =~= b.subrange(p, w));
    } else {
        assert(b.subrange(p, p) =~= Seq::<u8>::empty());
    }
}

/// Whatever bytes a head was read from, it is acceptable, and writing it again
/// takes exactly as many bytes as were read. Where every boolean is stored as 0
/// or 1, these are the very bytes that were read.
pub proof fn law_read_head_is_written_back(b: Seq<u8>)
    requires
        head_of(b) is Ok,
    ensures
        head_of(b) matches Ok(h) ==> {
            &&& wf_head(h.version, h.kvs, h.tensors)
            &&& h.alignment > 0
            &&& 24 <= h.head_end <= b.len()
            &&& enc_head(h.version, h.kvs, h.tensors).len() == h.head_end
            &&& plain_kvs(b, 24, h.kvs.len()) ==> enc_head(h.version, h.kvs, h.tensors) == b.take(
                h.head_end,
            )
        },
{
    let ((version, n_tensors, n_kvs), p) = counts_at(b)->Ok_0;
    lemma_pow256_values();
    lemma_uint_exact(b, 4, 4);
    lemma_uint_exact(b, 8, 8);
    lemma_uint_exact(b, 16, 8);
    lemma_kvs_exact(b, p, n_kvs);
    let (kvs, q) = kvs_at(b, p, n_kvs)->Ok_0;
    lemma_tensors_exact(b, q, n_tensors);
    let (tensors, end) = tensors_at(b, q, n_tensors)->Ok_0;
    assert(enc_counts(version, n_kvs, n_tensors) =~= b.subrange(0, 24)) by {
        assert(b.subrange(0, 4) + b.subrange(4, 8) + b.subrange(8, 16) + b.subrange(16, 24)
            =~= b.subrange(0, 24));
    }
    assert(b.subrange(0, 24) + b.subrange(24, q) + b.subrange(q, end) =~= b.take(end));
}

// ---------------------------------------------------------------------------
// Laws: the first bytes of a file decide
// ---------------------------------------------------------------------------

/// The outcome does not stem from the bytes having ended too early.
pub open spec fn settled<T>(r: Result<T, HeadError>) -> bool {
    match r {
        Ok(_) => true,
        Err(e) => e.message != eof_text(),
    }
}

proof fn lemma_uint_settled(b: Seq<u8>, ext: Seq<u8>, p: int, k: nat)
    requires
        0 <= p,
        settled(uint_at(b, p, k)),
    ensures
        uint_at(b + ext, p, k) == uint_at(b, p, k),
        uint_at(b, p, k) is Ok,
{
    assert((b + ext).subrange(p, p + k) =~= b.subrange(p, p + k));
}

proof fn lemma_string_settled(b: Seq<u8>, ext: Seq<u8>, p: int, what: Seq<char>)
    requires
        0 <= p,
        settled(string_at(b, p, what)),
    ensures
        string_at(b + ext, p, what) == string_at(b, p, what),
        string_at(b, p, what) matches Ok((_, q)) ==> p <= q,
{
    lemma_uint_settled(b, ext, p, 8);
    let (len, q) = uint_at(b, p, 8)->Ok_0;
    if len <= MAX_STRING_LEN {
        assert((b + ext).subrange(q, q + len) =~= b.subrange(q, q + len));
    }
}

proof fn lemma_value_settled(b: Seq<u8>, ext: Seq<u8>, p: int, ty: GgufType, depth: nat)
    requires
        0 <= p,
        settled(value_at(b, p, ty, depth)),
    ensures
        value_at(b + ext, p, ty, depth) == value_at(b, p, ty, depth),
        value_at(b, p, ty, depth) matches Ok((_, q)) ==> p <= q,
    decreases 8 - depth, 0nat,
{
    match ty {
        GgufType::U8 | GgufType::I8 | GgufType::Bool => lemma_uint_settled(b, ext, p, 1),
        GgufType::U16 | GgufType::I16 => lemma_uint_settled(b, ext, p, 2),
        GgufType::U32 | GgufType::I32 | GgufType::F32 => lemma_uint_settled(b, ext, p, 4),
        GgufType::U64 | GgufType::I64 | GgufType::F64 => lemma_uint_settled(b, ext, p, 8),
        GgufType::Str => lemma_string_settled(b, ext, p, "string value"@),
        GgufType::Array => if depth < MAX_ARRAY_DEPTH {
            lemma_uint_settled(b, ext, p, 4);
            let (code, q) = uint_at(b, p, 4)->Ok_0;
            if let Some(elem) = type_of_code(code as u32) {
                lemma_uint_settled(b, ext, q, 8);
                let (count, r) = uint_at(b, q, 8)->Ok_0;
                if count <= MAX_ARRAY_LEN {
                    lemma_values_settled(b, ext, r, elem, depth + 1, count);
                }
            }
        },
    }
}

proof fn lemma_values_settled(
    b: Seq<u8>,
    ext: Seq<u8>,
    p: int,
    ty: GgufType,
    depth: nat,
    count: nat,
)
    requires
        0 <= p,
        settled(values_at(b, p, ty, depth, count)),
    ensures
        values_at(b + ext, p, ty, depth, count) == values_at(b, p, ty, depth, count),
        values_at(b, p, ty, depth, count) matches Ok((_, q)) ==> p <= q,
    decreases 8 - depth, count + 1,
{
    if count > 0 {
        lemma_value_settled(b, ext, p, ty, depth);
        if let Ok((_, q)) = value_at(b, p, ty, depth) {
            lemma_values_settled(b, ext, q, ty, depth, (count - 1) as nat);
        }
    }
}

proof fn lemma_kvs_settled(b: Seq<u8>, ext: Seq<u8>, p: int, count: nat)
    requires
        0 <= p,
        settled(kvs_at(b, p, count)),
    ensures
        kvs_at(b + ext, p, count) == kvs_at(b, p, count),
        kvs_at(b, p, count) matches Ok((_, q)) ==> p <= q,
    decreases count,
{
    if count > 0 {
        lemma_string_settled(b, ext, p, "metadata key"@);
        if let Ok((_, q)) = string_at(b, p, "metadata key"@) {
            lemma_uint_settled(b, ext, q, 4);
            let (code, r) = uint_at(b, q, 4)->Ok_0;
            if let Some(ty) = type_of_code(code as u32) {
                lemma_value_settled(b, ext, r, ty, 0);
                if let Ok((_, t)) = value_at(b, r, ty, 0) {
                    lemma_kvs_settled(b, ext, t, (count - 1) as nat);
                }
            }
        }
    }
}

proof fn lemma_dims_settled(b: Seq<u8>, ext: Seq<u8>, p: int, count: nat)
    requires
        0 <= p,
        settled(dims_at(b, p, count)),
    ensures
        dims_at(b + ext, p, count) == dims_at(b, p, count),
        dims_at(b, p, count) matches Ok((_, q)) ==> p <= q,
    decreases count,
{
    if count > 0 {
        lemma_uint_settled(b, ext, p, 8);
        lemma_dims_settled(b, ext, p + 8, (count - 1) as nat);
    }
}

proof fn lemma_tensors_settled(b: Seq<u8>, ext: Seq<u8>, p: int, count: nat)
    requires
        0 <= p,
        settled(tensors_at(b, p, count)),
    ensures
        tensors_at(b + ext, p, count) == tensors_at(b, p, count),
        tensors_at(b, p, count) matches Ok((_, q)) ==> p <= q,
    decreases count,
{
    if count > 0 {
        lemma_string_settled(b, ext, p, "tensor name"@);
        if let Ok((_, q)) = string_at(b, p, "tensor name"@) {
            lemma_uint_settled(b, ext, q, 4);
            let (n_dims, r) = uint_at(b, q, 4)->Ok_0;
            if n_dims != 0 && n_dims <= MAX_DIMS {
                lemma_dims_settled(b, ext, r, n_dims);
                if let Ok((_, s)) = dims_at(b, r, n_dims) {
                    lemma_uint_settled(b, ext, s, 4);
                    lemma_uint_settled(b, ext, s + 4, 8);
                    lemma_tensors_settled(b, ext, s + 12, (count - 1) as nat);
                }
            }
        }
    }
}

/// Reading a head looks at no byte behind it: once some first bytes of a file
/// give a head, or any complaint but that they end too early, every longer part
/// of the file gives the same. Tensor data is never looked at.
pub proof fn law_first_bytes_decide(b: Seq<u8>, ext: Seq<u8>)
    requires
        settled(head_of(b)),
    ensures
        head_of(b + ext) == head_of(b),
{
    assert(b.len() >= 4);
    assert((b + ext).subrange(0, 4) =~= b.subrange(0, 4));
    if b.subrange(0, 4) == seq![0x47u8, 0x47u8, 0x55u8, 0x46u8] {
        lemma_uint_settled(b, ext, 4, 4);
        let version = uint_at(b, 4, 4)->Ok_0.0;
        if version == 2 || version == 3 {
            lemma_uint_settled(b, ext, 8, 8);
            if uint_at(b, 8, 8)->Ok_0.0 <= MAX_TENSOR_COUNT {
                lemma_uint_settled(b, ext, 16, 8);
                if uint_at(b, 16, 8)->Ok_0.0 <= MAX_KV_COUNT {
                    let ((_, n_tensors, n_kvs), p) = counts_at(b)->Ok_0;
                    lemma_kvs_settled(b, ext, p, n_kvs);
                    if let Ok((_, q)) = kvs_at(b, p, n_kvs) {
                        lemma_tensors_settled(b, ext, q, n_tensors);
                    }
                }
            }
        }
    }
}

} // verus!
