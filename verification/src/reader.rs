//! Parser for the GGUF *head*: magic, version, metadata key/value pairs and
//! tensor descriptors. The parser never touches tensor data, so opening a 40 GB
//! model file needs only its first few megabytes. All sizes read from the file
//! are checked against sanity caps before allocation, so a corrupt length field
//! produces a clear error instead of an OOM.

use crate::text::{dec, hex_digit, push_dec, str_eq, string_from_utf8};
use crate::types::{
    align_up, aligned, clone_kvs, clone_tensors, kvs_view, lemma_aligned, lemma_array_view,
    tensors_view, values_view, GgufType, GgufValue, KvPair, SpecKv, SpecTensor, SpecValue,
    TensorInfo, ALIGNMENT_KEY, DEFAULT_ALIGNMENT,
};
use crate::wire::{
    alignment_of, array_header_at, counts_at, dims_at, eof_text, head_of, hex_byte, kv_at, kvs_at,
    law_first_bytes_decide, le_value, lemma_le_value_bound, lemma_pow256_values, pow256, settled,
    string_at, tensor_at, tensors_at, uint_at, value_at, value_of, values_at, Decoded, HeadError,
    SpecHead,
};
use vstd::prelude::*;
use vstd::string::*;
use vstd::utf8::*;

verus! {

/// Sanity caps: a well-formed model head stays far below all of these; a
/// corrupt or hostile length field trips them with a readable error.
pub const MAX_KV_COUNT: u64 = 0x10_0000;

pub const MAX_TENSOR_COUNT: u64 = 0x10_0000;

pub const MAX_STRING_LEN: u64 = 0x1000_0000;

pub const MAX_ARRAY_LEN: u64 = 0x1000_0000;

pub const MAX_DIMS: u32 = 4;

pub const MAX_ARRAY_DEPTH: u32 = 4;

/// A parse error with the byte offset where it was detected.
#[derive(Debug)]
pub struct GgufError {
    pub message: String,
    pub offset: u64,
}

impl View for GgufError {
    type V = HeadError;

    open spec fn view(&self) -> HeadError {
        HeadError { message: self.message@, offset: self.offset as int }
    }
}

/// The one-line text of an error.
pub open spec fn error_text(e: HeadError) -> Seq<char> {
    e.message + " (at byte offset "@ + dec(e.offset as nat) + ")"@
}

impl GgufError {
    /// The error as one line: the message, and where it was detected.
    pub fn to_text(&self) -> (r: String)
        ensures
            r@ == error_text(self@),
    {
        let mut s = self.message.clone();
        s.append(" (at byte offset ");
        push_dec(&mut s, self.offset as u128);
        s.append(")");
        s
    }

    /// Whether the bytes ended before the head did, so that more of the same
    /// file may decode.
    pub fn is_truncated(&self) -> (r: bool)
        ensures
            r == (self@.message == eof_text()),
    {
        str_eq(
            self.message.as_str(),
            "unexpected end of file while reading the head (truncated file?)",
        )
    }
}

/// The parsed head of a GGUF file plus the layout facts editing needs.
#[derive(Debug)]
pub struct Gguf {
    pub version: u32,
    pub kvs: Vec<KvPair>,
    pub tensors: Vec<TensorInfo>,
    /// Effective alignment (from `general.alignment`, default 32).
    pub alignment: u64,
    /// Offset right after the last tensor descriptor, before padding.
    pub head_end: u64,
    /// Absolute offset where the tensor-data section begins.
    pub data_start: u64,
    /// Total file length in bytes.
    pub file_len: u64,
}

impl View for Gguf {
    type V = SpecHead;

    open spec fn view(&self) -> SpecHead {
        SpecHead {
            version: self.version,
            kvs: kvs_view(self.kvs@),
            tensors: tensors_view(self.tensors@),
            alignment: self.alignment,
            head_end: self.head_end as int,
            data_start: self.data_start as int,
        }
    }
}

impl Clone for Gguf {
    fn clone(&self) -> (r: Self)
        ensures
            r@ == self@,
            r.file_len == self.file_len,
    {
        Gguf {
            version: self.version,
            kvs: clone_kvs(&self.kvs),
            tensors: clone_tensors(&self.tensors),
            alignment: self.alignment,
            head_end: self.head_end,
            data_start: self.data_start,
            file_len: self.file_len,
        }
    }
}

/// The contents of a pair's value, where the pair is there.
pub open spec fn opt_value(v: Option<&GgufValue>) -> Option<SpecValue> {
    match v {
        Some(x) => Some(x@),
        None => None,
    }
}

/// First value for `key`, in file order.
pub fn find_value<'a>(kvs: &'a [KvPair], key: &str) -> (r: Option<&'a GgufValue>)
    ensures
        opt_value(r) == value_of(kvs_view(kvs@), key@),
{
    let ghost all = kvs_view(kvs@);
    let mut i: usize = 0;
    assert(all.skip(0) =~= all);
    while i < kvs.len()
        invariant
            i <= kvs@.len(),
            all == kvs_view(kvs@),
            value_of(all, key@) == value_of(all.skip(i as int), key@),
        decreases kvs@.len() - i,
    {
        assert(all.skip(i as int)[0] == kvs@[i as int]@);
        if str_eq(kvs[i].key.as_str(), key) {
            return Some(&kvs[i].value);
        }
        i += 1;
        assert(all.skip(i - 1).skip(1) =~= all.skip(i as int));
    }
    None
}

impl Gguf {
    /// First value for `key`, in file order.
    pub fn get(&self, key: &str) -> (r: Option<&GgufValue>)
        ensures
            opt_value(r) == value_of(self@.kvs, key@),
    {
        find_value(&self.kvs, key)
    }

    /// Length of the tensor-data section (zero for metadata-only files).
    pub fn data_len(&self) -> (r: u64)
        ensures
            r == if self.file_len >= self.data_start {
                self.file_len - self.data_start
            } else {
                0
            },
    {
        if self.file_len >= self.data_start {
            self.file_len - self.data_start
        } else {
            0
        }
    }
}

/// `r` is what decoding gives.
pub open spec fn decodes<T: View>(
    r: Result<(T, usize), GgufError>,
    d: Decoded<T::V>,
    len: nat,
) -> bool {
    match (r, d) {
        (Ok((v, q)), Ok((w, e))) => v@ == w && q == e && q <= len,
        (Err(e), Err(f)) => e@ == f,
        _ => false,
    }
}

/// An error at a position.
fn fail(offset: usize, message: String) -> (r: GgufError)
    requires
        offset <= i64::MAX,
    ensures
        r@ == (HeadError { message: message@, offset: offset as int }),
{
    GgufError { message, offset: offset as u64 }
}

/// The error for bytes that end at or after `offset`, inside the head.
fn eof_error(offset: usize) -> (r: GgufError)
    requires
        offset <= i64::MAX,
    ensures
        r@ == (HeadError { message: eof_text(), offset: offset as int }),
{
    fail(
        offset,
        "unexpected end of file while reading the head (truncated file?)".to_string(),
    )
}

/// The little-endian integer of `k` bytes at `p`.
fn read_uint(b: &[u8], p: usize, k: usize) -> (r: Result<(u64, usize), GgufError>)
    requires
        p <= b@.len() <= i64::MAX,
        k <= 8,
    ensures
        match (r, uint_at(b@, p as int, k as nat)) {
            (Ok((v, q)), Ok((n, e))) => v == n && n < pow256(k as nat) && q == e && q <= b@.len(),
            (Err(e), Err(f)) => e@ == f,
            _ => false,
        },
{
    let n: usize = b.len();
    if k > n - p {
        return Err(eof_error(p));
    }
    let mut v: u64 = 0;
    let mut i: usize = k;
    proof {
        lemma_pow256_values();
    }
    assert(b@.subrange(p + k, p + k) =~= Seq::<u8>::empty());
    while i > 0
        invariant
            i <= k <= 8,
            n == b@.len(),
            p + k <= b@.len() <= i64::MAX,
            pow256(8) == 0x1_0000_0000_0000_0000,
            v == le_value(b@.subrange(p + i, p + k)),
        decreases i,
    {
        let ghost tail = b@.subrange(p + i, p + k);
        let ghost longer = b@.subrange(p + i - 1, p + k);
        proof {
            assert(longer.drop_first() =~= tail);
            lemma_le_value_bound(longer);
            lemma_pow256_mono(longer.len(), 8);
        }
        i -= 1;
        v = (b[p + i] as u64) + 256 * v;
    }
    proof {
        lemma_le_value_bound(b@.subrange(p as int, p + k));
    }
    Ok((v, p + k))
}

/// A longer byte string may stand for a larger number.
proof fn lemma_pow256_mono(a: nat, b: nat)
    requires
        a <= b,
    ensures
        pow256(a) <= pow256(b),
    decreases b,
{
    if a < b {
        lemma_pow256_mono(a, (b - 1) as nat);
    }
}

/// The bytes `b[p..p + k]`, copied.
fn copy_range(b: &[u8], p: usize, k: usize) -> (r: Vec<u8>)
    requires
        p + k <= b@.len(),
    ensures
        r@ == b@.subrange(p as int, p + k),
{
    let mut out: Vec<u8> = Vec::new();
    let mut i: usize = 0;
    let n: usize = b.len();
    while i < k
        invariant
            i <= k,
            p + k <= b@.len(),
            n == b@.len(),
            out@ == b@.subrange(p as int, p + i),
        decreases k - i,
    {
        out.push(b[p + i]);
        i += 1;
        assert(out@ =~= b@.subrange(p as int, p + i));
    }
    out
}

/// The string at `p`; `what` names it in errors.
fn read_string(b: &[u8], p: usize, what: &str) -> (r: Result<(String, usize), GgufError>)
    requires
        p <= b@.len() <= i64::MAX,
    ensures
        decodes(r, string_at(b@, p as int, what@), b@.len()),
{
    match read_uint(b, p, 8) {
        Err(e) => Err(e),
        Ok((len, q)) => {
            if len > MAX_STRING_LEN {
                let mut m = what.to_string();
                m.append(" length ");
                push_dec(&mut m, len as u128);
                m.append(" exceeds the ");
                push_dec(&mut m, MAX_STRING_LEN as u128);
                m.append("-byte sanity cap");
                return Err(fail(p, m));
            }
            let n: usize = len as usize;
            if n > b.len() - q {
                return Err(eof_error(q));
            }
            let bytes = copy_range(b, q, n);
            match string_from_utf8(bytes) {
                Some(s) => Ok((s, q + n)),
                None => {
                    let mut m = what.to_string();
                    m.append(" is not valid UTF-8");
                    Err(fail(p, m))
                },
            }
        },
    }
}

/// The element type and element count of the array at `p`.
fn read_array_header(b: &[u8], p: usize) -> (r: Result<((GgufType, u64), usize), GgufError>)
    requires
        p <= b@.len() <= i64::MAX,
    ensures
        match (r, array_header_at(b@, p as int)) {
            (Ok(((t, n), q)), Ok(((u, m), e))) => t == u && n == m && q == e && q <= b@.len(),
            (Err(e), Err(f)) => e@ == f,
            _ => false,
        },
{
    proof {
        lemma_pow256_values();
    }
    match read_uint(b, p, 4) {
        Err(e) => Err(e),
        Ok((code, q)) => match GgufType::from_code(code as u32) {
            None => {
                let mut m = "unknown array element type code ".to_string();
                push_dec(&mut m, code as u128);
                Err(fail(p, m))
            },
            Some(elem) => match read_uint(b, q, 8) {
                Err(e) => Err(e),
                Ok((count, t)) => {
                    if count > MAX_ARRAY_LEN {
                        let mut m = "array length ".to_string();
                        push_dec(&mut m, count as u128);
                        m.append(" exceeds the ");
                        push_dec(&mut m, MAX_ARRAY_LEN as u128);
                        m.append("-element sanity cap");
                        return Err(fail(p, m));
                    }
                    Ok(((elem, count), t))
                },
            },
        },
    }
}

/// The value of type `ty` at `p`, inside `depth` arrays.
fn read_value(b: &[u8], p: usize, ty: GgufType, depth: u32) -> (r: Result<
    (GgufValue, usize),
    GgufError,
>)
    requires
        p <= b@.len() <= i64::MAX,
        depth <= MAX_ARRAY_DEPTH,
    ensures
        decodes(r, value_at(b@, p as int, ty, depth as nat), b@.len()),
    decreases 8 - depth,
{
    proof {
        lemma_pow256_values();
    }
    match ty {
        GgufType::U8 => match read_uint(b, p, 1) {
            Ok((n, q)) => Ok((GgufValue::U8(n as u8), q)),
            Err(e) => Err(e),
        },
        GgufType::I8 => match read_uint(b, p, 1) {
            Ok((n, q)) => Ok((GgufValue::I8(n as u8 as i8), q)),
            Err(e) => Err(e),
        },
        GgufType::U16 => match read_uint(b, p, 2) {
            Ok((n, q)) => Ok((GgufValue::U16(n as u16), q)),
            Err(e) => Err(e),
        },
        GgufType::I16 => match read_uint(b, p, 2) {
            Ok((n, q)) => Ok((GgufValue::I16(n as u16 as i16), q)),
            Err(e) => Err(e),
        },
        GgufType::U32 => match read_uint(b, p, 4) {
            Ok((n, q)) => Ok((GgufValue::U32(n as u32), q)),
            Err(e) => Err(e),
        },
        GgufType::I32 => match read_uint(b, p, 4) {
            Ok((n, q)) => Ok((GgufValue::I32(n as u32 as i32), q)),
            Err(e) => Err(e),
        },
        GgufType::F32 => match read_uint(b, p, 4) {
            Ok((n, q)) => Ok((GgufValue::F32(n as u32), q)),
            Err(e) => Err(e),
        },
        GgufType::Bool => match read_uint(b, p, 1) {
            Ok((n, q)) => Ok((GgufValue::Bool(n != 0), q)),
            Err(e) => Err(e),
        },
        GgufType::Str => match read_string(b, p, "string value") {
            Ok((s, q)) => Ok((GgufValue::Str(s), q)),
            Err(e) => Err(e),
        },
        GgufType::U64 => match read_uint(b, p, 8) {
            Ok((n, q)) => Ok((GgufValue::U64(n), q)),
            Err(e) => Err(e),
        },
        GgufType::I64 => match read_uint(b, p, 8) {
            Ok((n, q)) => Ok((GgufValue::I64(n as i64), q)),
            Err(e) => Err(e),
        },
        GgufType::F64 => match read_uint(b, p, 8) {
            Ok((n, q)) => Ok((GgufValue::F64(n), q)),
            Err(e) => Err(e),
        },
        GgufType::Array => {
            if depth >= MAX_ARRAY_DEPTH {
                let mut m = "arrays nested deeper than ".to_string();
                push_dec(&mut m, MAX_ARRAY_DEPTH as u128);
                m.append(" levels");
                return Err(fail(p, m));
            }
            match read_array_header(b, p) {
                Err(e) => Err(e),
                Ok(((elem, count), q)) => {
                    let mut items: Vec<GgufValue> = Vec::new();
                    let mut at: usize = q;
                    let mut i: u64 = 0;
                    assert(values_view(items@) =~= Seq::<SpecValue>::empty());
                    assert(forall|s: Seq<SpecValue>| #[trigger] (Seq::<SpecValue>::empty() + s) =~= s);
                    while i < count
                        invariant
                            i <= count,
                            ty == GgufType::Array,
                            array_header_at(b@, p as int) == Ok::<
                                ((GgufType, nat), int),
                                HeadError,
                            >(((elem, count as nat), q as int)),
                            at <= b@.len() <= i64::MAX,
                            depth < MAX_ARRAY_DEPTH,
                            prefixed(
                                values_at(b@, q as int, elem, (depth + 1) as nat, count as nat),
                                values_view(items@),
                                values_at(
                                    b@,
                                    at as int,
                                    elem,
                                    (depth + 1) as nat,
                                    (count - i) as nat,
                                ),
                            ),
                        decreases count - i,
                    {
                        let ghost before = values_view(items@);
                        match read_value(b, at, elem, depth + 1) {
                            Err(e) => {
                                return Err(e);
                            },
                            Ok((v, next)) => {
                                items.push(v);
                                proof {
                                    assert(values_view(items@) =~= before + seq![v@]);
                                    lemma_prefixed_step(before, v@);
                                }
                                at = next;
                            },
                        }
                        i += 1;
                    }
                    proof {
                        lemma_array_view(elem, items);
                        assert(values_view(items@) + Seq::<SpecValue>::empty() =~= values_view(
                            items@,
                        ));
                    }
                    Ok((GgufValue::Array(elem, items), at))
                },
            }
        },
    }
}

/// Decoding a run is decoding what is left of it, behind what was decoded
/// before.
spec fn prefixed<T>(whole: Decoded<Seq<T>>, done: Seq<T>, left: Decoded<Seq<T>>) -> bool {
    match left {
        Ok((rest, r)) => whole == Ok::<(Seq<T>, int), HeadError>((done + rest, r)),
        Err(e) => whole == Err::<(Seq<T>, int), HeadError>(e),
    }
}

/// Moving one item from what is left to what is done keeps the order.
proof fn lemma_prefixed_step<T>(done: Seq<T>, v: T)
    ensures
        forall|rest: Seq<T>| #[trigger] (done + (seq![v] + rest)) == (done + seq![v]) + rest,
{
    assert forall|rest: Seq<T>| #[trigger] (done + (seq![v] + rest)) == (done + seq![v]) + rest by {
        assert(done + (seq![v] + rest) =~= (done + seq![v]) + rest);
    }
}

/// The metadata pair at `p`.
fn read_kv(b: &[u8], p: usize) -> (r: Result<(KvPair, usize), GgufError>)
    requires
        p <= b@.len() <= i64::MAX,
    ensures
        decodes(r, kv_at(b@, p as int), b@.len()),
{
    proof {
        lemma_pow256_values();
    }
    match read_string(b, p, "metadata key") {
        Err(e) => Err(e),
        Ok((key, q)) => match read_uint(b, q, 4) {
            Err(e) => Err(e),
            Ok((code, t)) => match GgufType::from_code(code as u32) {
                None => {
                    let mut m = "unknown metadata value type code ".to_string();
                    push_dec(&mut m, code as u128);
                    m.append(" for key '");
                    m.append(key.as_str());
                    m.append("'");
                    Err(fail(q, m))
                },
                Some(ty) => match read_value(b, t, ty, 0) {
                    Err(e) => Err(e),
                    Ok((value, end)) => Ok((KvPair { key, value }, end)),
                },
            },
        },
    }
}

/// The tensor descriptor at `p`.
fn read_tensor(b: &[u8], p: usize) -> (r: Result<(TensorInfo, usize), GgufError>)
    requires
        p <= b@.len() <= i64::MAX,
    ensures
        decodes(r, tensor_at(b@, p as int), b@.len()),
{
    proof {
        lemma_pow256_values();
    }
    match read_string(b, p, "tensor name") {
        Err(e) => Err(e),
        Ok((name, q)) => match read_uint(b, q, 4) {
            Err(e) => Err(e),
            Ok((n_dims, t)) => {
                if n_dims == 0 || n_dims > MAX_DIMS as u64 {
                    let mut m = "tensor '".to_string();
                    m.append(name.as_str());
                    m.append("' has ");
                    push_dec(&mut m, n_dims as u128);
                    m.append(" dimensions (GGUF allows 1..=");
                    push_dec(&mut m, MAX_DIMS as u128);
                    m.append(")");
                    return Err(fail(q, m));
                }
                let mut dims: Vec<u64> = Vec::new();
                let mut at: usize = t;
                let mut i: u64 = 0;
                assert(forall|s: Seq<u64>| #[trigger] (Seq::<u64>::empty() + s) =~= s);
                while i < n_dims
                    invariant
                        i <= n_dims,
                        0 < n_dims <= MAX_DIMS,
                        string_at(b@, p as int, "tensor name"@) == Ok::<
                            (Seq<char>, int),
                            HeadError,
                        >((name@, q as int)),
                        uint_at(b@, q as int, 4) == Ok::<(nat, int), HeadError>(
                            (n_dims as nat, t as int),
                        ),
                        at <= b@.len() <= i64::MAX,
                        pow256(8) == 0x1_0000_0000_0000_0000,
                        prefixed(
                            dims_at(b@, t as int, n_dims as nat),
                            dims@,
                            dims_at(b@, at as int, (n_dims - i) as nat),
                        ),
                    decreases n_dims - i,
                {
                    let ghost before = dims@;
                    match read_uint(b, at, 8) {
                        Err(e) => {
                            return Err(e);
                        },
                        Ok((d, next)) => {
                            dims.push(d);
                            proof {
                                assert(dims@ =~= before + seq![d]);
                                lemma_prefixed_step(before, d);
                            }
                            at = next;
                        },
                    }
                    i += 1;
                }
                assert(dims@ + Seq::<u64>::empty() =~= dims@);
                match read_uint(b, at, 4) {
                    Err(e) => Err(e),
                    Ok((code, u)) => match read_uint(b, u, 8) {
                        Err(e) => Err(e),
                        Ok((offset, end)) => Ok(
                            (TensorInfo { name, dims, type_code: code as u32, offset }, end),
                        ),
                    },
                }
            },
        },
    }
}

/// Append a byte as two hexadecimal digits.
fn push_hex_byte(out: &mut String, x: u8)
    ensures
        final(out)@ == old(out)@ + hex_byte(x),
{
    out.push(hex_digit(x / 16));
    out.push(hex_digit(x % 16));
    assert(out@ =~= old(out)@ + hex_byte(x));
}

/// Version, tensor count and metadata count from the start of the bytes.
fn read_counts(b: &[u8]) -> (r: Result<((u32, u64, u64), usize), GgufError>)
    requires
        b@.len() <= i64::MAX,
    ensures
        match (r, counts_at(b@)) {
            (Ok(((v, n, m), q)), Ok(((w, k, l), e))) => v == w && n == k && m == l && q == e && q
                <= b@.len(),
            (Err(e), Err(f)) => e@ == f,
            _ => false,
        },
{
    proof {
        lemma_pow256_values();
    }
    if b.len() < 4 {
        return Err(eof_error(0));
    }
    let ghost magic = b@.subrange(0, 4);
    assert(magic[0] == b@[0] && magic[1] == b@[1] && magic[2] == b@[2] && magic[3] == b@[3]);
    if !(b[0] == 0x47 && b[1] == 0x47 && b[2] == 0x55 && b[3] == 0x46) {
        let ghost wanted = seq![0x47u8, 0x47u8, 0x55u8, 0x46u8];
        assert(magic != wanted) by {
            assert(wanted[0] == 0x47 && wanted[1] == 0x47 && wanted[2] == 0x55 && wanted[3]
                == 0x46);
        }
        let mut m = "not a GGUF file (magic [".to_string();
        push_hex_byte(&mut m, b[0]);
        m.append(", ");
        push_hex_byte(&mut m, b[1]);
        m.append(", ");
        push_hex_byte(&mut m, b[2]);
        m.append(", ");
        push_hex_byte(&mut m, b[3]);
        m.append("], expected \"GGUF\")");
        return Err(fail(0, m));
    }
    assert(magic =~= seq![0x47u8, 0x47u8, 0x55u8, 0x46u8]);
    match read_uint(b, 4, 4) {
        Err(e) => Err(e),
        Ok((version, _)) => {
            if version == 1 {
                return Err(
                    fail(
                        4,
                        "GGUF v1 (32-bit lengths) is not supported; convert it to v3 first".to_string(),
                    ),
                );
            }
            if version == 0x0100_0000 || version == 0x0200_0000 || version == 0x0300_0000 {
                return Err(
                    fail(
                        4,
                        "big-endian GGUF is not supported (the version field is byte-swapped)".to_string(),
                    ),
                );
            }
            if version != 2 && version != 3 {
                let mut m = "unsupported GGUF version ".to_string();
                push_dec(&mut m, version as u128);
                return Err(fail(4, m));
            }
            match read_uint(b, 8, 8) {
                Err(e) => Err(e),
                Ok((n_tensors, _)) => {
                    if n_tensors > MAX_TENSOR_COUNT {
                        let mut m = "tensor count ".to_string();
                        push_dec(&mut m, n_tensors as u128);
                        m.append(" exceeds the sanity cap");
                        return Err(fail(8, m));
                    }
                    match read_uint(b, 16, 8) {
                        Err(e) => Err(e),
                        Ok((n_kvs, p)) => {
                            if n_kvs > MAX_KV_COUNT {
                                let mut m = "metadata count ".to_string();
                                push_dec(&mut m, n_kvs as u128);
                                m.append(" exceeds the sanity cap");
                                return Err(fail(16, m));
                            }
                            Ok(((version as u32, n_tensors, n_kvs), p))
                        },
                    }
                },
            }
        },
    }
}

/// Determine the effective alignment from parsed metadata.
fn effective_alignment(kvs: &[KvPair], head_end: usize) -> (r: Result<u64, GgufError>)
    requires
        head_end <= i64::MAX,
    ensures
        match (r, alignment_of(kvs_view(kvs@), head_end as int)) {
            (Ok(a), Ok(c)) => a == c && a > 0,
            (Err(e), Err(f)) => e@ == f,
            _ => false,
        },
{
    match find_value(kvs, ALIGNMENT_KEY) {
        None => Ok(DEFAULT_ALIGNMENT),
        Some(value) => match value.as_u64() {
            Some(a) => {
                if a == 0 {
                    return Err(
                        fail(head_end, "general.alignment is 0, which is invalid".to_string()),
                    );
                }
                Ok(a)
            },
            None => {
                let mut m = "general.alignment must be an unsigned integer, found ".to_string();
                m.append(value.type_label().as_str());
                Err(fail(head_end, m))
            },
        },
    }
}

/// `r` is the head that `b` starts with, or the error that reading it gives.
pub open spec fn parses(b: Seq<u8>, r: Result<Gguf, GgufError>) -> bool {
    match (r, head_of(b)) {
        (Ok(g), Ok(h)) => g@ == h && g.head_end <= b.len(),
        (Err(e), Err(f)) => e@ == f,
        _ => false,
    }
}

/// Parse a GGUF head from the first bytes of a file. `file_len` is the total
/// file size and is only used to compute the data-section extent, never to read
/// ahead. (No slice is longer than `i64::MAX` bytes; up to there every offset
/// fits in 64 bits.)
pub fn parse_head(bytes: &[u8], file_len: u64) -> (r: Result<Gguf, GgufError>)
    requires
        bytes@.len() <= i64::MAX,
    ensures
        parses(bytes@, r),
        r matches Ok(g) ==> g.file_len == file_len,
{
    match read_counts(bytes) {
        Err(e) => Err(e),
        Ok(((version, n_tensors, n_kvs), p)) => {
            let mut kvs: Vec<KvPair> = Vec::new();
            let mut at: usize = p;
            let mut i: u64 = 0;
            assert(kvs_view(kvs@) =~= Seq::<SpecKv>::empty());
            assert(forall|s: Seq<SpecKv>| #[trigger] (Seq::<SpecKv>::empty() + s) =~= s);
            while i < n_kvs
                invariant
                    i <= n_kvs,
                    at <= bytes@.len() <= i64::MAX,
                    counts_at(bytes@) == Ok::<((u32, nat, nat), int), HeadError>(
                        ((version, n_tensors as nat, n_kvs as nat), p as int),
                    ),
                    prefixed(
                        kvs_at(bytes@, p as int, n_kvs as nat),
                        kvs_view(kvs@),
                        kvs_at(bytes@, at as int, (n_kvs - i) as nat),
                    ),
                decreases n_kvs - i,
            {
                let ghost before = kvs_view(kvs@);
                match read_kv(bytes, at) {
                    Err(e) => {
                        return Err(e);
                    },
                    Ok((kv, next)) => {
                        kvs.push(kv);
                        proof {
                            assert(kvs_view(kvs@) =~= before + seq![kv@]);
                            lemma_prefixed_step(before, kv@);
                        }
                        at = next;
                    },
                }
                i += 1;
            }
            assert(kvs_view(kvs@) + Seq::<SpecKv>::empty() =~= kvs_view(kvs@));
            let kvs_end: usize = at;
            let mut tensors: Vec<TensorInfo> = Vec::new();
            let mut j: u64 = 0;
            assert(tensors_view(tensors@) =~= Seq::<SpecTensor>::empty());
            assert(forall|s: Seq<SpecTensor>| #[trigger] (Seq::<SpecTensor>::empty() + s) =~= s);
            while j < n_tensors
                invariant
                    j <= n_tensors,
                    at <= bytes@.len() <= i64::MAX,
                    counts_at(bytes@) == Ok::<((u32, nat, nat), int), HeadError>(
                        ((version, n_tensors as nat, n_kvs as nat), p as int),
                    ),
                    kvs_at(bytes@, p as int, n_kvs as nat) == Ok::<(Seq<SpecKv>, int), HeadError>(
                        (kvs_view(kvs@), kvs_end as int),
                    ),
                    prefixed(
                        tensors_at(bytes@, kvs_end as int, n_tensors as nat),
                        tensors_view(tensors@),
                        tensors_at(bytes@, at as int, (n_tensors - j) as nat),
                    ),
                decreases n_tensors - j,
            {
                let ghost before = tensors_view(tensors@);
                match read_tensor(bytes, at) {
                    Err(e) => {
                        return Err(e);
                    },
                    Ok((t, next)) => {
                        tensors.push(t);
                        proof {
                            assert(tensors_view(tensors@) =~= before + seq![t@]);
                            lemma_prefixed_step(before, t@);
                        }
                        at = next;
                    },
                }
                j += 1;
            }
            assert(tensors_view(tensors@) + Seq::<SpecTensor>::empty() =~= tensors_view(tensors@));
            match effective_alignment(&kvs, at) {
                Err(e) => Err(e),
                Ok(alignment) => {
                    proof {
                        lemma_aligned_fits(at as int, alignment as int);
                    }
                    let data_start: u64 = align_up(at as u64, alignment);
                    Ok(
                        Gguf {
                            version,
                            kvs,
                            tensors,
                            alignment,
                            head_end: at as u64,
                            data_start,
                            file_len,
                        },
                    )
                },
            }
        },
    }
}

/// A position in memory can be aligned within 64 bits, whatever the alignment.
pub proof fn lemma_aligned_fits(x: int, align: int)
    requires
        0 <= x <= i64::MAX,
        0 < align <= u64::MAX,
    ensures
        aligned(x, align) <= u64::MAX,
{
    lemma_aligned(x, align);
    if x <= align {
        assert(align % align == 0) by (nonlinear_arith)
            requires
                align > 0,
        ;
    }
}

/// Whether enough of a file has been read to know its head.
#[derive(Debug)]
pub enum ReadStep {
    /// The head of the file, or what is wrong with it.
    Done(Result<Gguf, GgufError>),
    /// The head goes on behind the bytes given: read up to this many bytes.
    More(u64),
}

/// How many bytes to read first.
pub const FIRST_READ: u64 = 0x1_0000;

/// Parse the head of a file of which the first bytes have been read. Where the
/// outcome is final it is that of the whole file, whatever follows; else more
/// bytes are asked for, at least twice as many.
pub fn read_step(bytes: &[u8], file_len: u64) -> (r: ReadStep)
    requires
        bytes@.len() <= i64::MAX,
    ensures
        match r {
            ReadStep::Done(head) => {
                &&& settled(head_of(bytes@))
                &&& forall|rest: Seq<u8>| parses(#[trigger] (bytes@ + rest), head)
                &&& head matches Ok(g) ==> g.file_len == file_len
            },
            ReadStep::More(n) => {
                &&& !settled(head_of(bytes@))
                &&& n > bytes@.len()
                &&& n >= 2 * bytes@.len()
            },
        },
{
    let head = parse_head(bytes, file_len);
    let cut = match &head {
        Ok(_) => false,
        Err(e) => e.is_truncated(),
    };
    if cut {
        let n: u64 = bytes.len() as u64;
        ReadStep::More(
            if n < FIRST_READ / 2 {
                FIRST_READ
            } else {
                2 * n
            },
        )
    } else {
        proof {
            assert forall|rest: Seq<u8>| parses(#[trigger] (bytes@ + rest), head) by {
                law_first_bytes_decide(bytes@, rest);
            }
        }
        ReadStep::Done(head)
    }
}

} // verus!
