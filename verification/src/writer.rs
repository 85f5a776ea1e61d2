//! Head serialization and the in-place fit planner.
//!
//! The whole point of gguf-chisel lives here: tensor offsets in a GGUF file
//! are relative to the start of the tensor-data section, so as long as an
//! edited head still ends at the *same* aligned data offset, the tensor data
//! never has to move. The planner makes edited heads land exactly there by
//! combining two mechanisms:
//!
//! 1. the format's own alignment slack (a gap smaller than `general.alignment`
//!    is implied padding and costs nothing), and
//! 2. a managed `chisel.pad` string key whose length is tuned byte-exactly to
//!    absorb any larger gap — and which doubles as reserved headroom for
//!    future edits.
//!
//! Only when the edited head *grows past* the old data offset is a rewrite
//! unavoidable; even then the tensor bytes are carried over verbatim, never
//! re-encoded.

use crate::layout::lemma_without_key;
use crate::reader::Gguf;
use crate::template::{lemma_chatml_len, CHATML};
use crate::text::{byte_len, lemma_byte_len_bound, str_eq, str_len};
use crate::types::{
    align_step, aligned, kv, kvs_view, lemma_aligned, lemma_array_view, tensors_view, type_code,
    value_type, values_view, GgufValue, KvPair, SpecKv, SpecTensor, SpecValue, TensorInfo, MAGIC,
};
use crate::wire::{
    enc_counts, enc_dims, enc_head, enc_kv, enc_kvs, enc_str, enc_tensor, enc_tensors, enc_value,
    enc_values, le_bytes, lemma_le_len,
};
use vstd::prelude::*;
use vstd::string::*;
use vstd::utf8::*;

verus! {

/// The managed padding/headroom key. It is stripped and re-created on every
/// write, so user edits are never allowed to touch it directly.
pub const PAD_KEY: &'static str = "chisel.pad";

/// The pad key takes ten bytes.
pub proof fn lemma_pad_key_len()
    ensures
        byte_len(PAD_KEY@) == 10,
{
    reveal_strlit("chisel.pad");
    assert(is_ascii_chars(PAD_KEY@));
    is_ascii_chars_encode_utf8(PAD_KEY@);
}

/// Wire overhead of the pad key with an empty value.
pub open spec fn pad_cost() -> nat {
    8 + byte_len(PAD_KEY@) + 4 + 8
}

/// Wire overhead of the pad key with an empty value:
/// key length (8) + key bytes + value type (4) + string length (8).
pub fn pad_overhead() -> (r: u64)
    ensures
        r == pad_cost(),
        r == 30,
{
    proof {
        lemma_pad_key_len();
    }
    8 + str_len(PAD_KEY) as u64 + 4 + 8
}

/// Append the `k` low bytes of `v`, least significant first.
fn put_uint(buf: &mut Vec<u8>, v: u64, k: usize)
    ensures
        final(buf)@ == old(buf)@ + le_bytes(v as nat, k as nat),
{
    let mut x: u64 = v;
    let mut i: usize = 0;
    assert(buf@ =~= old(buf)@ + Seq::<u8>::empty());
    while i < k
        invariant
            i <= k,
            buf@ + le_bytes(x as nat, (k - i) as nat) == old(buf)@ + le_bytes(v as nat, k as nat),
        decreases k - i,
    {
        let ghost before = buf@;
        buf.push((x % 256) as u8);
        proof {
            let rest = le_bytes((x / 256) as nat, (k - i - 1) as nat);
            assert(before + (seq![(x as nat % 256) as u8] + rest) =~= buf@ + rest);
        }
        x = x / 256;
        i += 1;
    }
    assert(buf@ + Seq::<u8>::empty() =~= buf@);
}

/// Append bytes.
pub fn put_bytes(buf: &mut Vec<u8>, bytes: &[u8])
    ensures
        final(buf)@ == old(buf)@ + bytes@,
{
    buf.extend_from_slice(bytes);
    assert(buf@ =~= old(buf)@ + bytes@);
}

/// `n` zero bytes.
pub open spec fn zeros(n: nat) -> Seq<u8> {
    Seq::new(n, |i: int| 0u8)
}

/// Append zero bytes.
fn put_zeros(buf: &mut Vec<u8>, n: usize)
    ensures
        final(buf)@ == old(buf)@ + zeros(n as nat),
{
    let mut i: usize = 0;
    assert(buf@ =~= old(buf)@ + zeros(0));
    while i < n
        invariant
            i <= n,
            buf@ == old(buf)@ + zeros(i as nat),
        decreases n - i,
    {
        buf.push(0);
        i += 1;
        assert(buf@ =~= old(buf)@ + zeros(i as nat));
    }
}

/// Append a string: its byte length, then its UTF-8 bytes.
fn put_str(buf: &mut Vec<u8>, s: &str)
    ensures
        final(buf)@ == old(buf)@ + enc_str(s@),
{
    put_uint(buf, str_len(s) as u64, 8);
    put_bytes(buf, s.as_bytes());
    assert(buf@ =~= old(buf)@ + enc_str(s@));
}

/// Append a value, without its type code.
fn put_value(buf: &mut Vec<u8>, v: &GgufValue)
    ensures
        final(buf)@ == old(buf)@ + enc_value(v@),
    decreases v,
{
    match v {
        GgufValue::U8(x) => {
            buf.push(*x);
            assert(buf@ =~= old(buf)@ + enc_value(v@));
        },
        GgufValue::I8(x) => {
            buf.push(*x as u8);
            assert(buf@ =~= old(buf)@ + enc_value(v@));
        },
        GgufValue::U16(x) => put_uint(buf, *x as u64, 2),
        GgufValue::I16(x) => put_uint(buf, *x as u16 as u64, 2),
        GgufValue::U32(x) => put_uint(buf, *x as u64, 4),
        GgufValue::I32(x) => put_uint(buf, *x as u32 as u64, 4),
        GgufValue::F32(x) => put_uint(buf, *x as u64, 4),
        GgufValue::Bool(x) => {
            buf.push(
                if *x {
                    1
                } else {
                    0
                },
            );
            assert(buf@ =~= old(buf)@ + enc_value(v@));
        },
        GgufValue::Str(s) => put_str(buf, s.as_str()),
        GgufValue::U64(x) => put_uint(buf, *x, 8),
        GgufValue::I64(x) => put_uint(buf, *x as u64, 8),
        GgufValue::F64(x) => put_uint(buf, *x, 8),
        GgufValue::Array(elem, items) => {
            put_uint(buf, elem.code() as u64, 4);
            put_uint(buf, items.len() as u64, 8);
            let ghost start = buf@;
            let ghost all = values_view(items@);
            let mut i: usize = 0;
            assert(all.subrange(0, all.len() as int) =~= all);
            while i < items.len()
                invariant
                    v matches GgufValue::Array(_, its) && its == items,
                    all == values_view(items@),
                    i <= items@.len(),
                    buf@ + enc_values(all.subrange(i as int, all.len() as int)) == start
                        + enc_values(all),
                decreases items@.len() - i,
            {
                let ghost before = buf@;
                put_value(buf, &items[i]);
                proof {
                    let left = all.subrange(i as int, all.len() as int);
                    assert(left[0] == items@[i as int]@);
                    assert(left.subrange(1, left.len() as int) =~= all.subrange(
                        i + 1,
                        all.len() as int,
                    ));
                    let rest = enc_values(all.subrange(i + 1, all.len() as int));
                    assert(before + (enc_value(left[0]) + rest) =~= buf@ + rest);
                }
                i += 1;
            }
            proof {
                lemma_array_view(*elem, *items);
                assert(buf@ + Seq::<u8>::empty() =~= buf@);
                assert(buf@ =~= old(buf)@ + enc_value(v@));
            }
        },
    }
}

/// Append a metadata pair: key, type code, value.
fn put_kv(buf: &mut Vec<u8>, kv: &KvPair)
    ensures
        final(buf)@ == old(buf)@ + enc_kv(kv@),
{
    put_str(buf, kv.key.as_str());
    put_uint(buf, kv.value.ty().code() as u64, 4);
    put_value(buf, &kv.value);
    assert(buf@ =~= old(buf)@ + enc_kv(kv@));
}

/// Append a tensor descriptor: name, dimensions, type code, data offset.
fn put_tensor(buf: &mut Vec<u8>, t: &TensorInfo)
    ensures
        final(buf)@ == old(buf)@ + enc_tensor(t@),
{
    put_str(buf, t.name.as_str());
    put_uint(buf, t.dims.len() as u64, 4);
    let ghost start = buf@;
    let mut i: usize = 0;
    assert(t.dims@.skip(0) =~= t.dims@);
    while i < t.dims.len()
        invariant
            i <= t.dims@.len(),
            buf@ + enc_dims(t.dims@.skip(i as int)) == start + enc_dims(t.dims@),
        decreases t.dims@.len() - i,
    {
        let ghost before = buf@;
        put_uint(buf, t.dims[i], 8);
        proof {
            let left = t.dims@.skip(i as int);
            assert(left.skip(1) =~= t.dims@.skip(i + 1));
            let rest = enc_dims(t.dims@.skip(i + 1));
            assert(before + (le_bytes(left[0] as nat, 8) + rest) =~= buf@ + rest);
        }
        i += 1;
    }
    assert(buf@ + Seq::<u8>::empty() =~= buf@);
    put_uint(buf, t.type_code as u64, 4);
    put_uint(buf, t.offset, 8);
    assert(buf@ =~= old(buf)@ + enc_tensor(t@));
}

/// Serialize a complete head (magic through the last tensor descriptor),
/// with no trailing padding. Deterministic: same input, same bytes.
pub fn serialize_head(version: u32, kvs: &[KvPair], tensors: &[TensorInfo]) -> (r: Vec<u8>)
    ensures
        r@ == enc_head(version, kvs_view(kvs@), tensors_view(tensors@)),
{
    let mut buf: Vec<u8> = Vec::new();
    buf.push(MAGIC[0]);
    buf.push(MAGIC[1]);
    buf.push(MAGIC[2]);
    buf.push(MAGIC[3]);
    assert(buf@ =~= seq![0x47u8, 0x47u8, 0x55u8, 0x46u8]);
    put_uint(&mut buf, version as u64, 4);
    put_uint(&mut buf, tensors.len() as u64, 8);
    put_uint(&mut buf, kvs.len() as u64, 8);
    let ghost start = buf@;
    let ghost all = kvs_view(kvs@);
    assert(start == enc_counts(version, kvs@.len(), tensors@.len()));
    let mut i: usize = 0;
    assert(all.skip(0) =~= all);
    while i < kvs.len()
        invariant
            i <= kvs@.len(),
            all == kvs_view(kvs@),
            buf@ + enc_kvs(all.skip(i as int)) == start + enc_kvs(all),
        decreases kvs@.len() - i,
    {
        let ghost before = buf@;
        put_kv(&mut buf, &kvs[i]);
        proof {
            let left = all.skip(i as int);
            assert(left[0] == kvs@[i as int]@);
            assert(left.skip(1) =~= all.skip(i + 1));
            let rest = enc_kvs(all.skip(i + 1));
            assert(before + (enc_kv(left[0]) + rest) =~= buf@ + rest);
        }
        i += 1;
    }
    assert(buf@ + Seq::<u8>::empty() =~= buf@);
    let ghost middle = buf@;
    let ghost every = tensors_view(tensors@);
    let mut j: usize = 0;
    assert(every.skip(0) =~= every);
    while j < tensors.len()
        invariant
            j <= tensors@.len(),
            every == tensors_view(tensors@),
            buf@ + enc_tensors(every.skip(j as int)) == middle + enc_tensors(every),
        decreases tensors@.len() - j,
    {
        let ghost before = buf@;
        put_tensor(&mut buf, &tensors[j]);
        proof {
            let left = every.skip(j as int);
            assert(left[0] == tensors@[j as int]@);
            assert(left.skip(1) =~= every.skip(j + 1));
            let rest = enc_tensors(every.skip(j + 1));
            assert(before + (enc_tensor(left[0]) + rest) =~= buf@ + rest);
        }
        j += 1;
    }
    assert(buf@ + Seq::<u8>::empty() =~= buf@);
    buf
}

/// `kvs` without the pairs under `key`, in order.
pub open spec fn without_key(kvs: Seq<SpecKv>, key: Seq<char>) -> Seq<SpecKv>
    decreases kvs.len(),
{
    if kvs.len() == 0 {
        Seq::empty()
    } else if kvs.last().key == key {
        without_key(kvs.drop_last(), key)
    } else {
        without_key(kvs.drop_last(), key).push(kvs.last())
    }
}

/// `kvs` without the managed pad key.
pub open spec fn stripped(kvs: Seq<SpecKv>) -> Seq<SpecKv> {
    without_key(kvs, PAD_KEY@)
}

/// Return `kvs` with any managed pad key removed.
pub fn strip_pad(kvs: &[KvPair]) -> (r: Vec<KvPair>)
    ensures
        kvs_view(r@) == stripped(kvs_view(kvs@)),
{
    let ghost all = kvs_view(kvs@);
    let mut out: Vec<KvPair> = Vec::new();
    let mut i: usize = 0;
    assert(kvs_view(out@) =~= stripped(all.take(0)));
    while i < kvs.len()
        invariant
            i <= kvs@.len(),
            all == kvs_view(kvs@),
            kvs_view(out@) == stripped(all.take(i as int)),
        decreases kvs@.len() - i,
    {
        let ghost before = kvs_view(out@);
        assert(all.take(i + 1).drop_last() =~= all.take(i as int));
        assert(all.take(i + 1).last() == kvs@[i as int]@);
        if !str_eq(kvs[i].key.as_str(), PAD_KEY) {
            out.push(kvs[i].clone());
            assert(kvs_view(out@) =~= before.push(kvs@[i as int]@));
        }
        i += 1;
    }
    assert(all.take(i as int) =~= all);
    out
}

/// A pad pair with a value of `n` spaces.
pub open spec fn pad_pair(n: nat) -> SpecKv {
    SpecKv { key: PAD_KEY@, value: SpecValue::Str(Seq::new(n, |i: int| ' ')) }
}

/// A pad pair with a value of `n` spaces.
fn pad_kv(n: usize) -> (r: KvPair)
    ensures
        r@ == pad_pair(n as nat),
{
    let mut s = String::new();
    let mut i: usize = 0;
    assert(s@ =~= Seq::new(0, |j: int| ' '));
    while i < n
        invariant
            i <= n,
            s@ == Seq::new(i as nat, |j: int| ' '),
        decreases n - i,
    {
        s.push(' ');
        i += 1;
        assert(s@ =~= Seq::new(i as nat, |j: int| ' '));
    }
    KvPair { key: PAD_KEY.to_string(), value: GgufValue::Str(s) }
}

/// A pad pair takes its overhead and one byte per space.
pub proof fn lemma_pad_pair_len(n: nat)
    ensures
        enc_kv(pad_pair(n)).len() == pad_cost() + n,
{
    lemma_pad_key_len();
    let spaces = Seq::new(n, |i: int| ' ');
    assert(is_ascii_chars(spaces));
    is_ascii_chars_encode_utf8(spaces);
    lemma_le_len(byte_len(PAD_KEY@), 8);
    lemma_le_len(byte_len(spaces), 8);
    lemma_le_len(8, 4);
}

/// Adding a pair at the end adds its bytes to the head.
pub proof fn lemma_head_len_push(
    version: u32,
    kvs: Seq<SpecKv>,
    kv: SpecKv,
    tensors: Seq<SpecTensor>,
)
    ensures
        enc_head(version, kvs.push(kv), tensors).len() == enc_head(version, kvs, tensors).len()
            + enc_kv(kv).len(),
{
    lemma_enc_kvs_push(kvs, kv);
    lemma_le_len(version as nat, 4);
    lemma_le_len(tensors.len(), 8);
    lemma_le_len(kvs.len(), 8);
    lemma_le_len(kvs.push(kv).len(), 8);
}

/// Encoding pairs with one more at the end appends its encoding.
pub proof fn lemma_enc_kvs_push(kvs: Seq<SpecKv>, kv: SpecKv)
    ensures
        enc_kvs(kvs.push(kv)) == enc_kvs(kvs) + enc_kv(kv),
    decreases kvs.len(),
{
    if kvs.len() == 0 {
        assert(kvs.push(kv).skip(1) =~= Seq::<SpecKv>::empty());
        assert(enc_kvs(kvs.push(kv).skip(1)) =~= Seq::<u8>::empty());
        assert(enc_kvs(kvs.push(kv)) =~= enc_kvs(kvs) + enc_kv(kv));
    } else {
        lemma_enc_kvs_push(kvs.skip(1), kv);
        assert(kvs.push(kv).skip(1) =~= kvs.skip(1).push(kv));
        assert(enc_kvs(kvs.push(kv)) =~= enc_kvs(kvs) + enc_kv(kv));
    }
}

/// The planner's verdict for an edited head against a fixed data offset.
#[derive(Debug, PartialEq, Eq)]
pub enum FitPlan {
    /// The head fits: write `head` at offset 0, then `zero_fill` zero bytes.
    /// `head.len() + zero_fill == data_start`, so tensor data is untouched.
    InPlace { head: Vec<u8>, zero_fill: u64 },
    /// The head no longer fits before the tensor data; a rewrite is needed.
    NeedsRewrite { needed: u64, available: u64 },
}

/// What a [`FitPlan`] says.
pub enum SpecPlan {
    InPlace { head: Seq<u8>, zero_fill: nat },
    NeedsRewrite { needed: nat, available: nat },
}

impl View for FitPlan {
    type V = SpecPlan;

    open spec fn view(&self) -> SpecPlan {
        match *self {
            FitPlan::InPlace { head, zero_fill } => SpecPlan::InPlace {
                head: head@,
                zero_fill: zero_fill as nat,
            },
            FitPlan::NeedsRewrite { needed, available } => SpecPlan::NeedsRewrite {
                needed: needed as nat,
                available: available as nat,
            },
        }
    }
}

/// The plan for a head that must end at `data_start`: alignment slack where
/// that is enough, else a pad key of exactly the missing length, else a rewrite.
pub open spec fn plan(
    version: u32,
    kvs: Seq<SpecKv>,
    tensors: Seq<SpecTensor>,
    data_start: nat,
    alignment: nat,
) -> SpecPlan {
    let base = enc_head(version, stripped(kvs), tensors);
    let gap = data_start - base.len();
    if 0 <= gap < align_step(alignment as int) {
        SpecPlan::InPlace { head: base, zero_fill: gap as nat }
    } else if gap >= pad_cost() {
        SpecPlan::InPlace {
            head: enc_head(
                version,
                stripped(kvs).push(pad_pair((gap - pad_cost()) as nat)),
                tensors,
            ),
            zero_fill: 0,
        }
    } else {
        SpecPlan::NeedsRewrite { needed: base.len(), available: data_start }
    }
}

/// Plan an in-place write of the edited metadata against the *existing*
/// `data_start`. Any pre-existing pad key is stripped first, so shrinking
/// edits reclaim previously reserved space automatically.
pub fn plan_in_place(
    version: u32,
    kvs: &[KvPair],
    tensors: &[TensorInfo],
    data_start: u64,
    alignment: u64,
) -> (r: FitPlan)
    requires
        data_start <= usize::MAX,
    ensures
        r@ == plan(
            version,
            kvs_view(kvs@),
            tensors_view(tensors@),
            data_start as nat,
            alignment as nat,
        ),
        r matches FitPlan::InPlace { head, zero_fill } ==> head@.len() + zero_fill == data_start,
{
    let mut kvs = strip_pad(kvs);
    let ghost bare = kvs_view(kvs@);
    let base = serialize_head(version, &kvs, tensors);
    let end0: u64 = base.len() as u64;
    if end0 <= data_start {
        let gap: u64 = data_start - end0;
        let step: u64 = if alignment == 0 {
            1
        } else {
            alignment
        };
        if gap < step {
            // Alignment slack alone absorbs the difference.
            return FitPlan::InPlace { head: base, zero_fill: gap };
        }
        let overhead: u64 = pad_overhead();
        if gap >= overhead {
            // Tune the pad value so the head ends exactly at data_start.
            let pad = pad_kv((gap - overhead) as usize);
            kvs.push(pad);
            proof {
                assert(kvs_view(kvs@) =~= bare.push(pad@));
                lemma_pad_pair_len((gap - overhead) as nat);
                lemma_head_len_push(version, bare, pad@, tensors_view(tensors@));
            }
            let head = serialize_head(version, &kvs, tensors);
            return FitPlan::InPlace { head, zero_fill: 0 };
        }
        // Rare: alignment < 30 with a gap too big for slack but too small for
        // the pad key. Punting to a rewrite keeps the invariant simple.
    }
    proof {
        lemma_pad_key_len();
    }
    FitPlan::NeedsRewrite { needed: end0, available: data_start }
}

/// The bytes that an in-place write puts at the start of a file: the head, then
/// the zero fill. The caller guarantees (via [`plan_in_place`]) that they end at
/// the old data offset, so every byte from the tensor data onward is untouched.
pub fn head_region(head: Vec<u8>, zero_fill: u64) -> (r: Vec<u8>)
    requires
        zero_fill <= usize::MAX,
    ensures
        r@ == head@ + zeros(zero_fill as nat),
{
    let mut out = head;
    put_zeros(&mut out, zero_fill as usize);
    out
}

/// The metadata that a full write stores: no old pad key, and a pad key of
/// `reserve` bytes where headroom is asked for.
pub open spec fn with_reserve(kvs: Seq<SpecKv>, reserve: nat) -> Seq<SpecKv> {
    if reserve > 0 {
        stripped(kvs).push(pad_pair(reserve))
    } else {
        stripped(kvs)
    }
}

/// A head, zero-padded to `alignment`.
pub open spec fn padded_head(
    version: u32,
    kvs: Seq<SpecKv>,
    tensors: Seq<SpecTensor>,
    alignment: nat,
) -> Seq<u8> {
    let head = enc_head(version, kvs, tensors);
    head + zeros((aligned(head.len() as int, alignment as int) - head.len()) as nat)
}

/// Where the tensor data of a full write begins.
pub open spec fn full_data_start(
    version: u32,
    kvs: Seq<SpecKv>,
    tensors: Seq<SpecTensor>,
    alignment: nat,
    reserve: nat,
) -> int {
    aligned(
        enc_head(version, with_reserve(kvs, reserve), tensors).len() as int,
        alignment as int,
    )
}

/// The head of a full write, zero-padded up to where the tensor data begins,
/// and the length of the head alone; `None` where that is beyond what memory
/// can address.
fn full_head(
    version: u32,
    kvs: &[KvPair],
    tensors: &[TensorInfo],
    alignment: u64,
    reserve: u64,
) -> (r: Option<(Vec<u8>, u64)>)
    requires
        reserve <= usize::MAX,
    ensures
        r is Some <==> full_data_start(
            version,
            kvs_view(kvs@),
            tensors_view(tensors@),
            alignment as nat,
            reserve as nat,
        ) <= usize::MAX,
        r matches Some((bytes, len)) ==> {
            let stored = with_reserve(kvs_view(kvs@), reserve as nat);
            &&& bytes@ == padded_head(version, stored, tensors_view(tensors@), alignment as nat)
            &&& len == enc_head(version, stored, tensors_view(tensors@)).len()
        },
{
    let mut kvs = strip_pad(kvs);
    let ghost bare = kvs_view(kvs@);
    if reserve > 0 {
        let pad = pad_kv(reserve as usize);
        kvs.push(pad);
        assert(kvs_view(kvs@) =~= bare.push(pad@));
    }
    let mut buf = serialize_head(version, &kvs, tensors);
    let len: usize = buf.len();
    proof {
        lemma_aligned(len as int, alignment as int);
    }
    let step: u64 = if alignment == 0 {
        1
    } else {
        alignment
    };
    let rem: u64 = len as u64 % step;
    let fill: u64 = if rem == 0 {
        0
    } else {
        step - rem
    };
    proof {
        lemma_fill(len as int, alignment as int);
    }
    if fill > (usize::MAX - len) as u64 {
        return None;
    }
    put_zeros(&mut buf, fill as usize);
    Some((buf, len as u64))
}

/// The distance to the next aligned position is what is missing from a whole
/// alignment step.
proof fn lemma_fill(x: int, align: int)
    requires
        x >= 0,
        align >= 0,
    ensures
        ({
            let a = align_step(align);
            aligned(x, align) - x == if x % a == 0 {
                0
            } else {
                a - x % a
            }
        }),
{
    lemma_aligned(x, align);
    let a = align_step(align);
    let y = aligned(x, align);
    vstd::arithmetic::div_mod::lemma_fundamental_div_mod(x, a);
    vstd::arithmetic::div_mod::lemma_fundamental_div_mod(y, a);
    let q = x / a;
    let p = y / a;
    if x % a == 0 {
    } else {
        assert(p == q + 1) by (nonlinear_arith)
            requires
                x == a * q + x % a,
                0 < x % a < a,
                y == a * p,
                x <= y < x + a,
        ;
        assert(a * (q + 1) == a * q + a) by (nonlinear_arith);
    }
}

/// Build a complete file image in memory: head (+ optional reserved pad),
/// zero padding up to `alignment`, then `data`. Used by the sample builder
/// and by tests; big files are written piecewise, see [`rewrite_prefix`].
pub fn build_full(
    version: u32,
    kvs: &[KvPair],
    tensors: &[TensorInfo],
    data: &[u8],
    alignment: u64,
    reserve: u64,
) -> (r: Vec<u8>)
    requires
        reserve <= usize::MAX,
        full_data_start(
            version,
            kvs_view(kvs@),
            tensors_view(tensors@),
            alignment as nat,
            reserve as nat,
        ) <= usize::MAX,
    ensures
        r@ == padded_head(
            version,
            with_reserve(kvs_view(kvs@), reserve as nat),
            tensors_view(tensors@),
            alignment as nat,
        ) + data@,
{
    match full_head(version, kvs, tensors, alignment, reserve) {
        Some((head, _)) => {
            let mut buf = head;
            put_bytes(&mut buf, data);
            buf
        },
        None => Vec::new(),
    }
}

/// Everything that precedes the tensor data when a file is rewritten with
/// edited metadata: the new head (reserving `reserve` bytes of headroom via the
/// pad key) and the zero padding up to alignment. The tensor-data section
/// follows verbatim; tensor offsets are relative to it, so they need no
/// adjustment. The second component is the length of the head alone. `None`
/// where the alignment puts the data beyond what memory can address.
pub fn rewrite_prefix(g: &Gguf, reserve: u64) -> (r: Option<(Vec<u8>, u64)>)
    requires
        reserve <= usize::MAX,
    ensures
        r is Some <==> full_data_start(
            g@.version,
            g@.kvs,
            g@.tensors,
            g@.alignment as nat,
            reserve as nat,
        ) <= usize::MAX,
        r matches Some((bytes, len)) ==> {
            let stored = with_reserve(g@.kvs, reserve as nat);
            &&& bytes@ == padded_head(g@.version, stored, g@.tensors, g@.alignment as nat)
            &&& len == enc_head(g@.version, stored, g@.tensors).len()
        },
{
    full_head(g.version, &g.kvs, &g.tensors, g.alignment, reserve)
}

// ---------------------------------------------------------------------------
// The sample file
// ---------------------------------------------------------------------------

/// A string value under a key.
pub open spec fn str_pair(key: Seq<char>, value: Seq<char>) -> SpecKv {
    SpecKv { key, value: SpecValue::Str(value) }
}

/// An unsigned 32-bit value under a key.
pub open spec fn u32_pair(key: Seq<char>, value: u32) -> SpecKv {
    SpecKv { key, value: SpecValue::U32(value) }
}

/// The metadata of the sample file.
pub open spec fn sample_kvs() -> Seq<SpecKv> {
    seq![
        str_pair("general.architecture"@, "sample"@),
        str_pair("general.name"@, "gguf-chisel sample model"@),
        u32_pair("general.alignment"@, 32),
        u32_pair("general.file_type"@, 0),
        u32_pair("sample.context_length"@, 4096),
        u32_pair("sample.embedding_length"@, 8),
        u32_pair("sample.block_count"@, 1),
        str_pair("tokenizer.ggml.model"@, "none"@),
        str_pair("tokenizer.chat_template"@, CHATML@),
    ]
}

/// The tensors of the sample file.
pub open spec fn sample_tensors() -> Seq<SpecTensor> {
    seq![
        SpecTensor { name: "token_embd.weight"@, dims: seq![8u64, 4u64], type_code: 0, offset: 0 },
        SpecTensor { name: "output.weight"@, dims: seq![8u64], type_code: 0, offset: 128 },
    ]
}

/// The tensor data of the sample file: a recognizable byte pattern.
pub open spec fn sample_data() -> Seq<u8> {
    Seq::new(160, |i: int| ((i * 7 + 3) % 256) as u8)
}

/// Pairs of bounded size take at most that many bytes each.
proof fn lemma_enc_kvs_bound(kvs: Seq<SpecKv>, each: nat)
    requires
        forall|i: int| 0 <= i < kvs.len() ==> enc_kv(#[trigger] kvs[i]).len() <= each,
    ensures
        enc_kvs(kvs).len() <= kvs.len() * each,
    decreases kvs.len(),
{
    if kvs.len() > 0 {
        let rest = kvs.skip(1);
        assert forall|i: int| 0 <= i < rest.len() implies enc_kv(#[trigger] rest[i]).len()
            <= each by {
            assert(rest[i] == kvs[i + 1]);
        }
        lemma_enc_kvs_bound(rest, each);
        assert(kvs.len() * each == (kvs.len() - 1) * each + each) by (nonlinear_arith);
    } else {
        assert(0 * each == 0) by (nonlinear_arith);
    }
}

/// The pairs of the sample file are small.
proof fn lemma_sample_kv_bound(i: int)
    requires
        0 <= i < sample_kvs().len(),
    ensures
        enc_kv(sample_kvs()[i]).len() <= 2000,
{
    let kv = sample_kvs()[i];
    reveal_strlit("general.architecture");
    reveal_strlit("sample");
    reveal_strlit("general.name");
    reveal_strlit("gguf-chisel sample model");
    reveal_strlit("general.alignment");
    reveal_strlit("general.file_type");
    reveal_strlit("sample.context_length");
    reveal_strlit("sample.embedding_length");
    reveal_strlit("sample.block_count");
    reveal_strlit("tokenizer.ggml.model");
    reveal_strlit("none");
    reveal_strlit("tokenizer.chat_template");
    lemma_chatml_len();
    assert(i == 0 || i == 1 || i == 2 || i == 3 || i == 4 || i == 5 || i == 6 || i == 7 || i == 8);
    assert(kv.key.len() <= 30);
    assert(kv.value matches SpecValue::Str(s) ==> s.len() <= 400);
    lemma_byte_len_bound(kv.key);
    lemma_le_len(byte_len(kv.key), 8);
    lemma_le_len(type_code(value_type(kv.value)) as nat, 4);
    match kv.value {
        SpecValue::Str(s) => {
            lemma_byte_len_bound(s);
            lemma_le_len(byte_len(s), 8);
        },
        SpecValue::U32(x) => {
            lemma_le_len(x as nat, 4);
        },
        _ => {},
    }
}

/// The tensor descriptors of the sample file are small.
proof fn lemma_sample_tensors_bound()
    ensures
        enc_tensors(sample_tensors()).len() <= 1000,
{
    reveal_strlit("token_embd.weight");
    reveal_strlit("output.weight");
    let t = sample_tensors();
    reveal_with_fuel(enc_tensors, 3);
    reveal_with_fuel(enc_dims, 3);
    assert(t.skip(1)[0] == t[1]);
    assert(t.skip(1).skip(1).len() == 0);
    lemma_byte_len_bound(t[0].name);
    lemma_byte_len_bound(t[1].name);
    lemma_le_len(byte_len(t[0].name), 8);
    lemma_le_len(byte_len(t[1].name), 8);
    lemma_le_len(2, 4);
    lemma_le_len(1, 4);
    lemma_le_len(8, 8);
    lemma_le_len(4, 8);
    lemma_le_len(0, 4);
    lemma_le_len(0, 8);
    lemma_le_len(128, 8);
}

/// The head of the sample file is small.
proof fn lemma_sample_bound(reserve: nat)
    ensures
        full_data_start(3, sample_kvs(), sample_tensors(), 32, reserve) <= reserve + 0x1_0000,
{
    let bare = stripped(sample_kvs());
    lemma_without_key(sample_kvs(), PAD_KEY@);
    assert forall|i: int| 0 <= i < bare.len() implies enc_kv(#[trigger] bare[i]).len()
        <= 2000 by {
        let j = choose|j: int| 0 <= j < sample_kvs().len() && sample_kvs()[j] == bare[i];
        lemma_sample_kv_bound(j);
    }
    lemma_enc_kvs_bound(bare, 2000);
    lemma_sample_tensors_bound();
    lemma_le_len(3, 4);
    lemma_le_len(2, 8);
    lemma_le_len(bare.len(), 8);
    let base = enc_head(3, bare, sample_tensors());
    assert(bare.len() * 2000 <= 9 * 2000) by (nonlinear_arith)
        requires
            bare.len() <= 9,
    ;
    assert(base.len() <= 20_000);
    lemma_pad_key_len();
    lemma_pad_pair_len(reserve);
    lemma_head_len_push(3, bare, pad_pair(reserve), sample_tensors());
    let head = enc_head(3, with_reserve(sample_kvs(), reserve), sample_tensors());
    lemma_aligned(head.len() as int, 32);
}

/// Deterministic tiny GGUF written by `gguf-chisel sample`: nine metadata keys
/// (including a ChatML chat template) and two small F32 tensors with a
/// recognizable byte pattern.
pub fn sample_bytes(reserve: u64) -> (r: Vec<u8>)
    requires
        reserve + 0x1_0000 <= usize::MAX,
    ensures
        r@ == padded_head(
            3,
            with_reserve(sample_kvs(), reserve as nat),
            sample_tensors(),
            32,
        ) + sample_data(),
{
    let mut kvs: Vec<KvPair> = Vec::new();
    kvs.push(kv("general.architecture", GgufValue::Str("sample".to_string())));
    kvs.push(kv("general.name", GgufValue::Str("gguf-chisel sample model".to_string())));
    kvs.push(kv("general.alignment", GgufValue::U32(32)));
    kvs.push(kv("general.file_type", GgufValue::U32(0)));
    kvs.push(kv("sample.context_length", GgufValue::U32(4096)));
    kvs.push(kv("sample.embedding_length", GgufValue::U32(8)));
    kvs.push(kv("sample.block_count", GgufValue::U32(1)));
    kvs.push(kv("tokenizer.ggml.model", GgufValue::Str("none".to_string())));
    kvs.push(kv("tokenizer.chat_template", GgufValue::Str(CHATML.to_string())));
    assert(kvs_view(kvs@) =~= sample_kvs());
    let mut wide: Vec<u64> = Vec::new();
    wide.push(8);
    wide.push(4);
    let mut narrow: Vec<u64> = Vec::new();
    narrow.push(8);
    assert(wide@ =~= seq![8u64, 4u64]);
    assert(narrow@ =~= seq![8u64]);
    let mut tensors: Vec<TensorInfo> = Vec::new();
    tensors.push(
        TensorInfo { name: "token_embd.weight".to_string(), dims: wide, type_code: 0, offset: 0 },
    );
    tensors.push(
        TensorInfo { name: "output.weight".to_string(), dims: narrow, type_code: 0, offset: 128 },
    );
    assert(tensors_view(tensors@) =~= sample_tensors());
    let mut data: Vec<u8> = Vec::new();
    let mut i: u32 = 0;
    while i < 160
        invariant
            i <= 160,
            data@ == sample_data().take(i as int),
        decreases 160 - i,
    {
        data.push(((i * 7 + 3) % 256) as u8);
        i += 1;
        assert(data@ =~= sample_data().take(i as int));
    }
    assert(data@ =~= sample_data());
    proof {
        lemma_sample_bound(reserve as nat);
    }
    build_full(3, &kvs, &tensors, data.as_slice(), 32, reserve)
}

} // verus!
