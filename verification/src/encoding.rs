//! The bytes of a head, one by one: which byte holds what, and what reading makes
//! of them.

use crate::sizes::law_value_counts_as_its_number;
use crate::text::{byte_len, int_text};
use crate::types::{
    lemma_aligned, type_code, type_of_code, value_type, GgufType, SpecKv, SpecTensor, SpecValue,
};
use crate::wire::{
    alignment_of, enc_dims, enc_head, enc_kv, enc_kvs, enc_str, enc_tensor, enc_tensors, enc_value,
    enc_values, head_of, kv_at, law_first_bytes_decide, law_head_and_errors_lie_in_the_bytes,
    le_bytes, le_value, lemma_le_len, settled, string_at, tensor_at, uint_at, value_at, value_of,
    wf_head, wf_kv, wf_tensor, wf_value, HeadError, SpecHead,
};
use crate::writer::zeros;
use vstd::prelude::*;
use vstd::string::*;
use vstd::utf8::*;

verus! {

// ---------------------------------------------------------------------------
// Numbers
// ---------------------------------------------------------------------------

/// The number in the two bytes at `p`, the lower byte first.
pub open spec fn two_at(b: Seq<u8>, p: int) -> int {
    b[p] + 0x100 * b[p + 1]
}

/// The number in the four bytes at `p`, the lowest byte first.
pub open spec fn four_at(b: Seq<u8>, p: int) -> int {
    two_at(b, p) + 0x1_0000 * two_at(b, p + 2)
}

/// The number in the eight bytes at `p`, the lowest byte first.
pub open spec fn eight_at(b: Seq<u8>, p: int) -> int {
    four_at(b, p) + 0x1_0000_0000 * four_at(b, p + 4)
}

/// The first bytes of a number, and the bytes of what is left of it.
proof fn lemma_le_two(n: nat, k: nat)
    requires
        k >= 2,
    ensures
        le_bytes(n, k).len() == k,
        two_at(le_bytes(n, k), 0) == n % 0x1_0000,
        forall|i: int|
            2 <= i < k ==> #[trigger] le_bytes(n, k)[i] == le_bytes(n / 0x1_0000, (k - 2) as nat)[i
                - 2],
{
    reveal_with_fuel(le_bytes, 3);
    lemma_le_len(n, k);
    lemma_le_len(n / 256, (k - 1) as nat);
    let rest = le_bytes(n / 256, (k - 1) as nat);
    let more = le_bytes(n / 256 / 256, (k - 2) as nat);
    assert(n / 256 / 256 == n / 0x1_0000);
    assert(le_bytes(n, k) == seq![(n % 256) as u8] + rest);
    assert(rest == seq![((n / 256) % 256) as u8] + more);
    assert(le_bytes(n, k)[0] == (n % 256) as u8);
    assert(le_bytes(n, k)[1] == rest[0]);
    assert forall|i: int| 2 <= i < k implies #[trigger] le_bytes(n, k)[i] == more[i - 2] by {
        assert(le_bytes(n, k)[i] == rest[i - 1]);
    }
}

/// Numbers are written lowest byte first.
pub proof fn law_numbers_are_little_endian(n: nat)
    ensures
        le_bytes(n, 1) == seq![(n % 256) as u8],
        le_bytes(n, 2).len() == 2,
        n < 0x1_0000 ==> two_at(le_bytes(n, 2), 0) == n,
        le_bytes(n, 4).len() == 4,
        n < 0x1_0000_0000 ==> four_at(le_bytes(n, 4), 0) == n,
        le_bytes(n, 8).len() == 8,
        n < 0x1_0000_0000_0000_0000 ==> eight_at(le_bytes(n, 8), 0) == n,
{
    reveal_with_fuel(le_bytes, 2);
    assert(le_bytes(n, 1) =~= seq![(n % 256) as u8]);
    lemma_le_two(n, 2);
    lemma_le_four(n, 4);
    lemma_le_four(n, 8);
    lemma_le_four(n / 0x1_0000_0000, 4);
    let b = le_bytes(n, 8);
    let high = le_bytes(n / 0x1_0000_0000, 4);
    assert(b[4] == high[0] && b[5] == high[1] && b[6] == high[2] && b[7] == high[3]);
}

/// The first four bytes of a number, and the bytes of what is left of it.
proof fn lemma_le_four(n: nat, k: nat)
    requires
        k >= 4,
    ensures
        le_bytes(n, k).len() == k,
        four_at(le_bytes(n, k), 0) == n % 0x1_0000_0000,
        forall|i: int|
            4 <= i < k ==> #[trigger] le_bytes(n, k)[i] == le_bytes(
                n / 0x1_0000_0000,
                (k - 4) as nat,
            )[i - 4],
{
    lemma_le_two(n, k);
    lemma_le_two(n / 0x1_0000, (k - 2) as nat);
    let b = le_bytes(n, k);
    let c = le_bytes(n / 0x1_0000, (k - 2) as nat);
    assert(n / 0x1_0000 / 0x1_0000 == n / 0x1_0000_0000);
    assert(b[2] == c[0] && b[3] == c[1]);
    assert forall|i: int| 4 <= i < k implies #[trigger] b[i] == le_bytes(
        n / 0x1_0000_0000,
        (k - 4) as nat,
    )[i - 4] by {
        assert(b[i] == c[i - 2]);
    }
}

/// The bytes of a value: integers and floating-point numbers as so many bytes, the
/// lowest first, negative ones as what they are modulo the range; bools as one
/// byte, 1 for true and 0 for false; strings as their length in bytes, in eight
/// bytes, and their UTF-8 bytes; arrays as the code of their element type in four
/// bytes, their length in eight, and their items.
pub proof fn law_bytes_of_a_value(v: SpecValue)
    ensures
        ({
            let b = enc_value(v);
            match v {
                SpecValue::U8(x) => b == seq![x],
                SpecValue::I8(x) => b.len() == 1 && b[0] == if x < 0 {
                    x + 0x100
                } else {
                    x as int
                },
                SpecValue::Bool(x) => b == seq![
                    if x {
                        1u8
                    } else {
                        0u8
                    },
                ],
                SpecValue::U16(x) => b.len() == 2 && two_at(b, 0) == x,
                SpecValue::I16(x) => b.len() == 2 && two_at(b, 0) == if x < 0 {
                    x + 0x1_0000
                } else {
                    x as int
                },
                SpecValue::U32(x) => b.len() == 4 && four_at(b, 0) == x,
                SpecValue::I32(x) => b.len() == 4 && four_at(b, 0) == if x < 0 {
                    x + 0x1_0000_0000
                } else {
                    x as int
                },
                SpecValue::F32(x) => b.len() == 4 && four_at(b, 0) == x,
                SpecValue::U64(x) => b.len() == 8 && eight_at(b, 0) == x,
                SpecValue::I64(x) => b.len() == 8 && eight_at(b, 0) == if x < 0 {
                    x + 0x1_0000_0000_0000_0000
                } else {
                    x as int
                },
                SpecValue::F64(x) => b.len() == 8 && eight_at(b, 0) == x,
                SpecValue::Str(s) => byte_len(s) <= u64::MAX ==> b.len() == 8 + byte_len(s)
                    && eight_at(b, 0) == byte_len(s) && b.skip(8) == encode_utf8(s),
                SpecValue::Array(t, items) => items.len() <= u64::MAX ==> b.len() == 12
                    + enc_values(items).len() && four_at(b, 0) == type_code(t) && eight_at(b, 4)
                    == items.len() && b.skip(12) == enc_values(items),
            }
        }),
{
    let b = enc_value(v);
    match v {
        SpecValue::I8(x) => {
            assert(x < 0 ==> (x as u8) == x + 0x100) by (bit_vector);
            assert(x >= 0 ==> (x as u8) == x) by (bit_vector);
        },
        SpecValue::U16(x) => law_numbers_are_little_endian(x as nat),
        SpecValue::I16(x) => {
            assert(x < 0 ==> (x as u16) == x + 0x1_0000) by (bit_vector);
            assert(x >= 0 ==> (x as u16) == x) by (bit_vector);
            law_numbers_are_little_endian(x as u16 as nat);
        },
        SpecValue::U32(x) => law_numbers_are_little_endian(x as nat),
        SpecValue::I32(x) => {
            assert(x < 0 ==> (x as u32) == x + 0x1_0000_0000) by (bit_vector);
            assert(x >= 0 ==> (x as u32) == x) by (bit_vector);
            law_numbers_are_little_endian(x as u32 as nat);
        },
        SpecValue::F32(x) => law_numbers_are_little_endian(x as nat),
        SpecValue::U64(x) => law_numbers_are_little_endian(x as nat),
        SpecValue::I64(x) => {
            assert(x < 0 ==> (x as u64) == x + 0x1_0000_0000_0000_0000) by (bit_vector);
            assert(x >= 0 ==> (x as u64) == x) by (bit_vector);
            law_numbers_are_little_endian(x as u64 as nat);
        },
        SpecValue::F64(x) => law_numbers_are_little_endian(x as nat),
        SpecValue::Str(s) => {
            if byte_len(s) <= u64::MAX {
                law_bytes_of_a_string(s);
            }
        },
        SpecValue::Array(t, items) => {
            law_numbers_are_little_endian(type_code(t) as nat);
            law_numbers_are_little_endian(items.len());
            let code = le_bytes(type_code(t) as nat, 4);
            let count = le_bytes(items.len(), 8);
            assert(b.subrange(0, 4) =~= code);
            lemma_number_at(b, 0, code);
            assert(b.subrange(4, 12) =~= count);
            lemma_number_at(b, 4, count);
            assert(b.skip(12) =~= enc_values(items));
        },
        _ => {},
    }
}

/// A number in a longer run of bytes.
proof fn lemma_number_at(b: Seq<u8>, p: int, n: Seq<u8>)
    requires
        0 <= p,
        p + n.len() <= b.len(),
        b.subrange(p, p + n.len()) == n,
    ensures
        n.len() >= 4 ==> four_at(b, p) == four_at(n, 0),
        n.len() >= 8 ==> eight_at(b, p) == eight_at(n, 0),
{
    assert forall|i: int| 0 <= i < n.len() implies #[trigger] n[i] == b[p + i] by {
        assert(b.subrange(p, p + n.len())[i] == b[p + i]);
    }
    if n.len() >= 4 {
        assert(n[0] == b[p] && n[1] == b[p + 1] && n[2] == b[p + 2] && n[3] == b[p + 3]);
    }
    if n.len() >= 8 {
        assert(n[4] == b[p + 4] && n[5] == b[p + 5] && n[6] == b[p + 6] && n[7] == b[p + 7]);
    }
}

/// The bytes of a string: its length in bytes, then its UTF-8 bytes.
pub proof fn law_bytes_of_a_string(s: Seq<char>)
    requires
        byte_len(s) <= u64::MAX,
    ensures
        enc_str(s).len() == 8 + byte_len(s),
        eight_at(enc_str(s), 0) == byte_len(s),
        enc_str(s).skip(8) == encode_utf8(s),
{
    let b = enc_str(s);
    law_numbers_are_little_endian(byte_len(s));
    assert(b.subrange(0, 8) =~= le_bytes(byte_len(s), 8));
    lemma_number_at(b, 0, le_bytes(byte_len(s), 8));
    assert(b.skip(8) =~= encode_utf8(s));
}

// ---------------------------------------------------------------------------
// Pairs, tensors and heads
// ---------------------------------------------------------------------------

/// The bytes of a metadata pair: its key as a string, the code of the type of its
/// value in four bytes, and its value.
pub proof fn law_bytes_of_a_pair(kv: SpecKv)
    requires
        byte_len(kv.key) <= u64::MAX,
    ensures
        ({
            let b = enc_kv(kv);
            let n = byte_len(kv.key) as int;
            &&& b.len() == 12 + n + enc_value(kv.value).len()
            &&& eight_at(b, 0) == n
            &&& b.subrange(8, 8 + n) == encode_utf8(kv.key)
            &&& four_at(b, 8 + n) == type_code(value_type(kv.value))
            &&& b.skip(12 + n) == enc_value(kv.value)
        }),
{
    let b = enc_kv(kv);
    let n = byte_len(kv.key) as int;
    let code = le_bytes(type_code(value_type(kv.value)) as nat, 4);
    law_numbers_are_little_endian(byte_len(kv.key));
    law_numbers_are_little_endian(type_code(value_type(kv.value)) as nat);
    assert(b.subrange(0, 8) =~= le_bytes(byte_len(kv.key), 8));
    lemma_number_at(b, 0, le_bytes(byte_len(kv.key), 8));
    assert(b.subrange(8, 8 + n) =~= encode_utf8(kv.key));
    assert(b.subrange(8 + n, 12 + n) =~= code);
    lemma_number_at(b, 8 + n, code);
    assert(b.skip(12 + n) =~= enc_value(kv.value));
}

/// Dimensions take eight bytes each.
proof fn lemma_dims_bytes(dims: Seq<u64>, j: int)
    requires
        0 <= j < dims.len(),
    ensures
        enc_dims(dims).len() == 8 * dims.len(),
        eight_at(enc_dims(dims), 8 * j) == dims[j],
    decreases dims.len(),
{
    let b = enc_dims(dims);
    let first = le_bytes(dims[0] as nat, 8);
    let rest = dims.skip(1);
    let more = enc_dims(rest);
    law_numbers_are_little_endian(dims[0] as nat);
    if rest.len() > 0 {
        lemma_dims_bytes(rest, if j > 0 {
            j - 1
        } else {
            0
        });
    } else {
        assert(more.len() == 0);
    }
    if j == 0 {
        assert(b.subrange(0, 8) =~= first);
        lemma_number_at(b, 0, first);
    } else {
        let part = more.subrange(8 * (j - 1), 8 * j);
        assert(b.subrange(8 * j, 8 * j + 8) =~= part);
        lemma_number_at(b, 8 * j, part);
        lemma_number_at(more, 8 * (j - 1), part);
        assert(rest[j - 1] == dims[j]);
    }
}

/// The bytes of a tensor descriptor: its name as a string, the number of its
/// dimensions in four bytes, each dimension in eight, its type code in four and
/// its offset in eight.
pub proof fn law_bytes_of_a_tensor(t: SpecTensor, j: int)
    requires
        byte_len(t.name) <= u64::MAX,
        t.dims.len() <= u32::MAX,
    ensures
        ({
            let b = enc_tensor(t);
            let n = byte_len(t.name) as int;
            let d = n + 12 + 8 * t.dims.len() as int;
            &&& b.len() == d + 12
            &&& eight_at(b, 0) == n
            &&& b.subrange(8, 8 + n) == encode_utf8(t.name)
            &&& four_at(b, 8 + n) == t.dims.len()
            &&& 0 <= j < t.dims.len() ==> eight_at(b, 12 + n + 8 * j) == t.dims[j]
            &&& four_at(b, d) == t.type_code
            &&& eight_at(b, d + 4) == t.offset
        }),
{
    let b = enc_tensor(t);
    let n = byte_len(t.name) as int;
    let dims = enc_dims(t.dims);
    let d = n + 12 + 8 * t.dims.len() as int;
    let name = enc_str(t.name);
    let count = le_bytes(t.dims.len(), 4);
    let code = le_bytes(t.type_code as nat, 4);
    let offset = le_bytes(t.offset as nat, 8);
    law_bytes_of_a_string(t.name);
    law_numbers_are_little_endian(t.dims.len());
    law_numbers_are_little_endian(t.type_code as nat);
    law_numbers_are_little_endian(t.offset as nat);
    assert(dims.len() == 8 * t.dims.len()) by {
        if t.dims.len() > 0 {
            lemma_dims_bytes(t.dims, 0);
        }
    }
    assert(b == name + count + dims + code + offset);
    assert(eight_at(b, 0) == n && b.subrange(8, 8 + n) == encode_utf8(t.name)) by {
        assert(b.subrange(0, 8 + n) =~= name);
        lemma_number_at(b, 0, name);
        assert(b.subrange(8, 8 + n) =~= name.skip(8));
    }
    assert(four_at(b, 8 + n) == t.dims.len()) by {
        assert(b.subrange(8 + n, 12 + n) =~= count);
        lemma_number_at(b, 8 + n, count);
    }
    assert(b.subrange(12 + n, d) =~= dims);
    if 0 <= j < t.dims.len() {
        lemma_dims_bytes(t.dims, j);
        lemma_number_behind(b, 12 + n, dims, 8 * j);
    }
    assert(four_at(b, d) == t.type_code) by {
        assert(b.subrange(d, d + 4) =~= code);
        lemma_number_at(b, d, code);
    }
    assert(eight_at(b, d + 4) == t.offset) by {
        assert(b.subrange(d + 4, d + 12) =~= offset);
        lemma_number_at(b, d + 4, offset);
    }
}

/// A number within a part of a longer run of bytes.
proof fn lemma_number_behind(b: Seq<u8>, p: int, part: Seq<u8>, k: int)
    requires
        0 <= p,
        p + part.len() <= b.len(),
        b.subrange(p, p + part.len()) == part,
        0 <= k,
        k + 8 <= part.len(),
    ensures
        eight_at(b, p + k) == eight_at(part, k),
{
    let n = part.subrange(k, k + 8);
    assert(b.subrange(p + k, p + k + 8) =~= n);
    lemma_number_at(b, p + k, n);
    lemma_number_at(part, k, n);
}

/// The bytes of a head: `GGUF`, the version in four bytes, the number of tensors
/// and the number of metadata pairs in eight each; then the pairs, one after the
/// other, and the tensor descriptors, one after the other.
pub proof fn law_bytes_of_a_head(version: u32, kvs: Seq<SpecKv>, tensors: Seq<SpecTensor>)
    requires
        kvs.len() <= u64::MAX,
        tensors.len() <= u64::MAX,
    ensures
        ({
            let b = enc_head(version, kvs, tensors);
            &&& b.len() == 24 + enc_kvs(kvs).len() + enc_tensors(tensors).len()
            &&& b[0] == 'G' as u8 && b[1] == 'G' as u8 && b[2] == 'U' as u8 && b[3] == 'F' as u8
            &&& four_at(b, 4) == version
            &&& eight_at(b, 8) == tensors.len()
            &&& eight_at(b, 16) == kvs.len()
            &&& b.skip(24) == enc_kvs(kvs) + enc_tensors(tensors)
        }),
{
    let b = enc_head(version, kvs, tensors);
    law_numbers_are_little_endian(version as nat);
    law_numbers_are_little_endian(tensors.len());
    law_numbers_are_little_endian(kvs.len());
    assert(b.subrange(4, 8) =~= le_bytes(version as nat, 4));
    lemma_number_at(b, 4, le_bytes(version as nat, 4));
    assert(b.subrange(8, 16) =~= le_bytes(tensors.len(), 8));
    lemma_number_at(b, 8, le_bytes(tensors.len(), 8));
    assert(b.subrange(16, 24) =~= le_bytes(kvs.len(), 8));
    lemma_number_at(b, 16, le_bytes(kvs.len(), 8));
    assert(b.skip(24) =~= enc_kvs(kvs) + enc_tensors(tensors));
}

/// Pairs, tensor descriptors and items are written one after the other.
pub proof fn law_lists_are_written_in_order(
    kvs: Seq<SpecKv>,
    kv: SpecKv,
    tensors: Seq<SpecTensor>,
    t: SpecTensor,
    items: Seq<SpecValue>,
    v: SpecValue,
)
    ensures
        enc_kvs(seq![kv] + kvs) == enc_kv(kv) + enc_kvs(kvs),
        enc_tensors(seq![t] + tensors) == enc_tensor(t) + enc_tensors(tensors),
        enc_values(seq![v] + items) == enc_value(v) + enc_values(items),
        enc_kvs(Seq::empty()).len() == 0,
        enc_tensors(Seq::empty()).len() == 0,
        enc_values(Seq::empty()).len() == 0,
{
    assert((seq![kv] + kvs).skip(1) =~= kvs);
    assert((seq![t] + tensors).skip(1) =~= tensors);
    let all = seq![v] + items;
    assert(all.subrange(1, all.len() as int) =~= items);
}

// ---------------------------------------------------------------------------
// Reading
// ---------------------------------------------------------------------------

/// A byte is read as a bool, and as true exactly where it is not zero.
pub proof fn law_bools_that_are_read(b: Seq<u8>, p: int, depth: nat)
    requires
        0 <= p < b.len(),
    ensures
        value_at(b, p, GgufType::Bool, depth) == Ok::<(SpecValue, int), HeadError>(
            (SpecValue::Bool(b[p] != 0), p + 1),
        ),
{
    let s = b.subrange(p, p + 1);
    reveal_with_fuel(le_value, 2);
    assert(s.drop_first() =~= Seq::<u8>::empty());
    assert(le_value(s) == b[p]);
}

/// How long strings, arrays and lists may be, how deep arrays may be nested and
/// how many dimensions a tensor may have: a head is acceptable exactly within
/// these limits.
pub proof fn law_limits(version: u32, kvs: Seq<SpecKv>, tensors: Seq<SpecTensor>)
    ensures
        wf_head(version, kvs, tensors) <==> {
            &&& version == 2 || version == 3
            &&& kvs.len() <= 1048576
            &&& tensors.len() <= 1048576
            &&& forall|i: int|
                0 <= i < kvs.len() ==> byte_len((#[trigger] kvs[i]).key) <= 268435456
                    && within_limits(kvs[i].value, 4)
            &&& forall|i: int|
                0 <= i < tensors.len() ==> byte_len((#[trigger] tensors[i]).name) <= 268435456 && 1
                    <= tensors[i].dims.len() <= 4
        },
{
    assert forall|i: int| 0 <= i < kvs.len() implies (wf_value((#[trigger] kvs[i]).value, 0)
        <==> within_limits(kvs[i].value, 4)) by {
        lemma_within_limits(kvs[i].value, 0);
    }
    if wf_head(version, kvs, tensors) {
        assert forall|i: int| 0 <= i < kvs.len() implies byte_len((#[trigger] kvs[i]).key)
            <= 268435456 && within_limits(kvs[i].value, 4) by {
            assert(wf_kv(kvs[i]));
        }
        assert forall|i: int| 0 <= i < tensors.len() implies byte_len((#[trigger] tensors[i]).name)
            <= 268435456 && 1 <= tensors[i].dims.len() <= 4 by {
            assert(wf_tensor(tensors[i]));
        }
    }
}

/// A value within the limits, with so many levels of arrays left.
pub open spec fn within_limits(v: SpecValue, levels: nat) -> bool
    decreases v,
{
    match v {
        SpecValue::Str(s) => byte_len(s) <= 268435456,
        SpecValue::Array(t, items) => {
            &&& levels > 0
            &&& items.len() <= 268435456
            &&& forall|i: int|
                0 <= i < items.len() ==> value_type(#[trigger] items[i]) == t && within_limits(
                    items[i],
                    (levels - 1) as nat,
                )
        },
        _ => true,
    }
}

/// A value is acceptable exactly within the limits.
proof fn lemma_within_limits(v: SpecValue, depth: nat)
    requires
        depth <= 4,
    ensures
        wf_value(v, depth) <==> within_limits(v, (4 - depth) as nat),
    decreases v,
{
    if let SpecValue::Array(t, items) = v {
        if depth < 4 {
            assert forall|i: int| 0 <= i < items.len() implies (wf_value(
                #[trigger] items[i],
                depth + 1,
            ) <==> within_limits(items[i], (3 - depth) as nat)) by {
                lemma_within_limits(items[i], depth + 1);
            }
        }
    }
}

/// The alignment of a head is 32 where its metadata names none, and else the
/// number that stands first under `general.alignment`, an integer of whatever
/// width; zero, a negative number and anything else there is an error. The tensor
/// data starts at the first multiple of the alignment that is not before the end
/// of the head.
pub proof fn law_alignment_of_a_head(b: Seq<u8>)
    ensures
        head_of(b) matches Ok(h) ==> {
            &&& value_of(h.kvs, "general.alignment"@) is None ==> h.alignment == 32
            &&& value_of(h.kvs, "general.alignment"@) matches Some(v) ==> h.alignment > 0 && match v {
                SpecValue::U8(x) => x == h.alignment,
                SpecValue::I8(x) => x == h.alignment,
                SpecValue::U16(x) => x == h.alignment,
                SpecValue::I16(x) => x == h.alignment,
                SpecValue::U32(x) => x == h.alignment,
                SpecValue::I32(x) => x == h.alignment,
                SpecValue::U64(x) => x == h.alignment,
                SpecValue::I64(x) => x == h.alignment,
                _ => false,
            }
            &&& h.head_end <= h.data_start < h.head_end + h.alignment
            &&& h.data_start % (h.alignment as int) == 0
        },
{
    if let Ok(h) = head_of(b) {
        law_head_and_errors_lie_in_the_bytes(b);
        lemma_aligned(h.head_end, h.alignment as int);
        if let Some(v) = value_of(h.kvs, "general.alignment"@) {
            law_value_counts_as_its_number(v, h.alignment);
        }
    }
}

/// Eight bytes and four bytes, read as a number.
proof fn lemma_numbers_read(b: Seq<u8>, p: int)
    requires
        0 <= p,
    ensures
        p + 4 <= b.len() ==> uint_at(b, p, 4) == Ok::<(nat, int), HeadError>(
            (four_at(b, p) as nat, p + 4),
        ),
        p + 8 <= b.len() ==> uint_at(b, p, 8) == Ok::<(nat, int), HeadError>(
            (eight_at(b, p) as nat, p + 8),
        ),
{
    if p + 4 <= b.len() {
        lemma_four_read(b, p);
    }
    if p + 8 <= b.len() {
        lemma_four_read(b, p + 4);
        let s = b.subrange(p, p + 8);
        let s1 = s.drop_first();
        let s2 = s1.drop_first();
        let s3 = s2.drop_first();
        assert(s3.drop_first() =~= b.subrange(p + 4, p + 8));
        assert(s[0] == b[p] && s1[0] == b[p + 1] && s2[0] == b[p + 2] && s3[0] == b[p + 3]);
        let high = le_value(b.subrange(p + 4, p + 8));
        assert(le_value(s3) == s3[0] + 256 * high);
        assert(le_value(s2) == s2[0] + 256 * le_value(s3));
        assert(le_value(s1) == s1[0] + 256 * le_value(s2));
        assert(le_value(s) == s[0] + 256 * le_value(s1));
    }
}

/// The number in four bytes.
proof fn lemma_four_read(b: Seq<u8>, p: int)
    requires
        0 <= p,
        p + 4 <= b.len(),
    ensures
        le_value(b.subrange(p, p + 4)) == four_at(b, p),
{
    let s = b.subrange(p, p + 4);
    let s1 = s.drop_first();
    let s2 = s1.drop_first();
    let s3 = s2.drop_first();
    assert(s3.drop_first() =~= Seq::<u8>::empty());
    assert(s[0] == b[p] && s1[0] == b[p + 1] && s2[0] == b[p + 2] && s3[0] == b[p + 3]);
    assert(le_value(Seq::<u8>::empty()) == 0);
    assert(le_value(s3) == s3[0]);
    assert(le_value(s2) == s2[0] + 256 * le_value(s3));
    assert(le_value(s1) == s1[0] + 256 * le_value(s2));
    assert(le_value(s) == s[0] + 256 * le_value(s1));
}

/// The bytes are refused for what stands at `p`.
pub open spec fn complains_at(b: Seq<u8>, p: int) -> bool {
    head_of(b) matches Err(e) && e.offset == p
}

/// What is wrong with the start of a file is complained about where it stands:
/// bytes that are not `GGUF` at 0, a version that is neither 2 nor 3 at 4, too many
/// tensors at 8 and too many pairs at 16.
pub proof fn law_complaints_about_the_start(b: Seq<u8>)
    ensures
        ({
            let marked = b.take(4) == seq!['G' as u8, 'G' as u8, 'U' as u8, 'F' as u8];
            let version = four_at(b, 4);
            let known = marked && (version == 2 || version == 3);
            &&& b.len() >= 4 && !marked ==> complains_at(b, 0)
            &&& b.len() >= 8 && marked && !known ==> complains_at(b, 4)
            &&& b.len() >= 16 && known && eight_at(b, 8) > 1048576 ==> complains_at(b, 8)
            &&& b.len() >= 24 && known && eight_at(b, 8) <= 1048576 && eight_at(b, 16) > 1048576
                ==> complains_at(b, 16)
        }),
{
    lemma_numbers_read(b, 4);
    lemma_numbers_read(b, 8);
    lemma_numbers_read(b, 16);
    if b.len() >= 4 {
        assert(b.subrange(0, 4) =~= b.take(4));
    }
}

/// A head that is cut short anywhere is reported as one that ended too early.
pub proof fn law_a_head_cut_short_is_truncated(b: Seq<u8>, h: SpecHead, k: int)
    requires
        head_of(b) == Ok::<SpecHead, HeadError>(h),
        0 <= k < h.head_end,
    ensures
        head_of(b.take(k)) matches Err(e) && e.message
            == "unexpected end of file while reading the head (truncated file?)"@,
{
    law_head_and_errors_lie_in_the_bytes(b);
    let first = b.take(k);
    assert(first + b.skip(k) =~= b);
    if settled(head_of(first)) {
        law_first_bytes_decide(first, b.skip(k));
        law_head_and_errors_lie_in_the_bytes(first);
    }
}

/// The value under a key is that of the first pair that has it.
pub proof fn law_value_is_that_of_the_first_pair(kvs: Seq<SpecKv>, key: Seq<char>, i: int)
    requires
        0 <= i <= kvs.len(),
        i < kvs.len() ==> kvs[i].key == key,
        forall|j: int| 0 <= j < i ==> (#[trigger] kvs[j]).key != key,
    ensures
        value_of(kvs, key) == if i < kvs.len() {
            Some(kvs[i].value)
        } else {
            None
        },
    decreases i,
{
    if i > 0 {
        let rest = kvs.skip(1);
        assert(kvs[0].key != key);
        assert forall|j: int| 0 <= j < i - 1 implies (#[trigger] rest[j]).key != key by {
            assert(rest[j] == kvs[j + 1]);
        }
        law_value_is_that_of_the_first_pair(rest, key, i - 1);
    }
}

/// Which alignments are accepted: none, and positive integers of whatever width.
pub proof fn law_alignments_that_are_accepted(kvs: Seq<SpecKv>, head_end: int)
    ensures
        alignment_of(kvs, head_end) is Ok <==> match value_of(kvs, "general.alignment"@) {
            None => true,
            Some(SpecValue::U8(x)) => x > 0,
            Some(SpecValue::I8(x)) => x > 0,
            Some(SpecValue::U16(x)) => x > 0,
            Some(SpecValue::I16(x)) => x > 0,
            Some(SpecValue::U32(x)) => x > 0,
            Some(SpecValue::I32(x)) => x > 0,
            Some(SpecValue::U64(x)) => x > 0,
            Some(SpecValue::I64(x)) => x > 0,
            Some(_) => false,
        },
{
}

/// A string is refused where it is too long and where it is not UTF-8, at the place
/// of its length, and is cut short where its bytes end too early; any other is read.
pub proof fn law_strings_that_are_read(b: Seq<u8>, p: int, what: Seq<char>)
    requires
        0 <= p,
        p + 8 <= b.len(),
    ensures
        ({
            let n = eight_at(b, p);
            let r = string_at(b, p, what);
            if n > 268435456 {
                r matches Err(e) && e.offset == p && e.message == what + " length "@ + int_text(n)
                    + " exceeds the "@ + int_text(268435456) + "-byte sanity cap"@
            } else if p + 8 + n > b.len() {
                r matches Err(e) && !settled(r)
            } else if !valid_utf8(b.subrange(p + 8, p + 8 + n)) {
                r matches Err(e) && e.offset == p && e.message == what + " is not valid UTF-8"@
            } else {
                r matches Ok((s, q)) && q == p + 8 + n
            }
        }),
{
    lemma_numbers_read(b, p);
}

/// Types are numbered from 0 to 12.
proof fn lemma_type_codes(code: u32)
    ensures
        type_of_code(code) is None <==> code > 12,
{
}

/// What is wrong with an array is complained about where it begins: that it is
/// nested too deep, that there is no such type, that it is too long.
pub proof fn law_complaints_about_arrays(b: Seq<u8>, p: int, depth: nat)
    requires
        0 <= p,
        p + 12 <= b.len(),
    ensures
        ({
            let r = value_at(b, p, GgufType::Array, depth);
            &&& depth >= 4 ==> (r matches Err(e) && e.offset == p && e.message
                == "arrays nested deeper than "@ + int_text(4) + " levels"@)
            &&& depth < 4 && four_at(b, p) > 12 ==> (r matches Err(e) && e.offset == p && e.message
                == "unknown array element type code "@ + int_text(four_at(b, p)))
            &&& depth < 4 && four_at(b, p) <= 12 && eight_at(b, p + 4) > 268435456 ==> (
            r matches Err(e) && e.offset == p && e.message == "array length "@ + int_text(
                eight_at(b, p + 4),
            ) + " exceeds the "@ + int_text(268435456) + "-element sanity cap"@)
        }),
{
    lemma_numbers_read(b, p);
    lemma_numbers_read(b, p + 4);
    lemma_type_codes(four_at(b, p) as u32);
}

/// A pair whose type there is not, and a tensor with no dimension or more than four,
/// are complained about by name, where the type and the number of dimensions stand.
pub proof fn law_complaints_name_the_pair_and_the_tensor(
    b: Seq<u8>,
    p: int,
    name: Seq<char>,
    q: int,
)
    requires
        0 <= q,
        q + 4 <= b.len(),
    ensures
        string_at(b, p, "metadata key"@) == Ok::<(Seq<char>, int), HeadError>((name, q)) && four_at(
            b,
            q,
        ) > 12 ==> (kv_at(b, p) matches Err(e) && e.offset == q && e.message
            == "unknown metadata value type code "@ + int_text(four_at(b, q)) + " for key '"@ + name
            + "'"@),
        string_at(b, p, "tensor name"@) == Ok::<(Seq<char>, int), HeadError>((name, q)) && !(1
            <= four_at(b, q) <= 4) ==> (tensor_at(b, p) matches Err(e) && e.offset == q && e.message
            == "tensor '"@ + name + "' has "@ + int_text(four_at(b, q))
            + " dimensions (GGUF allows 1..="@ + int_text(4) + ")"@),
{
    lemma_numbers_read(b, q);
    lemma_type_codes(four_at(b, q) as u32);
}

/// What fills the space behind a head is zeros.
pub proof fn law_fill_is_zeros(n: nat, i: int)
    requires
        0 <= i < n,
    ensures
        zeros(n).len() == n,
        zeros(n)[i] == 0,
{
}

} // verus!
