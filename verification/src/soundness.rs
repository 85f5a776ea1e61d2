//! What a report of [`crate::verify`] means: it has no errors exactly when the
//! file is structurally sound, and no warnings exactly when nothing about it is
//! unusual.

use crate::bignum::exp2;
use crate::float::lemma_exp2_pos;
use crate::nesting::law_no_errors_means_warnings_only;
use crate::template::{errors_among, findings, Severity};
use crate::types::{
    checked_product, ggml_layout, ggml_row, tensor_bytes, SpecKv, SpecTensor, SpecValue,
    CHAT_TEMPLATE_KEY,
};
use crate::verify::{
    by_offset, data_length, each, extent_findings, extents_of, is_key_char, is_power_of_two,
    key_count, key_findings, key_ok, law_by_offset_orders, name_count, overlap_findings, overlaps,
    report_on, template_finding, template_findings, tensor_findings, Extent, Findings,
};
use crate::wire::{value_of, SpecHead};
use vstd::prelude::*;
use vstd::string::*;

verus! {

/// Keys are there and tell the pairs apart.
pub open spec fn keys_sound(kvs: Seq<SpecKv>) -> bool {
    &&& forall|i: int| 0 <= i < kvs.len() ==> (#[trigger] kvs[i]).key.len() > 0
    &&& forall|i: int, j: int|
        0 <= i < j < kvs.len() ==> (#[trigger] kvs[i]).key != (#[trigger] kvs[j]).key
}

/// A tensor has no empty dimension, starts at an aligned offset and, where its
/// size is known, ends inside the data.
pub open spec fn tensor_sound(t: SpecTensor, alignment: nat, data_len: nat) -> bool {
    &&& !t.dims.contains(0)
    &&& alignment == 0 || t.offset as nat % alignment == 0
    &&& tensor_bytes(t) matches Some(size) ==> t.offset + size <= data_len && t.offset + size
        <= u64::MAX
}

/// The data of two tensors do not overlap, as far as their sizes are known.
pub open spec fn apart(a: SpecTensor, b: SpecTensor) -> bool {
    match (tensor_bytes(a), tensor_bytes(b)) {
        (Some(m), Some(n)) => a.offset + m <= b.offset || b.offset + n <= a.offset,
        _ => true,
    }
}

/// Names tell the tensors apart, each tensor is sound, and no two overlap.
pub open spec fn tensors_sound(tensors: Seq<SpecTensor>, alignment: nat, data_len: nat) -> bool {
    &&& forall|i: int|
        0 <= i < tensors.len() ==> tensor_sound(#[trigger] tensors[i], alignment, data_len)
    &&& forall|i: int, j: int|
        0 <= i < j < tensors.len() ==> (#[trigger] tensors[i]).name != (#[trigger] tensors[j]).name
    &&& forall|i: int, j: int|
        0 <= i < j < tensors.len() ==> apart(#[trigger] tensors[i], #[trigger] tensors[j])
}

/// A file is structurally sound.
pub open spec fn sound(h: SpecHead, file_len: nat) -> bool {
    &&& keys_sound(h.kvs)
    &&& h.tensors.len() > 0 ==> h.data_start <= file_len
    &&& tensors_sound(
        h.tensors,
        h.alignment as nat,
        if h.data_start <= file_len {
            (file_len - h.data_start) as nat
        } else {
            0
        },
    )
    &&& value_of(h.kvs, "tokenizer.chat_template"@) matches Some(v) ==> v is Str
}

/// No errors.
pub open spec fn clean(f: Findings) -> bool {
    f.errors.len() == 0
}

/// Findings about items are clean when those about each item are.
proof fn lemma_each_clean(n: nat, f: spec_fn(int) -> Findings)
    ensures
        clean(each(n, f)) <==> forall|i: int| 0 <= i < n ==> clean(#[trigger] f(i)),
    decreases n,
{
    if n > 0 {
        lemma_each_clean((n - 1) as nat, f);
        if clean(each(n, f)) {
            assert forall|i: int| 0 <= i < n implies clean(#[trigger] f(i)) by {
                if i == n - 1 {
                    assert(clean(f(n - 1)));
                }
            }
        } else {
            assert(!clean(each((n - 1) as nat, f)) || !clean(f(n - 1)));
        }
    }
}

/// A key that does not occur again.
pub proof fn lemma_key_count_zero(kvs: Seq<SpecKv>, from: int, key: Seq<char>)
    requires
        0 <= from,
    ensures
        key_count(kvs, from, key) == 0 <==> forall|j: int|
            from <= j < kvs.len() ==> (#[trigger] kvs[j]).key != key,
    decreases kvs.len() - from,
{
    if from < kvs.len() {
        lemma_key_count_zero(kvs, from + 1, key);
        if key_count(kvs, from, key) != 0 {
            if kvs[from].key != key {
                let j = choose|j: int|
                    from + 1 <= j < kvs.len() && (#[trigger] kvs[j]).key == key;
                assert(kvs[j].key == key);
            }
        } else {
            assert forall|j: int| from <= j < kvs.len() implies (#[trigger] kvs[j]).key != key by {
                if j == from {
                    assert(kvs[from].key != key);
                }
            }
        }
    }
}

/// A name that does not occur again.
pub proof fn lemma_name_count_zero(tensors: Seq<SpecTensor>, from: int, name: Seq<char>)
    requires
        0 <= from,
    ensures
        name_count(tensors, from, name) == 0 <==> forall|j: int|
            from <= j < tensors.len() ==> (#[trigger] tensors[j]).name != name,
    decreases tensors.len() - from,
{
    if from < tensors.len() {
        lemma_name_count_zero(tensors, from + 1, name);
        if name_count(tensors, from, name) != 0 {
            if tensors[from].name != name {
                let j = choose|j: int|
                    from + 1 <= j < tensors.len() && (#[trigger] tensors[j]).name == name;
                assert(tensors[j].name == name);
            }
        } else {
            assert forall|j: int| from <= j < tensors.len() implies (#[trigger] tensors[j]).name
                != name by {
                if j == from {
                    assert(tensors[from].name != name);
                }
            }
        }
    }
}

/// The findings about keys are clean when the keys are sound.
proof fn lemma_keys_clean(kvs: Seq<SpecKv>)
    ensures
        clean(each(kvs.len(), |i: int| key_findings(kvs, i))) <==> keys_sound(kvs),
{
    let f = |i: int| key_findings(kvs, i);
    lemma_each_clean(kvs.len(), f);
    assert forall|i: int| 0 <= i < kvs.len() implies (clean(#[trigger] f(i)) <==> kvs[i].key.len()
        > 0 && key_count(kvs, i + 1, kvs[i].key) == 0) by {}
    if keys_sound(kvs) {
        assert forall|i: int| 0 <= i < kvs.len() implies clean(#[trigger] f(i)) by {
            lemma_key_count_zero(kvs, i + 1, kvs[i].key);
            assert(kvs[i].key.len() > 0);
        }
    } else if clean(each(kvs.len(), f)) {
        assert forall|i: int| 0 <= i < kvs.len() implies (#[trigger] kvs[i]).key.len() > 0 by {
            assert(clean(f(i)));
        }
        assert forall|i: int, j: int| 0 <= i < j < kvs.len() implies (#[trigger] kvs[i]).key != (
        #[trigger] kvs[j]).key by {
            assert(clean(f(i)));
            lemma_key_count_zero(kvs, i + 1, kvs[i].key);
        }
    }
}

/// A product of positive numbers is positive.
proof fn lemma_product_positive(start: nat, s: Seq<u64>)
    requires
        start > 0,
        !s.contains(0),
    ensures
        checked_product(start, s) matches Some(p) ==> p > 0,
    decreases s.len(),
{
    if s.len() > 0 {
        let t = s.drop_last();
        assert(!t.contains(0)) by {
            if t.contains(0) {
                let k = choose|k: int| 0 <= k < t.len() && t[k] == 0;
                assert(s[k] == 0);
            }
        }
        lemma_product_positive(start, t);
        assert(s.last() != 0) by {
            assert(s[s.len() - 1] == s.last());
        }
        if let Some(p) = checked_product(start, t) {
            let l = s.last() as nat;
            assert(p * l > 0) by (nonlinear_arith)
                requires
                    p > 0,
                    l > 0,
            ;
        }
    }
}

/// A tensor without empty dimensions takes some bytes.
proof fn lemma_size_positive(t: SpecTensor)
    requires
        !t.dims.contains(0),
    ensures
        tensor_bytes(t) matches Some(size) ==> size > 0,
{
    if let Some((elems, bytes)) = ggml_layout(t.type_code) {
        if t.dims.len() > 0 && t.dims[0] % elems == 0 {
            let q = t.dims[0] / elems;
            assert(elems > 0);
            assert(t.dims[0] != 0);
            assert(q > 0) by {
                vstd::arithmetic::div_mod::lemma_fundamental_div_mod(
                    t.dims[0] as int,
                    elems as int,
                );
                assert(elems * 0 == 0);
            }
            let start = (q as nat) * (bytes as nat);
            assert(start > 0) by (nonlinear_arith)
                requires
                    q > 0,
                    bytes > 0,
                    start == (q as nat) * (bytes as nat),
            ;
            let s = t.dims.skip(1);
            assert(!s.contains(0)) by {
                if s.contains(0) {
                    let k = choose|k: int| 0 <= k < s.len() && s[k] == 0;
                    assert(t.dims[k + 1] == 0);
                }
            }
            lemma_product_positive(start, s);
        }
    }
}

/// The findings about one tensor are clean when it is sound and its name does
/// not occur again.
proof fn lemma_tensor_clean(tensors: Seq<SpecTensor>, i: int, alignment: nat, data_len: nat)
    requires
        0 <= i < tensors.len(),
    ensures
        clean(tensor_findings(tensors, i, alignment, data_len)) <==> tensor_sound(
            tensors[i],
            alignment,
            data_len,
        ) && name_count(tensors, i + 1, tensors[i].name) == 0,
{
}

/// The extents are those of the tensors whose size is known.
proof fn lemma_extents(tensors: Seq<SpecTensor>)
    ensures
        forall|i: int|
            0 <= i < tensors.len() ==> (tensor_bytes(#[trigger] tensors[i]) matches Some(size)
                ==> extents_of(tensors).contains(
                Extent { name: tensors[i].name, offset: tensors[i].offset, size },
            )),
        forall|k: int|
            0 <= k < extents_of(tensors).len() ==> stems_from(
                tensors,
                #[trigger] extents_of(tensors)[k],
            ),
    decreases tensors.len(),
{
    if tensors.len() > 0 {
        let init = tensors.drop_last();
        let last = tensors.last();
        lemma_extents(init);
        let all = extents_of(tensors);
        let some = extents_of(init);
        assert forall|i: int| 0 <= i < tensors.len() implies (tensor_bytes(
            #[trigger] tensors[i],
        ) matches Some(size) ==> all.contains(
            Extent { name: tensors[i].name, offset: tensors[i].offset, size },
        )) by {
            if let Some(size) = tensor_bytes(tensors[i]) {
                let x = Extent { name: tensors[i].name, offset: tensors[i].offset, size };
                if i < init.len() {
                    assert(init[i] == tensors[i]);
                    let k = choose|k: int| 0 <= k < some.len() && some[k] == x;
                    assert(all[k] == x);
                } else {
                    assert(all[all.len() - 1] == x);
                }
            }
        }
        assert forall|k: int| 0 <= k < all.len() implies stems_from(tensors, #[trigger] all[k]) by {
            if k < some.len() {
                assert(all[k] == some[k]);
                assert(stems_from(init, some[k]));
                let i = choose|i: int|
                    0 <= i < init.len() && is_extent_of(#[trigger] init[i], some[k]);
                assert(is_extent_of(tensors[i], all[k]));
            } else {
                assert(is_extent_of(tensors[tensors.len() - 1], all[k]));
            }
        }
    }
}

/// An extent is that of a tensor.
spec fn is_extent_of(t: SpecTensor, x: Extent) -> bool {
    t.name == x.name && t.offset == x.offset && tensor_bytes(t) == Some(x.size)
}

/// An extent is that of some tensor.
spec fn stems_from(tensors: Seq<SpecTensor>, x: Extent) -> bool {
    exists|i: int| 0 <= i < tensors.len() && is_extent_of(#[trigger] tensors[i], x)
}

/// Ordering loses and adds nothing.
proof fn lemma_sorted_contains(extents: Seq<Extent>, x: Extent)
    ensures
        by_offset(extents).contains(x) <==> extents.contains(x),
{
    broadcast use vstd::seq_lib::group_to_multiset_ensures;

    law_by_offset_orders(extents);
    assert(by_offset(extents).contains(x) <==> by_offset(extents).to_multiset().count(x) > 0);
    assert(extents.contains(x) <==> extents.to_multiset().count(x) > 0);
}

/// Neighbours do not overlap.
spec fn neighbours_apart(sorted: Seq<Extent>) -> bool {
    forall|k: int|
        0 <= k < sorted.len() - 1 ==> (#[trigger] sorted[k]).offset + sorted[k].size <= sorted[k
            + 1].offset
}

/// The findings about overlaps are clean when neighbours do not overlap.
proof fn lemma_overlaps_clean(tensors: Seq<SpecTensor>)
    ensures
        clean(overlaps(tensors)) <==> neighbours_apart(by_offset(extents_of(tensors))),
{
    let sorted = by_offset(extents_of(tensors));
    let n: nat = if sorted.len() == 0 {
        0
    } else {
        (sorted.len() - 1) as nat
    };
    let f = |i: int| overlap_findings(sorted, i);
    lemma_each_clean(n, f);
    if clean(overlaps(tensors)) {
        assert forall|k: int| 0 <= k < sorted.len() - 1 implies (#[trigger] sorted[k]).offset
            + sorted[k].size <= sorted[k + 1].offset by {
            assert(clean(f(k)));
        }
    }
    if neighbours_apart(sorted) {
        assert forall|i: int| 0 <= i < n implies clean(#[trigger] f(i)) by {
            assert(sorted[i].offset + sorted[i].size <= sorted[i + 1].offset);
        }
    }
}

/// Where names and sizes are in order, neighbours do not overlap exactly when no
/// two tensors do.
proof fn lemma_apart(tensors: Seq<SpecTensor>)
    requires
        forall|i: int| 0 <= i < tensors.len() ==> !(#[trigger] tensors[i]).dims.contains(0),
        forall|i: int, j: int|
            0 <= i < j < tensors.len() ==> (#[trigger] tensors[i]).name != (
            #[trigger] tensors[j]).name,
    ensures
        neighbours_apart(by_offset(extents_of(tensors))) <==> forall|i: int, j: int|
            0 <= i < j < tensors.len() ==> apart(#[trigger] tensors[i], #[trigger] tensors[j]),
{
    let extents = extents_of(tensors);
    let sorted = by_offset(extents);
    law_by_offset_orders(extents);
    lemma_extents(tensors);
    if neighbours_apart(sorted) {
        assert forall|i: int, j: int| 0 <= i < j < tensors.len() implies apart(
            #[trigger] tensors[i],
            #[trigger] tensors[j],
        ) by {
            if let Some(m) = tensor_bytes(tensors[i]) {
                if let Some(n) = tensor_bytes(tensors[j]) {
                    let x = Extent { name: tensors[i].name, offset: tensors[i].offset, size: m };
                    let y = Extent { name: tensors[j].name, offset: tensors[j].offset, size: n };
                    lemma_sorted_contains(extents, x);
                    lemma_sorted_contains(extents, y);
                    let p = choose|p: int| 0 <= p < sorted.len() && sorted[p] == x;
                    let q = choose|q: int| 0 <= q < sorted.len() && sorted[q] == y;
                    assert(p != q);
                    if p < q {
                        assert(sorted[p].offset + sorted[p].size <= sorted[p + 1].offset);
                        assert(p + 1 < q ==> sorted[p + 1].offset <= sorted[q].offset);
                    } else {
                        assert(sorted[q].offset + sorted[q].size <= sorted[q + 1].offset);
                        assert(q + 1 < p ==> sorted[q + 1].offset <= sorted[p].offset);
                    }
                }
            }
        }
    }
    if forall|i: int, j: int|
        0 <= i < j < tensors.len() ==> apart(#[trigger] tensors[i], #[trigger] tensors[j]) {
        assert forall|k: int| 0 <= k < sorted.len() - 1 implies (#[trigger] sorted[k]).offset
            + sorted[k].size <= sorted[k + 1].offset by {
            lemma_sorted_distinct(tensors, k);
            let x = sorted[k];
            let y = sorted[k + 1];
            lemma_sorted_contains(extents, x);
            lemma_sorted_contains(extents, y);
            assert(sorted.contains(x) && sorted.contains(y));
            let a = choose|a: int| 0 <= a < extents.len() && extents[a] == x;
            let b = choose|b: int| 0 <= b < extents.len() && extents[b] == y;
            assert(stems_from(tensors, extents[a]) && stems_from(tensors, extents[b]));
            let i = choose|i: int| 0 <= i < tensors.len() && is_extent_of(#[trigger] tensors[i], x);
            let j = choose|j: int| 0 <= j < tensors.len() && is_extent_of(#[trigger] tensors[j], y);
            assert(i != j);
            lemma_size_positive(tensors[i]);
            lemma_size_positive(tensors[j]);
            assert(i < j ==> apart(tensors[i], tensors[j]));
            assert(j < i ==> apart(tensors[j], tensors[i]));
            assert(sorted[k].offset <= sorted[k + 1].offset);
        }
    }
}

/// Where names differ, no extent occurs twice.
proof fn lemma_extents_distinct(tensors: Seq<SpecTensor>)
    requires
        forall|i: int, j: int|
            0 <= i < j < tensors.len() ==> (#[trigger] tensors[i]).name != (
            #[trigger] tensors[j]).name,
    ensures
        extents_of(tensors).no_duplicates(),
    decreases tensors.len(),
{
    if tensors.len() > 0 {
        let init = tensors.drop_last();
        let some = extents_of(init);
        let all = extents_of(tensors);
        assert forall|i: int, j: int| 0 <= i < j < init.len() implies (#[trigger] init[i]).name != (
        #[trigger] init[j]).name by {
            assert(init[i] == tensors[i] && init[j] == tensors[j]);
        }
        lemma_extents_distinct(init);
        lemma_extents(init);
        assert forall|a: int, b: int| 0 <= a < all.len() && 0 <= b < all.len() && a != b implies
            all[a] != all[b] by {
            if a < some.len() && b < some.len() {
                assert(all[a] == some[a] && all[b] == some[b]);
            } else {
                let c = if a < b {
                    a
                } else {
                    b
                };
                if all.len() > some.len() {
                    assert(all[c] == some[c]);
                    assert(stems_from(init, some[c]));
                    let i = choose|i: int|
                        0 <= i < init.len() && is_extent_of(#[trigger] init[i], some[c]);
                    assert(init[i] == tensors[i]);
                    assert(tensors[i].name != tensors[tensors.len() - 1].name);
                }
            }
        }
    }
}

/// Where names differ, neighbours by offset are different extents.
proof fn lemma_sorted_distinct(tensors: Seq<SpecTensor>, k: int)
    requires
        forall|i: int, j: int|
            0 <= i < j < tensors.len() ==> (#[trigger] tensors[i]).name != (
            #[trigger] tensors[j]).name,
        0 <= k < by_offset(extents_of(tensors)).len() - 1,
    ensures
        by_offset(extents_of(tensors))[k] != by_offset(extents_of(tensors))[k + 1],
{
    let extents = extents_of(tensors);
    let sorted = by_offset(extents);
    lemma_extents_distinct(tensors);
    law_by_offset_orders(extents);
    extents.lemma_multiset_has_no_duplicates();
    assert(sorted.to_multiset() == extents.to_multiset());
    lemma_multiset_distinct(sorted, k, k + 1);
}

/// What occurs twice counts twice.
proof fn lemma_multiset_distinct(s: Seq<Extent>, i: int, j: int)
    requires
        0 <= i < j < s.len(),
        forall|x: Extent| s.to_multiset().contains(x) ==> s.to_multiset().count(x) == 1,
    ensures
        s[i] != s[j],
{
    broadcast use vstd::seq_lib::group_to_multiset_ensures;

    s.lemma_multiset_has_no_duplicates_conv();
}

/// The findings about all tensors together are clean when the tensors are sound.
proof fn lemma_tensors_clean(tensors: Seq<SpecTensor>, alignment: nat, data_len: nat)
    ensures
        clean(
            each(
                tensors.len(),
                |i: int| tensor_findings(tensors, i, alignment, data_len),
            ),
        ) && clean(overlaps(tensors)) <==> tensors_sound(tensors, alignment, data_len),
{
    let f = |i: int| tensor_findings(tensors, i, alignment, data_len);
    lemma_each_clean(tensors.len(), f);
    lemma_overlaps_clean(tensors);
    if clean(each(tensors.len(), f)) {
        assert forall|i: int| 0 <= i < tensors.len() implies tensor_sound(
            #[trigger] tensors[i],
            alignment,
            data_len,
        ) by {
            assert(clean(f(i)));
            lemma_tensor_clean(tensors, i, alignment, data_len);
        }
        assert forall|i: int, j: int| 0 <= i < j < tensors.len() implies (
        #[trigger] tensors[i]).name != (#[trigger] tensors[j]).name by {
            assert(clean(f(i)));
            lemma_tensor_clean(tensors, i, alignment, data_len);
            lemma_name_count_zero(tensors, i + 1, tensors[i].name);
        }
        assert forall|i: int| 0 <= i < tensors.len() implies !(
        #[trigger] tensors[i]).dims.contains(0) by {
            assert(tensor_sound(tensors[i], alignment, data_len));
        }
        lemma_apart(tensors);
    }
    if tensors_sound(tensors, alignment, data_len) {
        assert forall|i: int| 0 <= i < tensors.len() implies clean(#[trigger] f(i)) by {
            lemma_tensor_clean(tensors, i, alignment, data_len);
            lemma_name_count_zero(tensors, i + 1, tensors[i].name);
            assert(tensor_sound(tensors[i], alignment, data_len));
        }
        assert forall|i: int| 0 <= i < tensors.len() implies !(
        #[trigger] tensors[i]).dims.contains(0) by {
            assert(tensor_sound(tensors[i], alignment, data_len));
        }
        lemma_apart(tensors);
    }
}

/// The lint findings of a template are no errors of the file.
proof fn lemma_template_clean(kvs: Seq<SpecKv>)
    ensures
        clean(template_findings(kvs)) <==> (value_of(kvs, CHAT_TEMPLATE_KEY@) matches Some(v)
            ==> v is Str),
{
    if let Some(SpecValue::Str(text)) = value_of(kvs, CHAT_TEMPLATE_KEY@) {
        let f = |i: int| template_finding(findings(text)[i]);
        lemma_each_clean(findings(text).len(), f);
        assert forall|i: int| 0 <= i < findings(text).len() implies clean(#[trigger] f(i)) by {}
    }
}

/// A file verifies without errors exactly when it is structurally sound: keys
/// and tensor names are unique, tensors start aligned, lie inside the data and
/// do not overlap (as far as their sizes are known), the data section is there,
/// and a chat template is text.
pub proof fn law_no_errors_exactly_when_sound(h: SpecHead, file_len: nat)
    ensures
        report_on(h, file_len).errors.len() == 0 <==> sound(h, file_len),
{
    let alignment = h.alignment as nat;
    let data_len = data_length(h, file_len);
    lemma_keys_clean(h.kvs);
    lemma_tensors_clean(h.tensors, alignment, data_len);
    lemma_template_clean(h.kvs);
}

// ---------------------------------------------------------------------------
// Warnings
// ---------------------------------------------------------------------------

/// No warnings.
pub open spec fn silent(f: Findings) -> bool {
    f.warnings.len() == 0
}

/// Findings about items are silent when those about each item are.
proof fn lemma_each_silent(n: nat, f: spec_fn(int) -> Findings)
    ensures
        silent(each(n, f)) <==> forall|i: int| 0 <= i < n ==> silent(#[trigger] f(i)),
    decreases n,
{
    if n > 0 {
        lemma_each_silent((n - 1) as nat, f);
        if silent(each(n, f)) {
            assert forall|i: int| 0 <= i < n implies silent(#[trigger] f(i)) by {
                if i == n - 1 {
                    assert(silent(f(n - 1)));
                }
            }
        } else {
            assert(!silent(each((n - 1) as nat, f)) || !silent(f(n - 1)));
        }
    }
}

/// A key is written with letters, digits, points, underscores and hyphens alone.
pub open spec fn plain_key(key: Seq<char>) -> bool {
    forall|i: int|
        0 <= i < key.len() ==> 'a' <= #[trigger] key[i] <= 'z' || 'A' <= key[i] <= 'Z' || '0'
            <= key[i] <= '9' || key[i] == '.' || key[i] == '_' || key[i] == '-'
}

/// A tensor is of a type that has a name, and its size can be computed where the
/// blocks of the type are known.
pub open spec fn ordinary_tensor(t: SpecTensor) -> bool {
    &&& ggml_row(t.type_code) is Some
    &&& ggml_layout(t.type_code) is Some ==> tensor_bytes(t) is Some
}

/// There is nothing unusual about a file.
pub open spec fn ordinary(h: SpecHead) -> bool {
    &&& forall|i: int| 0 <= i < h.kvs.len() ==> plain_key((#[trigger] h.kvs[i]).key)
    &&& exists|k: nat| #[trigger] exp2(k) == h.alignment
    &&& value_of(h.kvs, "general.architecture"@) is Some
    &&& forall|i: int| 0 <= i < h.tensors.len() ==> ordinary_tensor(#[trigger] h.tensors[i])
    &&& value_of(h.kvs, "tokenizer.chat_template"@) matches Some(SpecValue::Str(text))
        ==> errors_among(findings(text)) == 0
}

/// Halving finds the powers of two.
proof fn lemma_power_of_two(n: nat)
    ensures
        is_power_of_two(n) <==> exists|k: nat| #[trigger] exp2(k) == n,
    decreases n,
{
    if n == 0 {
        assert forall|k: nat| #[trigger] exp2(k) != 0 by {
            lemma_exp2_pos(k);
        }
    } else if n == 1 {
        assert(exp2(0) == 1);
    } else {
        lemma_power_of_two(n / 2);
        if is_power_of_two(n) {
            let k = choose|k: nat| #[trigger] exp2(k) == n / 2;
            assert(exp2((k + 1) as nat) == 2 * exp2(k));
        }
        if exists|k: nat| #[trigger] exp2(k) == n {
            let k = choose|k: nat| #[trigger] exp2(k) == n;
            if k == 0 {
                assert(exp2(0) == 1);
            } else {
                assert(exp2(k) == 2 * exp2((k - 1) as nat));
                assert(exp2((k - 1) as nat) == n / 2);
            }
        }
    }
}

/// Keys are not warned about exactly when they are plain.
proof fn lemma_keys_silent(kvs: Seq<SpecKv>)
    ensures
        silent(each(kvs.len(), |i: int| key_findings(kvs, i))) <==> forall|i: int|
            0 <= i < kvs.len() ==> plain_key((#[trigger] kvs[i]).key),
{
    let f = |i: int| key_findings(kvs, i);
    lemma_each_silent(kvs.len(), f);
    assert forall|i: int| 0 <= i < kvs.len() implies (silent(#[trigger] f(i)) <==> plain_key(
        kvs[i].key,
    )) by {
        let key = kvs[i].key;
        assert(key_ok(key) || key.len() == 0 <==> plain_key(key)) by {
            if plain_key(key) {
                assert forall|j: int| 0 <= j < key.len() implies is_key_char(#[trigger] key[j]) by {}
            }
            if key_ok(key) {
                assert forall|j: int| 0 <= j < key.len() implies 'a' <= #[trigger] key[j] <= 'z'
                    || 'A' <= key[j] <= 'Z' || '0' <= key[j] <= '9' || key[j] == '.' || key[j]
                    == '_' || key[j] == '-' by {
                    assert(is_key_char(key[j]));
                }
            }
        }
    }
    if silent(each(kvs.len(), f)) {
        assert forall|i: int| 0 <= i < kvs.len() implies plain_key((#[trigger] kvs[i]).key) by {
            assert(silent(f(i)));
        }
    }
}

/// Tensors are not warned about exactly when they are ordinary.
proof fn lemma_tensors_silent(tensors: Seq<SpecTensor>, alignment: nat, data_len: nat)
    ensures
        silent(
            each(tensors.len(), |i: int| tensor_findings(tensors, i, alignment, data_len)),
        ) <==> forall|i: int| 0 <= i < tensors.len() ==> ordinary_tensor(#[trigger] tensors[i]),
{
    let f = |i: int| tensor_findings(tensors, i, alignment, data_len);
    lemma_each_silent(tensors.len(), f);
    assert forall|i: int| 0 <= i < tensors.len() implies (silent(#[trigger] f(i))
        <==> ordinary_tensor(tensors[i])) by {
        assert(silent(extent_findings(tensors[i], data_len)) <==> ordinary_tensor(tensors[i]));
    }
    if silent(each(tensors.len(), f)) {
        assert forall|i: int| 0 <= i < tensors.len() implies ordinary_tensor(
            #[trigger] tensors[i],
        ) by {
            assert(silent(f(i)));
        }
    }
}

/// Overlaps are errors, not warnings.
proof fn lemma_overlaps_silent(tensors: Seq<SpecTensor>)
    ensures
        silent(overlaps(tensors)),
{
    let sorted = by_offset(extents_of(tensors));
    let n: nat = if sorted.len() == 0 {
        0
    } else {
        (sorted.len() - 1) as nat
    };
    lemma_each_silent(n, |i: int| overlap_findings(sorted, i));
}

/// A template is not warned about exactly when it has no errors.
proof fn lemma_template_silent(kvs: Seq<SpecKv>)
    ensures
        silent(template_findings(kvs)) <==> (value_of(kvs, CHAT_TEMPLATE_KEY@) matches Some(
            SpecValue::Str(text),
        ) ==> errors_among(findings(text)) == 0),
{
    if let Some(SpecValue::Str(text)) = value_of(kvs, CHAT_TEMPLATE_KEY@) {
        let all = findings(text);
        let f = |i: int| template_finding(findings(text)[i]);
        lemma_each_silent(all.len(), f);
        law_no_errors_means_warnings_only(all);
        assert forall|i: int| 0 <= i < all.len() implies (silent(#[trigger] f(i))
            <==> all[i].severity == Severity::Warning) by {}
        if silent(each(all.len(), f)) {
            assert forall|i: int| 0 <= i < all.len() implies (#[trigger] all[i]).severity
                == Severity::Warning by {
                assert(silent(f(i)));
            }
        }
    }
}

/// A file verifies without warnings exactly when there is nothing unusual about
/// it: keys are plain, the alignment is a power of two, the architecture is
/// named, tensor types are known and tensors are whole blocks, and the chat
/// template has no errors.
pub proof fn law_no_warnings_exactly_when_ordinary(h: SpecHead, file_len: nat)
    ensures
        report_on(h, file_len).warnings.len() == 0 <==> ordinary(h),
{
    let alignment = h.alignment as nat;
    let data_len = data_length(h, file_len);
    lemma_keys_silent(h.kvs);
    lemma_tensors_silent(h.tensors, alignment, data_len);
    lemma_overlaps_silent(h.tensors);
    lemma_template_silent(h.kvs);
    lemma_power_of_two(alignment);
}

} // verus!
