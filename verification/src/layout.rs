//! What writing a head does to a whole file: the laws that make editing in
//! place safe, and those of a full rewrite.

use crate::dump::headroom_of;
use crate::patch::{apply_all, law_protected_keys_never_change, SpecOp};
use crate::reader::{MAX_KV_COUNT, MAX_STRING_LEN};
use crate::types::{align_step, aligned, lemma_aligned, SpecKv, SpecTensor, ALIGNMENT_KEY};
use crate::wire::{
    alignment_of, dims_fit, enc_head, head_of, law_read_head_is_written_back,
    law_what_is_read_is_what_was_written, law_written_head_is_read_back, typed_kvs, typed_value,
    value_of, wf_head, wf_kv, HeadError, SpecHead,
};
use crate::writer::{
    lemma_head_len_push, lemma_pad_key_len, lemma_pad_pair_len, pad_cost, pad_pair, padded_head,
    plan, stripped, with_reserve, without_key, zeros, SpecPlan, PAD_KEY,
};
use vstd::prelude::*;
use vstd::utf8::*;

verus! {

/// A file after `region` was written over its first bytes.
pub open spec fn overwritten(file: Seq<u8>, region: Seq<u8>) -> Seq<u8> {
    if region.len() <= file.len() {
        region + file.skip(region.len() as int)
    } else {
        region
    }
}

/// The tensor-data section of a file.
pub open spec fn data_section(file: Seq<u8>, data_start: int) -> Seq<u8> {
    if data_start <= file.len() {
        file.skip(data_start)
    } else {
        Seq::empty()
    }
}

// ---------------------------------------------------------------------------
// The pad key
// ---------------------------------------------------------------------------

/// The pad key is not the alignment key.
pub proof fn lemma_pad_key_differs()
    ensures
        PAD_KEY@ != ALIGNMENT_KEY@,
{
    reveal_strlit("chisel.pad");
    reveal_strlit("general.alignment");
    assert("chisel.pad"@.len() == 10);
    assert("general.alignment"@.len() == 17);
}

/// Looking up a key after one more pair was put at the end.
pub proof fn lemma_value_of_push(kvs: Seq<SpecKv>, kv: SpecKv, key: Seq<char>)
    ensures
        value_of(kvs.push(kv), key) == match value_of(kvs, key) {
            Some(v) => Some(v),
            None => if kv.key == key {
                Some(kv.value)
            } else {
                None
            },
        },
    decreases kvs.len(),
{
    if kvs.len() == 0 {
        assert(kvs.push(kv).skip(1) =~= Seq::<SpecKv>::empty());
        reveal_with_fuel(value_of, 2);
    } else {
        lemma_value_of_push(kvs.skip(1), kv, key);
        assert(kvs.push(kv).skip(1) =~= kvs.skip(1).push(kv));
    }
}

/// Removing one key leaves every other key's value as it was.
pub proof fn lemma_without_key_value(kvs: Seq<SpecKv>, gone: Seq<char>, key: Seq<char>)
    requires
        gone != key,
    ensures
        value_of(without_key(kvs, gone), key) == value_of(kvs, key),
    decreases kvs.len(),
{
    if kvs.len() > 0 {
        let init = kvs.drop_last();
        assert(init.push(kvs.last()) =~= kvs);
        lemma_without_key_value(init, gone, key);
        lemma_value_of_push(init, kvs.last(), key);
        lemma_value_of_push(without_key(init, gone), kvs.last(), key);
    }
}

/// Removing a key removes every pair under it, keeps no new pair, and does not
/// lengthen the metadata.
pub proof fn lemma_without_key(kvs: Seq<SpecKv>, gone: Seq<char>)
    ensures
        without_key(kvs, gone).len() <= kvs.len(),
        forall|i: int|
            0 <= i < without_key(kvs, gone).len() ==> (#[trigger] without_key(kvs, gone)[i]).key
                != gone && kvs.contains(without_key(kvs, gone)[i]),
    decreases kvs.len(),
{
    if kvs.len() > 0 {
        let init = kvs.drop_last();
        let rest = without_key(init, gone);
        lemma_without_key(init, gone);
        assert forall|i: int| 0 <= i < without_key(kvs, gone).len() implies (
        #[trigger] without_key(kvs, gone)[i]).key != gone && kvs.contains(
            without_key(kvs, gone)[i],
        ) by {
            if i < rest.len() {
                assert(without_key(kvs, gone)[i] == rest[i]);
                let j = choose|j: int| 0 <= j < init.len() && init[j] == rest[i];
                assert(kvs[j] == rest[i]);
            } else {
                assert(kvs[kvs.len() - 1] == without_key(kvs, gone)[i]);
            }
        }
    }
}

/// Where no pair has the key, removing it changes nothing.
pub proof fn lemma_without_key_absent(kvs: Seq<SpecKv>, gone: Seq<char>)
    requires
        forall|i: int| 0 <= i < kvs.len() ==> (#[trigger] kvs[i]).key != gone,
    ensures
        without_key(kvs, gone) == kvs,
    decreases kvs.len(),
{
    if kvs.len() > 0 {
        lemma_without_key_absent(kvs.drop_last(), gone);
        assert(kvs.drop_last().push(kvs.last()) =~= kvs);
    }
}

/// Stripping is final, and undoes padding: pads never accumulate.
pub proof fn law_pads_never_accumulate(kvs: Seq<SpecKv>, n: nat)
    ensures
        stripped(stripped(kvs)) == stripped(kvs),
        stripped(stripped(kvs).push(pad_pair(n))) == stripped(kvs),
{
    lemma_without_key(kvs, PAD_KEY@);
    lemma_without_key_absent(stripped(kvs), PAD_KEY@);
    assert(stripped(kvs).push(pad_pair(n)).drop_last() =~= stripped(kvs));
}

/// Alignment is not touched by stripping or padding.
pub proof fn lemma_alignment_ignores_pad(kvs: Seq<SpecKv>, n: nat, end: int)
    ensures
        alignment_of(stripped(kvs), end) == alignment_of(kvs, end),
        alignment_of(stripped(kvs).push(pad_pair(n)), end) == alignment_of(kvs, end),
{
    lemma_pad_key_differs();
    lemma_without_key_value(kvs, PAD_KEY@, ALIGNMENT_KEY@);
    lemma_value_of_push(stripped(kvs), pad_pair(n), ALIGNMENT_KEY@);
}

// ---------------------------------------------------------------------------
// Planning
// ---------------------------------------------------------------------------

/// An in-place plan ends exactly where the tensor data begins.
pub proof fn law_plan_ends_at_data_start(
    version: u32,
    kvs: Seq<SpecKv>,
    tensors: Seq<SpecTensor>,
    data_start: nat,
    alignment: nat,
)
    ensures
        plan(version, kvs, tensors, data_start, alignment) matches SpecPlan::InPlace {
            head,
            zero_fill,
        } ==> head.len() + zero_fill == data_start,
{
    let base = enc_head(version, stripped(kvs), tensors);
    let gap = data_start - base.len();
    lemma_pad_key_len();
    if gap >= pad_cost() && !(0 <= gap < align_step(alignment as int)) {
        let n = (gap - pad_cost()) as nat;
        lemma_pad_pair_len(n);
        lemma_head_len_push(version, stripped(kvs), pad_pair(n), tensors);
    }
}

/// A head is written in place exactly when it does not reach past the data
/// offset and the gap is alignment slack or has room for the pad key. With an
/// alignment of 30 or more (the default is 32) fitting is enough.
pub proof fn law_plan_is_in_place_when_the_head_fits(
    version: u32,
    kvs: Seq<SpecKv>,
    tensors: Seq<SpecTensor>,
    data_start: nat,
    alignment: nat,
)
    ensures
        ({
            let needed = enc_head(version, stripped(kvs), tensors).len();
            let p = plan(version, kvs, tensors, data_start, alignment);
            &&& p is InPlace <==> needed <= data_start && (data_start - needed < align_step(
                alignment as int,
            ) || data_start - needed >= 30)
            &&& alignment >= 30 ==> (p is InPlace <==> needed <= data_start)
            &&& p is NeedsRewrite ==> p == (SpecPlan::NeedsRewrite {
                needed,
                available: data_start,
            })
        }),
{
    lemma_pad_key_len();
}

/// The pad that an in-place plan stores, where it stores one, can be read back,
/// and there is room in the metadata for it.
pub open spec fn pad_is_readable(
    version: u32,
    kvs: Seq<SpecKv>,
    tensors: Seq<SpecTensor>,
    data_start: nat,
) -> bool {
    let base = enc_head(version, stripped(kvs), tensors);
    data_start - base.len() <= pad_cost() + MAX_STRING_LEN && stripped(kvs).len() < MAX_KV_COUNT
}

/// The metadata that an in-place plan stores.
pub open spec fn planned_kvs(
    version: u32,
    kvs: Seq<SpecKv>,
    tensors: Seq<SpecTensor>,
    data_start: nat,
    alignment: nat,
) -> Seq<SpecKv> {
    let gap = data_start - enc_head(version, stripped(kvs), tensors).len();
    if gap < align_step(alignment as int) {
        stripped(kvs)
    } else {
        stripped(kvs).push(pad_pair((gap - pad_cost()) as nat))
    }
}

/// Writing a planned head over the start of a file, whatever the metadata holds,
/// covers the bytes before the data offset and leaves every other byte as it was.
pub proof fn law_in_place_write_stays_before_the_data(
    file: Seq<u8>,
    version: u32,
    kvs: Seq<SpecKv>,
    tensors: Seq<SpecTensor>,
    data_start: nat,
    alignment: nat,
)
    requires
        plan(version, kvs, tensors, data_start, alignment) is InPlace,
    ensures
        ({
            let p = plan(version, kvs, tensors, data_start, alignment);
            let region = p->head + zeros(p->zero_fill);
            &&& region.len() == data_start
            &&& data_section(overwritten(file, region), data_start as int) == data_section(
                file,
                data_start as int,
            )
        }),
{
    law_plan_ends_at_data_start(version, kvs, tensors, data_start, alignment);
    let p = plan(version, kvs, tensors, data_start, alignment);
    let region = p->head + zeros(p->zero_fill);
    assert(data_section(overwritten(file, region), data_start as int) =~= data_section(
        file,
        data_start as int,
    ));
}

/// Editing in place: where a file holds a head and the edited metadata (with
/// the same alignment) fits, the file that results reads back with the edited
/// metadata (and at most the pad key besides), the same tensors, the same
/// alignment and the same data offset, and every byte from the data offset
/// onward is the byte that was there before.
pub proof fn law_in_place_edit_keeps_tensor_data(file: Seq<u8>, kvs: Seq<SpecKv>)
    requires
        head_of(file) is Ok,
        head_of(file) matches Ok(h) ==> {
            &&& wf_head(h.version, stripped(kvs), h.tensors)
            &&& alignment_of(kvs, 0) == Ok::<u64, HeadError>(h.alignment)
            &&& plan(h.version, kvs, h.tensors, h.data_start as nat, h.alignment as nat) is InPlace
            &&& pad_is_readable(h.version, kvs, h.tensors, h.data_start as nat)
        },
    ensures
        head_of(file) matches Ok(h) ==> {
            let p = plan(h.version, kvs, h.tensors, h.data_start as nat, h.alignment as nat);
            let region = p->head + zeros(p->zero_fill);
            let edited = overwritten(file, region);
            let stored = planned_kvs(
                h.version,
                kvs,
                h.tensors,
                h.data_start as nat,
                h.alignment as nat,
            );
            &&& region.len() == h.data_start
            &&& head_of(edited) == Ok::<SpecHead, HeadError>(
                SpecHead { kvs: stored, head_end: p->head.len() as int, ..h },
            )
            &&& stripped(stored) == stripped(kvs)
            &&& data_section(edited, h.data_start) == data_section(file, h.data_start)
        },
{
    let h = head_of(file)->Ok_0;
    law_read_head_is_written_back(file);
    lemma_aligned(h.head_end, h.alignment as int);
    let p = plan(h.version, kvs, h.tensors, h.data_start as nat, h.alignment as nat);
    law_plan_ends_at_data_start(
        h.version,
        kvs,
        h.tensors,
        h.data_start as nat,
        h.alignment as nat,
    );
    lemma_pad_key_len();
    let stored = planned_kvs(h.version, kvs, h.tensors, h.data_start as nat, h.alignment as nat);
    let gap = h.data_start - enc_head(h.version, stripped(kvs), h.tensors).len();
    let n = (gap - pad_cost()) as nat;
    law_pads_never_accumulate(kvs, n);
    lemma_planned_is_wf(h.version, kvs, h.tensors, h.data_start as nat, h.alignment as nat);
    let head = p->head;
    assert(head == enc_head(h.version, stored, h.tensors));
    let region = head + zeros(p->zero_fill);
    let edited = overwritten(file, region);
    let rest = edited.skip(head.len() as int);
    assert(head + rest =~= edited) by {
        assert(edited.take(head.len() as int) =~= head);
    }
    lemma_alignment_ignores_pad(kvs, n, head.len() as int);
    lemma_alignment_anywhere(kvs, 0, head.len() as int);
    law_written_head_is_read_back(h.version, stored, h.tensors, rest);
    lemma_aligned_at(head.len() as int, h.data_start, h.alignment as int);
    assert(data_section(edited, h.data_start) =~= data_section(file, h.data_start));
}

/// A list of edits applied in place, from the file's bytes to the file's bytes:
/// where the edits apply to the metadata of a file and the edited head fits, the
/// file reads back with the edited metadata (and at most the pad key besides),
/// everything else about the head is as before, and so is every byte from the
/// data offset onward.
pub proof fn law_edits_in_place_are_read_back(file: Seq<u8>, ops: Seq<SpecOp>)
    requires
        head_of(file) is Ok,
        head_of(file) matches Ok(h) ==> (apply_all(h.kvs, ops) matches Ok((kvs, _)) && {
            &&& wf_head(h.version, stripped(kvs), h.tensors)
            &&& plan(h.version, kvs, h.tensors, h.data_start as nat, h.alignment as nat) is InPlace
            &&& pad_is_readable(h.version, kvs, h.tensors, h.data_start as nat)
        }),
    ensures
        head_of(file) matches Ok(h) ==> (apply_all(h.kvs, ops) matches Ok((kvs, _)) && {
            let p = plan(h.version, kvs, h.tensors, h.data_start as nat, h.alignment as nat);
            let edited = overwritten(file, p->head + zeros(p->zero_fill));
            &&& head_of(edited) matches Ok(after) && {
                &&& stripped(after.kvs) == stripped(kvs)
                &&& after.version == h.version
                &&& after.tensors == h.tensors
                &&& after.alignment == h.alignment
                &&& after.data_start == h.data_start
            }
            &&& data_section(edited, h.data_start) == data_section(file, h.data_start)
        }),
{
    let h = head_of(file)->Ok_0;
    let kvs = apply_all(h.kvs, ops)->Ok_0.0;
    law_protected_keys_never_change(h.kvs, ops);
    lemma_alignment_anywhere(h.kvs, h.head_end, 0);
    law_in_place_edit_keeps_tensor_data(file, kvs);
}

/// The nearest aligned position is the one less than a step ahead.
proof fn lemma_aligned_at(x: int, y: int, align: int)
    requires
        align > 0,
        0 <= x <= y < x + align,
        y % align == 0,
    ensures
        aligned(x, align) == y,
{
    lemma_aligned(x, align);
    let z = aligned(x, align);
    vstd::arithmetic::div_mod::lemma_fundamental_div_mod(y, align);
    vstd::arithmetic::div_mod::lemma_fundamental_div_mod(z, align);
    let u = z / align;
    let w = y / align;
    if z < y {
        assert(align * w >= align * u + align) by (nonlinear_arith)
            requires
                align > 0,
                align * w > align * u,
        ;
    }
}

/// An alignment that is found is the same wherever the head ends.
pub proof fn lemma_alignment_anywhere(kvs: Seq<SpecKv>, end: int, other: int)
    requires
        alignment_of(kvs, end) is Ok,
    ensures
        alignment_of(kvs, other) == alignment_of(kvs, end),
{
}

/// The metadata that an in-place plan stores is acceptable.
proof fn lemma_planned_is_wf(
    version: u32,
    kvs: Seq<SpecKv>,
    tensors: Seq<SpecTensor>,
    data_start: nat,
    alignment: nat,
)
    requires
        wf_head(version, stripped(kvs), tensors),
        plan(version, kvs, tensors, data_start, alignment) is InPlace,
        pad_is_readable(version, kvs, tensors, data_start),
    ensures
        wf_head(version, planned_kvs(version, kvs, tensors, data_start, alignment), tensors),
{
    let stored = planned_kvs(version, kvs, tensors, data_start, alignment);
    let gap = data_start - enc_head(version, stripped(kvs), tensors).len();
    lemma_pad_key_len();
    assert forall|i: int| 0 <= i < stored.len() implies wf_kv(#[trigger] stored[i]) by {
        if i < stripped(kvs).len() {
            assert(stored[i] == stripped(kvs)[i]);
        } else {
            lemma_pad_is_wf((gap - pad_cost()) as nat);
        }
    }
}

/// A pad that is not too long is an acceptable pair.
proof fn lemma_pad_is_wf(n: nat)
    requires
        n <= MAX_STRING_LEN,
    ensures
        wf_kv(pad_pair(n)),
{
    lemma_pad_key_len();
    let spaces = Seq::new(n, |i: int| ' ');
    assert(is_ascii_chars(spaces));
    is_ascii_chars_encode_utf8(spaces);
}

/// Planning the stored metadata again, or the metadata that was edited in,
/// gives one and the same plan: repeated edits do not drift.
pub proof fn law_planning_again_changes_nothing(
    version: u32,
    kvs: Seq<SpecKv>,
    tensors: Seq<SpecTensor>,
    data_start: nat,
    alignment: nat,
)
    requires
        plan(version, kvs, tensors, data_start, alignment) is InPlace,
    ensures
        plan(
            version,
            planned_kvs(version, kvs, tensors, data_start, alignment),
            tensors,
            data_start,
            alignment,
        ) == plan(version, kvs, tensors, data_start, alignment),
{
    let gap = data_start - enc_head(version, stripped(kvs), tensors).len();
    law_pads_never_accumulate(kvs, (gap - pad_cost()) as nat);
}

/// Planning what was read back of a planned head gives that head again, byte for
/// byte, with the same zero fill: the edit is idempotent on disk. What is read
/// back holds the edited metadata and at most one pad pair besides. Nothing is
/// asked of the metadata but that arrays hold only items of their element type.
pub proof fn law_planning_what_was_read_back_changes_nothing(
    version: u32,
    kvs: Seq<SpecKv>,
    tensors: Seq<SpecTensor>,
    data_start: u64,
    alignment: nat,
    rest: Seq<u8>,
)
    requires
        plan(version, kvs, tensors, data_start as nat, alignment) is InPlace,
        typed_kvs(kvs),
        dims_fit(tensors),
    ensures
        ({
            let p = plan(version, kvs, tensors, data_start as nat, alignment);
            head_of(p->head + rest) matches Ok(h) ==> {
                &&& plan(h.version, h.kvs, h.tensors, data_start as nat, alignment) == p
                &&& h.version == version
                &&& h.tensors == tensors
                &&& stripped(h.kvs) == stripped(kvs)
                &&& forall|i: int, j: int|
                    0 <= i < j < h.kvs.len() && (#[trigger] h.kvs[i]).key == PAD_KEY@ ==> (
                    #[trigger] h.kvs[j]).key != PAD_KEY@
            }
        }),
{
    let stored = planned_kvs(version, kvs, tensors, data_start as nat, alignment);
    let gap = data_start - enc_head(version, stripped(kvs), tensors).len();
    let n = (gap - pad_cost()) as nat;
    law_plan_ends_at_data_start(version, kvs, tensors, data_start as nat, alignment);
    law_planning_again_changes_nothing(version, kvs, tensors, data_start as nat, alignment);
    law_pads_never_accumulate(kvs, n);
    lemma_without_key(kvs, PAD_KEY@);
    assert forall|i: int| 0 <= i < stored.len() implies typed_value(
        (#[trigger] stored[i]).value,
    ) by {
        if i < stripped(kvs).len() {
            assert(stored[i] == stripped(kvs)[i]);
            let k = choose|k: int| 0 <= k < kvs.len() && kvs[k] == stored[i];
            assert(typed_value(kvs[k].value));
        }
    }
    assert forall|i: int, j: int|
        0 <= i < j < stored.len() && (#[trigger] stored[i]).key == PAD_KEY@ implies (
    #[trigger] stored[j]).key != PAD_KEY@ by {
        assert(stored[i] == stripped(kvs)[i]);
    }
    law_what_is_read_is_what_was_written(version, stored, tensors, rest);
}

/// An edit that makes the metadata larger by no more than the headroom stays in
/// place, where the alignment is 30 or more (the default is 32).
pub proof fn law_growth_within_headroom_stays_in_place(h: SpecHead, kvs: Seq<SpecKv>)
    requires
        h.alignment >= 30,
        enc_head(h.version, stripped(h.kvs), h.tensors).len() <= h.data_start,
        enc_head(h.version, stripped(kvs), h.tensors).len() <= enc_head(
            h.version,
            stripped(h.kvs),
            h.tensors,
        ).len() + headroom_of(h),
    ensures
        plan(h.version, kvs, h.tensors, h.data_start as nat, h.alignment as nat) is InPlace,
{
    law_plan_is_in_place_when_the_head_fits(
        h.version,
        kvs,
        h.tensors,
        h.data_start as nat,
        h.alignment as nat,
    );
}

// ---------------------------------------------------------------------------
// Full writes
// ---------------------------------------------------------------------------

/// A full write: the file reads back with the given metadata (any old pad key
/// replaced by the one that holds the reserve), the same tensors, and a data
/// offset that is aligned and right behind the padded head; from there the data
/// stands verbatim.
pub proof fn law_full_write_carries_data_verbatim(
    version: u32,
    kvs: Seq<SpecKv>,
    tensors: Seq<SpecTensor>,
    alignment: u64,
    reserve: nat,
    data: Seq<u8>,
)
    requires
        wf_head(version, with_reserve(kvs, reserve), tensors),
        alignment_of(kvs, 0) == Ok::<u64, HeadError>(alignment),
    ensures
        ({
            let stored = with_reserve(kvs, reserve);
            let prefix = padded_head(version, stored, tensors, alignment as nat);
            let file = prefix + data;
            &&& head_of(file) == Ok::<SpecHead, HeadError>(
                SpecHead {
                    version,
                    kvs: stored,
                    tensors,
                    alignment,
                    head_end: enc_head(version, stored, tensors).len() as int,
                    data_start: prefix.len() as int,
                },
            )
            &&& prefix.len() as int % align_step(alignment as int) == 0
            &&& stripped(stored) == stripped(kvs)
            &&& data_section(file, prefix.len() as int) == data
        }),
{
    let stored = with_reserve(kvs, reserve);
    let head = enc_head(version, stored, tensors);
    let prefix = padded_head(version, stored, tensors, alignment as nat);
    let file = prefix + data;
    let fill = zeros((aligned(head.len() as int, alignment as int) - head.len()) as nat);
    lemma_aligned(head.len() as int, alignment as int);
    law_pads_never_accumulate(kvs, reserve);
    lemma_alignment_ignores_pad(kvs, reserve, head.len() as int);
    lemma_alignment_anywhere(kvs, 0, head.len() as int);
    assert(file =~= head + (fill + data));
    law_written_head_is_read_back(version, stored, tensors, fill + data);
    assert(data_section(file, prefix.len() as int) =~= data);
}

/// The bytes that a full write reserves are there as headroom afterwards.
pub proof fn law_reserve_is_headroom(
    version: u32,
    kvs: Seq<SpecKv>,
    tensors: Seq<SpecTensor>,
    alignment: u64,
    reserve: nat,
    data: Seq<u8>,
)
    requires
        wf_head(version, with_reserve(kvs, reserve), tensors),
        alignment_of(kvs, 0) == Ok::<u64, HeadError>(alignment),
    ensures
        ({
            let stored = with_reserve(kvs, reserve);
            let prefix = padded_head(version, stored, tensors, alignment as nat);
            head_of(prefix + data) matches Ok(h) && headroom_of(h) >= reserve
        }),
{
    law_full_write_carries_data_verbatim(version, kvs, tensors, alignment, reserve, data);
    let stored = with_reserve(kvs, reserve);
    lemma_aligned(enc_head(version, stored, tensors).len() as int, alignment as int);
    if reserve > 0 {
        lemma_pad_pair_len(reserve);
        lemma_head_len_push(version, stripped(kvs), pad_pair(reserve), tensors);
    }
}

/// Rewriting a file: the new file reads back with the edited metadata and the
/// tensors of the old one, and its data section is that of the old one.
pub proof fn law_rewrite_keeps_tensor_data(file: Seq<u8>, kvs: Seq<SpecKv>, reserve: nat)
    requires
        head_of(file) is Ok,
        head_of(file) matches Ok(h) ==> {
            &&& wf_head(h.version, with_reserve(kvs, reserve), h.tensors)
            &&& alignment_of(kvs, 0) == Ok::<u64, HeadError>(h.alignment)
        },
    ensures
        head_of(file) matches Ok(h) ==> {
            let stored = with_reserve(kvs, reserve);
            let prefix = padded_head(h.version, stored, h.tensors, h.alignment as nat);
            let written = prefix + data_section(file, h.data_start);
            head_of(written) matches Ok(after) && {
                &&& stripped(after.kvs) == stripped(kvs)
                &&& after.version == h.version
                &&& after.tensors == h.tensors
                &&& after.alignment == h.alignment
                &&& data_section(written, after.data_start) == data_section(file, h.data_start)
            }
        },
{
    let h = head_of(file)->Ok_0;
    law_full_write_carries_data_verbatim(
        h.version,
        kvs,
        h.tensors,
        h.alignment,
        reserve,
        data_section(file, h.data_start),
    );
}

} // verus!
