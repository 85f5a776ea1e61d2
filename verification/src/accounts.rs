//! What is said of edits and of files: the lines about edits tell what was there and
//! what is there now, complaints name what they are about, and errors in JSON name
//! their line and column.

use crate::encoding::law_value_is_that_of_the_first_pair;
use crate::json::{byte_position, json_error_text, SpecJsonError};
use crate::patch::{
    apply_op, coerced, key_index, law_assignment_is_read_back, lemma_key_index, SpecOp,
    SpecValueSpec,
};
use crate::reader::error_text;
use crate::soundness::{lemma_key_count_zero, lemma_name_count_zero};
use crate::text::{byte_len, dec, int_text, lemma_encode_concat};
use crate::types::{
    align_step, label_text, preview_text, tensor_bytes, value_type, SpecKv, SpecValue,
};
use crate::verify::{
    data_length, each, error, extent_findings, head_findings, key_count, key_findings, name_count,
    overlaps, plus, repeated, report_on, template_findings, tensor_findings, Findings,
};
use crate::wire::{value_of, HeadError, SpecHead};
use crate::writer::stripped;
use vstd::prelude::*;
use vstd::string::*;

verus! {

// ---------------------------------------------------------------------------
// Edits
// ---------------------------------------------------------------------------

/// A value with the label of its type, as the lines about edits show it.
pub open spec fn shown(v: SpecValue) -> Seq<char> {
    label_text(v) + " "@ + preview_text(v, 40)
}

/// The value under a key stands where the key is found.
proof fn lemma_value_there(kvs: Seq<SpecKv>, key: Seq<char>)
    ensures
        value_of(kvs, key) == if key_index(kvs, key) < kvs.len() {
            Some(kvs[key_index(kvs, key)].value)
        } else {
            None
        },
{
    lemma_key_index(kvs, key);
    law_value_is_that_of_the_first_pair(kvs, key, key_index(kvs, key));
}

/// The line about an assignment tells the value that is there now and, where there
/// was one before, that one.
pub proof fn law_line_about_an_assignment(kvs: Seq<SpecKv>, key: Seq<char>, spec: SpecValueSpec)
    ensures
        apply_op(kvs, SpecOp::Assign { key, spec }) matches Ok((after, line)) ==> (value_of(
            after,
            key,
        ) matches Some(new) && line == match value_of(kvs, key) {
            Some(old) => "set "@ + key + ": "@ + shown(old) + " -> "@ + shown(new),
            None => "add "@ + key + ": "@ + shown(new),
        }),
{
    law_assignment_is_read_back(kvs, key, spec);
    lemma_value_there(kvs, key);
    if let Ok((after, line)) = apply_op(kvs, SpecOp::Assign { key, spec }) {
        let new = value_of(after, key)->Some_0;
        match value_of(kvs, key) {
            Some(old) => {
                assert(line =~= "set "@ + key + ": "@ + shown(old) + " -> "@ + shown(new));
            },
            None => {
                assert(line =~= "add "@ + key + ": "@ + shown(new));
            },
        }
    }
}

/// The line about a removal tells the value that was there, and the line about a
/// renaming both keys.
pub proof fn law_lines_about_removals_and_renamings(
    kvs: Seq<SpecKv>,
    key: Seq<char>,
    from: Seq<char>,
    to: Seq<char>,
)
    ensures
        apply_op(kvs, SpecOp::Remove { key }) matches Ok((_, line)) ==> (value_of(
            kvs,
            key,
        ) matches Some(old) && line == "rm  "@ + key + " ("@ + label_text(old) + ", was "@
            + preview_text(old, 40) + ")"@),
        apply_op(kvs, SpecOp::Rename { from, to }) matches Ok((_, line)) ==> line == "rename "@
            + from + " -> "@ + to,
{
    lemma_value_there(kvs, key);
}

/// What a refusal says: which key is not there, which one is there already, and what
/// the key of a value that does not fit holds.
pub proof fn law_refusals_name_the_keys(
    kvs: Seq<SpecKv>,
    key: Seq<char>,
    to: Seq<char>,
    raw: Seq<char>,
)
    requires
        key != "general.alignment"@ && key != "chisel.pad"@,
        to != "general.alignment"@ && to != "chisel.pad"@,
    ensures
        value_of(kvs, key) is None ==> refused_with(
            apply_op(kvs, SpecOp::Remove { key }),
            "no such key '"@ + key + "'"@,
        ),
        value_of(kvs, to) is Some ==> refused_with(
            apply_op(kvs, SpecOp::Rename { from: key, to }),
            "cannot rename '"@ + key + "': '"@ + to + "' already exists"@,
        ),
        value_of(kvs, to) is None && value_of(kvs, key) is None ==> refused_with(
            apply_op(kvs, SpecOp::Rename { from: key, to }),
            "no such key '"@ + key + "'"@,
        ),
        value_of(kvs, key) matches Some(old) ==> (!(old is Array) ==> (coerced(
            value_type(old),
            raw,
        ) matches Err(e) ==> refused_with(
            apply_op(kvs, SpecOp::Assign { key, spec: SpecValueSpec::Inferred(raw) }),
            key + ": "@ + e + " (existing type is "@ + label_text(old) + ")"@,
        ))),
{
    lemma_value_there(kvs, key);
    lemma_value_there(kvs, to);
    lemma_key_index(kvs, key);
    lemma_key_index(kvs, to);
}

/// An operation is refused with this message.
pub open spec fn refused_with(
    r: Result<(Seq<SpecKv>, Seq<char>), Seq<char>>,
    message: Seq<char>,
) -> bool {
    r == Err::<(Seq<SpecKv>, Seq<char>), Seq<char>>(message)
}

/// Only the key that holds the headroom is taken out before writing.
pub proof fn law_only_the_pad_is_taken_out(kvs: Seq<SpecKv>, kv: SpecKv)
    ensures
        stripped(Seq::<SpecKv>::empty()) == Seq::<SpecKv>::empty(),
        kv.key == "chisel.pad"@ ==> stripped(seq![kv] + kvs) == stripped(kvs),
        kv.key != "chisel.pad"@ ==> stripped(seq![kv] + kvs) == seq![kv] + stripped(kvs),
    decreases kvs.len(),
{
    assert(stripped(Seq::<SpecKv>::empty()) =~= Seq::<SpecKv>::empty());
    let all = seq![kv] + kvs;
    if kvs.len() == 0 {
        assert(all.drop_last() =~= Seq::<SpecKv>::empty());
        assert(all.last() == kv);
        assert(kvs =~= Seq::<SpecKv>::empty());
        if kv.key != "chisel.pad"@ {
            assert(stripped(all) =~= seq![kv] + stripped(kvs));
        }
    } else {
        law_only_the_pad_is_taken_out(kvs.drop_last(), kv);
        assert(all.drop_last() =~= seq![kv] + kvs.drop_last());
        assert(all.last() == kvs.last());
        if kv.key != "chisel.pad"@ {
            assert(stripped(all) =~= seq![kv] + stripped(kvs));
        }
    }
}

// ---------------------------------------------------------------------------
// Complaints about files
// ---------------------------------------------------------------------------

/// A report holds this error.
pub open spec fn has_error(f: Findings, text: Seq<char>) -> bool {
    exists|k: int| 0 <= k < f.errors.len() && #[trigger] f.errors[k] == text
}

/// An error of a part is one of the whole.
proof fn lemma_error_of_a_part(a: Findings, b: Findings, text: Seq<char>)
    ensures
        has_error(a, text) || has_error(b, text) ==> has_error(plus(a, b), text),
{
    let all = plus(a, b).errors;
    if has_error(a, text) {
        let k = choose|k: int| 0 <= k < a.errors.len() && #[trigger] a.errors[k] == text;
        assert(all[k] == text);
    }
    if has_error(b, text) {
        let k = choose|k: int| 0 <= k < b.errors.len() && #[trigger] b.errors[k] == text;
        assert(all[a.errors.len() + k] == text);
    }
}

/// An error about an item is one of those about all.
proof fn lemma_error_of_an_item(n: nat, f: spec_fn(int) -> Findings, i: int, text: Seq<char>)
    requires
        0 <= i < n,
        has_error(f(i), text),
    ensures
        has_error(each(n, f), text),
    decreases n,
{
    lemma_error_of_a_part(each((n - 1) as nat, f), f(n - 1), text);
    if i < n - 1 {
        lemma_error_of_an_item((n - 1) as nat, f, i, text);
    }
}

/// An error about a key is reported.
proof fn lemma_key_error(h: SpecHead, file_len: nat, i: int, text: Seq<char>)
    requires
        0 <= i < h.kvs.len(),
        has_error(key_findings(h.kvs, i), text),
    ensures
        has_error(report_on(h, file_len), text),
{
    let f = |i: int| key_findings(h.kvs, i);
    let g = |i: int|
        tensor_findings(h.tensors, i, h.alignment as nat, data_length(h, file_len));
    lemma_error_of_an_item(h.kvs.len(), f, i, text);
    let keys = each(h.kvs.len(), f);
    let head = head_findings(h, file_len);
    let tensors = each(h.tensors.len(), g);
    lemma_error_of_a_part(keys, head, text);
    lemma_error_of_a_part(plus(keys, head), tensors, text);
    lemma_error_of_a_part(plus(plus(keys, head), tensors), overlaps(h.tensors), text);
    lemma_error_of_a_part(
        plus(plus(plus(keys, head), tensors), overlaps(h.tensors)),
        template_findings(h.kvs),
        text,
    );
}

/// An error about a tensor is reported.
proof fn lemma_tensor_error(h: SpecHead, file_len: nat, i: int, text: Seq<char>)
    requires
        0 <= i < h.tensors.len(),
        has_error(
            tensor_findings(h.tensors, i, h.alignment as nat, data_length(h, file_len)),
            text,
        ),
    ensures
        has_error(report_on(h, file_len), text),
{
    let f = |i: int| key_findings(h.kvs, i);
    let g = |i: int|
        tensor_findings(h.tensors, i, h.alignment as nat, data_length(h, file_len));
    lemma_error_of_an_item(h.tensors.len(), g, i, text);
    let keys = each(h.kvs.len(), f);
    let head = head_findings(h, file_len);
    let tensors = each(h.tensors.len(), g);
    lemma_error_of_a_part(plus(keys, head), tensors, text);
    lemma_error_of_a_part(plus(plus(keys, head), tensors), overlaps(h.tensors), text);
    lemma_error_of_a_part(
        plus(plus(plus(keys, head), tensors), overlaps(h.tensors)),
        template_findings(h.kvs),
        text,
    );
}

/// A key that occurs twice is named in an error, and an empty one is pointed out by
/// its number.
pub proof fn law_complaints_about_keys(h: SpecHead, file_len: nat, i: int, j: int)
    requires
        0 <= i < h.kvs.len(),
    ensures
        i < j < h.kvs.len() && h.kvs[i].key == h.kvs[j].key ==> has_error(
            report_on(h, file_len),
            "duplicate metadata key '"@ + h.kvs[i].key + "'"@,
        ),
        h.kvs[i].key.len() == 0 ==> has_error(
            report_on(h, file_len),
            "metadata key #"@ + int_text(i) + " is empty"@,
        ),
{
    let f = key_findings(h.kvs, i);
    let key = h.kvs[i].key;
    if i < j < h.kvs.len() && key == h.kvs[j].key {
        let text = "duplicate metadata key '"@ + key + "'"@;
        lemma_key_count_zero(h.kvs, i + 1, key);
        assert(key_count(h.kvs, i + 1, key) > 0);
        assert(f.errors.last() == text);
        assert(f.errors[f.errors.len() - 1] == text);
        lemma_key_error(h, file_len, i, text);
    }
    if key.len() == 0 {
        let text = "metadata key #"@ + int_text(i) + " is empty"@;
        assert(f.errors[0] == text);
        lemma_key_error(h, file_len, i, text);
    }
}

/// What is wrong with a tensor is complained about with its name: that another has
/// the same one, that a dimension is zero, that its offset is not aligned and that
/// its data goes beyond the file.
pub proof fn law_complaints_about_tensors(h: SpecHead, file_len: nat, i: int, j: int)
    requires
        0 <= i < h.tensors.len(),
        h.alignment > 0,
        h.data_start <= file_len,
    ensures
        ({
            let t = h.tensors[i];
            let room = file_len - h.data_start;
            let report = report_on(h, file_len);
            &&& i < j < h.tensors.len() && t.name == h.tensors[j].name ==> has_error(
                report,
                "duplicate tensor name '"@ + t.name + "'"@,
            )
            &&& t.dims.contains(0) ==> has_error(
                report,
                "tensor '"@ + t.name + "' has a zero-sized dimension"@,
            )
            &&& t.offset as int % h.alignment as int != 0 ==> has_error(
                report,
                "tensor '"@ + t.name + "' offset "@ + int_text(t.offset as int)
                    + " is not a multiple of the alignment ("@ + int_text(h.alignment as int)
                    + ")"@,
            )
            &&& tensor_bytes(t) matches Some(size) ==> (t.offset + size > room ==> has_error(
                report,
                "tensor '"@ + t.name + "' ("@ + int_text(size as int) + " bytes at offset "@
                    + int_text(t.offset as int) + ") extends past the data section ("@ + int_text(
                    room,
                ) + " bytes)"@,
            ))
        }),
{
    let t = h.tensors[i];
    let room = data_length(h, file_len);
    let alignment = h.alignment as nat;
    let f = tensor_findings(h.tensors, i, alignment, room);
    let same = repeated(
        name_count(h.tensors, i + 1, t.name),
        "duplicate tensor name '"@ + t.name + "'"@,
    );
    let zero_text = "tensor '"@ + t.name + "' has a zero-sized dimension"@;
    let zero = crate::verify::when(t.dims.contains(0), error(zero_text));
    let off_text = "tensor '"@ + t.name + "' offset "@ + dec(t.offset as nat)
        + " is not a multiple of the alignment ("@ + dec(alignment) + ")"@;
    let off = crate::verify::when(
        t.offset as int % align_step(alignment as int) != 0,
        error(off_text),
    );
    let extent = extent_findings(t, room);
    assert(f == plus(plus(plus(same, zero), off), extent));
    if i < j < h.tensors.len() && t.name == h.tensors[j].name {
        let text = "duplicate tensor name '"@ + t.name + "'"@;
        lemma_name_count_zero(h.tensors, i + 1, t.name);
        assert(name_count(h.tensors, i + 1, t.name) > 0);
        assert(same.errors[0] == text);
        lemma_error_of_a_part(same, zero, text);
        lemma_error_of_a_part(plus(same, zero), off, text);
        lemma_error_of_a_part(plus(plus(same, zero), off), extent, text);
        lemma_tensor_error(h, file_len, i, text);
    }
    if t.dims.contains(0) {
        assert(zero.errors[0] == zero_text);
        lemma_error_of_a_part(same, zero, zero_text);
        lemma_error_of_a_part(plus(same, zero), off, zero_text);
        lemma_error_of_a_part(plus(plus(same, zero), off), extent, zero_text);
        lemma_tensor_error(h, file_len, i, zero_text);
    }
    if t.offset as int % h.alignment as int != 0 {
        assert(off.errors[0] == off_text);
        lemma_error_of_a_part(plus(same, zero), off, off_text);
        lemma_error_of_a_part(plus(plus(same, zero), off), extent, off_text);
        lemma_tensor_error(h, file_len, i, off_text);
    }
    if let Some(size) = tensor_bytes(t) {
        if t.offset + size > room {
            let text = "tensor '"@ + t.name + "' ("@ + dec(size as nat) + " bytes at offset "@
                + dec(t.offset as nat) + ") extends past the data section ("@ + dec(room)
                + " bytes)"@;
            assert(extent.errors[0] == text);
            lemma_error_of_a_part(plus(plus(same, zero), off), extent, text);
            lemma_tensor_error(h, file_len, i, text);
        }
    }
}

// ---------------------------------------------------------------------------
// Errors in JSON
// ---------------------------------------------------------------------------

/// Lines and columns count from 1: behind text without a line end stands the column
/// one past its bytes, and behind a line end a new line begins.
pub proof fn law_json_lines_and_columns(before: Seq<char>, line: Seq<char>)
    requires
        forall|i: int| 0 <= i < line.len() ==> #[trigger] line[i] != '\n',
    ensures
        byte_position(line) == (1nat, byte_len(line) + 1),
        byte_position(before + seq!['\n'] + line) == (
            byte_position(before).0 + 1,
            byte_len(line) + 1,
        ),
    decreases line.len(),
{
    let all = before + seq!['\n'] + line;
    if line.len() == 0 {
        assert(all.drop_last() =~= before);
        assert(line =~= Seq::<char>::empty());
    } else {
        let init = line.drop_last();
        assert forall|i: int| 0 <= i < init.len() implies #[trigger] init[i] != '\n' by {
            assert(init[i] == line[i]);
        }
        law_json_lines_and_columns(before, init);
        assert(line[line.len() - 1] != '\n');
        assert(all.drop_last() =~= before + seq!['\n'] + init);
        assert(all.last() == line.last());
        lemma_encode_concat(init, seq![line.last()]);
        assert(init + seq![line.last()] =~= line);
    }
}

/// Errors are printed with the place that they name.
pub proof fn law_errors_tell_where(e: SpecJsonError, f: HeadError)
    requires
        f.offset >= 0,
    ensures
        json_error_text(e) == e.message + " at "@ + int_text(e.line as int) + ":"@ + int_text(
            e.col as int,
        ),
        error_text(f) == f.message + " (at byte offset "@ + int_text(f.offset) + ")"@,
{
}

} // verus!
