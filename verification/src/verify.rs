//! Structural verification of a parsed GGUF head: duplicate or malformed
//! keys, alignment sanity, tensor offset/extent/overlap checks, and a lint
//! pass over the embedded chat template. Errors mean a runtime will likely
//! reject or misread the file; warnings mean something is unusual enough to
//! look at before publishing.

use crate::patch::texts_view;
use crate::reader::Gguf;
use crate::template::{findings, issues_view, lint, Severity, SpecIssue};
use crate::text::{chars_of, dec, is_alnum, is_alnum_char, join, push_dec, str_eq};
use crate::types::{
    align_step, escape_short, escape_short_text, ggml_layout, ggml_name, ggml_row, ggml_type_name,
    ggml_type_size, kvs_view, tensor_bytes, tensors_view, GgufValue, KvPair, SpecKv, SpecTensor,
    SpecValue, TensorInfo, CHAT_TEMPLATE_KEY,
};
use crate::wire::{value_of, SpecHead};
use vstd::prelude::*;
use vstd::string::*;

verus! {

/// The verifier's findings, in a stable order.
#[derive(Debug)]
pub struct Report {
    pub errors: Vec<String>,
    pub warnings: Vec<String>,
}

/// What a [`Report`] says.
pub struct Findings {
    pub errors: Seq<Seq<char>>,
    pub warnings: Seq<Seq<char>>,
}

impl View for Report {
    type V = Findings;

    open spec fn view(&self) -> Findings {
        Findings { errors: texts_view(self.errors@), warnings: texts_view(self.warnings@) }
    }
}

impl Default for Report {
    fn default() -> (r: Self)
        ensures
            r@ == nothing(),
    {
        let r = Report { errors: Vec::new(), warnings: Vec::new() };
        assert(r@.errors =~= nothing().errors);
        assert(r@.warnings =~= nothing().warnings);
        r
    }
}

impl Report {
    /// Whether there are no errors.
    pub fn ok(&self) -> (r: bool)
        ensures
            r == (self@.errors.len() == 0),
    {
        self.errors.len() == 0
    }
}

// ---------------------------------------------------------------------------
// Findings
// ---------------------------------------------------------------------------

/// No findings.
pub open spec fn nothing() -> Findings {
    Findings { errors: Seq::empty(), warnings: Seq::empty() }
}

/// One error.
pub open spec fn error(text: Seq<char>) -> Findings {
    Findings { errors: seq![text], warnings: Seq::empty() }
}

/// One warning.
pub open spec fn warning(text: Seq<char>) -> Findings {
    Findings { errors: Seq::empty(), warnings: seq![text] }
}

/// Findings, then more findings.
pub open spec fn plus(a: Findings, b: Findings) -> Findings {
    Findings { errors: a.errors + b.errors, warnings: a.warnings + b.warnings }
}

/// `f` where `cond` holds, else nothing.
pub open spec fn when(cond: bool, f: Findings) -> Findings {
    if cond {
        f
    } else {
        nothing()
    }
}

/// The findings about items `0..n`, one after the other.
pub open spec fn each(n: nat, f: spec_fn(int) -> Findings) -> Findings
    decreases n,
{
    if n == 0 {
        nothing()
    } else {
        plus(each((n - 1) as nat, f), f(n - 1))
    }
}

proof fn lemma_plus(a: Findings, b: Findings, c: Findings)
    ensures
        plus(plus(a, b), c) == plus(a, plus(b, c)),
        plus(a, nothing()) == a,
        plus(nothing(), a) == a,
{
    assert(plus(plus(a, b), c).errors =~= plus(a, plus(b, c)).errors);
    assert(plus(plus(a, b), c).warnings =~= plus(a, plus(b, c)).warnings);
    assert(plus(a, nothing()).errors =~= a.errors);
    assert(plus(a, nothing()).warnings =~= a.warnings);
    assert(plus(nothing(), a).errors =~= a.errors);
    assert(plus(nothing(), a).warnings =~= a.warnings);
}

/// Record an error.
fn push_error(r: &mut Report, text: String)
    ensures
        final(r)@ == plus(old(r)@, error(text@)),
{
    r.errors.push(text);
    assert(r@.errors =~= old(r)@.errors + seq![text@]);
    assert(r@.warnings =~= old(r)@.warnings + Seq::<Seq<char>>::empty());
}

/// Record a warning.
fn push_warning(r: &mut Report, text: String)
    ensures
        final(r)@ == plus(old(r)@, warning(text@)),
{
    r.warnings.push(text);
    assert(r@.warnings =~= old(r)@.warnings + seq![text@]);
    assert(r@.errors =~= old(r)@.errors + Seq::<Seq<char>>::empty());
}

// ---------------------------------------------------------------------------
// Metadata keys
// ---------------------------------------------------------------------------

/// A character that keys are made of.
pub open spec fn is_key_char(c: char) -> bool {
    is_alnum(c) || c == '.' || c == '_' || c == '-'
}

/// A key is not empty and made of key characters.
pub open spec fn key_ok(key: Seq<char>) -> bool {
    key.len() > 0 && forall|i: int| 0 <= i < key.len() ==> is_key_char(#[trigger] key[i])
}

/// Whether a key is not empty and made of key characters.
fn key_charset_ok(key: &str) -> (r: bool)
    ensures
        r == key_ok(key@),
{
    let s = chars_of(key);
    let mut i: usize = 0;
    while i < s.len()
        invariant
            i <= s@.len(),
            s@ == key@,
            forall|j: int| 0 <= j < i ==> is_key_char(#[trigger] key@[j]),
        decreases s@.len() - i,
    {
        let c = s[i];
        let ok = is_alnum_char(c) || c == '.' || c == '_' || c == '-';
        assert(ok == is_key_char(key@[i as int]));
        if !ok {
            return false;
        }
        i += 1;
    }
    s.len() > 0
}

/// How often a key occurs among `kvs[from..]`.
pub open spec fn key_count(kvs: Seq<SpecKv>, from: int, key: Seq<char>) -> nat
    decreases kvs.len() - from,
{
    if from < 0 || from >= kvs.len() {
        0
    } else {
        key_count(kvs, from + 1, key) + if kvs[from].key == key {
            1
        } else {
            0nat
        }
    }
}

/// The same error `n` times.
pub open spec fn repeated(n: nat, text: Seq<char>) -> Findings {
    Findings { errors: Seq::new(n, |i: int| text), warnings: Seq::empty() }
}

/// The findings about key number `i`: that it is empty or unusual, and one
/// error for each later pair with the same key.
pub open spec fn key_findings(kvs: Seq<SpecKv>, i: int) -> Findings {
    let key = kvs[i].key;
    plus(
        if key.len() == 0 {
            error("metadata key #"@ + dec(i as nat) + " is empty"@)
        } else {
            when(
                !key_ok(key),
                warning(
                    "key '"@ + escape_short_text(key)
                        + "' contains characters outside [A-Za-z0-9._-]"@,
                ),
            )
        },
        repeated(key_count(kvs, i + 1, key), "duplicate metadata key '"@ + key + "'"@),
    )
}

/// One more of the same error.
proof fn lemma_repeated(n: nat, text: Seq<char>)
    ensures
        plus(repeated(n, text), error(text)) == repeated(n + 1, text),
        repeated(0, text) == nothing(),
{
    assert(plus(repeated(n, text), error(text)).errors =~= repeated(n + 1, text).errors);
    assert(plus(repeated(n, text), error(text)).warnings =~= repeated(n + 1, text).warnings);
    assert(repeated(0, text).errors =~= nothing().errors);
}

/// Check the metadata keys.
fn check_keys(kvs: &[KvPair], r: &mut Report)
    ensures
        final(r)@ == plus(
            old(r)@,
            each(kvs@.len(), |i: int| key_findings(kvs_view(kvs@), i)),
        ),
{
    let ghost all = kvs_view(kvs@);
    let ghost f = |i: int| key_findings(all, i);
    let ghost start = r@;
    let mut i: usize = 0;
    proof {
        lemma_plus(start, nothing(), nothing());
    }
    while i < kvs.len()
        invariant
            i <= kvs@.len(),
            all == kvs_view(kvs@),
            f == (|i: int| key_findings(all, i)),
            r@ == plus(start, each(i as nat, f)),
        decreases kvs@.len() - i,
    {
        let key = kvs[i].key.as_str();
        assert(all[i as int].key == key@);
        let ghost before = r@;
        let chars = chars_of(key);
        if chars.len() == 0 {
            let mut m = "metadata key #".to_string();
            push_dec(&mut m, i as u128);
            m.append(" is empty");
            push_error(r, m);
        } else if !key_charset_ok(key) {
            let mut m = "key '".to_string();
            m.append(escape_short(key).as_str());
            m.append("' contains characters outside [A-Za-z0-9._-]");
            push_warning(r, m);
        } else {
            proof {
                lemma_plus(before, nothing(), nothing());
            }
        }
        let ghost shape = if key@.len() == 0 {
            error("metadata key #"@ + dec(i as nat) + " is empty"@)
        } else {
            when(
                !key_ok(key@),
                warning(
                    "key '"@ + escape_short_text(key@)
                        + "' contains characters outside [A-Za-z0-9._-]"@,
                ),
            )
        };
        assert(r@ == plus(before, shape));
        let ghost text = "duplicate metadata key '"@ + key@ + "'"@;
        let ghost mid = r@;
        let ghost mut seen: nat = 0;
        let mut j: usize = i + 1;
        proof {
            lemma_repeated(0, text);
            lemma_plus(mid, nothing(), nothing());
        }
        while j < kvs.len()
            invariant
                i < j <= kvs@.len(),
                all == kvs_view(kvs@),
                key@ == all[i as int].key,
                text == "duplicate metadata key '"@ + key@ + "'"@,
                key_count(all, i + 1, key@) == seen + key_count(all, j as int, key@),
                r@ == plus(mid, repeated(seen, text)),
            decreases kvs@.len() - j,
        {
            assert(all[j as int].key == kvs@[j as int].key@);
            if str_eq(kvs[j].key.as_str(), key) {
                let mut m = "duplicate metadata key '".to_string();
                m.append(key);
                m.append("'");
                push_error(r, m);
                proof {
                    lemma_repeated(seen, text);
                    lemma_plus(mid, repeated(seen, text), error(text));
                    seen = seen + 1;
                }
            }
            j += 1;
        }
        proof {
            let dups = repeated(key_count(all, i + 1, key@), text);
            assert(r@ == plus(mid, dups));
            lemma_plus(before, shape, dups);
            lemma_plus(start, each(i as nat, f), f(i as int));
        }
        i += 1;
    }
}

// ---------------------------------------------------------------------------
// Tensors
// ---------------------------------------------------------------------------

/// `n` is a power of two.
pub open spec fn is_power_of_two(n: nat) -> bool
    decreases n,
{
    n == 1 || (n > 1 && n % 2 == 0 && is_power_of_two(n / 2))
}

/// Whether `n` is a power of two.
fn power_of_two(n: u64) -> (r: bool)
    ensures
        r == is_power_of_two(n as nat),
{
    let mut x: u64 = n;
    while x > 1 && x % 2 == 0
        invariant
            is_power_of_two(n as nat) == is_power_of_two(x as nat),
        decreases x,
    {
        x = x / 2;
    }
    x == 1
}

/// How often a name occurs among `tensors[from..]`.
pub open spec fn name_count(tensors: Seq<SpecTensor>, from: int, name: Seq<char>) -> nat
    decreases tensors.len() - from,
{
    if from < 0 || from >= tensors.len() {
        0
    } else {
        name_count(tensors, from + 1, name) + if tensors[from].name == name {
            1
        } else {
            0nat
        }
    }
}

/// Numbers in brackets, with commas between them.
pub open spec fn list_text(dims: Seq<u64>) -> Seq<char> {
    "["@ + join(Seq::new(dims.len(), |i: int| dec(dims[i] as nat)), ", "@) + "]"@
}

/// Numbers in brackets, with commas between them.
pub fn list_string(dims: &Vec<u64>) -> (r: String)
    ensures
        r@ == list_text(dims@),
{
    let ghost parts = Seq::new(dims@.len(), |i: int| dec(dims@[i] as nat));
    let mut out = "[".to_string();
    let mut i: usize = 0;
    assert(out@ =~= "["@ + join(parts.take(0), ", "@));
    while i < dims.len()
        invariant
            i <= dims@.len(),
            parts == Seq::new(dims@.len(), |i: int| dec(dims@[i] as nat)),
            out@ == "["@ + join(parts.take(i as int), ", "@),
        decreases dims@.len() - i,
    {
        if i > 0 {
            out.append(", ");
        }
        push_dec(&mut out, dims[i] as u128);
        proof {
            let t = parts.take(i + 1);
            assert(t.drop_last() =~= parts.take(i as int));
            assert(out@ =~= "["@ + join(t, ", "@));
        }
        i += 1;
    }
    assert(parts.take(i as int) =~= parts);
    out.append("]");
    out
}

/// The findings about where a tensor's data lies.
pub open spec fn extent_findings(t: SpecTensor, data_len: nat) -> Findings {
    if ggml_layout(t.type_code) is None {
        when(
            ggml_row(t.type_code) is None,
            warning(
                "tensor '"@ + t.name + "' has unknown ggml type "@ + dec(t.type_code as nat)
                    + " (size checks skipped)"@,
            ),
        )
    } else {
        match tensor_bytes(t) {
            Some(size) => when(
                t.offset + size > u64::MAX || t.offset + size > data_len,
                error(
                    "tensor '"@ + t.name + "' ("@ + dec(size as nat) + " bytes at offset "@ + dec(
                        t.offset as nat,
                    ) + ") extends past the data section ("@ + dec(data_len) + " bytes)"@,
                ),
            ),
            None => warning(
                "tensor '"@ + t.name + "' ("@ + ggml_name(t.type_code) + ", dims "@ + list_text(
                    t.dims,
                ) + ") is not a whole number of blocks; size check skipped"@,
            ),
        }
    }
}

/// The findings about tensor number `i`.
pub open spec fn tensor_findings(
    tensors: Seq<SpecTensor>,
    i: int,
    alignment: nat,
    data_len: nat,
) -> Findings {
    let t = tensors[i];
    plus(
        plus(
            plus(
                repeated(
                    name_count(tensors, i + 1, t.name),
                    "duplicate tensor name '"@ + t.name + "'"@,
                ),
                when(
                    t.dims.contains(0),
                    error("tensor '"@ + t.name + "' has a zero-sized dimension"@),
                ),
            ),
            when(
                t.offset as int % align_step(alignment as int) != 0,
                error(
                    "tensor '"@ + t.name + "' offset "@ + dec(t.offset as nat)
                        + " is not a multiple of the alignment ("@ + dec(alignment) + ")"@,
                ),
            ),
        ),
        extent_findings(t, data_len),
    )
}

/// Whether a dimension is zero.
fn has_zero(dims: &Vec<u64>) -> (r: bool)
    ensures
        r == dims@.contains(0),
{
    let mut i: usize = 0;
    while i < dims.len()
        invariant
            i <= dims@.len(),
            forall|j: int| 0 <= j < i ==> dims@[j] != 0,
        decreases dims@.len() - i,
    {
        if dims[i] == 0 {
            assert(dims@[i as int] == 0);
            return true;
        }
        i += 1;
    }
    false
}

/// A type is unknown exactly where its name is made up from its code.
fn is_unknown_type(code: u32) -> (r: bool)
    ensures
        r == (ggml_row(code) is None),
{
    code == 4 || code == 5 || code > 30
}

/// Check where a tensor's data lies.
fn check_extent(t: &TensorInfo, data_len: u64, r: &mut Report)
    ensures
        final(r)@ == plus(old(r)@, extent_findings(t@, data_len as nat)),
{
    proof {
        lemma_plus(r@, nothing(), nothing());
    }
    if ggml_type_size(t.type_code).is_none() {
        if is_unknown_type(t.type_code) {
            let mut m = "tensor '".to_string();
            m.append(t.name.as_str());
            m.append("' has unknown ggml type ");
            push_dec(&mut m, t.type_code as u128);
            m.append(" (size checks skipped)");
            push_warning(r, m);
        }
        return;
    }
    match t.byte_size() {
        Some(size) => {
            let past = match t.offset.checked_add(size) {
                Some(end) => end > data_len,
                None => true,
            };
            if past {
                let mut m = "tensor '".to_string();
                m.append(t.name.as_str());
                m.append("' (");
                push_dec(&mut m, size as u128);
                m.append(" bytes at offset ");
                push_dec(&mut m, t.offset as u128);
                m.append(") extends past the data section (");
                push_dec(&mut m, data_len as u128);
                m.append(" bytes)");
                push_error(r, m);
            }
        },
        None => {
            let mut m = "tensor '".to_string();
            m.append(t.name.as_str());
            m.append("' (");
            m.append(ggml_type_name(t.type_code).as_str());
            m.append(", dims ");
            m.append(list_string(&t.dims).as_str());
            m.append(") is not a whole number of blocks; size check skipped");
            push_warning(r, m);
        },
    }
}

/// Check tensor number `i`.
fn check_tensor(tensors: &[TensorInfo], i: usize, alignment: u64, data_len: u64, r: &mut Report)
    requires
        i < tensors@.len(),
    ensures
        final(r)@ == plus(
            old(r)@,
            tensor_findings(
                tensors_view(tensors@),
                i as int,
                alignment as nat,
                data_len as nat,
            ),
        ),
{
    let ghost all = tensors_view(tensors@);
    let t = &tensors[i];
    let ghost start = r@;
    let ghost text = "duplicate tensor name '"@ + t.name@ + "'"@;
    let ghost mut seen: nat = 0;
    let n: usize = tensors.len();
    let mut j: usize = i + 1;
    proof {
        lemma_repeated(0, text);
        lemma_plus(start, nothing(), nothing());
        assert(all[i as int] == t@);
    }
    while j < n
        invariant
            i < j <= n,
            n == tensors@.len(),
            all == tensors_view(tensors@),
            t@ == all[i as int],
            text == "duplicate tensor name '"@ + t.name@ + "'"@,
            name_count(all, i + 1, t.name@) == seen + name_count(all, j as int, t.name@),
            r@ == plus(start, repeated(seen, text)),
        decreases n - j,
    {
        assert(all[j as int].name == tensors@[j as int].name@);
        if str_eq(tensors[j].name.as_str(), t.name.as_str()) {
            let mut m = "duplicate tensor name '".to_string();
            m.append(t.name.as_str());
            m.append("'");
            push_error(r, m);
            proof {
                lemma_repeated(seen, text);
                lemma_plus(start, repeated(seen, text), error(text));
                seen = seen + 1;
            }
        }
        j += 1;
    }
    let ghost a = repeated(name_count(all, i + 1, t.name@), text);
    assert(r@ == plus(start, a));
    let ghost b = when(
        t.dims@.contains(0),
        error("tensor '"@ + t.name@ + "' has a zero-sized dimension"@),
    );
    proof {
        lemma_plus(r@, nothing(), nothing());
    }
    if has_zero(&t.dims) {
        let mut m = "tensor '".to_string();
        m.append(t.name.as_str());
        m.append("' has a zero-sized dimension");
        push_error(r, m);
    }
    assert(r@ == plus(plus(start, a), b));
    let step: u64 = if alignment == 0 {
        1
    } else {
        alignment
    };
    let ghost c = when(
        t.offset as int % align_step(alignment as int) != 0,
        error(
            "tensor '"@ + t.name@ + "' offset "@ + dec(t.offset as nat)
                + " is not a multiple of the alignment ("@ + dec(alignment as nat) + ")"@,
        ),
    );
    proof {
        lemma_plus(r@, nothing(), nothing());
    }
    if t.offset % step != 0 {
        let mut m = "tensor '".to_string();
        m.append(t.name.as_str());
        m.append("' offset ");
        push_dec(&mut m, t.offset as u128);
        m.append(" is not a multiple of the alignment (");
        push_dec(&mut m, alignment as u128);
        m.append(")");
        push_error(r, m);
    }
    assert(r@ == plus(plus(plus(start, a), b), c));
    check_extent(t, data_len, r);
    proof {
        let d = extent_findings(t@, data_len as nat);
        lemma_plus(plus(plus(start, a), b), c, d);
        lemma_plus(plus(start, a), b, c);
        lemma_plus(start, a, plus(b, c));
        lemma_plus(a, b, c);
        lemma_plus(start, plus(plus(a, b), c), d);
    }
}

/// Check each tensor.
fn check_tensors(tensors: &[TensorInfo], alignment: u64, data_len: u64, r: &mut Report)
    ensures
        final(r)@ == plus(
            old(r)@,
            each(
                tensors@.len(),
                |i: int|
                    tensor_findings(
                        tensors_view(tensors@),
                        i,
                        alignment as nat,
                        data_len as nat,
                    ),
            ),
        ),
{
    let ghost all = tensors_view(tensors@);
    let ghost f = |i: int| tensor_findings(all, i, alignment as nat, data_len as nat);
    let ghost start = r@;
    let mut i: usize = 0;
    proof {
        lemma_plus(start, nothing(), nothing());
    }
    while i < tensors.len()
        invariant
            i <= tensors@.len(),
            all == tensors_view(tensors@),
            f == (|i: int| tensor_findings(all, i, alignment as nat, data_len as nat)),
            r@ == plus(start, each(i as nat, f)),
        decreases tensors@.len() - i,
    {
        check_tensor(tensors, i, alignment, data_len, r);
        proof {
            lemma_plus(start, each(i as nat, f), f(i as int));
        }
        i += 1;
    }
}

// ---------------------------------------------------------------------------
// Overlaps
// ---------------------------------------------------------------------------

/// The bytes of the data section that a tensor takes.
pub struct Extent {
    pub name: Seq<char>,
    pub offset: u64,
    pub size: u64,
}

/// The extents of the tensors whose size is known, in order.
pub open spec fn extents_of(tensors: Seq<SpecTensor>) -> Seq<Extent>
    decreases tensors.len(),
{
    if tensors.len() == 0 {
        Seq::empty()
    } else {
        let t = tensors.last();
        match tensor_bytes(t) {
            Some(size) => extents_of(tensors.drop_last()).push(
                Extent { name: t.name, offset: t.offset, size },
            ),
            None => extents_of(tensors.drop_last()),
        }
    }
}

/// Put an extent behind all that do not start after it.
pub open spec fn placed(sorted: Seq<Extent>, x: Extent) -> Seq<Extent>
    decreases sorted.len(),
{
    if sorted.len() == 0 || sorted.last().offset <= x.offset {
        sorted.push(x)
    } else {
        placed(sorted.drop_last(), x).push(sorted.last())
    }
}

/// Extents by their offsets; those with equal offsets keep their order.
pub open spec fn by_offset(extents: Seq<Extent>) -> Seq<Extent>
    decreases extents.len(),
{
    if extents.len() == 0 {
        Seq::empty()
    } else {
        placed(by_offset(extents.drop_last()), extents.last())
    }
}

/// Ordered by offset.
pub open spec fn ordered(extents: Seq<Extent>) -> bool {
    forall|i: int, j: int|
        0 <= i < j < extents.len() ==> (#[trigger] extents[i]).offset <= (
        #[trigger] extents[j]).offset
}

/// Placing keeps the order, and adds just the one extent.
proof fn lemma_placed(sorted: Seq<Extent>, x: Extent)
    requires
        ordered(sorted),
    ensures
        ordered(placed(sorted, x)),
        placed(sorted, x).to_multiset() == sorted.to_multiset().insert(x),
        forall|i: int|
            0 <= i < placed(sorted, x).len() ==> (#[trigger] placed(sorted, x)[i]).offset
                <= x.offset || (sorted.len() > 0 && placed(sorted, x)[i].offset
                <= sorted.last().offset),
    decreases sorted.len(),
{
    broadcast use vstd::seq_lib::group_to_multiset_ensures;

    if sorted.len() > 0 && sorted.last().offset > x.offset {
        let init = sorted.drop_last();
        lemma_placed(init, x);
        let p = placed(init, x);
        let q = p.push(sorted.last());
        assert forall|i: int| 0 <= i < p.len() implies (#[trigger] p[i]).offset
            <= sorted.last().offset by {
            if init.len() > 0 {
                assert(init.last() == sorted[sorted.len() - 2]);
                assert(sorted[sorted.len() - 1] == sorted.last());
            }
        }
        assert forall|i: int, j: int| 0 <= i < j < q.len() implies (#[trigger] q[i]).offset <= (
        #[trigger] q[j]).offset by {
            if j < p.len() {
                assert(q[i] == p[i] && q[j] == p[j]);
            } else {
                assert(q[i] == p[i]);
            }
        }
        assert(init.push(sorted.last()) =~= sorted);
        assert(sorted.to_multiset() =~= init.to_multiset().insert(sorted.last()));
        assert(q.to_multiset() =~= p.to_multiset().insert(sorted.last()));
        assert(init.to_multiset().insert(x).insert(sorted.last()) =~= init.to_multiset().insert(
            sorted.last(),
        ).insert(x));
    } else {
        let q = sorted.push(x);
        assert forall|i: int, j: int| 0 <= i < j < q.len() implies (#[trigger] q[i]).offset <= (
        #[trigger] q[j]).offset by {
            if j == sorted.len() && i < sorted.len() - 1 {
                assert(sorted[i].offset <= sorted[sorted.len() - 1].offset);
            }
        }
        assert forall|i: int| 0 <= i < q.len() implies (#[trigger] q[i]).offset <= x.offset by {
            if i < sorted.len() - 1 {
                assert(sorted[i].offset <= sorted[sorted.len() - 1].offset);
            }
        }
    }
}

/// Ordering by offset gives the same extents, by ascending offset.
pub proof fn law_by_offset_orders(extents: Seq<Extent>)
    ensures
        ordered(by_offset(extents)),
        by_offset(extents).to_multiset() == extents.to_multiset(),
    decreases extents.len(),
{
    broadcast use vstd::seq_lib::group_to_multiset_ensures;

    if extents.len() > 0 {
        let init = extents.drop_last();
        law_by_offset_orders(init);
        lemma_placed(by_offset(init), extents.last());
        assert(init.push(extents.last()) =~= extents);
        assert(extents.to_multiset() =~= init.to_multiset().insert(extents.last()));
    } else {
        assert(extents =~= Seq::empty());
    }
}

/// The finding about neighbours `i` and `i + 1`.
pub open spec fn overlap_findings(sorted: Seq<Extent>, i: int) -> Findings {
    let a = sorted[i];
    let b = sorted[i + 1];
    when(
        a.offset + a.size > b.offset,
        error(
            "tensors '"@ + a.name + "' and '"@ + b.name + "' overlap ("@ + dec(a.offset as nat)
                + "+"@ + dec(a.size as nat) + " > "@ + dec(b.offset as nat) + ")"@,
        ),
    )
}

/// The findings about tensors whose data overlaps.
pub open spec fn overlaps(tensors: Seq<SpecTensor>) -> Findings {
    let sorted = by_offset(extents_of(tensors));
    each(
        if sorted.len() == 0 {
            0
        } else {
            (sorted.len() - 1) as nat
        },
        |i: int| overlap_findings(sorted, i),
    )
}

/// An extent, by the number of its tensor.
struct Span {
    tensor: usize,
    offset: u64,
    size: u64,
}

/// The extents that spans stand for.
spec fn spans_view(spans: Seq<Span>, tensors: Seq<SpecTensor>) -> Seq<Extent> {
    Seq::new(
        spans.len(),
        |i: int|
            Extent {
                name: tensors[spans[i].tensor as int].name,
                offset: spans[i].offset,
                size: spans[i].size,
            },
    )
}

/// Every span is of a tensor that exists.
spec fn spans_inside(spans: Seq<Span>, len: nat) -> bool {
    forall|i: int| 0 <= i < spans.len() ==> (#[trigger] spans[i]).tensor < len
}

/// The place of an extent is behind the last that does not start after it.
proof fn lemma_placed_at(sorted: Seq<Extent>, x: Extent, k: int)
    requires
        0 <= k <= sorted.len(),
        k > 0 ==> sorted[k - 1].offset <= x.offset,
        forall|j: int| k <= j < sorted.len() ==> (#[trigger] sorted[j]).offset > x.offset,
    ensures
        placed(sorted, x) == sorted.insert(k, x),
    decreases sorted.len(),
{
    if k < sorted.len() {
        let init = sorted.drop_last();
        assert(sorted[sorted.len() - 1].offset > x.offset);
        lemma_placed_at(init, x, k);
        assert(init.insert(k, x).push(sorted.last()) =~= sorted.insert(k, x));
    } else {
        assert(sorted.push(x) =~= sorted.insert(k, x));
    }
}

/// Put a span behind all that do not start after it.
fn place(sorted: &mut Vec<Span>, x: Span, Ghost(tensors): Ghost<Seq<SpecTensor>>)
    requires
        spans_inside(old(sorted)@, tensors.len()),
        x.tensor < tensors.len(),
    ensures
        spans_inside(final(sorted)@, tensors.len()),
        spans_view(final(sorted)@, tensors) == placed(
            spans_view(old(sorted)@, tensors),
            Extent { name: tensors[x.tensor as int].name, offset: x.offset, size: x.size },
        ),
{
    let ghost before = spans_view(sorted@, tensors);
    let ghost e = Extent { name: tensors[x.tensor as int].name, offset: x.offset, size: x.size };
    let mut k: usize = sorted.len();
    while k > 0 && sorted[k - 1].offset > x.offset
        invariant
            k <= sorted@.len(),
            forall|j: int| k <= j < sorted@.len() ==> (#[trigger] sorted@[j]).offset > x.offset,
        decreases k,
    {
        k -= 1;
    }
    proof {
        assert forall|j: int| k <= j < before.len() implies (#[trigger] before[j]).offset
            > x.offset by {
            assert(sorted@[j].offset > x.offset);
        }
        lemma_placed_at(before, e, k as int);
    }
    sorted.insert(k, x);
    assert(spans_view(sorted@, tensors) =~= before.insert(k as int, e));
    assert(spans_inside(sorted@, tensors.len())) by {
        assert forall|i: int| 0 <= i < sorted@.len() implies (#[trigger] sorted@[i]).tensor
            < tensors.len() by {
            assert(i < k ==> sorted@[i] == old(sorted)@[i]);
            assert(i > k ==> sorted@[i] == old(sorted)@[i - 1]);
        }
    }
}

/// Check for tensors whose data overlaps.
fn check_overlaps(tensors: &[TensorInfo], r: &mut Report)
    ensures
        final(r)@ == plus(old(r)@, overlaps(tensors_view(tensors@))),
{
    let ghost all = tensors_view(tensors@);
    let mut spans: Vec<Span> = Vec::new();
    let mut i: usize = 0;
    assert(all.take(0) =~= Seq::<SpecTensor>::empty());
    assert(spans_view(spans@, all) =~= by_offset(extents_of(all.take(0))));
    while i < tensors.len()
        invariant
            i <= tensors@.len(),
            all == tensors_view(tensors@),
            spans_inside(spans@, all.len()),
            spans_view(spans@, all) == by_offset(extents_of(all.take(i as int))),
        decreases tensors@.len() - i,
    {
        proof {
            assert(all.take(i + 1).drop_last() =~= all.take(i as int));
            assert(all.take(i + 1).last() == tensors@[i as int]@);
            if let Some(size) = tensor_bytes(tensors@[i as int]@) {
                let t = tensors@[i as int]@;
                let e = Extent { name: t.name, offset: t.offset, size };
                assert(extents_of(all.take(i as int)).push(e).drop_last() =~= extents_of(
                    all.take(i as int),
                ));
            }
        }
        match tensors[i].byte_size() {
            Some(size) => {
                let x = Span { tensor: i, offset: tensors[i].offset, size };
                place(&mut spans, x, Ghost(all));
            },
            None => {},
        }
        i += 1;
    }
    assert(all.take(i as int) =~= all);
    let ghost sorted = by_offset(extents_of(all));
    let ghost f = |i: int| overlap_findings(sorted, i);
    let ghost start = r@;
    let n: usize = spans.len();
    proof {
        lemma_plus(start, nothing(), nothing());
    }
    if n == 0 {
        return;
    }
    let mut k: usize = 0;
    while k < n - 1
        invariant
            k <= n - 1,
            0 < n,
            n == spans@.len(),
            all == tensors_view(tensors@),
            sorted == spans_view(spans@, all),
            spans_inside(spans@, all.len()),
            f == (|i: int| overlap_findings(sorted, i)),
            r@ == plus(start, each(k as nat, f)),
        decreases n - k,
    {
        let ghost before = r@;
        proof {
            lemma_plus(before, nothing(), nothing());
            lemma_plus(start, each(k as nat, f), f(k as int));
            assert(sorted[k as int].offset == spans@[k as int].offset);
            assert(sorted[k + 1].offset == spans@[k + 1].offset);
        }
        let a = &spans[k];
        let b = &spans[k + 1];
        assert(a.tensor < all.len() && b.tensor < all.len());
        if a.offset as u128 + a.size as u128 > b.offset as u128 {
            let mut m = "tensors '".to_string();
            m.append(tensors[a.tensor].name.as_str());
            m.append("' and '");
            m.append(tensors[b.tensor].name.as_str());
            m.append("' overlap (");
            push_dec(&mut m, a.offset as u128);
            m.append("+");
            push_dec(&mut m, a.size as u128);
            m.append(" > ");
            push_dec(&mut m, b.offset as u128);
            m.append(")");
            push_error(r, m);
        }
        assert(r@ == plus(before, f(k as int)));
        k += 1;
    }
}

// ---------------------------------------------------------------------------
// The chat template, and all together
// ---------------------------------------------------------------------------

/// The warning about one lint finding; only errors are reported.
pub open spec fn template_finding(issue: SpecIssue) -> Findings {
    when(
        issue.severity == Severity::Error,
        warning(
            CHAT_TEMPLATE_KEY@ + ": "@ + issue.message + (match issue.pos {
                Some((l, c)) => " at "@ + dec(l) + ":"@ + dec(c),
                None => Seq::empty(),
            }) + " (run 'template check' for details)"@,
        ),
    )
}

/// The findings about the embedded chat template.
pub open spec fn template_findings(kvs: Seq<SpecKv>) -> Findings {
    match value_of(kvs, CHAT_TEMPLATE_KEY@) {
        Some(SpecValue::Str(text)) => each(
            findings(text).len(),
            |i: int| template_finding(findings(text)[i]),
        ),
        Some(_) => error(CHAT_TEMPLATE_KEY@ + " is not a string value"@),
        None => nothing(),
    }
}

/// The findings about the head as a whole.
pub open spec fn head_findings(h: SpecHead, file_len: nat) -> Findings {
    plus(
        plus(
            when(
                !is_power_of_two(h.alignment as nat),
                warning(
                    "general.alignment "@ + dec(h.alignment as nat) + " is not a power of two"@,
                ),
            ),
            when(
                value_of(h.kvs, "general.architecture"@) is None,
                warning("no general.architecture key; most runtimes require it"@),
            ),
        ),
        when(
            h.tensors.len() > 0 && h.data_start > file_len,
            error(
                "tensor data should start at byte "@ + dec(h.data_start as nat)
                    + " but the file is only "@ + dec(file_len) + " bytes (truncated?)"@,
            ),
        ),
    )
}

/// The length of the data section of a file.
pub open spec fn data_length(h: SpecHead, file_len: nat) -> nat {
    if file_len >= h.data_start {
        (file_len - h.data_start) as nat
    } else {
        0
    }
}

/// All findings, in order: keys, the head as a whole, tensors, overlaps, the
/// chat template.
pub open spec fn report_on(h: SpecHead, file_len: nat) -> Findings {
    plus(
        plus(
            plus(
                plus(
                    each(h.kvs.len(), |i: int| key_findings(h.kvs, i)),
                    head_findings(h, file_len),
                ),
                each(
                    h.tensors.len(),
                    |i: int|
                        tensor_findings(
                            h.tensors,
                            i,
                            h.alignment as nat,
                            data_length(h, file_len),
                        ),
                ),
            ),
            overlaps(h.tensors),
        ),
        template_findings(h.kvs),
    )
}

/// Check the head as a whole.
fn check_head(g: &Gguf, r: &mut Report)
    ensures
        final(r)@ == plus(old(r)@, head_findings(g@, g.file_len as nat)),
{
    let ghost start = r@;
    let ghost h = g@;
    let ghost a = when(
        !is_power_of_two(h.alignment as nat),
        warning("general.alignment "@ + dec(h.alignment as nat) + " is not a power of two"@),
    );
    let ghost b = when(
        value_of(h.kvs, "general.architecture"@) is None,
        warning("no general.architecture key; most runtimes require it"@),
    );
    let ghost c = when(
        h.tensors.len() > 0 && h.data_start > g.file_len,
        error(
            "tensor data should start at byte "@ + dec(h.data_start as nat)
                + " but the file is only "@ + dec(g.file_len as nat) + " bytes (truncated?)"@,
        ),
    );
    proof {
        lemma_plus(r@, nothing(), nothing());
    }
    if !power_of_two(g.alignment) {
        let mut m = "general.alignment ".to_string();
        push_dec(&mut m, g.alignment as u128);
        m.append(" is not a power of two");
        push_warning(r, m);
    }
    assert(r@ == plus(start, a));
    proof {
        lemma_plus(r@, nothing(), nothing());
    }
    if g.get("general.architecture").is_none() {
        push_warning(r, "no general.architecture key; most runtimes require it".to_string());
    }
    assert(r@ == plus(plus(start, a), b));
    proof {
        lemma_plus(r@, nothing(), nothing());
    }
    if g.tensors.len() > 0 && g.data_start > g.file_len {
        let mut m = "tensor data should start at byte ".to_string();
        push_dec(&mut m, g.data_start as u128);
        m.append(" but the file is only ");
        push_dec(&mut m, g.file_len as u128);
        m.append(" bytes (truncated?)");
        push_error(r, m);
    }
    proof {
        lemma_plus(plus(start, a), b, c);
        lemma_plus(start, a, plus(b, c));
        lemma_plus(a, b, c);
    }
}

/// Check the embedded chat template.
fn check_template(g: &Gguf, r: &mut Report)
    ensures
        final(r)@ == plus(old(r)@, template_findings(g@.kvs)),
{
    let ghost start = r@;
    proof {
        lemma_plus(start, nothing(), nothing());
    }
    match g.get(CHAT_TEMPLATE_KEY) {
        Some(GgufValue::Str(text)) => {
            let issues = lint(text.as_str());
            let ghost all = findings(text@);
            let ghost f = |i: int| template_finding(findings(text@)[i]);
            let mut i: usize = 0;
            while i < issues.len()
                invariant
                    i <= issues@.len(),
                    all == findings(text@),
                    all == issues_view(issues@),
                    f == (|i: int| template_finding(findings(text@)[i])),
                    r@ == plus(start, each(i as nat, f)),
                decreases issues@.len() - i,
            {
                let ghost before = r@;
                proof {
                    lemma_plus(before, nothing(), nothing());
                    lemma_plus(start, each(i as nat, f), f(i as int));
                    assert(all[i as int] == issues@[i as int]@);
                }
                if issues[i].severity == Severity::Error {
                    let mut m = CHAT_TEMPLATE_KEY.to_string();
                    m.append(": ");
                    m.append(issues[i].message.as_str());
                    let ghost so_far = m@;
                    match issues[i].pos {
                        Some((l, c)) => {
                            m.append(" at ");
                            push_dec(&mut m, l as u128);
                            m.append(":");
                            push_dec(&mut m, c as u128);
                            assert(m@ =~= so_far + (" at "@ + dec(l as nat) + ":"@ + dec(
                                c as nat,
                            )));
                        },
                        None => {
                            assert(m@ =~= so_far + Seq::<char>::empty());
                        },
                    }
                    m.append(" (run 'template check' for details)");
                    push_warning(r, m);
                }
                assert(r@ == plus(before, f(i as int)));
                i += 1;
            }
        },
        Some(_) => {
            let mut m = CHAT_TEMPLATE_KEY.to_string();
            m.append(" is not a string value");
            push_error(r, m);
        },
        None => {},
    }
}

/// Run every check against a parsed head.
pub fn verify(g: &Gguf) -> (r: Report)
    ensures
        r@ == report_on(g@, g.file_len as nat),
{
    let mut r = Report::default();
    check_keys(&g.kvs, &mut r);
    let ghost a = each(g@.kvs.len(), |i: int| key_findings(g@.kvs, i));
    proof {
        lemma_plus(a, nothing(), nothing());
    }
    check_head(g, &mut r);
    check_tensors(&g.tensors, g.alignment, g.data_len(), &mut r);
    check_overlaps(&g.tensors, &mut r);
    check_template(g, &mut r);
    r
}

} // verus!
