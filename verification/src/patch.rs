//! Edit operations on the metadata list: `set`, `rm` and `rename`, plus the
//! value syntax used on the command line (`KEY=VALUE` / `KEY=TYPE:VALUE`) and
//! in JSON patch documents. Application is atomic: every operation is
//! validated against a working copy, and the original list is only replaced
//! when all of them succeed.

use crate::float::{double_of_text, exact_64, exact_double, narrow, narrowed, parse_double};
use crate::json::{items_view, lemma_arr_view, lemma_obj_view, member, pairs_view, Json, SpecJson};
use crate::layout::lemma_value_of_push;
use crate::text::{
    chars_of, find_char, index_of_char, int_of_text, int_string, int_text, nat_of_text,
    parse_digits, parse_i128, str_eq, string_of,
};
use crate::types::{
    clone_kvs, kvs_view, label_text, name_of_type, preview_text, type_of_name, value_type, GgufType,
    GgufValue, KvPair, SpecKv, SpecValue, ALIGNMENT_KEY,
};
use crate::wire::value_of;
use crate::writer::PAD_KEY;
use vstd::prelude::*;
use vstd::string::*;

verus! {

/// Keys that cannot be edited because moving them breaks the offset math
/// that in-place patching depends on.
pub const PROTECTED_KEYS: [&'static str; 1] = ["general.alignment"];

/// A refused edit, with the reason.
#[derive(Debug)]
pub struct PatchError(pub String);

impl PatchError {
    /// The reason.
    pub fn to_text(&self) -> (r: String)
        ensures
            r@ == self.0@,
    {
        self.0.clone()
    }
}

/// A value as written by the user: fully typed, or raw text to be coerced
/// against the key's existing type (or inferred for a new key).
#[derive(Debug, PartialEq)]
pub enum ValueSpec {
    Typed(GgufValue),
    Inferred(String),
}

/// What a [`ValueSpec`] holds.
pub enum SpecValueSpec {
    Typed(SpecValue),
    Inferred(Seq<char>),
}

impl View for ValueSpec {
    type V = SpecValueSpec;

    open spec fn view(&self) -> SpecValueSpec {
        match *self {
            ValueSpec::Typed(v) => SpecValueSpec::Typed(v@),
            ValueSpec::Inferred(s) => SpecValueSpec::Inferred(s@),
        }
    }
}

impl Clone for ValueSpec {
    fn clone(&self) -> (r: Self)
        ensures
            r@ == self@,
    {
        match self {
            ValueSpec::Typed(v) => ValueSpec::Typed(v.clone()),
            ValueSpec::Inferred(s) => ValueSpec::Inferred(s.clone()),
        }
    }
}

/// One edit operation.
#[derive(Debug, PartialEq)]
pub enum EditOp {
    Assign { key: String, spec: ValueSpec },
    Remove { key: String },
    Rename { from: String, to: String },
}

/// What an [`EditOp`] holds.
pub enum SpecOp {
    Assign { key: Seq<char>, spec: SpecValueSpec },
    Remove { key: Seq<char> },
    Rename { from: Seq<char>, to: Seq<char> },
}

impl View for EditOp {
    type V = SpecOp;

    open spec fn view(&self) -> SpecOp {
        match *self {
            EditOp::Assign { key, spec } => SpecOp::Assign { key: key@, spec: spec@ },
            EditOp::Remove { key } => SpecOp::Remove { key: key@ },
            EditOp::Rename { from, to } => SpecOp::Rename { from: from@, to: to@ },
        }
    }
}

impl Clone for EditOp {
    fn clone(&self) -> (r: Self)
        ensures
            r@ == self@,
    {
        match self {
            EditOp::Assign { key, spec } => EditOp::Assign {
                key: key.clone(),
                spec: spec.clone(),
            },
            EditOp::Remove { key } => EditOp::Remove { key: key.clone() },
            EditOp::Rename { from, to } => EditOp::Rename { from: from.clone(), to: to.clone() },
        }
    }
}

/// What each operation of a sequence holds.
pub open spec fn ops_view(ops: Seq<EditOp>) -> Seq<SpecOp> {
    Seq::new(ops.len(), |i: int| ops[i]@)
}

// ---------------------------------------------------------------------------
// Values from text
// ---------------------------------------------------------------------------

/// The integer that `raw` spells, where it lies between `min` and `max`.
pub open spec fn int_between(raw: Seq<char>, min: int, max: int, ty: Seq<char>) -> Result<
    int,
    Seq<char>,
> {
    match int_of_text(raw) {
        None => Err("'"@ + raw + "' is not an integer"@),
        Some(v) => if v < min || v > max {
            Err(
                int_text(v) + " does not fit "@ + ty + " ("@ + int_text(min) + "..="@ + int_text(
                    max,
                ) + ")"@,
            )
        } else {
            Ok(v)
        },
    }
}

/// `raw` as a value of a specific type, or the reason why it is none.
pub open spec fn coerced(ty: GgufType, raw: Seq<char>) -> Result<SpecValue, Seq<char>> {
    match ty {
        GgufType::U8 => match int_between(raw, 0, u8::MAX as int, "u8"@) {
            Ok(v) => Ok(SpecValue::U8(v as u8)),
            Err(e) => Err(e),
        },
        GgufType::I8 => match int_between(raw, i8::MIN as int, i8::MAX as int, "i8"@) {
            Ok(v) => Ok(SpecValue::I8(v as i8)),
            Err(e) => Err(e),
        },
        GgufType::U16 => match int_between(raw, 0, u16::MAX as int, "u16"@) {
            Ok(v) => Ok(SpecValue::U16(v as u16)),
            Err(e) => Err(e),
        },
        GgufType::I16 => match int_between(raw, i16::MIN as int, i16::MAX as int, "i16"@) {
            Ok(v) => Ok(SpecValue::I16(v as i16)),
            Err(e) => Err(e),
        },
        GgufType::U32 => match int_between(raw, 0, u32::MAX as int, "u32"@) {
            Ok(v) => Ok(SpecValue::U32(v as u32)),
            Err(e) => Err(e),
        },
        GgufType::I32 => match int_between(raw, i32::MIN as int, i32::MAX as int, "i32"@) {
            Ok(v) => Ok(SpecValue::I32(v as i32)),
            Err(e) => Err(e),
        },
        GgufType::U64 => match int_between(raw, 0, u64::MAX as int, "u64"@) {
            Ok(v) => Ok(SpecValue::U64(v as u64)),
            Err(e) => Err(e),
        },
        GgufType::I64 => match int_between(raw, i64::MIN as int, i64::MAX as int, "i64"@) {
            Ok(v) => Ok(SpecValue::I64(v as i64)),
            Err(e) => Err(e),
        },
        GgufType::F32 => match double_of_text(raw) {
            Some(bits) => Ok(SpecValue::F32(narrowed(bits))),
            None => Err("'"@ + raw + "' is not a number"@),
        },
        GgufType::F64 => match double_of_text(raw) {
            Some(bits) => Ok(SpecValue::F64(bits)),
            None => Err("'"@ + raw + "' is not a number"@),
        },
        GgufType::Bool => if raw == "true"@ {
            Ok(SpecValue::Bool(true))
        } else if raw == "false"@ {
            Ok(SpecValue::Bool(false))
        } else {
            Err("'"@ + raw + "' is not a bool (use 'true' or 'false')"@)
        },
        GgufType::Str => Ok(SpecValue::Str(raw)),
        GgufType::Array => Err("array values cannot be written in 0.1.0"@),
    }
}

/// A value that was coerced has the type it was coerced to.
pub proof fn law_coerced_value_has_the_type(ty: GgufType, raw: Seq<char>)
    ensures
        coerced(ty, raw) matches Ok(v) ==> value_type(v) == ty,
        ty == GgufType::Str ==> coerced(ty, raw) == Ok::<SpecValue, Seq<char>>(SpecValue::Str(raw)),
{
}

/// The integer that `raw` spells, where it lies between `min` and `max`.
fn int_in(raw: &str, min: i128, max: i128, ty: &str) -> (r: Result<i128, PatchError>)
    ensures
        match (r, int_between(raw@, min as int, max as int, ty@)) {
            (Ok(v), Ok(w)) => v == w && min <= v <= max,
            (Err(e), Err(f)) => e.0@ == f,
            _ => false,
        },
{
    match parse_i128(raw) {
        None => {
            let mut m = "'".to_string();
            m.append(raw);
            m.append("' is not an integer");
            Err(PatchError(m))
        },
        Some(v) => {
            if v < min || v > max {
                let mut m = int_string(v);
                m.append(" does not fit ");
                m.append(ty);
                m.append(" (");
                m.append(int_string(min).as_str());
                m.append("..=");
                m.append(int_string(max).as_str());
                m.append(")");
                return Err(PatchError(m));
            }
            Ok(v)
        },
    }
}

/// The double that `raw` spells.
fn parse_float(raw: &str) -> (r: Result<u64, PatchError>)
    ensures
        match (r, double_of_text(raw@)) {
            (Ok(v), Some(w)) => v == w,
            (Err(e), None) => e.0@ == "'"@ + raw@ + "' is not a number"@,
            _ => false,
        },
{
    match parse_double(raw) {
        Some(bits) => Ok(bits),
        None => {
            let mut m = "'".to_string();
            m.append(raw);
            m.append("' is not a number");
            Err(PatchError(m))
        },
    }
}

/// Coerce raw text into a specific GGUF type, with range checks.
pub fn coerce(ty: GgufType, raw: &str) -> (r: Result<GgufValue, PatchError>)
    ensures
        match (r, coerced(ty, raw@)) {
            (Ok(v), Ok(w)) => v@ == w,
            (Err(e), Err(f)) => e.0@ == f,
            _ => false,
        },
{
    match ty {
        GgufType::U8 => match int_in(raw, 0, 0xff, "u8") {
            Ok(v) => Ok(GgufValue::U8(v as u8)),
            Err(e) => Err(e),
        },
        GgufType::I8 => match int_in(raw, -0x80, 0x7f, "i8") {
            Ok(v) => Ok(GgufValue::I8(v as i8)),
            Err(e) => Err(e),
        },
        GgufType::U16 => match int_in(raw, 0, 0xffff, "u16") {
            Ok(v) => Ok(GgufValue::U16(v as u16)),
            Err(e) => Err(e),
        },
        GgufType::I16 => match int_in(raw, -0x8000, 0x7fff, "i16") {
            Ok(v) => Ok(GgufValue::I16(v as i16)),
            Err(e) => Err(e),
        },
        GgufType::U32 => match int_in(raw, 0, 0xffff_ffff, "u32") {
            Ok(v) => Ok(GgufValue::U32(v as u32)),
            Err(e) => Err(e),
        },
        GgufType::I32 => match int_in(raw, -0x8000_0000, 0x7fff_ffff, "i32") {
            Ok(v) => Ok(GgufValue::I32(v as i32)),
            Err(e) => Err(e),
        },
        GgufType::U64 => match int_in(raw, 0, 0xffff_ffff_ffff_ffff, "u64") {
            Ok(v) => Ok(GgufValue::U64(v as u64)),
            Err(e) => Err(e),
        },
        GgufType::I64 => match int_in(
            raw,
            -0x8000_0000_0000_0000,
            0x7fff_ffff_ffff_ffff,
            "i64",
        ) {
            Ok(v) => Ok(GgufValue::I64(v as i64)),
            Err(e) => Err(e),
        },
        GgufType::F32 => match parse_float(raw) {
            Ok(bits) => Ok(GgufValue::F32(narrow(bits))),
            Err(e) => Err(e),
        },
        GgufType::F64 => match parse_float(raw) {
            Ok(bits) => Ok(GgufValue::F64(bits)),
            Err(e) => Err(e),
        },
        GgufType::Bool => if str_eq(raw, "true") {
            Ok(GgufValue::Bool(true))
        } else if str_eq(raw, "false") {
            Ok(GgufValue::Bool(false))
        } else {
            let mut m = "'".to_string();
            m.append(raw);
            m.append("' is not a bool (use 'true' or 'false')");
            Err(PatchError(m))
        },
        GgufType::Str => Ok(GgufValue::Str(raw.to_string())),
        GgufType::Array => Err(
            PatchError("array values cannot be written in 0.1.0".to_string()),
        ),
    }
}

/// A character that numbers are written with.
pub open spec fn is_numeric(c: char) -> bool {
    is_numeric_sign(c) || '0' <= c <= '9'
}

/// A character other than a digit that numbers are written with.
pub open spec fn is_numeric_sign(c: char) -> bool {
    c == '+' || c == '-' || c == '.' || c == 'e' || c == 'E' || c == '_'
}

/// The value of a brand-new key: bool, then unsigned/signed integer
/// (u32 preferred — the width GGUF convention uses for counts and lengths),
/// then f32, falling back to string. Only strings that *look* numeric become
/// floats; "1.2.3" stays a string.
pub open spec fn inferred(raw: Seq<char>) -> SpecValue {
    if raw == "true"@ {
        SpecValue::Bool(true)
    } else if raw == "false"@ {
        SpecValue::Bool(false)
    } else {
        match int_of_text(raw) {
            Some(v) => if 0 <= v <= u32::MAX {
                SpecValue::U32(v as u32)
            } else if i32::MIN <= v < 0 {
                SpecValue::I32(v as i32)
            } else if 0 <= v <= u64::MAX {
                SpecValue::U64(v as u64)
            } else if i64::MIN <= v < 0 {
                SpecValue::I64(v as i64)
            } else {
                inferred_other(raw)
            },
            None => inferred_other(raw),
        }
    }
}

/// The value of a brand-new key that is neither a bool nor an integer that fits.
pub open spec fn inferred_other(raw: Seq<char>) -> SpecValue {
    let numeric = forall|i: int| 0 <= i < raw.len() ==> is_numeric(#[trigger] raw[i]);
    match double_of_text(raw) {
        Some(bits) => if numeric {
            SpecValue::F32(narrowed(bits))
        } else {
            SpecValue::Str(raw)
        },
        None => SpecValue::Str(raw),
    }
}

/// Whether a text is written with numeric characters only.
fn looks_numeric(raw: &str) -> (r: bool)
    ensures
        r == forall|i: int| 0 <= i < raw@.len() ==> is_numeric(#[trigger] raw@[i]),
{
    let s = chars_of(raw);
    let mut i: usize = 0;
    while i < s.len()
        invariant
            i <= s@.len(),
            s@ == raw@,
            forall|j: int| 0 <= j < i ==> is_numeric(#[trigger] raw@[j]),
        decreases s@.len() - i,
    {
        let c = s[i];
        let ok = ('0' <= c && c <= '9') || c == '+' || c == '-' || c == '.' || c == 'e' || c == 'E'
            || c == '_';
        assert(ok == is_numeric(raw@[i as int]));
        if !ok {
            return false;
        }
        i += 1;
    }
    true
}

/// Infer a type for a brand-new key (see [`inferred`]).
pub fn infer(raw: &str) -> (r: GgufValue)
    ensures
        r@ == inferred(raw@),
{
    if str_eq(raw, "true") {
        return GgufValue::Bool(true);
    }
    if str_eq(raw, "false") {
        return GgufValue::Bool(false);
    }
    match parse_i128(raw) {
        Some(v) => {
            if 0 <= v && v <= 0xffff_ffff {
                return GgufValue::U32(v as u32);
            }
            if -0x8000_0000 <= v && v < 0 {
                return GgufValue::I32(v as i32);
            }
            if v >= 0 && v <= 0xffff_ffff_ffff_ffff {
                return GgufValue::U64(v as u64);
            }
            if v >= -0x8000_0000_0000_0000 && v < 0 {
                return GgufValue::I64(v as i64);
            }
        },
        None => {},
    }
    match parse_double(raw) {
        Some(bits) => {
            if looks_numeric(raw) {
                return GgufValue::F32(narrow(bits));
            }
        },
        None => {},
    }
    GgufValue::Str(raw.to_string())
}

/// The operation that a `KEY=VALUE` / `KEY=TYPE:VALUE` argument asks for. The
/// prefix before the first `:` is only treated as a type when it names one.
pub open spec fn set_op(arg: Seq<char>) -> Result<SpecOp, Seq<char>> {
    let e = index_of_char(arg, '=');
    if e == arg.len() {
        Err("'"@ + arg + "' is not KEY=VALUE (missing '=')"@)
    } else if e == 0 {
        Err("'"@ + arg + "' has an empty key"@)
    } else {
        let key = arg.take(e);
        let rest = arg.skip(e + 1);
        let c = index_of_char(rest, ':');
        if c < rest.len() && type_of_name(rest.take(c)) is Some {
            match coerced(type_of_name(rest.take(c))->Some_0, rest.skip(c + 1)) {
                Ok(v) => Ok(SpecOp::Assign { key, spec: SpecValueSpec::Typed(v) }),
                Err(m) => Err(m),
            }
        } else {
            Ok(SpecOp::Assign { key, spec: SpecValueSpec::Inferred(rest) })
        }
    }
}

/// Parse one `KEY=VALUE` / `KEY=TYPE:VALUE` argument. The prefix before the
/// first `:` is only treated as a type when it names one, so plain values
/// containing colons (URLs, templates) need no escaping.
pub fn parse_set_arg(arg: &str) -> (r: Result<EditOp, PatchError>)
    ensures
        match (r, set_op(arg@)) {
            (Ok(op), Ok(want)) => op@ == want,
            (Err(e), Err(f)) => e.0@ == f,
            _ => false,
        },
{
    let s = chars_of(arg);
    assert(s@.skip(0) =~= s@);
    let e: usize = find_char(&s, 0, '=');
    if e == s.len() {
        let mut m = "'".to_string();
        m.append(arg);
        m.append("' is not KEY=VALUE (missing '=')");
        return Err(PatchError(m));
    }
    if e == 0 {
        let mut m = "'".to_string();
        m.append(arg);
        m.append("' has an empty key");
        return Err(PatchError(m));
    }
    let key = string_of(&s, 0, e);
    let ghost rest = arg@.skip(e + 1);
    let c: usize = find_char(&s, e + 1, ':');
    let ghost at = index_of_char(rest, ':');
    proof {
        assert(s@.subrange(0, e as int) =~= arg@.take(e as int));
        assert(s@.subrange(e + 1, c as int) =~= rest.take(at));
        assert(s@.subrange(e + 1, s@.len() as int) =~= rest);
        if c < s@.len() {
            assert(s@.subrange(c + 1, s@.len() as int) =~= rest.skip(at + 1));
        }
    }
    if c < s.len() {
        let name = string_of(&s, e + 1, c);
        match GgufType::from_name(name.as_str()) {
            Some(ty) => {
                let raw = string_of(&s, c + 1, s.len());
                return match coerce(ty, raw.as_str()) {
                    Ok(v) => Ok(EditOp::Assign { key, spec: ValueSpec::Typed(v) }),
                    Err(m) => Err(m),
                };
            },
            None => {},
        }
    }
    let raw = string_of(&s, e + 1, s.len());
    Ok(EditOp::Assign { key, spec: ValueSpec::Inferred(raw) })
}

// ---------------------------------------------------------------------------
// Applying operations
// ---------------------------------------------------------------------------

/// Why a key must not be touched by `action`, where it must not.
pub open spec fn refusal(key: Seq<char>, action: Seq<char>) -> Option<Seq<char>> {
    if key == ALIGNMENT_KEY@ {
        Some(
            "refusing to "@ + action + " '"@ + key
                + "': changing the alignment would move every tensor; this is not supported in 0.1.0"@,
        )
    } else if key == PAD_KEY@ {
        Some(
            "'"@ + PAD_KEY@
                + "' is managed automatically (it is resized on every write); use --reserve to control headroom"@,
        )
    } else {
        None
    }
}

/// Refuse to touch a protected or managed key.
fn check_editable(key: &str, action: &str) -> (r: Result<(), PatchError>)
    ensures
        match (r, refusal(key@, action@)) {
            (Ok(_), None) => true,
            (Err(e), Some(m)) => e.0@ == m,
            _ => false,
        },
{
    if str_eq(key, PROTECTED_KEYS[0]) {
        let mut m = "refusing to ".to_string();
        m.append(action);
        m.append(" '");
        m.append(key);
        m.append(
            "': changing the alignment would move every tensor; this is not supported in 0.1.0",
        );
        return Err(PatchError(m));
    }
    if str_eq(key, PAD_KEY) {
        let mut m = "'".to_string();
        m.append(PAD_KEY);
        m.append(
            "' is managed automatically (it is resized on every write); use --reserve to control headroom",
        );
        return Err(PatchError(m));
    }
    Ok(())
}

/// The position of the first pair under a key; the length where there is none.
pub open spec fn key_index(kvs: Seq<SpecKv>, key: Seq<char>) -> int
    decreases kvs.len(),
{
    if kvs.len() == 0 || kvs[0].key == key {
        0
    } else {
        1 + key_index(kvs.skip(1), key)
    }
}

/// The position is within the metadata, and no earlier pair has the key.
pub proof fn lemma_key_index(kvs: Seq<SpecKv>, key: Seq<char>)
    ensures
        0 <= key_index(kvs, key) <= kvs.len(),
        key_index(kvs, key) < kvs.len() ==> kvs[key_index(kvs, key)].key == key,
        forall|j: int| 0 <= j < key_index(kvs, key) ==> (#[trigger] kvs[j]).key != key,
    decreases kvs.len(),
{
    if kvs.len() > 0 && kvs[0].key != key {
        lemma_key_index(kvs.skip(1), key);
        assert forall|j: int| 0 <= j < key_index(kvs, key) implies (#[trigger] kvs[j]).key
            != key by {
            if j > 0 {
                assert(kvs.skip(1)[j - 1] == kvs[j]);
            }
        }
    }
}

/// The position of the first pair under a key; the length where there is none.
fn find_key(kvs: &[KvPair], key: &str) -> (r: usize)
    ensures
        r == key_index(kvs_view(kvs@), key@),
        r <= kvs@.len(),
{
    let ghost all = kvs_view(kvs@);
    proof {
        lemma_key_index(all, key@);
    }
    let mut i: usize = 0;
    while i < kvs.len()
        invariant
            i <= kvs@.len(),
            all == kvs_view(kvs@),
            i <= key_index(all, key@) <= all.len(),
            key_index(all, key@) < all.len() ==> all[key_index(all, key@)].key == key@,
            forall|j: int| 0 <= j < key_index(all, key@) ==> (#[trigger] all[j]).key != key@,
        decreases kvs@.len() - i,
    {
        assert(all[i as int] == kvs@[i as int]@);
        if str_eq(kvs[i].key.as_str(), key) {
            return i;
        }
        i += 1;
    }
    i
}

/// The value that an assignment stores, or why it is refused.
pub open spec fn assigned_value(
    kvs: Seq<SpecKv>,
    key: Seq<char>,
    spec: SpecValueSpec,
) -> Result<SpecValue, Seq<char>> {
    let i = key_index(kvs, key);
    match spec {
        SpecValueSpec::Typed(v) => Ok(v),
        SpecValueSpec::Inferred(raw) => if i == kvs.len() {
            Ok(inferred(raw))
        } else {
            let ty = value_type(kvs[i].value);
            if ty == GgufType::Array {
                Err(
                    "'"@ + key
                        + "' holds an array; array writes are not supported in 0.1.0 (rm the key and set a scalar if you really mean it)"@,
                )
            } else {
                match coerced(ty, raw) {
                    Ok(v) => Ok(v),
                    Err(e) => Err(
                        key + ": "@ + e + " (existing type is "@ + name_of_type(ty) + ")"@,
                    ),
                }
            }
        },
    }
}

/// What one operation does: the edited metadata and a line that describes the
/// change, or why it is refused.
pub open spec fn apply_op(kvs: Seq<SpecKv>, op: SpecOp) -> Result<
    (Seq<SpecKv>, Seq<char>),
    Seq<char>,
> {
    match op {
        SpecOp::Assign { key, spec } => match refusal(key, "edit"@) {
            Some(e) => Err(e),
            None => match assigned_value(kvs, key, spec) {
                Err(e) => Err(e),
                Ok(v) => {
                    let i = key_index(kvs, key);
                    if i < kvs.len() {
                        let old = kvs[i].value;
                        Ok(
                            (
                                kvs.update(i, SpecKv { key: kvs[i].key, value: v }),
                                "set "@ + key + ": "@ + label_text(old) + " "@ + preview_text(
                                    old,
                                    40,
                                ) + " -> "@ + label_text(v) + " "@ + preview_text(v, 40),
                            ),
                        )
                    } else {
                        Ok(
                            (
                                kvs.push(SpecKv { key, value: v }),
                                "add "@ + key + ": "@ + label_text(v) + " "@ + preview_text(v, 40),
                            ),
                        )
                    }
                },
            },
        },
        SpecOp::Remove { key } => match refusal(key, "remove"@) {
            Some(e) => Err(e),
            None => {
                let i = key_index(kvs, key);
                if i < kvs.len() {
                    let old = kvs[i].value;
                    Ok(
                        (
                            kvs.remove(i),
                            "rm  "@ + key + " ("@ + label_text(old) + ", was "@ + preview_text(
                                old,
                                40,
                            ) + ")"@,
                        ),
                    )
                } else {
                    Err("no such key '"@ + key + "'"@)
                }
            },
        },
        SpecOp::Rename { from, to } => match refusal(from, "rename"@) {
            Some(e) => Err(e),
            None => match refusal(to, "rename to"@) {
                Some(e) => Err(e),
                None => {
                    let i = key_index(kvs, from);
                    if key_index(kvs, to) < kvs.len() {
                        Err(
                            "cannot rename '"@ + from + "': '"@ + to + "' already exists"@,
                        )
                    } else if i < kvs.len() {
                        Ok(
                            (
                                kvs.update(i, SpecKv { key: to, value: kvs[i].value }),
                                "rename "@ + from + " -> "@ + to,
                            ),
                        )
                    } else {
                        Err("no such key '"@ + from + "'"@)
                    }
                },
            },
        },
    }
}

/// What operations do one after the other: the edited metadata and one line per
/// operation, or why the first refused one is refused.
pub open spec fn apply_all(kvs: Seq<SpecKv>, ops: Seq<SpecOp>) -> Result<
    (Seq<SpecKv>, Seq<Seq<char>>),
    Seq<char>,
>
    decreases ops.len(),
{
    if ops.len() == 0 {
        Ok((kvs, Seq::empty()))
    } else {
        match apply_all(kvs, ops.drop_last()) {
            Err(e) => Err(e),
            Ok((work, lines)) => match apply_op(work, ops.last()) {
                Err(e) => Err(e),
                Ok((after, line)) => Ok((after, lines.push(line))),
            },
        }
    }
}

/// The first refusal is final.
proof fn lemma_apply_all_err(kvs: Seq<SpecKv>, ops: Seq<SpecOp>, k: int)
    requires
        0 <= k <= ops.len(),
        apply_all(kvs, ops.take(k)) is Err,
    ensures
        apply_all(kvs, ops) == apply_all(kvs, ops.take(k)),
    decreases ops.len() - k,
{
    if k == ops.len() {
        assert(ops.take(k) =~= ops);
    } else {
        assert(ops.drop_last().take(k) =~= ops.take(k));
        lemma_apply_all_err(kvs, ops.drop_last(), k);
    }
}

/// Human-readable description of what changed, one line per operation.
#[derive(Debug)]
pub struct PatchSummary {
    pub lines: Vec<String>,
}

impl Default for PatchSummary {
    fn default() -> (r: Self)
        ensures
            r.lines@.len() == 0,
    {
        PatchSummary { lines: Vec::new() }
    }
}

/// The texts of strings.
pub open spec fn texts_view(lines: Seq<String>) -> Seq<Seq<char>> {
    Seq::new(lines.len(), |i: int| lines[i]@)
}

/// The value that an assignment stores, or why it is refused.
fn value_to_store(kvs: &[KvPair], key: &str, spec: &ValueSpec, at: usize) -> (r: Result<
    GgufValue,
    PatchError,
>)
    requires
        at == key_index(kvs_view(kvs@), key@),
        at <= kvs@.len(),
    ensures
        match (r, assigned_value(kvs_view(kvs@), key@, spec@)) {
            (Ok(v), Ok(w)) => v@ == w,
            (Err(e), Err(f)) => e.0@ == f,
            _ => false,
        },
{
    match spec {
        ValueSpec::Typed(v) => Ok(v.clone()),
        ValueSpec::Inferred(raw) => {
            if at == kvs.len() {
                return Ok(infer(raw.as_str()));
            }
            let ty = kvs[at].value.ty();
            if ty == GgufType::Array {
                let mut m = "'".to_string();
                m.append(key);
                m.append(
                    "' holds an array; array writes are not supported in 0.1.0 (rm the key and set a scalar if you really mean it)",
                );
                return Err(PatchError(m));
            }
            match coerce(ty, raw.as_str()) {
                Ok(v) => Ok(v),
                Err(e) => {
                    let mut m = key.to_string();
                    m.append(": ");
                    m.append(e.0.as_str());
                    m.append(" (existing type is ");
                    m.append(ty.name());
                    m.append(")");
                    Err(PatchError(m))
                },
            }
        },
    }
}

/// `r` is what one operation gives.
spec fn applied(
    kvs: Seq<SpecKv>,
    op: SpecOp,
    after: Seq<SpecKv>,
    r: Result<String, PatchError>,
) -> bool {
    match (r, apply_op(kvs, op)) {
        (Ok(line), Ok((want, text))) => line@ == text && after == want,
        (Err(e), Err(f)) => e.0@ == f,
        _ => false,
    }
}

/// Apply one operation to a working copy.
fn apply_one(work: &mut Vec<KvPair>, op: &EditOp) -> (r: Result<String, PatchError>)
    ensures
        applied(kvs_view(old(work)@), op@, kvs_view(final(work)@), r),
{
    let ghost before = kvs_view(work@);
    match op {
        EditOp::Assign { key, spec } => {
            match check_editable(key.as_str(), "edit") {
                Err(e) => {
                    return Err(e);
                },
                Ok(_) => {},
            }
            let i: usize = find_key(work, key.as_str());
            match value_to_store(work, key.as_str(), spec, i) {
                Err(e) => Err(e),
                Ok(value) => {
                    if i < work.len() {
                        let mut m = "set ".to_string();
                        m.append(key.as_str());
                        m.append(": ");
                        m.append(work[i].value.type_label().as_str());
                        m.append(" ");
                        m.append(work[i].value.preview(40).as_str());
                        m.append(" -> ");
                        m.append(value.type_label().as_str());
                        m.append(" ");
                        m.append(value.preview(40).as_str());
                        let same = work[i].key.clone();
                        let ghost v = value@;
                        work.set(i, KvPair { key: same, value });
                        assert(kvs_view(work@) =~= before.update(
                            i as int,
                            SpecKv { key: before[i as int].key, value: v },
                        ));
                        Ok(m)
                    } else {
                        let mut m = "add ".to_string();
                        m.append(key.as_str());
                        m.append(": ");
                        m.append(value.type_label().as_str());
                        m.append(" ");
                        m.append(value.preview(40).as_str());
                        let ghost v = value@;
                        work.push(KvPair { key: key.clone(), value });
                        assert(kvs_view(work@) =~= before.push(SpecKv { key: key@, value: v }));
                        Ok(m)
                    }
                },
            }
        },
        EditOp::Remove { key } => {
            match check_editable(key.as_str(), "remove") {
                Err(e) => {
                    return Err(e);
                },
                Ok(_) => {},
            }
            let i: usize = find_key(work, key.as_str());
            if i == work.len() {
                let mut m = "no such key '".to_string();
                m.append(key.as_str());
                m.append("'");
                return Err(PatchError(m));
            }
            let old = work.remove(i);
            assert(kvs_view(work@) =~= before.remove(i as int));
            let mut m = "rm  ".to_string();
            m.append(key.as_str());
            m.append(" (");
            m.append(old.value.type_label().as_str());
            m.append(", was ");
            m.append(old.value.preview(40).as_str());
            m.append(")");
            Ok(m)
        },
        EditOp::Rename { from, to } => {
            match check_editable(from.as_str(), "rename") {
                Err(e) => {
                    return Err(e);
                },
                Ok(_) => {},
            }
            match check_editable(to.as_str(), "rename to") {
                Err(e) => {
                    return Err(e);
                },
                Ok(_) => {},
            }
            if find_key(work, to.as_str()) < work.len() {
                let mut m = "cannot rename '".to_string();
                m.append(from.as_str());
                m.append("': '");
                m.append(to.as_str());
                m.append("' already exists");
                return Err(PatchError(m));
            }
            let i: usize = find_key(work, from.as_str());
            if i == work.len() {
                let mut m = "no such key '".to_string();
                m.append(from.as_str());
                m.append("'");
                return Err(PatchError(m));
            }
            let value = work[i].value.clone();
            work.set(i, KvPair { key: to.clone(), value });
            assert(kvs_view(work@) =~= before.update(
                i as int,
                SpecKv { key: to@, value: before[i as int].value },
            ));
            let mut m = "rename ".to_string();
            m.append(from.as_str());
            m.append(" -> ");
            m.append(to.as_str());
            Ok(m)
        },
    }
}

/// Apply all operations, atomically: on any error the input is unchanged.
pub fn apply_ops(kvs: &mut Vec<KvPair>, ops: &[EditOp]) -> (r: Result<PatchSummary, PatchError>)
    ensures
        match (r, apply_all(kvs_view(old(kvs)@), ops_view(ops@))) {
            (Ok(summary), Ok((after, lines))) => kvs_view(final(kvs)@) == after && texts_view(
                summary.lines@,
            ) == lines,
            (Err(e), Err(f)) => e.0@ == f && *final(kvs) == *old(kvs),
            _ => false,
        },
{
    let ghost start = kvs_view(kvs@);
    let ghost all = ops_view(ops@);
    let mut work = clone_kvs(kvs);
    let mut lines: Vec<String> = Vec::new();
    let mut i: usize = 0;
    assert(texts_view(lines@) =~= Seq::<Seq<char>>::empty());
    while i < ops.len()
        invariant
            i <= ops@.len(),
            all == ops_view(ops@),
            start == kvs_view(old(kvs)@),
            *kvs == *old(kvs),
            apply_all(start, all.take(i as int)) == Ok::<(Seq<SpecKv>, Seq<Seq<char>>), Seq<char>>(
                (kvs_view(work@), texts_view(lines@)),
            ),
        decreases ops@.len() - i,
    {
        let ghost before = texts_view(lines@);
        assert(all.take(i + 1).drop_last() =~= all.take(i as int));
        assert(all.take(i + 1).last() == ops@[i as int]@);
        match apply_one(&mut work, &ops[i]) {
            Err(e) => {
                proof {
                    lemma_apply_all_err(start, all, i + 1);
                }
                return Err(e);
            },
            Ok(line) => {
                lines.push(line);
                assert(texts_view(lines@) =~= before.push(line@));
            },
        }
        i += 1;
    }
    assert(all.take(i as int) =~= all);
    *kvs = work;
    Ok(PatchSummary { lines })
}

// ---------------------------------------------------------------------------
// Laws
// ---------------------------------------------------------------------------

/// Storing a value under a key is read back under that key.
pub proof fn law_assignment_is_read_back(kvs: Seq<SpecKv>, key: Seq<char>, spec: SpecValueSpec)
    ensures
        apply_op(kvs, SpecOp::Assign { key, spec }) matches Ok((after, _)) ==> {
            &&& assigned_value(kvs, key, spec) is Ok
            &&& value_of(after, key) == Some(assigned_value(kvs, key, spec)->Ok_0)
        },
{
    if let Ok(v) = assigned_value(kvs, key, spec) {
        lemma_key_index(kvs, key);
        let i = key_index(kvs, key);
        if i < kvs.len() {
            let after = kvs.update(i, SpecKv { key: kvs[i].key, value: v });
            lemma_value_at_first(after, key, i);
        } else {
            lemma_value_absent(kvs, key);
            lemma_value_of_push(kvs, SpecKv { key, value: v }, key);
        }
    }
}

/// The value under a key is that of the first pair with the key.
pub proof fn lemma_value_at_first(kvs: Seq<SpecKv>, key: Seq<char>, i: int)
    requires
        0 <= i < kvs.len(),
        kvs[i].key == key,
        forall|j: int| 0 <= j < i ==> (#[trigger] kvs[j]).key != key,
    ensures
        value_of(kvs, key) == Some(kvs[i].value),
    decreases kvs.len(),
{
    if i > 0 {
        let rest = kvs.skip(1);
        assert(kvs[0].key != key);
        assert(rest[i - 1] == kvs[i]);
        assert forall|j: int| 0 <= j < i - 1 implies (#[trigger] rest[j]).key != key by {
            assert(rest[j] == kvs[j + 1]);
        }
        lemma_value_at_first(rest, key, i - 1);
    }
}

/// A key that no pair has, has no value.
pub proof fn lemma_value_absent(kvs: Seq<SpecKv>, key: Seq<char>)
    requires
        forall|j: int| 0 <= j < kvs.len() ==> (#[trigger] kvs[j]).key != key,
    ensures
        value_of(kvs, key) is None,
    decreases kvs.len(),
{
    if kvs.len() > 0 {
        let rest = kvs.skip(1);
        assert forall|j: int| 0 <= j < rest.len() implies (#[trigger] rest[j]).key != key by {
            assert(rest[j] == kvs[j + 1]);
        }
        assert(kvs[0].key != key);
        lemma_value_absent(rest, key);
    }
}

/// Replacing a pair by one with other keys leaves a key's value as it was.
proof fn lemma_value_of_update(kvs: Seq<SpecKv>, i: int, kv: SpecKv, key: Seq<char>)
    requires
        0 <= i < kvs.len(),
        kvs[i].key != key,
        kv.key != key,
    ensures
        value_of(kvs.update(i, kv), key) == value_of(kvs, key),
    decreases kvs.len(),
{
    let after = kvs.update(i, kv);
    if i == 0 {
        assert(after.skip(1) =~= kvs.skip(1));
    } else {
        assert(after.skip(1) =~= kvs.skip(1).update(i - 1, kv));
        assert(kvs.skip(1)[i - 1] == kvs[i]);
        lemma_value_of_update(kvs.skip(1), i - 1, kv, key);
    }
}

/// Removing a pair leaves another key's value as it was.
proof fn lemma_value_of_remove(kvs: Seq<SpecKv>, i: int, key: Seq<char>)
    requires
        0 <= i < kvs.len(),
        kvs[i].key != key,
    ensures
        value_of(kvs.remove(i), key) == value_of(kvs, key),
    decreases kvs.len(),
{
    let after = kvs.remove(i);
    if i == 0 {
        assert(after =~= kvs.skip(1));
    } else {
        assert(after.skip(1) =~= kvs.skip(1).remove(i - 1));
        assert(kvs.skip(1)[i - 1] == kvs[i]);
        lemma_value_of_remove(kvs.skip(1), i - 1, key);
    }
}

/// An operation leaves the value of every key that it does not name as it was.
pub proof fn law_other_keys_are_untouched(kvs: Seq<SpecKv>, op: SpecOp, key: Seq<char>)
    requires
        match op {
            SpecOp::Assign { key: k, .. } => k != key,
            SpecOp::Remove { key: k } => k != key,
            SpecOp::Rename { from, to } => from != key && to != key,
        },
    ensures
        apply_op(kvs, op) matches Ok((after, _)) ==> value_of(after, key) == value_of(kvs, key),
{
    match op {
        SpecOp::Assign { key: k, spec } => {
            lemma_key_index(kvs, k);
            let i = key_index(kvs, k);
            if let Ok(v) = assigned_value(kvs, k, spec) {
                if i < kvs.len() {
                    lemma_value_of_update(kvs, i, SpecKv { key: kvs[i].key, value: v }, key);
                } else {
                    lemma_value_of_push(kvs, SpecKv { key: k, value: v }, key);
                }
            }
        },
        SpecOp::Remove { key: k } => {
            lemma_key_index(kvs, k);
            let i = key_index(kvs, k);
            if i < kvs.len() {
                lemma_value_of_remove(kvs, i, key);
            }
        },
        SpecOp::Rename { from, to } => {
            lemma_key_index(kvs, from);
            let i = key_index(kvs, from);
            if i < kvs.len() {
                lemma_value_of_update(kvs, i, SpecKv { key: to, value: kvs[i].value }, key);
            }
        },
    }
}

/// An assignment of plain text to a key that exists keeps the type of its value.
pub proof fn law_existing_key_keeps_its_type(kvs: Seq<SpecKv>, key: Seq<char>, raw: Seq<char>)
    ensures
        apply_op(
            kvs,
            SpecOp::Assign { key, spec: SpecValueSpec::Inferred(raw) },
        ) matches Ok((after, _)) ==> (value_of(kvs, key) matches Some(old) ==> value_of(after, key)
            matches Some(new) && value_type(new) == value_type(old)),
{
    let spec = SpecValueSpec::Inferred(raw);
    law_assignment_is_read_back(kvs, key, spec);
    lemma_key_index(kvs, key);
    let i = key_index(kvs, key);
    if i < kvs.len() {
        lemma_value_at_first(kvs, key, i);
        law_coerced_value_has_the_type(value_type(kvs[i].value), raw);
    } else {
        lemma_value_absent(kvs, key);
    }
}

/// A rename moves the value from the old key to the new one, in its place:
/// nothing else about the metadata changes.
pub proof fn law_rename_keeps_value_and_position(
    kvs: Seq<SpecKv>,
    from: Seq<char>,
    to: Seq<char>,
)
    ensures
        apply_op(kvs, SpecOp::Rename { from, to }) matches Ok((after, _)) ==> {
            let i = key_index(kvs, from);
            &&& 0 <= i < kvs.len()
            &&& after.len() == kvs.len()
            &&& after[i] == (SpecKv { key: to, value: kvs[i].value })
            &&& forall|j: int| 0 <= j < kvs.len() && j != i ==> #[trigger] after[j] == kvs[j]
            &&& value_of(after, to) == value_of(kvs, from)
        },
{
    lemma_key_index(kvs, from);
    lemma_key_index(kvs, to);
    let i = key_index(kvs, from);
    if apply_op(kvs, SpecOp::Rename { from, to }) is Ok {
        let after = kvs.update(i, SpecKv { key: to, value: kvs[i].value });
        lemma_value_at_first(kvs, from, i);
        lemma_value_at_first(after, to, i);
    }
}

/// Removing the only pair under a key leaves no value under it.
pub proof fn law_removed_key_is_gone(kvs: Seq<SpecKv>, key: Seq<char>)
    requires
        forall|i: int, j: int|
            0 <= i < j < kvs.len() && (#[trigger] kvs[i]).key == key ==> (#[trigger] kvs[j]).key
                != key,
    ensures
        apply_op(kvs, SpecOp::Remove { key }) matches Ok((after, _)) ==> value_of(after, key)
            is None,
{
    lemma_key_index(kvs, key);
    let i = key_index(kvs, key);
    if i < kvs.len() {
        let after = kvs.remove(i);
        assert forall|j: int| 0 <= j < after.len() implies (#[trigger] after[j]).key != key by {
            if j < i {
                assert(after[j] == kvs[j]);
            } else {
                assert(after[j] == kvs[j + 1]);
                assert(kvs[i].key == key);
            }
        }
        lemma_value_absent(after, key);
    }
}

/// However many operations are applied, the alignment and the managed pad key
/// keep their values: no edit can touch them.
pub proof fn law_protected_keys_never_change(kvs: Seq<SpecKv>, ops: Seq<SpecOp>)
    ensures
        apply_all(kvs, ops) matches Ok((after, _)) ==> {
            &&& value_of(after, ALIGNMENT_KEY@) == value_of(kvs, ALIGNMENT_KEY@)
            &&& value_of(after, PAD_KEY@) == value_of(kvs, PAD_KEY@)
        },
    decreases ops.len(),
{
    if ops.len() > 0 {
        law_protected_keys_never_change(kvs, ops.drop_last());
        if let Ok((work, _)) = apply_all(kvs, ops.drop_last()) {
            if apply_op(work, ops.last()) is Ok {
                law_other_keys_are_untouched(work, ops.last(), ALIGNMENT_KEY@);
                law_other_keys_are_untouched(work, ops.last(), PAD_KEY@);
            }
        }
    }
}

/// Every operation that names a protected or managed key is refused.
pub proof fn law_protected_keys_are_refused(kvs: Seq<SpecKv>, op: SpecOp)
    requires
        match op {
            SpecOp::Assign { key, .. } => key == ALIGNMENT_KEY@ || key == PAD_KEY@,
            SpecOp::Remove { key } => key == ALIGNMENT_KEY@ || key == PAD_KEY@,
            SpecOp::Rename { from, to } => from == ALIGNMENT_KEY@ || from == PAD_KEY@ || to
                == ALIGNMENT_KEY@ || to == PAD_KEY@,
        },
    ensures
        apply_op(kvs, op) is Err,
{
}

/// A successful run describes each operation by one line.
pub proof fn law_one_line_per_operation(kvs: Seq<SpecKv>, ops: Seq<SpecOp>)
    ensures
        apply_all(kvs, ops) matches Ok((_, lines)) ==> lines.len() == ops.len(),
    decreases ops.len(),
{
    if ops.len() > 0 {
        law_one_line_per_operation(kvs, ops.drop_last());
    }
}

// ---------------------------------------------------------------------------
// Patch documents
// ---------------------------------------------------------------------------

/// All results, or the first error.
pub open spec fn all_ok<T>(results: Seq<Result<T, Seq<char>>>) -> Result<Seq<T>, Seq<char>>
    decreases results.len(),
{
    if results.len() == 0 {
        Ok(Seq::empty())
    } else {
        match all_ok(results.drop_last()) {
            Err(e) => Err(e),
            Ok(done) => match results.last() {
                Err(e) => Err(e),
                Ok(v) => Ok(done.push(v)),
            },
        }
    }
}

/// The first error decides.
pub proof fn lemma_all_ok_err<T>(results: Seq<Result<T, Seq<char>>>, k: int)
    requires
        0 <= k <= results.len(),
        all_ok(results.take(k)) is Err,
    ensures
        all_ok(results) == all_ok(results.take(k)),
    decreases results.len() - k,
{
    if k == results.len() {
        assert(results.take(k) =~= results);
    } else {
        assert(results.drop_last().take(k) =~= results.take(k));
        lemma_all_ok_err(results.drop_last(), k);
    }
}

/// One more result.
pub proof fn lemma_all_ok_step<T>(results: Seq<Result<T, Seq<char>>>, i: int)
    requires
        0 <= i < results.len(),
    ensures
        all_ok(results.take(i + 1)) == match all_ok(results.take(i)) {
            Err(e) => Err(e),
            Ok(done) => match results[i] {
                Err(e) => Err(e),
                Ok(v) => Ok(done.push(v)),
            },
        },
{
    assert(results.take(i + 1).drop_last() =~= results.take(i));
}

/// The operation that an entry of the `delete` section asks for.
pub open spec fn delete_op(item: SpecJson) -> Result<SpecOp, Seq<char>> {
    match item {
        SpecJson::Str(key) => Ok(SpecOp::Remove { key }),
        _ => Err("\"delete\" entries must be strings"@),
    }
}

/// The operation that an entry of the `rename` section asks for.
pub open spec fn rename_op(pair: (Seq<char>, SpecJson)) -> Result<SpecOp, Seq<char>> {
    match pair.1 {
        SpecJson::Str(to) => Ok(SpecOp::Rename { from: pair.0, to }),
        _ => Err("rename target for '"@ + pair.0 + "' must be a string"@),
    }
}

/// The value of an explicit `{"type": ..., "value": ...}` object.
pub open spec fn typed_value(key: Seq<char>, ty_name: Seq<char>, value: SpecJson) -> Result<
    SpecValue,
    Seq<char>,
> {
    match type_of_name(ty_name) {
        None => Err(key + ": unknown type '"@ + ty_name + "'"@),
        Some(ty) => {
            let raw: Result<Seq<char>, Seq<char>> = match value {
                SpecJson::Str(s) => Ok(s),
                SpecJson::Int(i) => Ok(int_text(i)),
                SpecJson::Float(bits) => Ok(exact_64(bits)),
                SpecJson::Bool(b) => Ok(bool_text(b)),
                SpecJson::Null => Err(key + ": null has no GGUF representation"@),
                _ => Err(key + ": array/object values are not supported in 0.1.0"@),
            };
            match raw {
                Err(e) => Err(e),
                Ok(text) => match coerced(ty, text) {
                    Ok(v) => Ok(v),
                    Err(e) => Err(key + ": "@ + e),
                },
            }
        },
    }
}

/// A bool as text.
pub open spec fn bool_text(b: bool) -> Seq<char> {
    if b {
        "true"@
    } else {
        "false"@
    }
}

/// The operation that an entry of the `set` section asks for.
pub open spec fn assign_op(pair: (Seq<char>, SpecJson)) -> Result<SpecOp, Seq<char>> {
    let key = pair.0;
    let spec: Result<SpecValueSpec, Seq<char>> = match pair.1 {
        SpecJson::Obj(fields) => match (member(fields, "type"@), member(fields, "value"@)) {
            (Some(SpecJson::Str(ty)), Some(v)) => match typed_value(key, ty, v) {
                Ok(value) => Ok(SpecValueSpec::Typed(value)),
                Err(e) => Err(e),
            },
            _ => Err(key + ": object values must be {\"type\": ..., \"value\": ...}"@),
        },
        SpecJson::Str(s) => Ok(SpecValueSpec::Typed(SpecValue::Str(s))),
        SpecJson::Int(i) => Ok(SpecValueSpec::Inferred(int_text(i))),
        SpecJson::Float(bits) => Ok(SpecValueSpec::Inferred(exact_64(bits))),
        SpecJson::Bool(b) => Ok(SpecValueSpec::Inferred(bool_text(b))),
        SpecJson::Null => Err(key + ": null has no GGUF representation (use \"delete\")"@),
        SpecJson::Arr(_) => Err(key + ": array writes are not supported in 0.1.0"@),
    };
    match spec {
        Ok(spec) => Ok(SpecOp::Assign { key, spec }),
        Err(e) => Err(e),
    }
}

/// The operations that one section of a patch document asks for, in order.
pub open spec fn section_ops(section: (Seq<char>, SpecJson)) -> Result<Seq<SpecOp>, Seq<char>> {
    if section.0 == "delete"@ {
        match section.1 {
            SpecJson::Arr(items) => all_ok(
                Seq::new(items.len(), |i: int| delete_op(items[i])),
            ),
            _ => Err("\"delete\" must be an array of key names"@),
        }
    } else if section.0 == "rename"@ {
        match section.1 {
            SpecJson::Obj(pairs) => all_ok(
                Seq::new(pairs.len(), |i: int| rename_op(pairs[i])),
            ),
            _ => Err("\"rename\" must be an object of old: new pairs"@),
        }
    } else if section.0 == "set"@ {
        match section.1 {
            SpecJson::Obj(pairs) => all_ok(
                Seq::new(pairs.len(), |i: int| assign_op(pairs[i])),
            ),
            _ => Err("\"set\" must be an object of key: value pairs"@),
        }
    } else {
        Err("unknown patch section \""@ + section.0 + "\" (expected delete/rename/set)"@)
    }
}

/// The place of an operation in the fixed order: deletions, then renames, then
/// assignments.
pub open spec fn rank(op: SpecOp) -> int {
    match op {
        SpecOp::Remove { .. } => 0,
        SpecOp::Rename { .. } => 1,
        SpecOp::Assign { .. } => 2,
    }
}

/// The operations of a given rank from runs of operations, in order.
pub open spec fn of_rank(runs: Seq<Seq<SpecOp>>, r: int) -> Seq<SpecOp>
    decreases runs.len(),
{
    if runs.len() == 0 {
        Seq::empty()
    } else {
        of_rank(runs.drop_last(), r) + runs.last().filter(|op: SpecOp| rank(op) == r)
    }
}

/// The operations that a patch document asks for: deletions, then renames, then
/// assignments, regardless of the order of the sections in the document.
pub open spec fn document_ops(doc: SpecJson) -> Result<Seq<SpecOp>, Seq<char>> {
    match doc {
        SpecJson::Obj(sections) => match all_ok(
            Seq::new(sections.len(), |i: int| section_ops(sections[i])),
        ) {
            Err(e) => Err(e),
            Ok(runs) => {
                let ops = of_rank(runs, 0) + of_rank(runs, 1) + of_rank(runs, 2);
                if ops.len() == 0 {
                    Err("patch document contains no operations"@)
                } else {
                    Ok(ops)
                }
            },
        },
        _ => Err("patch document must be a JSON object"@),
    }
}

/// Results of one rank give operations of that rank.
proof fn lemma_all_ok_rank(results: Seq<Result<SpecOp, Seq<char>>>, r: int)
    requires
        forall|i: int|
            0 <= i < results.len() ==> (#[trigger] results[i] matches Ok(op) ==> rank(op) == r),
    ensures
        all_ok(results) matches Ok(ops) ==> forall|i: int|
            0 <= i < ops.len() ==> rank(#[trigger] ops[i]) == r,
    decreases results.len(),
{
    if results.len() > 0 {
        let init = results.drop_last();
        assert forall|i: int| 0 <= i < init.len() implies (#[trigger] init[i] matches Ok(op)
            ==> rank(op) == r) by {
            assert(init[i] == results[i]);
        }
        lemma_all_ok_rank(init, r);
        assert(results[results.len() - 1] == results.last());
    }
}

/// Filtering by a condition that all meet keeps all; by one that none meets,
/// none.
pub proof fn lemma_filter_uniform(ops: Seq<SpecOp>, r: int, q: int)
    requires
        forall|i: int| 0 <= i < ops.len() ==> rank(#[trigger] ops[i]) == r,
    ensures
        ops.filter(|op: SpecOp| rank(op) == q) == if q == r {
            ops
        } else {
            Seq::empty()
        },
    decreases ops.len(),
{
    reveal(Seq::filter);
    if ops.len() > 0 {
        let init = ops.drop_last();
        assert forall|i: int| 0 <= i < init.len() implies rank(#[trigger] init[i]) == r by {
            assert(init[i] == ops[i]);
        }
        lemma_filter_uniform(init, r, q);
        assert(rank(ops[ops.len() - 1]) == r);
        assert(init.push(ops.last()) =~= ops);
    } else {
        assert(ops =~= Seq::empty());
    }
}

/// All operations picked for a rank have it.
pub proof fn lemma_of_rank(runs: Seq<Seq<SpecOp>>, r: int)
    ensures
        forall|i: int| 0 <= i < of_rank(runs, r).len() ==> rank(#[trigger] of_rank(runs, r)[i])
            == r,
    decreases runs.len(),
{
    if runs.len() > 0 {
        lemma_of_rank(runs.drop_last(), r);
        let f = |op: SpecOp| rank(op) == r;
        let last = runs.last().filter(f);
        assert forall|i: int| 0 <= i < last.len() implies rank(#[trigger] last[i]) == r by {
            runs.last().lemma_filter_pred(f, i);
        }
        let init = of_rank(runs.drop_last(), r);
        assert forall|i: int| 0 <= i < of_rank(runs, r).len() implies rank(
            #[trigger] of_rank(runs, r)[i],
        ) == r by {
            if i < init.len() {
                assert(of_rank(runs, r)[i] == init[i]);
            } else {
                assert(of_rank(runs, r)[i] == last[i - init.len()]);
            }
        }
    }
}

/// The operations of a patch document come in the fixed order: no deletion after
/// a rename or an assignment, and no rename after an assignment.
pub proof fn law_patch_order_is_fixed(doc: SpecJson)
    ensures
        document_ops(doc) matches Ok(ops) ==> forall|i: int, j: int|
            0 <= i < j < ops.len() ==> rank(#[trigger] ops[i]) <= rank(#[trigger] ops[j]),
{
    if let SpecJson::Obj(sections) = doc {
        if let Ok(runs) = all_ok(Seq::new(sections.len(), |i: int| section_ops(sections[i]))) {
            lemma_of_rank(runs, 0);
            lemma_of_rank(runs, 1);
            lemma_of_rank(runs, 2);
            let a = of_rank(runs, 0);
            let b = of_rank(runs, 1);
            let c = of_rank(runs, 2);
            let ops = a + b + c;
            assert forall|i: int, j: int| 0 <= i < j < ops.len() implies rank(#[trigger] ops[i])
                <= rank(#[trigger] ops[j]) by {
                assert(i < a.len() ==> ops[i] == a[i]);
                assert(a.len() <= i < a.len() + b.len() ==> ops[i] == b[i - a.len()]);
                assert(a.len() + b.len() <= i ==> ops[i] == c[i - a.len() - b.len()]);
                assert(j < a.len() ==> ops[j] == a[j]);
                assert(a.len() <= j < a.len() + b.len() ==> ops[j] == b[j - a.len()]);
                assert(a.len() + b.len() <= j ==> ops[j] == c[j - a.len() - b.len()]);
            }
        }
    }
}

/// Convert an explicit `{"type": ..., "value": ...}` object.
fn json_typed(key: &str, ty_name: &str, value: &Json) -> (r: Result<GgufValue, PatchError>)
    ensures
        match (r, typed_value(key@, ty_name@, value@)) {
            (Ok(v), Ok(w)) => v@ == w,
            (Err(e), Err(f)) => e.0@ == f,
            _ => false,
        },
{
    let ty = match GgufType::from_name(ty_name) {
        Some(ty) => ty,
        None => {
            let mut m = key.to_string();
            m.append(": unknown type '");
            m.append(ty_name);
            m.append("'");
            return Err(PatchError(m));
        },
    };
    let raw = match value {
        Json::Str(s) => s.clone(),
        Json::Int(i) => int_string(*i),
        Json::Float(bits) => exact_double(*bits),
        Json::Bool(b) => bool_string(*b),
        Json::Null => {
            let mut m = key.to_string();
            m.append(": null has no GGUF representation");
            return Err(PatchError(m));
        },
        _ => {
            let mut m = key.to_string();
            m.append(": array/object values are not supported in 0.1.0");
            return Err(PatchError(m));
        },
    };
    match coerce(ty, raw.as_str()) {
        Ok(v) => Ok(v),
        Err(e) => {
            let mut m = key.to_string();
            m.append(": ");
            m.append(e.0.as_str());
            Err(PatchError(m))
        },
    }
}

/// A bool as text.
fn bool_string(b: bool) -> (r: String)
    ensures
        r@ == bool_text(b),
{
    if b {
        "true".to_string()
    } else {
        "false".to_string()
    }
}

/// The value that an entry of the `set` section gives a key.
fn json_spec(key: &str, value: &Json) -> (r: Result<ValueSpec, PatchError>)
    ensures
        match (r, assign_op((key@, value@))) {
            (Ok(spec), Ok(op)) => op == (SpecOp::Assign { key: key@, spec: spec@ }),
            (Err(e), Err(f)) => e.0@ == f,
            _ => false,
        },
{
    match value {
        Json::Obj(fields) => {
            proof {
                lemma_obj_view(*fields);
            }
            match (value.get("type"), value.get("value")) {
                (Some(Json::Str(ty)), Some(v)) => match json_typed(key, ty.as_str(), v) {
                    Ok(value) => Ok(ValueSpec::Typed(value)),
                    Err(e) => Err(e),
                },
                _ => {
                    let mut m = key.to_string();
                    m.append(": object values must be {\"type\": ..., \"value\": ...}");
                    Err(PatchError(m))
                },
            }
        },
        Json::Str(s) => Ok(ValueSpec::Typed(GgufValue::Str(s.clone()))),
        Json::Int(i) => Ok(ValueSpec::Inferred(int_string(*i))),
        Json::Float(bits) => Ok(ValueSpec::Inferred(exact_double(*bits))),
        Json::Bool(b) => Ok(ValueSpec::Inferred(bool_string(*b))),
        Json::Null => {
            let mut m = key.to_string();
            m.append(": null has no GGUF representation (use \"delete\")");
            Err(PatchError(m))
        },
        Json::Arr(_) => {
            let mut m = key.to_string();
            m.append(": array writes are not supported in 0.1.0");
            Err(PatchError(m))
        },
    }
}

/// `r` is the outcome of a section, all of whose operations have one rank.
spec fn section_done(
    section: (Seq<char>, SpecJson),
    before: Seq<SpecOp>,
    after: Seq<SpecOp>,
    r: Result<(), PatchError>,
    at: int,
) -> bool {
    match (r, section_ops(section)) {
        (Ok(_), Ok(ops)) => after == before + ops && forall|i: int|
            0 <= i < ops.len() ==> rank(#[trigger] ops[i]) == at,
        (Err(e), Err(f)) => e.0@ == f,
        _ => false,
    }
}

/// The operations of a `delete` section.
fn read_deletes(body: &Json, out: &mut Vec<EditOp>) -> (r: Result<(), PatchError>)
    ensures
        section_done(("delete"@, body@), ops_view(old(out)@), ops_view(final(out)@), r, 0),
{
    let ghost before = ops_view(out@);
    match body {
        Json::Arr(items) => {
            proof {
                lemma_arr_view(*items);
            }
            let ghost all = items_view(items@);
            let ghost results = Seq::new(all.len(), |i: int| delete_op(all[i]));
            let ghost mut done: Seq<SpecOp> = Seq::empty();
            let mut i: usize = 0;
            assert(before + done =~= before);
            assert(results.take(0) =~= Seq::<Result<SpecOp, Seq<char>>>::empty());
            while i < items.len()
                invariant
                    i <= items@.len(),
                    all == items_view(items@),
                    body@ == SpecJson::Arr(all),
                    results == Seq::new(all.len(), |i: int| delete_op(all[i])),
                    section_ops(("delete"@, body@)) == all_ok(results),
                    all_ok(results.take(i as int)) == Ok::<Seq<SpecOp>, Seq<char>>(done),
                    ops_view(out@) == before + done,
                decreases items@.len() - i,
            {
                proof {
                    lemma_all_ok_step(results, i as int);
                    assert(all[i as int] == items@[i as int]@);
                }
                match &items[i] {
                    Json::Str(key) => {
                        let ghost so_far = ops_view(out@);
                        out.push(EditOp::Remove { key: key.clone() });
                        proof {
                            let op = SpecOp::Remove { key: key@ };
                            assert(ops_view(out@) =~= so_far.push(op));
                            assert(so_far.push(op) =~= before + done.push(op));
                            done = done.push(op);
                        }
                    },
                    _ => {
                        proof {
                            lemma_all_ok_err(results, i + 1);
                        }
                        return Err(PatchError("\"delete\" entries must be strings".to_string()));
                    },
                }
                i += 1;
            }
            proof {
                assert(results.take(i as int) =~= results);
                lemma_all_ok_rank(results, 0);
            }
            Ok(())
        },
        _ => Err(PatchError("\"delete\" must be an array of key names".to_string())),
    }
}

/// The operations of a `rename` section.
fn read_renames(body: &Json, out: &mut Vec<EditOp>) -> (r: Result<(), PatchError>)
    ensures
        section_done(("rename"@, body@), ops_view(old(out)@), ops_view(final(out)@), r, 1),
{
    let ghost before = ops_view(out@);
    proof {
        lemma_section_names();
    }
    match body {
        Json::Obj(pairs) => {
            proof {
                lemma_obj_view(*pairs);
            }
            let ghost all = pairs_view(pairs@);
            let ghost results = Seq::new(all.len(), |i: int| rename_op(all[i]));
            let ghost mut done: Seq<SpecOp> = Seq::empty();
            let mut i: usize = 0;
            assert(before + done =~= before);
            assert(results.take(0) =~= Seq::<Result<SpecOp, Seq<char>>>::empty());
            while i < pairs.len()
                invariant
                    i <= pairs@.len(),
                    all == pairs_view(pairs@),
                    body@ == SpecJson::Obj(all),
                    results == Seq::new(all.len(), |i: int| rename_op(all[i])),
                    section_ops(("rename"@, body@)) == all_ok(results),
                    all_ok(results.take(i as int)) == Ok::<Seq<SpecOp>, Seq<char>>(done),
                    ops_view(out@) == before + done,
                decreases pairs@.len() - i,
            {
                proof {
                    lemma_all_ok_step(results, i as int);
                    assert(all[i as int] == (pairs@[i as int].0@, pairs@[i as int].1@));
                }
                match &pairs[i].1 {
                    Json::Str(to) => {
                        let ghost so_far = ops_view(out@);
                        let ghost op = SpecOp::Rename { from: pairs@[i as int].0@, to: to@ };
                        out.push(EditOp::Rename { from: pairs[i].0.clone(), to: to.clone() });
                        proof {
                            assert(ops_view(out@) =~= so_far.push(op));
                            assert(so_far.push(op) =~= before + done.push(op));
                            done = done.push(op);
                        }
                    },
                    _ => {
                        proof {
                            lemma_all_ok_err(results, i + 1);
                        }
                        let mut m = "rename target for '".to_string();
                        m.append(pairs[i].0.as_str());
                        m.append("' must be a string");
                        return Err(PatchError(m));
                    },
                }
                i += 1;
            }
            proof {
                assert(results.take(i as int) =~= results);
                lemma_all_ok_rank(results, 1);
            }
            Ok(())
        },
        _ => Err(PatchError("\"rename\" must be an object of old: new pairs".to_string())),
    }
}

/// The names of the sections differ.
proof fn lemma_section_names()
    ensures
        "rename"@ != "delete"@,
        "set"@ != "delete"@,
        "set"@ != "rename"@,
{
    reveal_strlit("delete");
    reveal_strlit("rename");
    reveal_strlit("set");
    assert("delete"@[0] == 'd');
    assert("rename"@[0] == 'r');
    assert("set"@[0] == 's');
}

/// The operations of a `set` section.
fn read_assignments(body: &Json, out: &mut Vec<EditOp>) -> (r: Result<(), PatchError>)
    ensures
        section_done(("set"@, body@), ops_view(old(out)@), ops_view(final(out)@), r, 2),
{
    let ghost before = ops_view(out@);
    proof {
        lemma_section_names();
    }
    match body {
        Json::Obj(pairs) => {
            proof {
                lemma_obj_view(*pairs);
            }
            let ghost all = pairs_view(pairs@);
            let ghost results = Seq::new(all.len(), |i: int| assign_op(all[i]));
            let ghost mut done: Seq<SpecOp> = Seq::empty();
            let mut i: usize = 0;
            assert(before + done =~= before);
            assert(results.take(0) =~= Seq::<Result<SpecOp, Seq<char>>>::empty());
            while i < pairs.len()
                invariant
                    i <= pairs@.len(),
                    all == pairs_view(pairs@),
                    body@ == SpecJson::Obj(all),
                    results == Seq::new(all.len(), |i: int| assign_op(all[i])),
                    section_ops(("set"@, body@)) == all_ok(results),
                    all_ok(results.take(i as int)) == Ok::<Seq<SpecOp>, Seq<char>>(done),
                    ops_view(out@) == before + done,
                decreases pairs@.len() - i,
            {
                proof {
                    lemma_all_ok_step(results, i as int);
                    assert(all[i as int] == (pairs@[i as int].0@, pairs@[i as int].1@));
                }
                match json_spec(pairs[i].0.as_str(), &pairs[i].1) {
                    Ok(spec) => {
                        let ghost so_far = ops_view(out@);
                        let ghost op = SpecOp::Assign {
                            key: pairs@[i as int].0@,
                            spec: spec@,
                        };
                        out.push(EditOp::Assign { key: pairs[i].0.clone(), spec });
                        proof {
                            assert(ops_view(out@) =~= so_far.push(op));
                            assert(so_far.push(op) =~= before + done.push(op));
                            done = done.push(op);
                        }
                    },
                    Err(e) => {
                        proof {
                            lemma_all_ok_err(results, i + 1);
                        }
                        return Err(e);
                    },
                }
                i += 1;
            }
            proof {
                assert(results.take(i as int) =~= results);
                lemma_all_ok_rank(results, 2);
            }
            Ok(())
        },
        _ => Err(PatchError("\"set\" must be an object of key: value pairs".to_string())),
    }
}

/// Append operations to operations.
fn extend_ops(ops: &mut Vec<EditOp>, more: Vec<EditOp>)
    ensures
        ops_view(final(ops)@) == ops_view(old(ops)@) + ops_view(more@),
{
    let ghost added = more@;
    let mut rest = more;
    ops.append(&mut rest);
    assert(ops_view(ops@) =~= ops_view(old(ops)@) + ops_view(added));
}

/// Build the operation list from a JSON patch document:
///
/// ```json
/// { "delete": ["a.key"],
///   "rename": {"old.key": "new.key"},
///   "set":    {"k1": 4096, "k2": {"type": "u16", "value": 8}} }
/// ```
///
/// Operations apply in a fixed order — delete, rename, set — regardless of
/// the order of the sections in the document.
pub fn ops_from_json(doc: &Json) -> (r: Result<Vec<EditOp>, PatchError>)
    ensures
        match (r, document_ops(doc@)) {
            (Ok(ops), Ok(want)) => ops_view(ops@) == want,
            (Err(e), Err(f)) => e.0@ == f,
            _ => false,
        },
{
    match doc {
        Json::Obj(sections) => {
            proof {
                lemma_obj_view(*sections);
                lemma_section_names();
            }
            let ghost all = pairs_view(sections@);
            let ghost results = Seq::new(all.len(), |i: int| section_ops(all[i]));
            let ghost mut runs: Seq<Seq<SpecOp>> = Seq::empty();
            let mut deletes: Vec<EditOp> = Vec::new();
            let mut renames: Vec<EditOp> = Vec::new();
            let mut sets: Vec<EditOp> = Vec::new();
            let mut i: usize = 0;
            assert(results.take(0) =~= Seq::<Result<Seq<SpecOp>, Seq<char>>>::empty());
            assert(ops_view(deletes@) =~= of_rank(runs, 0));
            assert(ops_view(renames@) =~= of_rank(runs, 1));
            assert(ops_view(sets@) =~= of_rank(runs, 2));
            while i < sections.len()
                invariant
                    i <= sections@.len(),
                    all == pairs_view(sections@),
                    doc@ == SpecJson::Obj(all),
                    results == Seq::new(all.len(), |i: int| section_ops(all[i])),
                    all_ok(results.take(i as int)) == Ok::<Seq<Seq<SpecOp>>, Seq<char>>(runs),
                    ops_view(deletes@) == of_rank(runs, 0),
                    ops_view(renames@) == of_rank(runs, 1),
                    ops_view(sets@) == of_rank(runs, 2),
                decreases sections@.len() - i,
            {
                let ghost section = (sections@[i as int].0@, sections@[i as int].1@);
                proof {
                    lemma_all_ok_step(results, i as int);
                    lemma_section_names();
                    assert(all[i as int] == section);
                }
                let name = sections[i].0.as_str();
                let ghost mut at: int = 0;
                let outcome = if str_eq(name, "delete") {
                    read_deletes(&sections[i].1, &mut deletes)
                } else if str_eq(name, "rename") {
                    proof {
                        at = 1;
                    }
                    read_renames(&sections[i].1, &mut renames)
                } else if str_eq(name, "set") {
                    proof {
                        at = 2;
                    }
                    read_assignments(&sections[i].1, &mut sets)
                } else {
                    let mut m = "unknown patch section \"".to_string();
                    m.append(name);
                    m.append("\" (expected delete/rename/set)");
                    Err(PatchError(m))
                };
                match outcome {
                    Err(e) => {
                        proof {
                            lemma_all_ok_err(results, i + 1);
                        }
                        return Err(e);
                    },
                    Ok(_) => {
                        proof {
                            let ops = section_ops(section)->Ok_0;
                            lemma_filter_uniform(ops, at, 0);
                            lemma_filter_uniform(ops, at, 1);
                            lemma_filter_uniform(ops, at, 2);
                            assert(runs.push(ops).drop_last() =~= runs);
                            assert(of_rank(runs, 0) + Seq::<SpecOp>::empty() =~= of_rank(runs, 0));
                            assert(of_rank(runs, 1) + Seq::<SpecOp>::empty() =~= of_rank(runs, 1));
                            assert(of_rank(runs, 2) + Seq::<SpecOp>::empty() =~= of_rank(runs, 2));
                            runs = runs.push(ops);
                        }
                    },
                }
                i += 1;
            }
            assert(results.take(i as int) =~= results);
            let mut ops = deletes;
            extend_ops(&mut ops, renames);
            extend_ops(&mut ops, sets);
            if ops.len() == 0 {
                return Err(PatchError("patch document contains no operations".to_string()));
            }
            Ok(ops)
        },
        _ => Err(PatchError("patch document must be a JSON object".to_string())),
    }
}

// ---------------------------------------------------------------------------
// Sizes
// ---------------------------------------------------------------------------

/// The factor that the suffix of a size stands for.
pub open spec fn size_factor(raw: Seq<char>) -> nat {
    if raw.len() == 0 {
        1
    } else if raw.last() == 'K' || raw.last() == 'k' {
        1024
    } else if raw.last() == 'M' || raw.last() == 'm' {
        1024 * 1024
    } else if raw.last() == 'G' || raw.last() == 'g' {
        1024 * 1024 * 1024
    } else {
        1
    }
}

/// The byte count that a size spells: a 64-bit number with an optional binary
/// suffix.
pub open spec fn size_of_text(raw: Seq<char>) -> Result<u64, Seq<char>> {
    let factor = size_factor(raw);
    let digits = if factor == 1 {
        raw
    } else {
        raw.drop_last()
    };
    match nat_of_text(digits) {
        Some(n) => if n > u64::MAX {
            Err("'"@ + raw + "' is not a size (use N, NK, NM or NG)"@)
        } else if n * factor > u64::MAX {
            Err("'"@ + raw + "' overflows"@)
        } else {
            Ok((n * factor) as u64)
        },
        None => Err("'"@ + raw + "' is not a size (use N, NK, NM or NG)"@),
    }
}

/// Parse a byte count with optional binary suffix: `4096`, `16K`, `2M`, `1G`.
pub fn parse_size(raw: &str) -> (r: Result<u64, PatchError>)
    ensures
        match (r, size_of_text(raw@)) {
            (Ok(n), Ok(m)) => n == m,
            (Err(e), Err(f)) => e.0@ == f,
            _ => false,
        },
{
    let mut s = chars_of(raw);
    let mut factor: u64 = 1;
    if s.len() > 0 {
        let c = s[s.len() - 1];
        if c == 'K' || c == 'k' {
            factor = 1024;
        } else if c == 'M' || c == 'm' {
            factor = 1024 * 1024;
        } else if c == 'G' || c == 'g' {
            factor = 1024 * 1024 * 1024;
        }
        if factor != 1 {
            s.pop();
            assert(s@ =~= raw@.drop_last());
        }
    }
    let from: usize = if s.len() > 0 && s[0] == '+' {
        1
    } else {
        0
    };
    assert(s@.skip(0) =~= s@);
    assert(from == 1 ==> s@.skip(1) =~= s@.drop_first());
    match parse_digits(&s, from) {
        Some(n) => {
            if n <= 0xffff_ffff_ffff_ffff {
                match (n as u64).checked_mul(factor) {
                    Some(total) => Ok(total),
                    None => {
                        let mut m = "'".to_string();
                        m.append(raw);
                        m.append("' overflows");
                        Err(PatchError(m))
                    },
                }
            } else {
                Err(bad_size(raw))
            }
        },
        None => Err(bad_size(raw)),
    }
}

/// The error for a text that is no size.
fn bad_size(raw: &str) -> (e: PatchError)
    ensures
        e.0@ == "'"@ + raw@ + "' is not a size (use N, NK, NM or NG)"@,
{
    let mut m = "'".to_string();
    m.append(raw);
    m.append("' is not a size (use N, NK, NM or NG)");
    PatchError(m)
}

} // verus!
