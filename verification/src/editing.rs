//! What editing does to metadata: which values texts and JSON entries stand for,
//! and what each operation stores, keeps and refuses.

use crate::dump::{json_of, kv_member};
use crate::float::{double_of_text, exact_64, finite_64, infinity, magnitude_32, narrowed, Width};
use crate::json::{member, SpecJson};
use crate::patch::{
    apply_all, apply_op, assign_op, coerced, inferred, key_index, lemma_key_index,
    lemma_value_absent, lemma_value_at_first, set_op, size_of_text, SpecOp, SpecValueSpec,
};
use crate::reparse::{law_dumped_scalar_is_coerced_back, lemma_int_text_read};
use crate::sizes::law_value_type_numbers;
use crate::text::{
    all_digits, dec, index_of_char, int_of_text, int_text, is_digit, lemma_dec_roundtrip,
    lemma_index_of_char,
};
use crate::types::{
    label_text, law_type_codes_and_names_roundtrip, type_of_name, value_type, GgufType, SpecKv,
    SpecValue,
};
use crate::wire::value_of;
use vstd::prelude::*;
use vstd::string::*;

verus! {

// ---------------------------------------------------------------------------
// Texts
// ---------------------------------------------------------------------------

/// Every integer of 128 bits is what its decimal text spells, a plus sign or not.
pub proof fn law_integers_are_spelled_in_decimal(n: int)
    requires
        i128::MIN <= n <= i128::MAX,
    ensures
        int_of_text(int_text(n)) == Some(n),
        n >= 0 ==> int_of_text(seq!['+'] + dec(n as nat)) == Some(n),
        n > 0 ==> int_text(-n) == seq!['-'] + int_text(n),
{
    lemma_int_text_read(n);
    if n >= 0 {
        lemma_dec_roundtrip(n as nat);
        let s = seq!['+'] + dec(n as nat);
        assert(s.drop_first() =~= dec(n as nat));
    }
}

/// A text that spells an integer is digits, behind a sign or not; it spells a
/// negative one only behind a minus sign.
pub proof fn law_only_digits_spell_integers(s: Seq<char>)
    ensures
        int_of_text(s) matches Some(n) ==> {
            &&& s.len() > 0
            &&& '0' <= s[0] <= '9' || s[0] == '+' || s[0] == '-'
            &&& forall|i: int| 0 < i < s.len() ==> '0' <= #[trigger] s[i] <= '9'
            &&& n < 0 ==> s[0] == '-'
            &&& n > 0 ==> s[0] != '-'
        },
{
    if let Some(n) = int_of_text(s) {
        let signed = s[0] == '+' || s[0] == '-';
        let body = if signed {
            s.drop_first()
        } else {
            s
        };
        assert(is_digit(body[0]));
        assert forall|i: int| 0 < i < s.len() implies '0' <= #[trigger] s[i] <= '9' by {
            if signed {
                assert(is_digit(body[i - 1]));
            } else {
                assert(is_digit(body[i]));
            }
        }
    }
}

/// An integer is taken by the types that it fits, as itself, and by no other.
pub proof fn law_integers_are_coerced_to_themselves(raw: Seq<char>, n: int)
    requires
        int_of_text(raw) == Some(n),
    ensures
        0 <= n <= 255 ==> coerced(GgufType::U8, raw) == Ok::<SpecValue, Seq<char>>(
            SpecValue::U8(n as u8),
        ),
        !(0 <= n <= 255) ==> coerced(GgufType::U8, raw) is Err,
        -128 <= n <= 127 ==> coerced(GgufType::I8, raw) == Ok::<SpecValue, Seq<char>>(
            SpecValue::I8(n as i8),
        ),
        !(-128 <= n <= 127) ==> coerced(GgufType::I8, raw) is Err,
        0 <= n <= 65535 ==> coerced(GgufType::U16, raw) == Ok::<SpecValue, Seq<char>>(
            SpecValue::U16(n as u16),
        ),
        !(0 <= n <= 65535) ==> coerced(GgufType::U16, raw) is Err,
        -32768 <= n <= 32767 ==> coerced(GgufType::I16, raw) == Ok::<SpecValue, Seq<char>>(
            SpecValue::I16(n as i16),
        ),
        !(-32768 <= n <= 32767) ==> coerced(GgufType::I16, raw) is Err,
        0 <= n <= 4294967295 ==> coerced(GgufType::U32, raw) == Ok::<SpecValue, Seq<char>>(
            SpecValue::U32(n as u32),
        ),
        !(0 <= n <= 4294967295) ==> coerced(GgufType::U32, raw) is Err,
        -2147483648 <= n <= 2147483647 ==> coerced(GgufType::I32, raw) == Ok::<SpecValue, Seq<char>>(
            SpecValue::I32(n as i32),
        ),
        !(-2147483648 <= n <= 2147483647) ==> coerced(GgufType::I32, raw) is Err,
        0 <= n <= 18446744073709551615 ==> coerced(GgufType::U64, raw) == Ok::<SpecValue, Seq<char>>(
            SpecValue::U64(n as u64),
        ),
        !(0 <= n <= 18446744073709551615) ==> coerced(GgufType::U64, raw) is Err,
        -9223372036854775808 <= n <= 9223372036854775807 ==> coerced(GgufType::I64, raw) == Ok::<SpecValue, Seq<char>>(
            SpecValue::I64(n as i64),
        ),
        !(-9223372036854775808 <= n <= 9223372036854775807) ==> coerced(GgufType::I64, raw) is Err,
{
}

/// What spells no integer is taken by no integer type.
pub proof fn law_no_integer_type_takes_other_text(raw: Seq<char>)
    requires
        int_of_text(raw) is None,
    ensures
        coerced(GgufType::U8, raw) is Err,
        coerced(GgufType::I8, raw) is Err,
        coerced(GgufType::U16, raw) is Err,
        coerced(GgufType::I16, raw) is Err,
        coerced(GgufType::U32, raw) is Err,
        coerced(GgufType::I32, raw) is Err,
        coerced(GgufType::U64, raw) is Err,
        coerced(GgufType::I64, raw) is Err,
{
}

/// `true` and `false` are taken for bools, each for what it says, and no other
/// text is. Every text is taken for a string, as it is, and none for an array.
pub proof fn law_bools_and_strings_are_coerced_to_themselves(raw: Seq<char>, b: bool)
    ensures
        coerced(GgufType::Bool, raw) == Ok::<SpecValue, Seq<char>>(SpecValue::Bool(b)) <==> raw
            == (if b {
            "true"@
        } else {
            "false"@
        }),
        raw != "true"@ && raw != "false"@ ==> coerced(GgufType::Bool, raw) is Err,
        coerced(GgufType::Str, raw) == Ok::<SpecValue, Seq<char>>(SpecValue::Str(raw)),
        coerced(GgufType::Array, raw) is Err,
{
    reveal_strlit("true");
    reveal_strlit("false");
    assert("true"@.len() == 4 && "false"@.len() == 5);
}

/// A text that is read as a double is taken for one, and for the single nearest
/// to it; no other text is taken for either.
pub proof fn law_numbers_are_coerced_to_floats(raw: Seq<char>)
    ensures
        match double_of_text(raw) {
            Some(bits) => coerced(GgufType::F64, raw) == Ok::<SpecValue, Seq<char>>(
                SpecValue::F64(bits),
            ) && coerced(GgufType::F32, raw) == Ok::<SpecValue, Seq<char>>(
                SpecValue::F32(narrowed(bits)),
            ),
            None => coerced(GgufType::F64, raw) is Err && coerced(GgufType::F32, raw) is Err,
        },
{
}

/// The value that is inferred for a new key is the value that its text spells:
/// coercing the text to the inferred type gives that very value.
pub proof fn law_inferred_value_is_what_the_text_spells(raw: Seq<char>)
    ensures
        coerced(value_type(inferred(raw)), raw) == Ok::<SpecValue, Seq<char>>(inferred(raw)),
{
    reveal_strlit("true");
    reveal_strlit("false");
    assert("true"@.len() == 4 && "false"@.len() == 5);
}

/// Which type is inferred: bools for `true` and `false`, the first of u32, i32,
/// u64 and i64 that an integer fits, f32 for other numbers that are written with
/// digits, signs, points, exponents and underscores alone, and strings for all
/// the rest.
pub proof fn law_inferred_type(raw: Seq<char>)
    ensures
        raw == "true"@ || raw == "false"@ <==> inferred(raw) is Bool,
        int_of_text(raw) matches Some(n) ==> {
            &&& 0 <= n <= 4294967295 ==> inferred(raw) == SpecValue::U32(n as u32)
            &&& -2147483648 <= n < 0 ==> inferred(raw) == SpecValue::I32(n as i32)
            &&& 4294967295 < n <= 18446744073709551615 ==> inferred(raw) == SpecValue::U64(
                n as u64,
            )
            &&& -9223372036854775808 <= n < -2147483648 ==> inferred(raw) == SpecValue::I64(
                n as i64,
            )
            &&& (n > 18446744073709551615 || n < -9223372036854775808) && double_of_text(raw)
                is Some ==> inferred(raw) is F32
        },
        int_of_text(raw) is None && double_of_text(raw) is Some && (forall|i: int|
            0 <= i < raw.len() ==> in_a_number(#[trigger] raw[i])) ==> inferred(raw) is F32,
        raw != "true"@ && raw != "false"@ && int_of_text(raw) is None && (double_of_text(raw)
            is None || exists|i: int| 0 <= i < raw.len() && !in_a_number(#[trigger] raw[i]))
            ==> inferred(raw) == SpecValue::Str(raw),
{
    law_only_digits_spell_integers(raw);
    reveal_strlit("true");
    reveal_strlit("false");
    assert("true"@[0] == 't' && "false"@[0] == 'f');
    assert("true"@.len() == 4 && "false"@.len() == 5);
    if raw == "true"@ || raw == "false"@ {
        assert(!in_a_number(raw[0]));
    }
    assert forall|i: int| 0 <= i < raw.len() implies in_a_number(#[trigger] raw[i])
        == crate::patch::is_numeric(raw[i]) by {}
}

/// The characters that numbers are written with.
pub open spec fn in_a_number(c: char) -> bool {
    '0' <= c <= '9' || c == '+' || c == '-' || c == '.' || c == 'e' || c == 'E' || c == '_'
}

/// The names of types, and nothing else, name types.
pub proof fn law_type_names(name: Seq<char>)
    ensures
        type_of_name(name) is Some <==> name == "u8"@ || name == "i8"@ || name == "u16"@ || name
            == "i16"@ || name == "u32"@ || name == "i32"@ || name == "f32"@ || name == "bool"@
            || name == "str"@ || name == "string"@ || name == "array"@ || name == "u64"@ || name
            == "i64"@ || name == "f64"@,
{
}

/// The types that the names stand for.
proof fn lemma_named_types()
    ensures
        type_of_name("u8"@) == Some(GgufType::U8),
        type_of_name("i8"@) == Some(GgufType::I8),
        type_of_name("u16"@) == Some(GgufType::U16),
        type_of_name("i16"@) == Some(GgufType::I16),
        type_of_name("u32"@) == Some(GgufType::U32),
        type_of_name("i32"@) == Some(GgufType::I32),
        type_of_name("f32"@) == Some(GgufType::F32),
        type_of_name("bool"@) == Some(GgufType::Bool),
        type_of_name("str"@) == Some(GgufType::Str),
        type_of_name("string"@) == Some(GgufType::Str),
        type_of_name("array"@) == Some(GgufType::Array),
        type_of_name("u64"@) == Some(GgufType::U64),
        type_of_name("i64"@) == Some(GgufType::I64),
        type_of_name("f64"@) == Some(GgufType::F64),
{
    law_type_codes_and_names_roundtrip(GgufType::U8);
    law_type_codes_and_names_roundtrip(GgufType::I8);
    law_type_codes_and_names_roundtrip(GgufType::U16);
    law_type_codes_and_names_roundtrip(GgufType::I16);
    law_type_codes_and_names_roundtrip(GgufType::U32);
    law_type_codes_and_names_roundtrip(GgufType::I32);
    law_type_codes_and_names_roundtrip(GgufType::F32);
    law_type_codes_and_names_roundtrip(GgufType::Bool);
    law_type_codes_and_names_roundtrip(GgufType::Str);
    law_type_codes_and_names_roundtrip(GgufType::Array);
    law_type_codes_and_names_roundtrip(GgufType::U64);
    law_type_codes_and_names_roundtrip(GgufType::I64);
    law_type_codes_and_names_roundtrip(GgufType::F64);
    law_value_type_numbers(GgufType::U8);
}

// ---------------------------------------------------------------------------
// KEY=VALUE arguments
// ---------------------------------------------------------------------------

/// A character does not occur in a text.
pub open spec fn lacks(s: Seq<char>, c: char) -> bool {
    forall|i: int| 0 <= i < s.len() ==> #[trigger] s[i] != c
}

/// The first of a character is behind what lacks it.
proof fn lemma_first_of(a: Seq<char>, c: char, b: Seq<char>)
    requires
        lacks(a, c),
    ensures
        index_of_char(a + seq![c] + b, c) == a.len(),
        (a + seq![c] + b).take(a.len() as int) == a,
        (a + seq![c] + b).skip(a.len() as int + 1) == b,
        index_of_char(a, c) == a.len(),
{
    let s = a + seq![c] + b;
    lemma_index_of_char(s, c);
    lemma_index_of_char(a, c);
    let k = index_of_char(s, c);
    if k < a.len() {
        assert(s[k] == a[k]);
    }
    if k > a.len() {
        assert(s[a.len() as int] == c);
    }
    let m = index_of_char(a, c);
    if m < a.len() {
        assert(a[m] == c);
    }
    assert(s.take(a.len() as int) =~= a);
    assert(s.skip(a.len() as int + 1) =~= b);
}

/// `KEY=VALUE` assigns what stands behind the first equals sign to the key in
/// front of it, with the type to be found, unless the name of a type stands in
/// front of a colon; `KEY=TYPE:VALUE` assigns what stands behind the colon, as a
/// value of that type.
pub proof fn law_set_arguments(key: Seq<char>, name: Seq<char>, value: Seq<char>)
    requires
        key.len() > 0,
        lacks(key, '='),
        lacks(name, ':'),
    ensures
        lacks(value, ':') ==> set_op(key + seq!['='] + value) == Ok::<SpecOp, Seq<char>>(
            SpecOp::Assign { key, spec: SpecValueSpec::Inferred(value) },
        ),
        type_of_name(name) is None ==> set_op(key + seq!['='] + (name + seq![':'] + value)) == Ok::<
            SpecOp,
            Seq<char>,
        >(
            SpecOp::Assign {
                key,
                spec: SpecValueSpec::Inferred(name + seq![':'] + value),
            },
        ),
        type_of_name(name) matches Some(ty) ==> match coerced(ty, value) {
            Ok(v) => set_op(key + seq!['='] + (name + seq![':'] + value)) == Ok::<
                SpecOp,
                Seq<char>,
            >(SpecOp::Assign { key, spec: SpecValueSpec::Typed(v) }),
            Err(_) => set_op(key + seq!['='] + (name + seq![':'] + value)) is Err,
        },
{
    lemma_first_of(key, '=', value);
    lemma_first_of(key, '=', name + seq![':'] + value);
    lemma_first_of(name, ':', value);
    lemma_index_of_char(value, ':');
}

/// An argument without an equals sign, or without a key, is refused.
pub proof fn law_set_arguments_without_a_key_are_refused(arg: Seq<char>)
    requires
        lacks(arg, '=') || arg[0] == '=',
    ensures
        set_op(arg) is Err,
{
    lemma_index_of_char(arg, '=');
}

// ---------------------------------------------------------------------------
// Operations
// ---------------------------------------------------------------------------

/// A key that no edit may touch.
pub open spec fn untouchable(key: Seq<char>) -> bool {
    key == "general.alignment"@ || key == "chisel.pad"@
}

/// A key occurs in the metadata.
pub open spec fn occurs(kvs: Seq<SpecKv>, key: Seq<char>) -> bool {
    exists|i: int| 0 <= i < kvs.len() && (#[trigger] kvs[i]).key == key
}

/// The index tells whether a key occurs, and so does its value.
proof fn lemma_occurs(kvs: Seq<SpecKv>, key: Seq<char>)
    ensures
        occurs(kvs, key) <==> key_index(kvs, key) < kvs.len(),
        occurs(kvs, key) <==> value_of(kvs, key) is Some,
        occurs(kvs, key) ==> value_of(kvs, key) == Some(kvs[key_index(kvs, key)].value),
{
    lemma_key_index(kvs, key);
    let i = key_index(kvs, key);
    if i < kvs.len() {
        lemma_value_at_first(kvs, key, i);
    } else {
        lemma_value_absent(kvs, key);
    }
}

/// A typed assignment stores the very value, under a key that exists or not.
pub proof fn law_typed_assignment_stores_its_value(
    kvs: Seq<SpecKv>,
    key: Seq<char>,
    v: SpecValue,
)
    requires
        !untouchable(key),
    ensures
        apply_op(kvs, SpecOp::Assign { key, spec: SpecValueSpec::Typed(v) }) matches Ok((after, _))
            && value_of(after, key) == Some(v),
{
    crate::patch::law_assignment_is_read_back(kvs, key, SpecValueSpec::Typed(v));
}

/// An assignment of plain text stores, under a key that exists, what the text is
/// as a value of the type that is there, and is refused where it is none or an
/// array is there; under a new key it stores the inferred value.
pub proof fn law_plain_assignment_stores_what_the_text_is(
    kvs: Seq<SpecKv>,
    key: Seq<char>,
    raw: Seq<char>,
)
    requires
        !untouchable(key),
    ensures
        ({
            let r = apply_op(kvs, SpecOp::Assign { key, spec: SpecValueSpec::Inferred(raw) });
            match value_of(kvs, key) {
                None => r matches Ok((after, _)) && value_of(after, key) == Some(inferred(raw)),
                Some(old) => match coerced(value_type(old), raw) {
                    Ok(v) => !(old is Array) ==> (r matches Ok((after, _)) && value_of(after, key)
                        == Some(v)),
                    Err(_) => r is Err,
                },
            }
        }),
        value_of(kvs, key) matches Some(SpecValue::Array(_, _)) ==> apply_op(
            kvs,
            SpecOp::Assign { key, spec: SpecValueSpec::Inferred(raw) },
        ) is Err,
{
    lemma_occurs(kvs, key);
    lemma_key_index(kvs, key);
    crate::patch::law_assignment_is_read_back(kvs, key, SpecValueSpec::Inferred(raw));
}

/// An assignment keeps every pair where it is: under a key that exists only the
/// first value of that key changes, and a new key comes last.
pub proof fn law_assignment_keeps_the_order(kvs: Seq<SpecKv>, key: Seq<char>, spec: SpecValueSpec)
    ensures
        apply_op(kvs, SpecOp::Assign { key, spec }) matches Ok((after, _)) ==> {
            &&& occurs(kvs, key) ==> after.len() == kvs.len()
            &&& !occurs(kvs, key) ==> after.len() == kvs.len() + 1 && after.last().key == key
            &&& forall|j: int|
                0 <= j < kvs.len() ==> (#[trigger] after[j]).key == kvs[j].key && (kvs[j].key != key
                    || occurs(kvs.take(j), key) ==> after[j].value == kvs[j].value)
        },
{
    lemma_occurs(kvs, key);
    lemma_key_index(kvs, key);
    let i = key_index(kvs, key);
    if let Ok((after, _)) = apply_op(kvs, SpecOp::Assign { key, spec }) {
        assert forall|j: int| 0 <= j < kvs.len() implies (#[trigger] after[j]).key == kvs[j].key
            && (kvs[j].key != key || occurs(kvs.take(j), key) ==> after[j].value
            == kvs[j].value) by {
            if j == i && occurs(kvs.take(j), key) {
                let k = choose|k: int| 0 <= k < j && (#[trigger] kvs.take(j)[k]).key == key;
                assert(kvs[k].key == key);
            }
        }
    }
}

/// Removing takes out the first pair under the key and nothing else; it is
/// refused exactly where there is none, or the key is not to be touched.
pub proof fn law_removal_takes_out_one_pair(kvs: Seq<SpecKv>, key: Seq<char>)
    ensures
        match apply_op(kvs, SpecOp::Remove { key }) {
            Ok((after, _)) => !untouchable(key) && exists|i: int|
                0 <= i < kvs.len() && kvs[i].key == key && !occurs(kvs.take(i), key) && after
                    == #[trigger] kvs.take(i) + kvs.skip(i + 1),
            Err(_) => untouchable(key) || !occurs(kvs, key),
        },
{
    lemma_occurs(kvs, key);
    lemma_key_index(kvs, key);
    let i = key_index(kvs, key);
    if i < kvs.len() {
        assert(kvs.remove(i) =~= kvs.take(i) + kvs.skip(i + 1));
        assert forall|k: int| 0 <= k < kvs.take(i).len() implies (#[trigger] kvs.take(i)[k]).key
            != key by {
            assert(kvs.take(i)[k] == kvs[k]);
        }
    }
}

/// A rename is refused exactly where the old key is not there, the new one is, or
/// either is not to be touched.
pub proof fn law_renames_that_are_refused(kvs: Seq<SpecKv>, from: Seq<char>, to: Seq<char>)
    ensures
        apply_op(kvs, SpecOp::Rename { from, to }) is Ok <==> occurs(kvs, from) && !occurs(kvs, to)
            && !untouchable(from) && !untouchable(to),
        apply_op(kvs, SpecOp::Rename { from, to }) matches Ok((after, _)) ==> value_of(after, to)
            == value_of(kvs, from),
{
    lemma_occurs(kvs, from);
    lemma_occurs(kvs, to);
    crate::patch::law_rename_keeps_value_and_position(kvs, from, to);
}

/// Operations are applied one after the other, each to what the ones before it
/// have left: a list does what its parts do in turn, and nothing where one is
/// refused.
pub proof fn law_operations_apply_in_turn(kvs: Seq<SpecKv>, first: Seq<SpecOp>, then: Seq<SpecOp>)
    ensures
        match apply_all(kvs, first) {
            Err(e) => apply_all(kvs, first + then) == Err::<
                (Seq<SpecKv>, Seq<Seq<char>>),
                Seq<char>,
            >(e),
            Ok((work, lines)) => match apply_all(work, then) {
                Err(e) => apply_all(kvs, first + then) == Err::<
                    (Seq<SpecKv>, Seq<Seq<char>>),
                    Seq<char>,
                >(e),
                Ok((after, more)) => apply_all(kvs, first + then) == Ok::<
                    (Seq<SpecKv>, Seq<Seq<char>>),
                    Seq<char>,
                >((after, lines + more)),
            },
        },
    decreases then.len(),
{
    if then.len() == 0 {
        assert(first + then =~= first);
        if let Ok((work, lines)) = apply_all(kvs, first) {
            assert(lines + Seq::<Seq<char>>::empty() =~= lines);
        }
    } else {
        let init = then.drop_last();
        law_operations_apply_in_turn(kvs, first, init);
        assert((first + then).drop_last() =~= first + init);
        assert((first + then).last() == then.last());
        if let Ok((work, lines)) = apply_all(kvs, first) {
            if let Ok((next, more)) = apply_all(work, init) {
                if let Ok((after, line)) = apply_op(next, then.last()) {
                    assert((lines + more).push(line) =~= lines + more.push(line));
                }
            }
        }
    }
}

/// A list of one operation does what the operation does.
pub proof fn law_one_operation(kvs: Seq<SpecKv>, op: SpecOp)
    ensures
        match apply_op(kvs, op) {
            Ok((after, line)) => apply_all(kvs, seq![op]) == Ok::<
                (Seq<SpecKv>, Seq<Seq<char>>),
                Seq<char>,
            >((after, seq![line])),
            Err(e) => apply_all(kvs, seq![op]) == Err::<(Seq<SpecKv>, Seq<Seq<char>>), Seq<char>>(
                e,
            ),
        },
        apply_all(kvs, Seq::empty()) == Ok::<(Seq<SpecKv>, Seq<Seq<char>>), Seq<char>>(
            (kvs, Seq::empty()),
        ),
{
    assert(seq![op].drop_last() =~= Seq::<SpecOp>::empty());
    reveal_with_fuel(apply_all, 2);
    if let Ok((after, line)) = apply_op(kvs, op) {
        assert(Seq::<Seq<char>>::empty().push(line) =~= seq![line]);
    }
}

// ---------------------------------------------------------------------------
// Entries of patch documents
// ---------------------------------------------------------------------------

/// An entry of the `set` section asks to store a value under its key.
pub open spec fn asks_for(pair: (Seq<char>, SpecJson), v: SpecValue) -> bool {
    assign_op(pair) == Ok::<SpecOp, Seq<char>>(
        SpecOp::Assign { key: pair.0, spec: SpecValueSpec::Typed(v) },
    )
}

/// An explicit `{"type": T, "value": V}` entry stores V itself: a bool as that
/// bool, an integer as the integer of the type where it fits (and only there), a
/// string as that string, a number as the double that it is, or the single that
/// equals it. Nothing else can be stored.
pub proof fn law_explicit_entries_store_their_value(
    pair: (Seq<char>, SpecJson),
    fields: Seq<(Seq<char>, SpecJson)>,
    ty: Seq<char>,
    given: SpecJson,
    n: int,
)
    requires
        pair.1 == SpecJson::Obj(fields),
        member(fields, "type"@) == Some(SpecJson::Str(ty)),
        member(fields, "value"@) == Some(given),
        i128::MIN <= n <= i128::MAX,
    ensures
        given matches SpecJson::Bool(b) ==> (ty == "bool"@ ==> asks_for(
            pair,
            SpecValue::Bool(b),
        )),
        given matches SpecJson::Str(t) ==> (ty == "str"@ || ty == "string"@ ==> asks_for(
            pair,
            SpecValue::Str(t),
        )),
        given == SpecJson::Int(n) && ty == "u8"@ && 0 <= n <= 255 ==> asks_for(
            pair,
            SpecValue::U8(n as u8),
        ),
        given == SpecJson::Int(n) && ty == "u8"@ && !(0 <= n <= 255) ==> assign_op(pair) is Err,
        given == SpecJson::Int(n) && ty == "i8"@ && -128 <= n <= 127 ==> asks_for(
            pair,
            SpecValue::I8(n as i8),
        ),
        given == SpecJson::Int(n) && ty == "i8"@ && !(-128 <= n <= 127) ==> assign_op(pair) is Err,
        given == SpecJson::Int(n) && ty == "u16"@ && 0 <= n <= 65535 ==> asks_for(
            pair,
            SpecValue::U16(n as u16),
        ),
        given == SpecJson::Int(n) && ty == "u16"@ && !(0 <= n <= 65535) ==> assign_op(pair) is Err,
        given == SpecJson::Int(n) && ty == "i16"@ && -32768 <= n <= 32767 ==> asks_for(
            pair,
            SpecValue::I16(n as i16),
        ),
        given == SpecJson::Int(n) && ty == "i16"@ && !(-32768 <= n <= 32767) ==> assign_op(pair) is Err,
        given == SpecJson::Int(n) && ty == "u32"@ && 0 <= n <= 4294967295 ==> asks_for(
            pair,
            SpecValue::U32(n as u32),
        ),
        given == SpecJson::Int(n) && ty == "u32"@ && !(0 <= n <= 4294967295) ==> assign_op(pair) is Err,
        given == SpecJson::Int(n) && ty == "i32"@ && -2147483648 <= n <= 2147483647 ==> asks_for(
            pair,
            SpecValue::I32(n as i32),
        ),
        given == SpecJson::Int(n) && ty == "i32"@ && !(-2147483648 <= n <= 2147483647) ==> assign_op(pair) is Err,
        given == SpecJson::Int(n) && ty == "u64"@ && 0 <= n <= 18446744073709551615 ==> asks_for(
            pair,
            SpecValue::U64(n as u64),
        ),
        given == SpecJson::Int(n) && ty == "u64"@ && !(0 <= n <= 18446744073709551615) ==> assign_op(pair) is Err,
        given == SpecJson::Int(n) && ty == "i64"@ && -9223372036854775808 <= n <= 9223372036854775807 ==> asks_for(
            pair,
            SpecValue::I64(n as i64),
        ),
        given == SpecJson::Int(n) && ty == "i64"@ && !(-9223372036854775808 <= n <= 9223372036854775807) ==> assign_op(pair) is Err,
        given matches SpecJson::Float(bits) ==> (ty == "f64"@ && finite_64(bits) ==> asks_for(
            pair,
            SpecValue::F64(bits),
        )),
        given is Null || given is Arr || given is Obj ==> assign_op(pair) is Err,
        type_of_name(ty) is None || ty == "array"@ ==> assign_op(pair) is Err,
{
    lemma_named_types();
    lemma_int_text_read(n);
    reveal_strlit("true");
    reveal_strlit("false");
    assert("true"@.len() == 4 && "false"@.len() == 5);
    if let SpecJson::Float(bits) = given {
        if finite_64(bits) {
            crate::exact::law_printed_double_is_read_back(bits);
        }
    }
}

/// The first of a name in a short list of fields.
proof fn lemma_fields(v: SpecValue)
    ensures
        ({
            let fields = seq![
                ("type"@, SpecJson::Str(label_text(v))),
                ("value"@, json_of(v)),
            ];
            &&& member(fields, "type"@) == Some(SpecJson::Str(label_text(v)))
            &&& member(fields, "value"@) == Some(json_of(v))
        }),
{
    let fields = seq![("type"@, SpecJson::Str(label_text(v))), ("value"@, json_of(v))];
    reveal_strlit("type");
    reveal_strlit("value");
    assert("type"@.len() == 4 && "value"@.len() == 5);
    reveal_with_fuel(member, 3);
    assert(fields.skip(1)[0] == fields[1]);
}

/// A metadata pair of a dump, given back in the `set` section of a patch document
/// as it stands in the dump, stores the value that was dumped: every number, bool
/// and string. (Numbers that are not finite are dumped as null, and refused.)
pub proof fn law_dumped_pairs_are_stored_as_they_were(kv: SpecKv)
    requires
        match kv.value {
            SpecValue::F32(x) => magnitude_32(x) < infinity(Width::Single),
            SpecValue::F64(x) => finite_64(x),
            SpecValue::Array(_, _) => false,
            _ => true,
        },
    ensures
        asks_for(kv_member(kv), kv.value),
{
    let v = kv.value;
    lemma_fields(v);
    law_type_codes_and_names_roundtrip(value_type(v));
    if !(v is Str) {
        law_dumped_scalar_is_coerced_back(v);
    }
    match v {
        SpecValue::F32(x) => {
            crate::float::law_widening_is_exact(x);
        },
        _ => {},
    }
}

/// A plain entry stores what it says. Under a new key: a bool that bool, a string
/// that string, an integer the integer, in the first of u32, i32, u64 and i64
/// that it fits, and any other number the single nearest to it. Under a key that
/// exists: a bool where bools are, an integer where it fits, a double where
/// doubles are.
pub proof fn law_plain_entries_store_what_they_say(
    kvs: Seq<SpecKv>,
    pair: (Seq<char>, SpecJson),
    n: int,
)
    requires
        !untouchable(pair.0),
        i128::MIN <= n <= i128::MAX,
    ensures
        pair.1 matches SpecJson::Str(t) ==> stores(kvs, pair, SpecValue::Str(t)),
        pair.1 matches SpecJson::Bool(b) ==> (value_of(kvs, pair.0) is None || has_type(
            kvs,
            pair.0,
            GgufType::Bool,
        ) ==> stores(kvs, pair, SpecValue::Bool(b))),
        pair.1 == SpecJson::Int(n) && value_of(kvs, pair.0) is None ==> {
            &&& 0 <= n <= 4294967295 ==> stores(kvs, pair, SpecValue::U32(n as u32))
            &&& -2147483648 <= n < 0 ==> stores(kvs, pair, SpecValue::I32(n as i32))
            &&& 4294967295 < n <= 18446744073709551615 ==> stores(
                kvs,
                pair,
                SpecValue::U64(n as u64),
            )
            &&& -9223372036854775808 <= n < -2147483648 ==> stores(
                kvs,
                pair,
                SpecValue::I64(n as i64),
            )
        },
        pair.1 == SpecJson::Int(n) && has_type(kvs, pair.0, GgufType::U8) && 0 <= n <= 255 ==> stores(
            kvs,
            pair,
            SpecValue::U8(n as u8),
        ),
        pair.1 == SpecJson::Int(n) && has_type(kvs, pair.0, GgufType::I8) && -128 <= n <= 127 ==> stores(
            kvs,
            pair,
            SpecValue::I8(n as i8),
        ),
        pair.1 == SpecJson::Int(n) && has_type(kvs, pair.0, GgufType::U16) && 0 <= n <= 65535 ==> stores(
            kvs,
            pair,
            SpecValue::U16(n as u16),
        ),
        pair.1 == SpecJson::Int(n) && has_type(kvs, pair.0, GgufType::I16) && -32768 <= n <= 32767 ==> stores(
            kvs,
            pair,
            SpecValue::I16(n as i16),
        ),
        pair.1 == SpecJson::Int(n) && has_type(kvs, pair.0, GgufType::U32) && 0 <= n <= 4294967295 ==> stores(
            kvs,
            pair,
            SpecValue::U32(n as u32),
        ),
        pair.1 == SpecJson::Int(n) && has_type(kvs, pair.0, GgufType::I32) && -2147483648 <= n <= 2147483647 ==> stores(
            kvs,
            pair,
            SpecValue::I32(n as i32),
        ),
        pair.1 == SpecJson::Int(n) && has_type(kvs, pair.0, GgufType::U64) && 0 <= n <= 18446744073709551615 ==> stores(
            kvs,
            pair,
            SpecValue::U64(n as u64),
        ),
        pair.1 == SpecJson::Int(n) && has_type(kvs, pair.0, GgufType::I64) && -9223372036854775808 <= n <= 9223372036854775807 ==> stores(
            kvs,
            pair,
            SpecValue::I64(n as i64),
        ),
        pair.1 matches SpecJson::Float(bits) ==> (finite_64(bits) && has_type(
            kvs,
            pair.0,
            GgufType::F64,
        ) ==> stores(kvs, pair, SpecValue::F64(bits))),
        pair.1 is Null || pair.1 is Arr ==> assign_op(pair) is Err,
{
    let key = pair.0;
    match pair.1 {
        SpecJson::Str(t) => {
            law_typed_assignment_stores_its_value(kvs, key, SpecValue::Str(t));
        },
        SpecJson::Bool(b) => {
            let raw = crate::patch::bool_text(b);
            law_bools_and_strings_are_coerced_to_themselves(raw, b);
            law_plain_assignment_stores_what_the_text_is(kvs, key, raw);
        },
        SpecJson::Int(i) => {
            if i == n {
                lemma_int_text_read(n);
                law_integers_are_coerced_to_themselves(int_text(n), n);
                law_inferred_type(int_text(n));
                law_plain_assignment_stores_what_the_text_is(kvs, key, int_text(n));
            }
        },
        SpecJson::Float(bits) => {
            if finite_64(bits) {
                crate::exact::law_printed_double_is_read_back(bits);
                law_numbers_are_coerced_to_floats(exact_64(bits));
                law_plain_assignment_stores_what_the_text_is(kvs, key, exact_64(bits));
            }
        },
        _ => {},
    }
}

/// The value under a key has a type.
pub open spec fn has_type(kvs: Seq<SpecKv>, key: Seq<char>, ty: GgufType) -> bool {
    value_of(kvs, key) matches Some(v) && value_type(v) == ty
}

/// An entry of the `set` section, applied to metadata, stores a value.
pub open spec fn stores(kvs: Seq<SpecKv>, pair: (Seq<char>, SpecJson), v: SpecValue) -> bool {
    assign_op(pair) matches Ok(op) && apply_op(kvs, op) matches Ok((after, _)) && value_of(
        after,
        pair.0,
    ) == Some(v)
}

// ---------------------------------------------------------------------------
// Sizes
// ---------------------------------------------------------------------------

/// A size is a number of bytes, or of 1024, 1024 times 1024 or 1024 times 1024
/// times 1024 bytes where a K, an M or a G follows, large or small; it is refused
/// exactly where it exceeds 64 bits.
pub proof fn law_sizes(n: nat, unit: char)
    ensures
        n <= u64::MAX ==> size_of_text(dec(n)) == Ok::<u64, Seq<char>>(n as u64),
        n > u64::MAX ==> size_of_text(dec(n)) is Err,
        unit == 'K' || unit == 'k' ==> size_counts(dec(n).push(unit), n * 1024),
        unit == 'M' || unit == 'm' ==> size_counts(dec(n).push(unit), n * 1048576),
        unit == 'G' || unit == 'g' ==> size_counts(dec(n).push(unit), n * 1073741824),
        !('0' <= unit <= '9') && unit != 'K' && unit != 'k' && unit != 'M' && unit != 'm' && unit
            != 'G' && unit != 'g' ==> size_of_text(dec(n).push(unit)) is Err,
{
    lemma_dec_roundtrip(n);
    let s = dec(n);
    assert(is_digit(s[0]));
    assert(is_digit(s[s.len() - 1]));
    let t = s.push(unit);
    assert(t.drop_last() =~= s);
    assert(t[0] == s[0]);
    if !is_digit(unit) {
        assert(t[t.len() - 1] == unit);
        assert(!all_digits(t));
    }
}

/// A text is the size of so many bytes, where they fit in 64 bits.
pub open spec fn size_counts(raw: Seq<char>, bytes: nat) -> bool {
    if bytes <= u64::MAX {
        size_of_text(raw) == Ok::<u64, Seq<char>>(bytes as u64)
    } else {
        size_of_text(raw) is Err
    }
}

} // verus!
