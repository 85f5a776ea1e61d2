//! JSON that is written is read back: what [`crate::json`] renders, compact or
//! pretty, parses to the value it was rendered from.

use crate::dump::{dump_of, json_of, kv_member, tensor_json};
use crate::exact::{
    law_narrowing_undoes_widening, law_printed_double_is_read_back, lemma_exact_parts, lemma_run_of,
    number_text,
};
use crate::float::{
    exact_64, finite_64, infinity, law_widening_is_exact, magnitude_32, magnitude_64, widened,
    Width, SIGN_64,
};
use crate::json::{
    after_digits, after_space, at, can_cut, chars_from, deeper, digit_at, document, elements_from,
    escape_at, escaped, escaped_text, exponent_from, failed, fraction_from, has_bytes, hex4_at,
    hex_number, hex_value, is_space, key_text, lemma_after_space, lemma_value_end, line_break,
    members_from, number_at, number_value, quoted, render, render_items, render_pairs, string_at,
    utf8_width, value_from, Parsed, SpecJson, SpecJsonError, MAX_DEPTH,
};
use crate::patch::coerced;
use crate::text::{
    all_digits, dec, hex_char, int_of_text, int_text, is_digit, lemma_dec_roundtrip, starts_at,
};
use crate::types::{value_type, SpecTensor, SpecValue};
use crate::wire::{wf_head, wf_kv, wf_value, SpecHead};
use vstd::prelude::*;
use vstd::utf8::*;

verus! {

// ---------------------------------------------------------------------------
// Which values, and what they are read as
// ---------------------------------------------------------------------------

/// A value as it survives being written: numbers that are not finite have no
/// JSON spelling and become null.
pub open spec fn plain(v: SpecJson) -> SpecJson
    decreases v,
{
    match v {
        SpecJson::Float(bits) => if finite_64(bits) {
            v
        } else {
            SpecJson::Null
        },
        SpecJson::Arr(items) => SpecJson::Arr(
            Seq::new(
                items.len(),
                |i: int|
                    if 0 <= i < items.len() {
                        plain(items[i])
                    } else {
                        SpecJson::Null
                    },
            ),
        ),
        SpecJson::Obj(pairs) => SpecJson::Obj(
            Seq::new(
                pairs.len(),
                |i: int|
                    if 0 <= i < pairs.len() {
                        (pairs[i].0, plain(pairs[i].1))
                    } else {
                        (Seq::empty(), SpecJson::Null)
                    },
            ),
        ),
        _ => v,
    }
}

/// Each item of an array, as it survives.
pub open spec fn plain_items(items: Seq<SpecJson>) -> Seq<SpecJson> {
    Seq::new(items.len(), |i: int| plain(items[i]))
}

/// Each member of an object, as it survives.
pub open spec fn plain_pairs(pairs: Seq<(Seq<char>, SpecJson)>) -> Seq<(Seq<char>, SpecJson)> {
    Seq::new(pairs.len(), |i: int| (pairs[i].0, plain(pairs[i].1)))
}

/// A value that fits in `room` levels of nesting and whose integers fit in 128
/// bits.
pub open spec fn readable(v: SpecJson, room: nat) -> bool
    decreases room,
{
    room > 0 && match v {
        SpecJson::Int(i) => i128::MIN <= i <= i128::MAX,
        SpecJson::Arr(items) => forall|i: int|
            0 <= i < items.len() ==> readable(#[trigger] items[i], (room - 1) as nat),
        SpecJson::Obj(pairs) => forall|i: int|
            0 <= i < pairs.len() ==> readable((#[trigger] pairs[i]).1, (room - 1) as nat),
        _ => true,
    }
}

// ---------------------------------------------------------------------------
// Pieces of text
// ---------------------------------------------------------------------------

/// `t` stands in `s` at position `i`.
#[verifier::opaque]
spec fn stands(s: Seq<char>, i: int, t: Seq<char>) -> bool {
    starts_at(s, i, t)
}

/// What stands at a position, piece by piece.
proof fn lemma_pieces(s: Seq<char>, i: int, a: Seq<char>, b: Seq<char>)
    requires
        stands(s, i, a + b),
    ensures
        stands(s, i, a),
        stands(s, i + a.len(), b),
        0 <= i,
        i + a.len() + b.len() <= s.len(),
{
    reveal(stands);
    let t = a + b;
    assert(s.subrange(i, i + a.len()) =~= t.subrange(0, a.len() as int)) by {
        assert forall|k: int| 0 <= k < a.len() implies s[i + k] == a[k] by {
            assert(s.subrange(i, i + t.len())[k] == t[k]);
        }
    }
    assert(t.subrange(0, a.len() as int) =~= a);
    assert(s.subrange(i + a.len(), i + t.len()) =~= b) by {
        assert forall|k: int| 0 <= k < b.len() implies s[i + a.len() + k] == b[k] by {
            assert(s.subrange(i, i + t.len())[a.len() + k] == t[a.len() + k]);
        }
    }
}

/// The characters of a piece of text.
proof fn lemma_piece_char(s: Seq<char>, i: int, a: Seq<char>, k: int)
    requires
        stands(s, i, a),
        0 <= k < a.len(),
    ensures
        s[i + k] == a[k],
        0 <= i,
        i + a.len() <= s.len(),
{
    reveal(stands);
    assert(s.subrange(i, i + a.len())[k] == a[k]);
}

/// White space is skipped up to the first other character.
proof fn lemma_skipped(s: Seq<char>, from: int, to: int)
    requires
        0 <= from <= to <= s.len(),
        forall|k: int| from <= k < to ==> is_space(#[trigger] s[k]),
        to < s.len() ==> !is_space(s[to]),
    ensures
        after_space(s, from) == to,
    decreases to - from,
{
    if from < to {
        lemma_skipped(s, from + 1, to);
    }
}

/// A margin holds only spaces.
spec fn blank(margin: Seq<char>) -> bool {
    forall|k: int| 0 <= k < margin.len() ==> #[trigger] margin[k] == ' '
}

/// A line break holds only white space.
proof fn lemma_break_blank(s: Seq<char>, i: int, margin: Seq<char>, pretty: bool)
    requires
        blank(margin),
        stands(s, i, line_break(margin, pretty)),
    ensures
        0 <= i,
        i + line_break(margin, pretty).len() <= s.len(),
        forall|k: int| i <= k < i + line_break(margin, pretty).len() ==> is_space(#[trigger] s[k]),
{
    reveal(stands);
    let b = line_break(margin, pretty);
    assert forall|k: int| i <= k < i + b.len() implies is_space(#[trigger] s[k]) by {
        lemma_piece_char(s, i, b, k - i);
        if k > i {
            assert(b[k - i] == margin[k - i - 1]);
        }
    }
}

/// Concatenation, grouped from the right.
proof fn lemma_regroup(a: Seq<char>, b: Seq<char>, c: Seq<char>)
    ensures
        (a + b) + c == a + (b + c),
{
    assert((a + b) + c =~= a + (b + c));
}

/// A line break is skipped.
proof fn lemma_break_skipped(s: Seq<char>, i: int, margin: Seq<char>, pretty: bool)
    requires
        blank(margin),
        stands(s, i, line_break(margin, pretty)),
        ({
            let end = i + line_break(margin, pretty).len();
            end < s.len() ==> !is_space(s[end])
        }),
    ensures
        after_space(s, i) == i + line_break(margin, pretty).len(),
{
    let b = line_break(margin, pretty);
    lemma_break_blank(s, i, margin, pretty);
    lemma_skipped(s, i, i + b.len());
}

// ---------------------------------------------------------------------------
// Strings
// ---------------------------------------------------------------------------

/// An ASCII character takes one byte.
pub proof fn lemma_ascii_width(c: char)
    requires
        (c as nat) < 0x80,
    ensures
        utf8_width(c) == 1,
{
    let t = seq![c];
    assert(t.drop_first() =~= Seq::<char>::empty());
    assert(encode_utf8(t.drop_first()).len() == 0);
    assert(encode_utf8(t) == encode_scalar(c as u32) + encode_utf8(t.drop_first()));
}

/// Four hexadecimal digits are read as the number they spell.
proof fn lemma_hex4_read(s: Seq<char>, i: int, c: char)
    requires
        (c as nat) < 0x20,
        stands(s, i, seq!['0', '0', hex_char(c as int / 16), hex_char(c as int % 16)]),
    ensures
        hex4_at(s, i) == Ok::<(nat, int), SpecJsonError>((c as nat, i + 4)),
{
    let h = hex_char(c as int / 16);
    let l = hex_char(c as int % 16);
    let four = seq!['0', '0', h, l];
    let t = s.skip(i);
    lemma_piece_char(s, i, four, 0);
    lemma_piece_char(s, i, four, 1);
    lemma_piece_char(s, i, four, 2);
    lemma_piece_char(s, i, four, 3);
    assert((h as nat) < 0x80 && (l as nat) < 0x80);
    lemma_ascii_width('0');
    lemma_ascii_width(h);
    lemma_ascii_width(l);
    let t1 = t.drop_first();
    let t2 = t1.drop_first();
    let t3 = t2.drop_first();
    let t4 = t3.drop_first();
    assert(t[0] == '0' && t1[0] == '0' && t2[0] == h && t3[0] == l);
    assert(has_bytes(t4, 0) && can_cut(t4, 0));
    assert(has_bytes(t3, 1) && can_cut(t3, 1));
    assert(has_bytes(t2, 2) && can_cut(t2, 2));
    assert(has_bytes(t1, 3) && can_cut(t1, 3));
    assert(has_bytes(t, 4) && can_cut(t, 4));
    assert(t.take(4) =~= four);
    let n3 = seq!['0', '0', h];
    let n2 = seq!['0', '0'];
    let n1 = seq!['0'];
    assert(four.drop_last() =~= n3);
    assert(n3.drop_last() =~= n2);
    assert(n2.drop_last() =~= n1);
    assert(n1.drop_last() =~= Seq::<char>::empty());
    assert(hex_value(h) == Some((c as int / 16) as nat));
    assert(hex_value(l) == Some((c as int % 16) as nat));
    assert(hex_number(Seq::<char>::empty()) == Some(0nat));
    assert(hex_number(n1) == Some(0nat));
    assert(hex_number(n2) == Some(0nat));
    assert(hex_number(n3) == Some((c as int / 16) as nat));
    assert(hex_number(four) == Some(c as nat));
}

/// An escape sequence is read as the character it stands for.
proof fn lemma_escape_read(s: Seq<char>, i: int, c: char)
    requires
        stands(s, i, escaped(c)),
        escaped(c).len() > 1,
    ensures
        escape_at(s, i) == Ok::<(char, int), SpecJsonError>((c, i + escaped(c).len())),
        s[i] == '\\',
{
    let e = escaped(c);
    lemma_piece_char(s, i, e, 0);
    lemma_piece_char(s, i, e, 1);
    if e.len() > 2 {
        let four = seq!['0', '0', hex_char(c as int / 16), hex_char(c as int % 16)];
        assert(e =~= seq!['\\', 'u'] + four);
        lemma_pieces(s, i, seq!['\\', 'u'], four);
        lemma_hex4_read(s, i + 2, c);
    }
}

/// Escaped text is read as the text it was made from.
proof fn lemma_chars_read(s: Seq<char>, i: int, t: Seq<char>)
    requires
        stands(s, i, escaped_text(t) + seq!['"']),
    ensures
        chars_from(s, i) == Ok::<(Seq<char>, int), SpecJsonError>(
            (t, i + escaped_text(t).len() + 1),
        ),
    decreases t.len(),
{
    let all = escaped_text(t) + seq!['"'];
    if t.len() == 0 {
        lemma_piece_char(s, i, all, 0);
        assert(t =~= Seq::<char>::empty());
    } else {
        let c = t[0];
        let e = escaped(c);
        let rest = escaped_text(t.drop_first()) + seq!['"'];
        assert(all =~= e + rest);
        lemma_pieces(s, i, e, rest);
        lemma_chars_read(s, i + e.len(), t.drop_first());
        assert(seq![c] + t.drop_first() =~= t);
        if e.len() > 1 {
            lemma_escape_read(s, i, c);
        } else {
            lemma_piece_char(s, i, e, 0);
        }
    }
}

/// A quoted string is read as the text in it.
proof fn lemma_string_read(s: Seq<char>, i: int, t: Seq<char>)
    requires
        stands(s, i, quoted(t)),
    ensures
        string_at(s, i) == Ok::<(Seq<char>, int), SpecJsonError>((t, i + quoted(t).len())),
        s[i] == '"',
{
    let rest = escaped_text(t) + seq!['"'];
    assert(quoted(t) =~= seq!['"'] + rest);
    lemma_pieces(s, i, seq!['"'], rest);
    lemma_piece_char(s, i, quoted(t), 0);
    lemma_chars_read(s, i + 1, t);
}

// ---------------------------------------------------------------------------
// Numbers
// ---------------------------------------------------------------------------

/// What the number in `s[i..end]` is read as.
#[verifier::opaque]
spec fn number_in(s: Seq<char>, i: int, end: int, fraction: bool) -> Parsed<SpecJson> {
    number_value(s, i, end, fraction)
}

/// No number goes on at position `i`.
spec fn number_ends(s: Seq<char>, i: int) -> bool {
    i < s.len() ==> !is_digit(s[i]) && s[i] != '.' && s[i] != 'e' && s[i] != 'E'
}

/// The digits at a position end where something else begins.
proof fn lemma_digits_end(s: Seq<char>, i: int, digits: Seq<char>)
    requires
        stands(s, i, digits),
        all_digits(digits),
        i + digits.len() < s.len() ==> !is_digit(s[i + digits.len()]),
    ensures
        after_digits(s, i) == i + digits.len(),
        digits.len() > 0 ==> digit_at(s, i),
{
    reveal(stands);
    let rest = s.skip(i + digits.len());
    assert(s.skip(i) =~= digits + rest) by {
        assert forall|k: int| 0 <= k < digits.len() implies s[i + k] == digits[k] by {
            lemma_piece_char(s, i, digits, k);
        }
    }
    lemma_run_of(digits, rest);
    if digits.len() > 0 {
        lemma_piece_char(s, i, digits, 0);
        assert(is_digit(digits[0]));
    }
}

/// A point and the digits behind it, where there are any.
spec fn dotted(fraction: Seq<char>) -> Seq<char> {
    if fraction.len() > 0 {
        "."@ + fraction
    } else {
        Seq::empty()
    }
}

/// An exponent, where there is one.
spec fn powered(exponent: Option<int>) -> Seq<char> {
    match exponent {
        Some(e) => "e"@ + int_text(e),
        None => Seq::empty(),
    }
}

/// How an exponent begins.
proof fn lemma_powered(exponent: Option<int>)
    ensures
        powered(exponent).len() > 0 ==> powered(exponent)[0] == 'e',
{
    reveal_strlit("e");
}

/// The exponent of a number is passed over as it is written.
proof fn lemma_exponent_passed(s: Seq<char>, i: int, p: int, exponent: Option<int>, fraction: bool)
    requires
        stands(
            s,
            p,
            powered(exponent),
        ),
        number_ends(s, p + powered(exponent).len()),
    ensures
        exponent_from(s, i, p, fraction) == number_in(
            s,
            i,
            p + powered(exponent).len(),
            fraction || exponent is Some,
        ),
{
    reveal(number_in);
    reveal_strlit("e");
    match exponent {
        None => {},
        Some(e) => {
            let t = "e"@ + int_text(e);
            lemma_pieces(s, p, "e"@, int_text(e));
            lemma_piece_char(s, p, t, 0);
            lemma_piece_char(s, p, t, 1);
            if e < 0 {
                lemma_dec_roundtrip((-e) as nat);
                lemma_pieces(s, p + 1, seq!['-'], dec((-e) as nat));
                lemma_digits_end(s, p + 2, dec((-e) as nat));
            } else {
                lemma_dec_roundtrip(e as nat);
                assert(is_digit(dec(e as nat)[0]));
                lemma_digits_end(s, p + 1, dec(e as nat));
            }
        },
    }
}

/// The fraction and the exponent of a number are passed over as they are
/// written.
proof fn lemma_fraction_passed(
    s: Seq<char>,
    i: int,
    q: int,
    fraction: Seq<char>,
    exponent: Option<int>,
)
    requires
        all_digits(fraction),
        stands(s, q, dotted(fraction) + powered(exponent)),
        number_ends(s, q + dotted(fraction).len() + powered(exponent).len()),
    ensures
        fraction_from(s, i, q) == number_in(
            s,
            i,
            q + dotted(fraction).len() + powered(exponent).len(),
            fraction.len() > 0 || exponent is Some,
        ),
        q < s.len() ==> !is_digit(s[q]),
{
    reveal_strlit(".");
    let d = dotted(fraction);
    let t = powered(exponent);
    lemma_pieces(s, q, d, t);
    let r = q + d.len();
    lemma_powered(exponent);
    if t.len() > 0 {
        lemma_piece_char(s, r, t, 0);
    }
    lemma_exponent_passed(s, i, r, exponent, fraction.len() > 0);
    if fraction.len() > 0 {
        lemma_piece_char(s, q, d, 0);
        lemma_pieces(s, q, "."@, fraction);
        lemma_digits_end(s, q + 1, fraction);
    }
}

/// A number's text is passed over as one number.
proof fn lemma_number_passed(
    s: Seq<char>,
    i: int,
    negative: bool,
    whole: Seq<char>,
    fraction: Seq<char>,
    exponent: Option<int>,
)
    requires
        whole.len() > 0,
        all_digits(whole),
        all_digits(fraction),
        whole[0] == '0' ==> whole.len() == 1,
        stands(
            s,
            i,
            if negative {
                seq!['-']
            } else {
                Seq::empty()
            } + number_text(whole, fraction, exponent),
        ),
        number_ends(
            s,
            i + (if negative {
                1int
            } else {
                0
            }) + number_text(whole, fraction, exponent).len(),
        ),
    ensures
        number_at(s, i) == number_in(
            s,
            i,
            i + (if negative {
                1int
            } else {
                0
            }) + number_text(whole, fraction, exponent).len(),
            fraction.len() > 0 || exponent is Some,
        ),
        at(s, i, '-') || digit_at(s, i),
{
    let sign: Seq<char> = if negative {
        seq!['-']
    } else {
        Seq::empty()
    };
    let rest = dotted(fraction) + powered(exponent);
    assert(number_text(whole, fraction, exponent) == whole + rest) by {
        lemma_regroup(whole, dotted(fraction), powered(exponent));
    }
    lemma_pieces(s, i, sign, whole + rest);
    let p = i + sign.len();
    lemma_pieces(s, p, whole, rest);
    lemma_fraction_passed(s, i, p + whole.len(), fraction, exponent);
    lemma_digits_end(s, p, whole);
    lemma_piece_char(s, p, whole, 0);
    assert(is_digit(whole[0]));
    if negative {
        lemma_piece_char(s, i, sign, 0);
    }
}

/// The text of an integer spells that integer.
pub proof fn lemma_int_text_read(n: int)
    requires
        i128::MIN <= n <= i128::MAX,
    ensures
        int_of_text(int_text(n)) == Some(n),
{
    let text = int_text(n);
    if n < 0 {
        lemma_dec_roundtrip((-n) as nat);
        assert(text.drop_first() =~= dec((-n) as nat));
    } else {
        lemma_dec_roundtrip(n as nat);
        assert(is_digit(dec(n as nat)[0]));
    }
}

/// An integer is read as it is written.
proof fn lemma_int_read(s: Seq<char>, i: int, n: int)
    requires
        i128::MIN <= n <= i128::MAX,
        stands(s, i, int_text(n)),
        number_ends(s, i + int_text(n).len()),
    ensures
        number_at(s, i) == Ok::<(SpecJson, int), SpecJsonError>(
            (SpecJson::Int(n), i + int_text(n).len()),
        ),
        at(s, i, '-') || digit_at(s, i),
{
    let m = if n < 0 {
        -n
    } else {
        n
    } as nat;
    let whole = dec(m);
    let none = Seq::<char>::empty();
    lemma_dec_roundtrip(m);
    assert(number_text(whole, none, None) =~= whole);
    assert(if n < 0 {
        seq!['-']
    } else {
        none
    } + whole =~= int_text(n));
    lemma_number_passed(s, i, n < 0, whole, none, None);
    lemma_int_text_read(n);
    reveal(number_in);
    reveal(stands);
}

/// A finite double is read as it is written.
proof fn lemma_float_read(s: Seq<char>, i: int, bits: u64)
    requires
        finite_64(bits),
        stands(s, i, exact_64(bits)),
        number_ends(s, i + exact_64(bits).len()),
    ensures
        number_at(s, i) == Ok::<(SpecJson, int), SpecJsonError>(
            (SpecJson::Float(bits), i + exact_64(bits).len()),
        ),
        at(s, i, '-') || digit_at(s, i),
{
    reveal_strlit("-");
    let b = magnitude_64(bits);
    let (whole, fraction, exponent) = lemma_exact_parts(b);
    let negative = bits >= SIGN_64;
    assert("-"@ =~= seq!['-']);
    lemma_number_passed(s, i, negative, whole, fraction, exponent);
    law_printed_double_is_read_back(bits);
    assert(s.subrange(i, i + exact_64(bits).len()) == exact_64(bits)) by {
        reveal(stands);
    }
    reveal(number_in);
}

// ---------------------------------------------------------------------------
// Values
// ---------------------------------------------------------------------------

/// What may follow a value: the end, or what stands between values.
spec fn value_ends(s: Seq<char>, i: int) -> bool {
    i < s.len() ==> s[i] == ',' || s[i] == ']' || s[i] == '}' || s[i] == '\n'
}

/// A value's text starts with a character of its own.
proof fn lemma_render_first(v: SpecJson, margin: Seq<char>, pretty: bool)
    requires
        readable(v, 1) || !(v is Int),
    ensures
        render(v, margin, pretty).len() > 0,
        !is_space(render(v, margin, pretty)[0]),
        render(v, margin, pretty)[0] != ']',
        render(v, margin, pretty)[0] != '}',
{
    reveal_strlit("null");
    reveal_strlit("true");
    reveal_strlit("false");
    reveal_strlit("-");
    let t = render(v, margin, pretty);
    match v {
        SpecJson::Int(n) => {
            if n < 0 {
                lemma_dec_roundtrip((-n) as nat);
                assert(t[0] == '-');
            } else {
                lemma_dec_roundtrip(n as nat);
                assert(is_digit(dec(n as nat)[0]));
            }
        },
        SpecJson::Float(bits) => {
            if finite_64(bits) {
                let (whole, fraction, exponent) = lemma_exact_parts(magnitude_64(bits));
                assert(is_digit(whole[0]));
                if bits >= SIGN_64 {
                    assert(t[0] == '-');
                } else {
                    assert(t[0] == whole[0]);
                }
            }
        },
        _ => {},
    }
}

/// The value from position `from` on is read as `v`, up to `end`.
#[verifier::opaque]
spec fn reads_value(s: Seq<char>, from: int, room: nat, v: SpecJson, end: int) -> bool {
    value_from(s, from, room) == Ok::<(SpecJson, int), SpecJsonError>((v, end))
}

/// The items from position `from` on are read as `items`, up to `end`.
#[verifier::opaque]
spec fn reads_items(s: Seq<char>, from: int, room: nat, items: Seq<SpecJson>, end: int) -> bool {
    elements_from(s, from, room) == Ok::<(Seq<SpecJson>, int), SpecJsonError>((items, end))
}

/// The members from position `from` on are read as `pairs`, up to `end`.
#[verifier::opaque]
spec fn reads_pairs(
    s: Seq<char>,
    from: int,
    room: nat,
    pairs: Seq<(Seq<char>, SpecJson)>,
    end: int,
) -> bool {
    members_from(s, from, room) == Ok::<(Seq<(Seq<char>, SpecJson)>, int), SpecJsonError>(
        (pairs, end),
    )
}

/// White space before a value does not matter.
proof fn lemma_value_after_space(s: Seq<char>, i: int, room: nat)
    requires
        0 <= i <= s.len(),
        room > 0,
    ensures
        value_from(s, after_space(s, i), room) == value_from(s, i, room),
{
    lemma_after_space(s, i);
}

/// The items of an array from position `i` on, where the first one is read as
/// `first`.
#[verifier::opaque]
spec fn items_behind(s: Seq<char>, i: int, room: nat, first: Parsed<SpecJson>) -> Parsed<
    Seq<SpecJson>,
> {
    match first {
        Err(e) => Err(e),
        Ok((v, q)) => {
            let p = after_space(s, q);
            if i <= p && at(s, p, ',') {
                match elements_from(s, p + 1, room) {
                    Err(e) => Err(e),
                    Ok((rest, end)) => Ok((seq![v] + rest, end)),
                }
            } else if at(s, p, ']') {
                Ok((seq![v], p + 1))
            } else {
                failed(s, p, "expected ',' or ']'"@)
            }
        },
    }
}

/// Items are a first one and those behind it.
proof fn lemma_items_behind(s: Seq<char>, i: int, room: nat)
    ensures
        elements_from(s, i, room) == items_behind(s, i, room, value_from(s, i, room)),
{
    reveal(items_behind);
}

/// What is behind the first item does not depend on where that item started.
proof fn lemma_items_behind_moved(s: Seq<char>, i: int, j: int, room: nat, first: Parsed<SpecJson>)
    requires
        i <= j,
        first matches Ok((_, q)) ==> j <= after_space(s, q),
    ensures
        items_behind(s, i, room, first) == items_behind(s, j, room, first),
{
    reveal(items_behind);
}

/// White space before the items of an array does not matter.
proof fn lemma_items_after_space(s: Seq<char>, i: int, room: nat)
    requires
        0 <= i <= s.len(),
        room > 0,
    ensures
        elements_from(s, after_space(s, i), room) == elements_from(s, i, room),
{
    let j = after_space(s, i);
    let first = value_from(s, j, room);
    lemma_after_space(s, i);
    lemma_value_after_space(s, i, room);
    lemma_value_end(s, j, room);
    if let Ok((v, q)) = first {
        lemma_after_space(s, q);
    }
    lemma_items_behind(s, i, room);
    lemma_items_behind(s, j, room);
    lemma_items_behind_moved(s, i, j, room, first);
}

/// Items are read only where there is room for them.
proof fn lemma_items_need_room(s: Seq<char>, i: int, items: Seq<SpecJson>, end: int)
    ensures
        !reads_items(s, i, 0, items, end),
{
    reveal(reads_items);
    assert(value_from(s, i, 0) is Err);
}

/// How an array that is not empty is read.
proof fn lemma_array_value(
    s: Seq<char>,
    from: int,
    p: int,
    room: nat,
    items: Seq<SpecJson>,
    end: int,
)
    requires
        room > 0,
        after_space(s, from) == p,
        at(s, p, '['),
        !at(s, after_space(s, p + 1), ']'),
        reads_items(s, p + 1, (room - 1) as nat, items, end),
    ensures
        reads_value(s, from, room, SpecJson::Arr(items), end),
{
    lemma_items_need_room(s, p + 1, items, end);
    lemma_items_after_space(s, p + 1, (room - 1) as nat);
    reveal(reads_value);
    reveal(reads_items);
}

/// How an object that is not empty is read.
proof fn lemma_object_value(
    s: Seq<char>,
    from: int,
    p: int,
    room: nat,
    pairs: Seq<(Seq<char>, SpecJson)>,
    end: int,
)
    requires
        room > 0,
        after_space(s, from) == p,
        at(s, p, '{'),
        !at(s, after_space(s, p + 1), '}'),
        reads_pairs(s, p + 1, (room - 1) as nat, pairs, end),
    ensures
        reads_value(s, from, room, SpecJson::Obj(pairs), end),
{
    reveal(reads_value);
    reveal(reads_pairs);
}

/// A value without parts is read as it is written.
proof fn lemma_scalar_read(
    s: Seq<char>,
    from: int,
    i: int,
    v: SpecJson,
    margin: Seq<char>,
    pretty: bool,
    room: nat,
)
    requires
        after_space(s, from) == i,
        !(v is Arr) && !(v is Obj),
        readable(v, room),
        stands(s, i, render(v, margin, pretty)),
        value_ends(s, i + render(v, margin, pretty).len()),
    ensures
        reads_value(s, from, room, plain(v), i + render(v, margin, pretty).len()),
{
    reveal(reads_value);
    reveal_strlit("null");
    reveal_strlit("true");
    reveal_strlit("false");
    let t = render(v, margin, pretty);
    lemma_render_first(v, margin, pretty);
    lemma_piece_char(s, i, t, 0);
    match v {
        SpecJson::Int(n) => {
            lemma_int_read(s, i, n);
        },
        SpecJson::Float(bits) => {
            if finite_64(bits) {
                lemma_float_read(s, i, bits);
            } else {
                reveal(stands);
            }
        },
        SpecJson::Str(text) => {
            lemma_string_read(s, i, text);
        },
        _ => {
            reveal(stands);
        },
    }
}

/// Brackets with nothing between them are read as nothing.
proof fn lemma_empty_read(s: Seq<char>, from: int, i: int, v: SpecJson, room: nat)
    requires
        after_space(s, from) == i,
        room > 0,
        v == SpecJson::Arr(Seq::empty()) && stands(s, i, seq!['[', ']']) || v == SpecJson::Obj(
            Seq::empty(),
        ) && stands(s, i, seq!['{', '}']),
    ensures
        reads_value(s, from, room, v, i + 2),
{
    reveal(reads_value);
    if v is Arr {
        lemma_piece_char(s, i, seq!['[', ']'], 0);
        lemma_piece_char(s, i, seq!['[', ']'], 1);
    } else {
        lemma_piece_char(s, i, seq!['{', '}'], 0);
        lemma_piece_char(s, i, seq!['{', '}'], 1);
    }
    lemma_skipped(s, i + 1, i + 1);
}

/// Behind a line break the first item of an array begins.
proof fn lemma_items_begin(
    s: Seq<char>,
    i: int,
    items: Seq<SpecJson>,
    margin: Seq<char>,
    pretty: bool,
)
    requires
        items.len() > 0,
        blank(margin),
        readable(items[0], 1) || !(items[0] is Int),
        stands(s, i, render_items(items, margin, pretty)),
    ensures
        !at(s, after_space(s, i), ']'),
{
    let b = line_break(margin, pretty);
    let first = render(items[0], margin, pretty);
    let more: Seq<char> = if items.len() > 1 {
        seq![','] + render_items(items.subrange(1, items.len() as int), margin, pretty)
    } else {
        Seq::empty()
    };
    assert(render_items(items, margin, pretty) == b + first + more);
    lemma_pieces(s, i, b + first, more);
    lemma_pieces(s, i, b, first);
    lemma_render_first(items[0], margin, pretty);
    lemma_piece_char(s, i + b.len(), first, 0);
    lemma_break_skipped(s, i, margin, pretty);
}

/// Behind a line break the first key of an object begins.
proof fn lemma_pairs_begin(
    s: Seq<char>,
    i: int,
    pairs: Seq<(Seq<char>, SpecJson)>,
    margin: Seq<char>,
    pretty: bool,
)
    requires
        pairs.len() > 0,
        blank(margin),
        stands(s, i, render_pairs(pairs, margin, pretty)),
    ensures
        !at(s, after_space(s, i), '}'),
{
    let b = line_break(margin, pretty);
    let k = key_text(pairs[0].0, pretty);
    let first = render(pairs[0].1, margin, pretty);
    let more: Seq<char> = if pairs.len() > 1 {
        seq![','] + render_pairs(pairs.subrange(1, pairs.len() as int), margin, pretty)
    } else {
        Seq::empty()
    };
    assert(render_pairs(pairs, margin, pretty) == b + k + first + more);
    lemma_pieces(s, i, b + k + first, more);
    lemma_pieces(s, i, b + k, first);
    lemma_pieces(s, i, b, k);
    assert(k[0] == '"');
    lemma_piece_char(s, i + b.len(), k, 0);
    lemma_break_skipped(s, i, margin, pretty);
}

/// A value that fits in some room fits in one level where it has no parts.
proof fn lemma_readable_int(v: SpecJson, room: nat)
    requires
        readable(v, room),
    ensures
        readable(v, 1) || !(v is Int),
{
}

/// A value is read as it is written.
proof fn lemma_value_read(
    s: Seq<char>,
    from: int,
    i: int,
    v: SpecJson,
    margin: Seq<char>,
    pretty: bool,
    room: nat,
)
    requires
        0 <= from <= i,
        forall|k: int| from <= k < i ==> is_space(#[trigger] s[k]),
        blank(margin),
        readable(v, room),
        stands(s, i, render(v, margin, pretty)),
        value_ends(s, i + render(v, margin, pretty).len()),
    ensures
        reads_value(s, from, room, plain(v), i + render(v, margin, pretty).len()),
    decreases v, 0nat,
{
    let t = render(v, margin, pretty);
    lemma_readable_int(v, room);
    lemma_render_first(v, margin, pretty);
    lemma_piece_char(s, i, t, 0);
    lemma_skipped(s, from, i);
    let m = deeper(margin);
    assert(blank(m)) by {
        assert forall|k: int| 0 <= k < m.len() implies #[trigger] m[k] == ' ' by {
            if k < margin.len() {
                assert(m[k] == margin[k]);
            }
        }
    }
    match v {
        SpecJson::Arr(items) => {
            assert(plain(v)->Arr_0 =~= plain_items(items));
            if items.len() == 0 {
                assert(items =~= Seq::<SpecJson>::empty());
                assert(plain_items(items) =~= Seq::<SpecJson>::empty());
                lemma_empty_read(s, from, i, v, room);
            } else {
                let body = render_items(items, m, pretty);
                let out = line_break(margin, pretty);
                let open = seq!['['];
                let close = out + seq![']'];
                lemma_regroup(open + body, out, seq![']']);
                lemma_regroup(open, body, close);
                lemma_pieces(s, i, open, body + close);
                lemma_pieces(s, i + 1, body, close);
                lemma_readable_int(items[0], (room - 1) as nat);
                lemma_items_begin(s, i + 1, items, m, pretty);
                lemma_items_read(s, i + 1, items, m, margin, pretty, (room - 1) as nat);
                lemma_array_value(s, from, i, room, plain_items(items), i + t.len());
            }
        },
        SpecJson::Obj(pairs) => {
            assert(plain(v)->Obj_0 =~= plain_pairs(pairs));
            if pairs.len() == 0 {
                assert(pairs =~= Seq::<(Seq<char>, SpecJson)>::empty());
                assert(plain_pairs(pairs) =~= Seq::<(Seq<char>, SpecJson)>::empty());
                lemma_empty_read(s, from, i, v, room);
            } else {
                let body = render_pairs(pairs, m, pretty);
                let out = line_break(margin, pretty);
                let open = seq!['{'];
                let close = out + seq!['}'];
                lemma_regroup(open + body, out, seq!['}']);
                lemma_regroup(open, body, close);
                lemma_pieces(s, i, open, body + close);
                lemma_pieces(s, i + 1, body, close);
                lemma_pairs_begin(s, i + 1, pairs, m, pretty);
                lemma_pairs_read(s, i + 1, pairs, m, margin, pretty, (room - 1) as nat);
                lemma_object_value(s, from, i, room, plain_pairs(pairs), i + t.len());
            }
        },
        _ => {
            lemma_scalar_read(s, from, i, v, margin, pretty, room);
        },
    }
}

/// How an item with more behind it is read.
proof fn lemma_elements_more(
    s: Seq<char>,
    i: int,
    room: nat,
    v: SpecJson,
    q: int,
    rest: Seq<SpecJson>,
    end: int,
)
    requires
        i <= q,
        reads_value(s, i, room, v, q),
        at(s, q, ','),
        reads_items(s, q + 1, room, rest, end),
    ensures
        reads_items(s, i, room, seq![v] + rest, end),
{
    reveal(reads_value);
    reveal(reads_items);
    lemma_skipped(s, q, q);
}

/// How the last item is read.
proof fn lemma_elements_last(s: Seq<char>, i: int, room: nat, v: SpecJson, q: int, p: int)
    requires
        reads_value(s, i, room, v, q),
        after_space(s, q) == p,
        at(s, p, ']'),
    ensures
        reads_items(s, i, room, seq![v], p + 1),
{
    reveal(reads_value);
    reveal(reads_items);
}

/// What stands between two values lets a value end.
proof fn lemma_value_ends(s: Seq<char>, q: int, more: Seq<char>, close: Seq<char>)
    requires
        stands(s, q, more + close),
        more.len() > 0 ==> more[0] == ',',
        close.len() > 0,
        close[0] == '\n' || close[0] == ']' || close[0] == '}',
    ensures
        value_ends(s, q),
{
    let after = more + close;
    lemma_piece_char(s, q, after, 0);
    if more.len() == 0 {
        assert(after[0] == close[0]);
    }
}

/// The items of an array are read as they are written.
proof fn lemma_items_read(
    s: Seq<char>,
    i: int,
    items: Seq<SpecJson>,
    margin: Seq<char>,
    outer: Seq<char>,
    pretty: bool,
    room: nat,
)
    requires
        0 <= i,
        items.len() > 0,
        blank(margin),
        blank(outer),
        forall|k: int| 0 <= k < items.len() ==> readable(#[trigger] items[k], room),
        stands(
            s,
            i,
            render_items(items, margin, pretty) + (line_break(outer, pretty) + seq![']']),
        ),
    ensures
        reads_items(
            s,
            i,
            room,
            plain_items(items),
            i + render_items(items, margin, pretty).len() + line_break(outer, pretty).len() + 1,
        ),
    decreases items, items.len(),
{
    let body = render_items(items, margin, pretty);
    let out = line_break(outer, pretty);
    let close = out + seq![']'];
    let b = line_break(margin, pretty);
    let v = items[0];
    let first = render(v, margin, pretty);
    let tail = items.subrange(1, items.len() as int);
    let more: Seq<char> = if items.len() > 1 {
        seq![','] + render_items(tail, margin, pretty)
    } else {
        Seq::empty()
    };
    assert(body == b + first + more);
    lemma_regroup(b + first, more, close);
    lemma_pieces(s, i, b + first, more + close);
    lemma_pieces(s, i, b, first);
    let at_v = i + b.len();
    let q = at_v + first.len();
    lemma_break_blank(s, i, margin, pretty);
    lemma_value_ends(s, q, more, close);
    lemma_value_read(s, i, at_v, v, margin, pretty, room);
    if items.len() > 1 {
        let rest = render_items(tail, margin, pretty) + close;
        lemma_regroup(seq![','], render_items(tail, margin, pretty), close);
        lemma_pieces(s, q, seq![','], rest);
        lemma_piece_char(s, q, seq![','], 0);
        assert forall|k: int| 0 <= k < tail.len() implies readable(#[trigger] tail[k], room) by {
            assert(tail[k] == items[k + 1]);
        }
        lemma_items_read(s, q + 1, tail, margin, outer, pretty, room);
        let end = i + body.len() + out.len() + 1;
        lemma_elements_more(s, i, room, plain(v), q, plain_items(tail), end);
        assert(seq![plain(v)] + plain_items(tail) =~= plain_items(items));
    } else {
        assert(more + close =~= close);
        lemma_pieces(s, q, out, seq![']']);
        lemma_piece_char(s, q + out.len(), seq![']'], 0);
        lemma_break_skipped(s, q, outer, pretty);
        lemma_elements_last(s, i, room, plain(v), q, q + out.len());
        assert(seq![plain(v)] =~= plain_items(items));
    }
}

/// How a member with more behind it is read.
proof fn lemma_members_more(
    s: Seq<char>,
    i: int,
    room: nat,
    key: Seq<char>,
    c: int,
    v: SpecJson,
    q: int,
    rest: Seq<(Seq<char>, SpecJson)>,
    end: int,
)
    requires
        i <= q,
        at(s, after_space(s, i), '"'),
        string_at(s, after_space(s, i)) == Ok::<(Seq<char>, int), SpecJsonError>((key, c)),
        at(s, c, ':'),
        reads_value(s, c + 1, room, v, q),
        at(s, q, ','),
        reads_pairs(s, q + 1, room, rest, end),
    ensures
        reads_pairs(s, i, room, seq![(key, v)] + rest, end),
{
    reveal(reads_value);
    reveal(reads_pairs);
    lemma_skipped(s, c, c);
    lemma_skipped(s, q, q);
}

/// How the last member is read.
proof fn lemma_members_last(
    s: Seq<char>,
    i: int,
    room: nat,
    key: Seq<char>,
    c: int,
    v: SpecJson,
    q: int,
    p: int,
)
    requires
        at(s, after_space(s, i), '"'),
        string_at(s, after_space(s, i)) == Ok::<(Seq<char>, int), SpecJsonError>((key, c)),
        at(s, c, ':'),
        reads_value(s, c + 1, room, v, q),
        after_space(s, q) == p,
        at(s, p, '}'),
    ensures
        reads_pairs(s, i, room, seq![(key, v)], p + 1),
{
    reveal(reads_value);
    reveal(reads_pairs);
    lemma_skipped(s, c, c);
}

/// A key is read as it is written, up to where its value begins.
proof fn lemma_key_read(s: Seq<char>, i: int, margin: Seq<char>, key: Seq<char>, pretty: bool)
    requires
        blank(margin),
        stands(s, i, line_break(margin, pretty) + key_text(key, pretty)),
    ensures
        ({
            let k = i + line_break(margin, pretty).len();
            let c = k + quoted(key).len();
            let end = k + key_text(key, pretty).len();
            &&& 0 <= i
            &&& after_space(s, i) == k
            &&& at(s, k, '"')
            &&& string_at(s, k) == Ok::<(Seq<char>, int), SpecJsonError>((key, c))
            &&& at(s, c, ':')
            &&& c < end <= s.len()
            &&& forall|j: int| c + 1 <= j < end ==> is_space(#[trigger] s[j])
        }),
{
    let b = line_break(margin, pretty);
    let q = quoted(key);
    let gap: Seq<char> = if pretty {
        seq![':', ' ']
    } else {
        seq![':']
    };
    lemma_pieces(s, i, b, key_text(key, pretty));
    let k = i + b.len();
    lemma_pieces(s, k, q, gap);
    lemma_string_read(s, k, key);
    lemma_break_skipped(s, i, margin, pretty);
    let c = k + q.len();
    lemma_piece_char(s, c, gap, 0);
    if pretty {
        lemma_piece_char(s, c, gap, 1);
    }
}

/// The members of an object are read as they are written.
proof fn lemma_pairs_read(
    s: Seq<char>,
    i: int,
    pairs: Seq<(Seq<char>, SpecJson)>,
    margin: Seq<char>,
    outer: Seq<char>,
    pretty: bool,
    room: nat,
)
    requires
        0 <= i,
        pairs.len() > 0,
        blank(margin),
        blank(outer),
        forall|k: int| 0 <= k < pairs.len() ==> readable((#[trigger] pairs[k]).1, room),
        stands(
            s,
            i,
            render_pairs(pairs, margin, pretty) + (line_break(outer, pretty) + seq!['}']),
        ),
    ensures
        reads_pairs(
            s,
            i,
            room,
            plain_pairs(pairs),
            i + render_pairs(pairs, margin, pretty).len() + line_break(outer, pretty).len() + 1,
        ),
    decreases pairs, pairs.len(),
{
    let body = render_pairs(pairs, margin, pretty);
    let out = line_break(outer, pretty);
    let close = out + seq!['}'];
    let b = line_break(margin, pretty);
    let key = pairs[0].0;
    let v = pairs[0].1;
    let k = key_text(key, pretty);
    let first = render(v, margin, pretty);
    let tail = pairs.subrange(1, pairs.len() as int);
    let more: Seq<char> = if pairs.len() > 1 {
        seq![','] + render_pairs(tail, margin, pretty)
    } else {
        Seq::empty()
    };
    assert(body == b + k + first + more);
    lemma_regroup(b + k + first, more, close);
    lemma_pieces(s, i, b + k + first, more + close);
    lemma_pieces(s, i, b + k, first);
    lemma_key_read(s, i, margin, key, pretty);
    let c = i + b.len() + quoted(key).len();
    let at_v = i + b.len() + k.len();
    let q = at_v + first.len();
    lemma_value_ends(s, q, more, close);
    lemma_value_read(s, c + 1, at_v, v, margin, pretty, room);
    if pairs.len() > 1 {
        let rest = render_pairs(tail, margin, pretty) + close;
        lemma_regroup(seq![','], render_pairs(tail, margin, pretty), close);
        lemma_pieces(s, q, seq![','], rest);
        lemma_piece_char(s, q, seq![','], 0);
        assert forall|j: int| 0 <= j < tail.len() implies readable(
            (#[trigger] tail[j]).1,
            room,
        ) by {
            assert(tail[j] == pairs[j + 1]);
        }
        lemma_pairs_read(s, q + 1, tail, margin, outer, pretty, room);
        let end = i + body.len() + out.len() + 1;
        lemma_members_more(s, i, room, key, c, plain(v), q, plain_pairs(tail), end);
        assert(seq![(key, plain(v))] + plain_pairs(tail) =~= plain_pairs(pairs));
    } else {
        assert(more + close =~= close);
        lemma_pieces(s, q, out, seq!['}']);
        lemma_piece_char(s, q + out.len(), seq!['}'], 0);
        lemma_break_skipped(s, q, outer, pretty);
        lemma_members_last(s, i, room, key, c, plain(v), q, q + out.len());
        assert(seq![(key, plain(v))] =~= plain_pairs(pairs));
    }
}

/// What is written, compact or pretty, is read back: the same value, but for
/// numbers that are not finite, which become null. The value must be nested no
/// deeper than the reader goes, and its integers fit in 128 bits.
pub proof fn law_written_json_is_read_back(v: SpecJson, pretty: bool)
    requires
        readable(v, (MAX_DEPTH + 1) as nat),
    ensures
        document(render(v, Seq::empty(), pretty)) == Ok::<SpecJson, SpecJsonError>(plain(v)),
{
    reveal(reads_value);
    let s = render(v, Seq::empty(), pretty);
    reveal(stands);
    assert(s.subrange(0, s.len() as int) =~= s);
    lemma_value_read(s, 0, 0, v, Seq::empty(), pretty, (MAX_DEPTH + 1) as nat);
}

/// A metadata value that the file reader accepts can be read from JSON.
proof fn lemma_value_readable(v: SpecValue, depth: nat, room: nat)
    requires
        wf_value(v, depth),
        depth <= 4,
        room + depth >= 5,
    ensures
        readable(json_of(v), room),
    decreases v,
{
    match v {
        SpecValue::Array(t, items) => {
            let out = json_of(v)->Arr_0;
            assert forall|i: int| 0 <= i < out.len() implies readable(
                #[trigger] out[i],
                (room - 1) as nat,
            ) by {
                assert(out[i] == json_of(items[i]));
                lemma_value_readable(items[i], depth + 1, (room - 1) as nat);
            }
        },
        _ => {},
    }
}

/// A dumped number or bool, given back as text with its type, is coerced to the
/// value that was dumped, bit for bit.
pub proof fn law_dumped_scalar_is_coerced_back(v: SpecValue)
    requires
        match v {
            SpecValue::F32(x) => magnitude_32(x) < infinity(Width::Single),
            SpecValue::F64(x) => finite_64(x),
            SpecValue::Str(_) => false,
            SpecValue::Array(_, _) => false,
            _ => true,
        },
    ensures
        coerced(value_type(v), render(json_of(v), Seq::empty(), false)) == Ok::<
            SpecValue,
            Seq<char>,
        >(v),
{
    match v {
        SpecValue::F32(x) => {
            law_widening_is_exact(x);
            law_printed_double_is_read_back(widened(x));
            law_narrowing_undoes_widening(x);
        },
        SpecValue::F64(x) => {
            law_printed_double_is_read_back(x);
        },
        SpecValue::Bool(x) => {
            reveal_strlit("true");
            reveal_strlit("false");
            assert("true"@.len() == 4 && "false"@.len() == 5);
        },
        _ => {
            lemma_int_text_read(json_of(v)->Int_0);
        },
    }
}

/// A tensor descriptor can be read from JSON.
proof fn lemma_tensor_readable(t: SpecTensor, room: nat)
    requires
        room >= 3,
    ensures
        readable(tensor_json(t), room),
{
    let pairs = tensor_json(t)->Obj_0;
    assert forall|i: int| 0 <= i < pairs.len() implies readable(
        (#[trigger] pairs[i]).1,
        (room - 1) as nat,
    ) by {
        if i == 2 {
            let dims = pairs[2].1->Arr_0;
            assert forall|k: int| 0 <= k < dims.len() implies readable(
                #[trigger] dims[k],
                (room - 2) as nat,
            ) by {
                assert(dims[k] == SpecJson::Int(t.dims[k] as int));
            }
        }
    }
}

/// A dump is a JSON document that reads back as the dumped head: exact
/// integers, floats bit for bit, keys and tensors in order. (Floats that are
/// not finite are dumped as null.)
pub proof fn law_dump_is_read_back(h: SpecHead, file_len: nat)
    requires
        wf_head(h.version, h.kvs, h.tensors),
        0 <= h.data_start <= u64::MAX,
        file_len <= u64::MAX,
    ensures
        document(render(dump_of(h, file_len), Seq::empty(), true)) == Ok::<
            SpecJson,
            SpecJsonError,
        >(plain(dump_of(h, file_len))),
{
    let room = (MAX_DEPTH + 1) as nat;
    let doc = dump_of(h, file_len);
    let pairs = doc->Obj_0;
    assert forall|i: int| 0 <= i < pairs.len() implies readable(
        (#[trigger] pairs[i]).1,
        (room - 1) as nat,
    ) by {
        if i == 4 {
            let kvs = pairs[4].1->Obj_0;
            assert forall|k: int| 0 <= k < kvs.len() implies readable(
                (#[trigger] kvs[k]).1,
                (room - 2) as nat,
            ) by {
                assert(kvs[k] == kv_member(h.kvs[k]));
                assert(wf_kv(h.kvs[k]));
                let fields = kvs[k].1->Obj_0;
                assert forall|j: int| 0 <= j < fields.len() implies readable(
                    (#[trigger] fields[j]).1,
                    (room - 3) as nat,
                ) by {
                    lemma_value_readable(h.kvs[k].value, 0, (room - 3) as nat);
                }
            }
        } else if i == 5 {
            let tensors = pairs[5].1->Arr_0;
            assert forall|k: int| 0 <= k < tensors.len() implies readable(
                #[trigger] tensors[k],
                (room - 2) as nat,
            ) by {
                assert(tensors[k] == tensor_json(h.tensors[k]));
                lemma_tensor_readable(h.tensors[k], (room - 2) as nat);
            }
        }
    }
    law_written_json_is_read_back(doc, true);
}

} // verus!
