//! How JSON text is to be understood: what the escapes of a string stand for, what
//! the first character of a value tells of it, where white space may stand and how
//! deep values may be nested; and how values are laid out.

use crate::json::{
    after_space, at, can_cut, chars_from, document, elements_from, escape_at, escaped, escaped_text,
    has_bytes, hex4_at, hex_number, lemma_value_end, member, members_from, number_at, quoted,
    render, render_items, render_pairs, string_at, value_from, word_at, Parsed, SpecJson,
    SpecJsonError,
};
use crate::reparse::{law_written_json_is_read_back, lemma_ascii_width, plain, readable};
use crate::text::is_digit;
use vstd::prelude::*;
use vstd::string::*;

verus! {

// ---------------------------------------------------------------------------
// Strings
// ---------------------------------------------------------------------------

/// A character in front of the rest of a string.
pub open spec fn with_first(c: char, rest: Parsed<Seq<char>>) -> Parsed<Seq<char>> {
    match rest {
        Ok((text, end)) => Ok((seq![c] + text, end)),
        Err(e) => Err(e),
    }
}

/// Within the quotes, a character stands for itself; but the quote ends the string,
/// and control characters are refused, as is a string without an end.
pub proof fn law_plain_characters_stand_for_themselves(s: Seq<char>, i: int)
    requires
        0 <= i <= s.len(),
    ensures
        i == s.len() ==> chars_from(s, i) is Err,
        i < s.len() ==> (s[i] as nat >= 0x20 && s[i] != '"' && s[i] != '\\' ==> chars_from(s, i)
            == with_first(s[i], chars_from(s, i + 1))),
        i < s.len() ==> ((s[i] as nat) < 0x20 ==> chars_from(s, i) is Err),
        i < s.len() ==> (s[i] == '"' ==> chars_from(s, i) == Ok::<(Seq<char>, int), SpecJsonError>(
            (Seq::empty(), i + 1),
        )),
{
    if i < s.len() {
        if s[i] == '"' {
        } else if s[i] == '\\' {
        } else if (s[i] as nat) < 0x20 {
            assert(chars_from(s, i) is Err);
        } else {
            assert(chars_from(s, i) == match chars_from(s, i + 1) {
                Err(e) => Err(e),
                Ok((rest, end)) => Ok((seq![s[i]] + rest, end)),
            });
        }
    }
}

/// What the short escapes stand for: the quote, the backslash and the slash for
/// themselves, `b` for a backspace, `f` for a form feed, `n`, `r` and `t` for line
/// feed, carriage return and tab. Behind a backslash nothing but these and `u` is
/// accepted.
pub proof fn law_short_escapes(s: Seq<char>, i: int)
    requires
        0 <= i,
        i + 1 < s.len(),
        s[i] == '\\',
    ensures
        s[i + 1] == '"' ==> chars_from(s, i) == with_first('"', chars_from(s, i + 2)),
        s[i + 1] == '\\' ==> chars_from(s, i) == with_first('\\', chars_from(s, i + 2)),
        s[i + 1] == '/' ==> chars_from(s, i) == with_first('/', chars_from(s, i + 2)),
        s[i + 1] == 'b' ==> chars_from(s, i) == with_first('\u{8}', chars_from(s, i + 2)),
        s[i + 1] == 'f' ==> chars_from(s, i) == with_first('\u{c}', chars_from(s, i + 2)),
        s[i + 1] == 'n' ==> chars_from(s, i) == with_first('\n', chars_from(s, i + 2)),
        s[i + 1] == 'r' ==> chars_from(s, i) == with_first('\r', chars_from(s, i + 2)),
        s[i + 1] == 't' ==> chars_from(s, i) == with_first('\t', chars_from(s, i + 2)),
        chars_from(s, i) is Ok ==> (s[i + 1] == '"' || s[i + 1] == '\\' || s[i + 1] == '/' || s[i
            + 1] == 'b' || s[i + 1] == 'f' || s[i + 1] == 'n' || s[i + 1] == 'r' || s[i + 1] == 't'
            || s[i + 1] == 'u'),
{
}

/// `c` is the hexadecimal digit `d`, in either case.
pub open spec fn hex_digit_of(c: char, d: int) -> bool {
    ||| 0 <= d < 10 && c as int == '0' as int + d
    ||| 10 <= d < 16 && (c as int == 'a' as int + d - 10 || c as int == 'A' as int + d - 10)
}

/// The four digits at `i` are `a`, `b`, `c` and `d`.
pub open spec fn hex_digits_at(s: Seq<char>, i: int, a: int, b: int, c: int, d: int) -> bool {
    &&& 0 <= i && i + 4 <= s.len()
    &&& hex_digit_of(s[i], a)
    &&& hex_digit_of(s[i + 1], b)
    &&& hex_digit_of(s[i + 2], c)
    &&& hex_digit_of(s[i + 3], d)
}

/// Four hexadecimal digits are read as the number that they spell.
proof fn lemma_hex_digits(s: Seq<char>, i: int, a: int, b: int, c: int, d: int)
    requires
        hex_digits_at(s, i, a, b, c, d),
    ensures
        hex4_at(s, i) == Ok::<(nat, int), SpecJsonError>(
            ((0x1000 * a + 0x100 * b + 0x10 * c + d) as nat, i + 4),
        ),
{
    let t = s.skip(i);
    let four = t.take(4);
    lemma_ascii_width(s[i]);
    lemma_ascii_width(s[i + 1]);
    lemma_ascii_width(s[i + 2]);
    lemma_ascii_width(s[i + 3]);
    let t1 = t.drop_first();
    let t2 = t1.drop_first();
    let t3 = t2.drop_first();
    let t4 = t3.drop_first();
    assert(t[0] == s[i] && t1[0] == s[i + 1] && t2[0] == s[i + 2] && t3[0] == s[i + 3]);
    assert(has_bytes(t4, 0) && can_cut(t4, 0));
    assert(has_bytes(t3, 1) && can_cut(t3, 1));
    assert(has_bytes(t2, 2) && can_cut(t2, 2));
    assert(has_bytes(t1, 3) && can_cut(t1, 3));
    assert(has_bytes(t, 4) && can_cut(t, 4));
    let n3 = four.drop_last();
    let n2 = n3.drop_last();
    let n1 = n2.drop_last();
    assert(four.last() == s[i + 3] && n3.last() == s[i + 2] && n2.last() == s[i + 1] && n1.last()
        == s[i]);
    assert(n1.drop_last() =~= Seq::<char>::empty());
    assert(hex_number(Seq::<char>::empty()) == Some(0nat));
    assert(hex_number(n1) == Some(a as nat));
    assert(hex_number(n2) == Some((0x10 * a + b) as nat));
    assert(hex_number(n3) == Some((0x100 * a + 0x10 * b + c) as nat));
    assert(four[0] == s[i]);
}

/// A `\u` escape stands for the character whose code its four hexadecimal digits
/// spell.
pub proof fn law_unicode_escape(s: Seq<char>, i: int, a: int, b: int, c: int, d: int, ch: char)
    requires
        0 <= i,
        i + 6 <= s.len(),
        s[i] == '\\',
        s[i + 1] == 'u',
        hex_digits_at(s, i + 2, a, b, c, d),
        ch as int == 0x1000 * a + 0x100 * b + 0x10 * c + d,
    ensures
        chars_from(s, i) == with_first(ch, chars_from(s, i + 6)),
{
    lemma_hex_digits(s, i + 2, a, b, c, d);
    assert(escape_at(s, i) == Ok::<(char, int), SpecJsonError>((ch, i + 6)));
}

/// A character beyond the first 65536 is written as two `\u` escapes: the upper ten
/// bits of its code, less 65536, behind 0xd800 and the lower ten behind 0xdc00.
pub proof fn law_surrogate_pair(s: Seq<char>, i: int, high: Seq<int>, low: Seq<int>, ch: char)
    requires
        0 <= i,
        i + 12 <= s.len(),
        s[i] == '\\',
        s[i + 1] == 'u',
        high.len() == 4,
        hex_digits_at(s, i + 2, high[0], high[1], high[2], high[3]),
        s[i + 6] == '\\',
        s[i + 7] == 'u',
        low.len() == 4,
        hex_digits_at(s, i + 8, low[0], low[1], low[2], low[3]),
        ch as int >= 0x1_0000,
        0x1000 * high[0] + 0x100 * high[1] + 0x10 * high[2] + high[3] == 0xd800 + (ch as int
            - 0x1_0000) / 0x400,
        0x1000 * low[0] + 0x100 * low[1] + 0x10 * low[2] + low[3] == 0xdc00 + (ch as int - 0x1_0000)
            % 0x400,
    ensures
        chars_from(s, i) == with_first(ch, chars_from(s, i + 12)),
{
    lemma_hex_digits(s, i + 2, high[0], high[1], high[2], high[3]);
    lemma_hex_digits(s, i + 8, low[0], low[1], low[2], low[3]);
    let h = 0x1000 * high[0] + 0x100 * high[1] + 0x10 * high[2] + high[3];
    let l = 0x1000 * low[0] + 0x100 * low[1] + 0x10 * low[2] + low[3];
    assert(0x1_0000 + (h - 0xd800) * 0x400 + (l - 0xdc00) == ch as int);
    assert(escape_at(s, i) == Ok::<(char, int), SpecJsonError>((ch, i + 12)));
}

/// A surrogate that is not one of a pair is refused.
pub proof fn law_lone_surrogates_are_refused(s: Seq<char>, i: int, a: int, b: int, c: int, d: int)
    requires
        0 <= i,
        i + 6 <= s.len(),
        s[i] == '\\',
        s[i + 1] == 'u',
        hex_digits_at(s, i + 2, a, b, c, d),
        0xd800 <= 0x1000 * a + 0x100 * b + 0x10 * c + d < 0xe000,
    ensures
        0xdc00 <= 0x1000 * a + 0x100 * b + 0x10 * c + d ==> chars_from(s, i) is Err,
        !at(s, i + 6, '\\') || !at(s, i + 7, 'u') ==> chars_from(s, i) is Err,
{
    lemma_hex_digits(s, i + 2, a, b, c, d);
}

/// Escaped text holds no control character, and no quote but behind a backslash;
/// and every other character but the backslash stands in it as it is.
pub proof fn law_escaped_characters(c: char, k: int)
    requires
        0 <= k < escaped(c).len(),
    ensures
        escaped(c)[k] as int >= 0x20,
        escaped(c)[k] == '"' ==> k == 1 && escaped(c)[0] == '\\',
        c as int >= 0x20 && c != '"' && c != '\\' ==> escaped(c) == seq![c],
{
}

/// Text is escaped character by character.
pub proof fn law_escaped_text_adds_up(a: Seq<char>, b: Seq<char>)
    ensures
        escaped_text(a + b) == escaped_text(a) + escaped_text(b),
    decreases a.len(),
{
    if a.len() == 0 {
        assert(a + b =~= b);
        assert(escaped_text(a) + escaped_text(b) =~= escaped_text(b));
    } else {
        law_escaped_text_adds_up(a.drop_first(), b);
        assert((a + b).drop_first() =~= a.drop_first() + b);
        assert(escaped_text(a + b) =~= escaped_text(a) + escaped_text(b));
    }
}

// ---------------------------------------------------------------------------
// Values
// ---------------------------------------------------------------------------

/// White space in front of a value, which is spaces, tabs and line ends, does not
/// matter.
pub proof fn law_space_before_a_value(s: Seq<char>, i: int, room: nat)
    requires
        0 <= i < s.len(),
        room > 0,
        s[i] == ' ' || s[i] == '\t' || s[i] == '\n' || s[i] == '\r',
    ensures
        value_from(s, i, room) == value_from(s, i + 1, room),
{
}

/// The first character of a value tells what it is: a brace an object, a bracket an
/// array, a quote a string, a digit or a minus sign a number; `t`, `f` and `n` begin
/// the words `true`, `false` and `null`; and nothing else begins a value.
pub proof fn law_first_character_tells_the_value(s: Seq<char>, i: int, room: nat)
    requires
        0 <= i < s.len(),
        s[i] != ' ' && s[i] != '\t' && s[i] != '\n' && s[i] != '\r',
    ensures
        value_from(s, i, room) matches Ok((v, end)) ==> {
            &&& v is Obj <==> s[i] == '{'
            &&& v is Arr <==> s[i] == '['
            &&& v is Str <==> s[i] == '"'
            &&& v is Int || v is Float <==> s[i] == '-' || '0' <= s[i] <= '9'
            &&& v == SpecJson::Bool(true) <==> s[i] == 't'
            &&& v == SpecJson::Bool(true) ==> s.subrange(i, end) == seq!['t', 'r', 'u', 'e']
            &&& v == SpecJson::Bool(false) <==> s[i] == 'f'
            &&& v == SpecJson::Bool(false) ==> s.subrange(i, end) == seq!['f', 'a', 'l', 's', 'e']
            &&& v is Null <==> s[i] == 'n'
            &&& v is Null ==> s.subrange(i, end) == seq!['n', 'u', 'l', 'l']
        },
{
    if room > 0 {
        assert(after_space(s, i) == i);
        if s[i] == '{' {
            assert(value_from(s, i, room) matches Ok((v, _)) ==> v is Obj);
        } else if s[i] == '[' {
            assert(value_from(s, i, room) matches Ok((v, _)) ==> v is Arr);
        } else if s[i] == '"' {
            assert(value_from(s, i, room) matches Ok((v, _)) ==> v is Str);
        } else if s[i] == 't' || s[i] == 'f' || s[i] == 'n' {
            lemma_words(s, i, room);
        } else if s[i] == '-' || is_digit(s[i]) {
            lemma_number_is_a_number(s, i);
            assert(value_from(s, i, room) == number_at(s, i));
        } else {
            assert(value_from(s, i, room) is Err);
        }
    }
}

/// The three words.
proof fn lemma_words(s: Seq<char>, i: int, room: nat)
    requires
        0 <= i < s.len(),
        room > 0,
        s[i] == 't' || s[i] == 'f' || s[i] == 'n',
    ensures
        value_from(s, i, room) matches Ok((v, end)) ==> {
            &&& s[i] == 't' ==> v == SpecJson::Bool(true) && s.subrange(i, end) == seq![
                't',
                'r',
                'u',
                'e',
            ]
            &&& s[i] == 'f' ==> v == SpecJson::Bool(false) && s.subrange(i, end) == seq![
                'f',
                'a',
                'l',
                's',
                'e',
            ]
            &&& s[i] == 'n' ==> v is Null && s.subrange(i, end) == seq!['n', 'u', 'l', 'l']
        },
{
    assert(after_space(s, i) == i);
    if s[i] == 't' {
        assert(value_from(s, i, room) == word_at(s, i, "true"@, SpecJson::Bool(true)));
        lemma_word(s, i, "true"@, SpecJson::Bool(true));
        reveal_strlit("true");
        assert("true"@ =~= seq!['t', 'r', 'u', 'e']);
    } else if s[i] == 'f' {
        assert(value_from(s, i, room) == word_at(s, i, "false"@, SpecJson::Bool(false)));
        lemma_word(s, i, "false"@, SpecJson::Bool(false));
        reveal_strlit("false");
        assert("false"@ =~= seq!['f', 'a', 'l', 's', 'e']);
    } else {
        assert(value_from(s, i, room) == word_at(s, i, "null"@, SpecJson::Null));
        lemma_word(s, i, "null"@, SpecJson::Null);
        reveal_strlit("null");
        assert("null"@ =~= seq!['n', 'u', 'l', 'l']);
    }
}

/// A word that is read stands in the text.
proof fn lemma_word(s: Seq<char>, i: int, word: Seq<char>, v: SpecJson)
    ensures
        word_at(s, i, word, v) matches Ok((w, end)) ==> w == v && s.subrange(i, end) == word,
{
}

/// What reads as a number is an integer or a floating-point number.
proof fn lemma_number_is_a_number(s: Seq<char>, i: int)
    ensures
        number_at(s, i) matches Ok((v, _)) ==> v is Int || v is Float,
{
}

/// A number does not begin with a zero and another digit, nor with a minus sign
/// that no digit follows.
pub proof fn law_leading_zeros_are_refused(s: Seq<char>, i: int, room: nat)
    requires
        0 <= i < s.len(),
        s[i] == '-' || s[i] == '0',
        ({
            let p = if s[i] == '-' {
                i + 1
            } else {
                i
            };
            ||| p >= s.len()
            ||| !('0' <= s[p] <= '9')
            ||| s[p] == '0' && p + 1 < s.len() && '0' <= s[p + 1] <= '9'
        }),
    ensures
        value_from(s, i, room) is Err,
{
    assert(after_space(s, i) == i);
}

/// A document is its value, and behind it stands nothing but white space.
pub proof fn law_nothing_follows_the_value(s: Seq<char>, v: SpecJson, end: int, k: int)
    requires
        value_from(s, 0, 129) == Ok::<(SpecJson, int), SpecJsonError>((v, end)),
        end <= k < s.len(),
    ensures
        document(s) is Ok ==> document(s) == Ok::<SpecJson, SpecJsonError>(v),
        document(s) is Ok ==> s[k] == ' ' || s[k] == '\t' || s[k] == '\n' || s[k] == '\r',
{
    lemma_value_end(s, 0, 129);
    lemma_space_to(s, end, after_space(s, end));
}

/// What is passed over as white space is white space.
proof fn lemma_space_to(s: Seq<char>, i: int, p: int)
    requires
        0 <= i <= s.len(),
        after_space(s, i) == p,
    ensures
        forall|k: int|
            i <= k < p ==> #[trigger] s[k] == ' ' || s[k] == '\t' || s[k] == '\n' || s[k] == '\r',
    decreases s.len() - i,
{
    if i < s.len() && i < p {
        lemma_space_to(s, i + 1, p);
    }
}

/// A value within so many levels of arrays and objects.
pub open spec fn nested_within(v: SpecJson, levels: nat) -> bool
    decreases levels,
{
    levels > 0 && match v {
        SpecJson::Arr(items) => forall|i: int|
            0 <= i < items.len() ==> nested_within(#[trigger] items[i], (levels - 1) as nat),
        SpecJson::Obj(pairs) => forall|i: int|
            0 <= i < pairs.len() ==> nested_within((#[trigger] pairs[i]).1, (levels - 1) as nat),
        _ => true,
    }
}

/// A value is nested no deeper than there was room.
proof fn lemma_nested_value(s: Seq<char>, i: int, room: nat)
    ensures
        value_from(s, i, room) matches Ok((v, _)) ==> nested_within(v, room),
    decreases room, 0int,
{
    if room > 0 {
        let p = after_space(s, i);
        if p < s.len() {
            if s[p] == '{' {
                lemma_nested_members(s, p + 1, (room - 1) as nat);
            } else if s[p] == '[' {
                lemma_nested_elements(s, after_space(s, p + 1), (room - 1) as nat);
            } else if s[p] == '-' || is_digit(s[p]) {
                lemma_number_is_a_number(s, p);
            }
        }
    }
}

/// The items of an array are nested no deeper than there was room.
proof fn lemma_nested_elements(s: Seq<char>, i: int, room: nat)
    ensures
        elements_from(s, i, room) matches Ok((items, _)) ==> forall|k: int|
            0 <= k < items.len() ==> nested_within(#[trigger] items[k], room),
    decreases
            room,
            (if i <= s.len() {
                s.len() - i + 1
            } else {
                1
            }),
{
    lemma_nested_value(s, i, room);
    if let Ok((v, q)) = value_from(s, i, room) {
        let p = after_space(s, q);
        if i <= p && at(s, p, ',') {
            lemma_nested_elements(s, p + 1, room);
        }
    }
}

/// The members of an object are nested no deeper than there was room.
proof fn lemma_nested_members(s: Seq<char>, i: int, room: nat)
    ensures
        members_from(s, i, room) matches Ok((pairs, _)) ==> forall|k: int|
            0 <= k < pairs.len() ==> nested_within((#[trigger] pairs[k]).1, room),
    decreases
            room,
            (if i <= s.len() {
                s.len() - i + 1
            } else {
                1
            }),
{
    let k = after_space(s, i);
    if at(s, k, '"') {
        if let Ok((key, r)) = string_at(s, k) {
            let c = after_space(s, r);
            if at(s, c, ':') {
                lemma_nested_value(s, c + 1, room);
                if let Ok((v, q)) = value_from(s, c + 1, room) {
                    let p = after_space(s, q);
                    if i <= p && at(s, p, ',') {
                        lemma_nested_members(s, p + 1, room);
                    }
                }
            }
        }
    }
}

/// How deep a document may be nested: a value in 128 levels of arrays and objects
/// is read, and no document holds a deeper one.
pub proof fn law_depth_of_documents(s: Seq<char>, v: SpecJson, pretty: bool)
    ensures
        document(s) matches Ok(w) ==> nested_within(w, 129),
        readable(v, 129) ==> document(render(v, Seq::empty(), pretty)) == Ok::<
            SpecJson,
            SpecJsonError,
        >(plain(v)),
{
    lemma_nested_value(s, 0, 129);
    if readable(v, 129) {
        law_written_json_is_read_back(v, pretty);
    }
}

/// The member of an object under a key is the first that has it.
pub proof fn law_member_is_the_first(pairs: Seq<(Seq<char>, SpecJson)>, key: Seq<char>, i: int)
    requires
        0 <= i < pairs.len(),
        pairs[i].0 == key,
        forall|j: int| 0 <= j < i ==> (#[trigger] pairs[j]).0 != key,
    ensures
        member(pairs, key) == Some(pairs[i].1),
    decreases i,
{
    if i > 0 {
        let rest = pairs.skip(1);
        assert(pairs[0].0 != key);
        assert forall|j: int| 0 <= j < i - 1 implies (#[trigger] rest[j]).0 != key by {
            assert(rest[j] == pairs[j + 1]);
        }
        law_member_is_the_first(rest, key, i - 1);
    }
}

/// An object has no member under a key that none of its members has.
pub proof fn law_no_member(pairs: Seq<(Seq<char>, SpecJson)>, key: Seq<char>)
    requires
        forall|j: int| 0 <= j < pairs.len() ==> (#[trigger] pairs[j]).0 != key,
    ensures
        member(pairs, key) is None,
    decreases pairs.len(),
{
    if pairs.len() > 0 {
        let rest = pairs.skip(1);
        assert(pairs[0].0 != key);
        assert forall|j: int| 0 <= j < rest.len() implies (#[trigger] rest[j]).0 != key by {
            assert(rest[j] == pairs[j + 1]);
        }
        law_no_member(rest, key);
    }
}

// ---------------------------------------------------------------------------
// Layout
// ---------------------------------------------------------------------------

/// How arrays are laid out: compact ones without any white space; pretty ones with
/// each item on a line of its own, two spaces further in than the brackets.
pub proof fn law_layout_of_arrays(v: SpecJson, margin: Seq<char>)
    ensures
        render(SpecJson::Arr(seq![v]), margin, false) == seq!['['] + render(
            v,
            margin + seq![' ', ' '],
            false,
        ) + seq![']'],
        render(SpecJson::Arr(seq![v]), margin, true) == seq!['[', '\n'] + margin + seq![' ', ' ']
            + render(v, margin + seq![' ', ' '], true) + seq!['\n'] + margin + seq![']'],
{
    let inner = margin + seq![' ', ' '];
    let items = seq![v];
    assert(items[0] == v);
    let flat = render(v, inner, false);
    let tall = render(v, inner, true);
    assert(render_items(items, inner, false) =~= flat);
    assert(render_items(items, inner, true) =~= seq!['\n'] + inner + tall);
    assert(render(SpecJson::Arr(items), margin, false) =~= seq!['['] + flat + seq![']']);
    assert(render(SpecJson::Arr(items), margin, true) =~= seq!['[', '\n'] + margin + seq![' ', ' ']
        + tall + seq!['\n'] + margin + seq![']']);
}

/// How objects are laid out: as arrays are, with each key in quotes before its value
/// and a colon behind it; and a space behind the colon of a pretty one.
pub proof fn law_layout_of_objects(v: SpecJson, key: Seq<char>, margin: Seq<char>)
    ensures
        render(SpecJson::Obj(seq![(key, v)]), margin, false) == seq!['{'] + quoted(key) + seq![':']
            + render(v, margin + seq![' ', ' '], false) + seq!['}'],
        render(SpecJson::Obj(seq![(key, v)]), margin, true) == seq!['{', '\n'] + margin + seq![
            ' ',
            ' ',
        ] + quoted(key) + seq![':', ' '] + render(v, margin + seq![' ', ' '], true) + seq!['\n']
            + margin + seq!['}'],
        quoted(key) == seq!['"'] + escaped_text(key) + seq!['"'],
{
    let inner = margin + seq![' ', ' '];
    let pairs = seq![(key, v)];
    assert(pairs[0] == (key, v));
    let flat = render(v, inner, false);
    let tall = render(v, inner, true);
    let name = quoted(key);
    assert(render_pairs(pairs, inner, false) =~= name + seq![':'] + flat);
    assert(render_pairs(pairs, inner, true) =~= seq!['\n'] + inner + name + seq![':', ' '] + tall);
    assert(render(SpecJson::Obj(pairs), margin, false) =~= seq!['{'] + name + seq![':'] + flat
        + seq!['}']);
    assert(render(SpecJson::Obj(pairs), margin, true) =~= seq!['{', '\n'] + margin + seq![' ', ' ']
        + name + seq![':', ' '] + tall + seq!['\n'] + margin + seq!['}']);
}

/// Items and members stand one behind the other, with commas between them.
pub proof fn law_commas_between_items(
    first: SpecJson,
    items: Seq<SpecJson>,
    key: Seq<char>,
    pairs: Seq<(Seq<char>, SpecJson)>,
    margin: Seq<char>,
    pretty: bool,
)
    ensures
        items.len() > 0 ==> render_items(seq![first] + items, margin, pretty) == render_items(
            seq![first],
            margin,
            pretty,
        ) + seq![','] + render_items(items, margin, pretty),
        pairs.len() > 0 ==> render_pairs(seq![(key, first)] + pairs, margin, pretty)
            == render_pairs(seq![(key, first)], margin, pretty) + seq![','] + render_pairs(
            pairs,
            margin,
            pretty,
        ),
{
    let all = seq![first] + items;
    let every = seq![(key, first)] + pairs;
    assert(all.subrange(1, all.len() as int) =~= items);
    assert(every.subrange(1, every.len() as int) =~= pairs);
    assert(all[0] == first && every[0] == (key, first));
    assert(seq![first][0] == first && seq![(key, first)][0] == (key, first));
    if items.len() > 0 {
        assert(render_items(all, margin, pretty) =~= render_items(seq![first], margin, pretty)
            + seq![','] + render_items(items, margin, pretty));
    }
    if pairs.len() > 0 {
        assert(render_pairs(every, margin, pretty) =~= render_pairs(
            seq![(key, first)],
            margin,
            pretty,
        ) + seq![','] + render_pairs(pairs, margin, pretty));
    }
}

} // verus!
