//! Dependency-free JSON parser and encoder, sized for gguf-chisel's needs:
//! `dump` output and `apply` patch documents. Integers are kept as `i128` so
//! GGUF `u64`/`i64` metadata values round-trip without floating-point loss.
//! Objects preserve insertion order (a `Vec`, not a map) so dumps are stable
//! and patch documents apply in a predictable order.

use crate::float::{
    digit_run, double_of_text, exact_64, exact_double, finite_64, is_finite, lemma_digit_run,
    parse_double, run_end,
};
use crate::text::{
    byte_len, char_code, chars_of, dec, hex_char, hex_digit, int_of_text, int_string, int_text,
    is_digit, lemma_byte_len_bound, lemma_encode_concat, parse_i128, push_dec, starts_at,
    starts_here, str_eq, string_of,
};
use vstd::prelude::*;
use vstd::string::*;
use vstd::utf8::*;

verus! {

/// A parsed JSON value. `Float` holds the bit pattern of a double.
#[derive(Debug, PartialEq)]
pub enum Json {
    Null,
    Bool(bool),
    Int(i128),
    Float(u64),
    Str(String),
    Arr(Vec<Json>),
    Obj(Vec<(String, Json)>),
}

/// What a [`Json`] value holds, with text and collections as sequences.
pub enum SpecJson {
    Null,
    Bool(bool),
    Int(int),
    Float(u64),
    Str(Seq<char>),
    Arr(Seq<SpecJson>),
    Obj(Seq<(Seq<char>, SpecJson)>),
}

/// The contents of a value.
pub open spec fn json_view(v: Json) -> SpecJson
    decreases v,
{
    match v {
        Json::Null => SpecJson::Null,
        Json::Bool(b) => SpecJson::Bool(b),
        Json::Int(i) => SpecJson::Int(i as int),
        Json::Float(f) => SpecJson::Float(f),
        Json::Str(s) => SpecJson::Str(s@),
        Json::Arr(items) => SpecJson::Arr(
            Seq::new(
                items@.len(),
                |i: int|
                    if 0 <= i < items@.len() {
                        json_view(items@[i])
                    } else {
                        SpecJson::Null
                    },
            ),
        ),
        Json::Obj(pairs) => SpecJson::Obj(
            Seq::new(
                pairs@.len(),
                |i: int|
                    if 0 <= i < pairs@.len() {
                        (pairs@[i].0@, json_view(pairs@[i].1))
                    } else {
                        (Seq::empty(), SpecJson::Null)
                    },
            ),
        ),
    }
}

impl View for Json {
    type V = SpecJson;

    open spec fn view(&self) -> SpecJson {
        json_view(*self)
    }
}

/// The contents of each value of a sequence.
pub open spec fn items_view(items: Seq<Json>) -> Seq<SpecJson> {
    Seq::new(items.len(), |i: int| json_view(items[i]))
}

/// The contents of each pair of a sequence.
pub open spec fn pairs_view(pairs: Seq<(String, Json)>) -> Seq<(Seq<char>, SpecJson)> {
    Seq::new(pairs.len(), |i: int| (pairs[i].0@, json_view(pairs[i].1)))
}

/// An array's contents are the contents of its items.
pub proof fn lemma_arr_view(items: Vec<Json>)
    ensures
        Json::Arr(items)@ == SpecJson::Arr(items_view(items@)),
{
    reveal_with_fuel(json_view, 2);
    assert(Json::Arr(items)@->Arr_0 =~= items_view(items@));
}

/// An object's contents are the contents of its pairs.
pub proof fn lemma_obj_view(pairs: Vec<(String, Json)>)
    ensures
        Json::Obj(pairs)@ == SpecJson::Obj(pairs_view(pairs@)),
{
    reveal_with_fuel(json_view, 2);
    assert(Json::Obj(pairs)@->Obj_0 =~= pairs_view(pairs@));
}

impl Clone for Json {
    fn clone(&self) -> (r: Self)
        ensures
            r@ == self@,
        decreases self,
    {
        match self {
            Json::Null => Json::Null,
            Json::Bool(b) => Json::Bool(*b),
            Json::Int(i) => Json::Int(*i),
            Json::Float(f) => Json::Float(*f),
            Json::Str(s) => Json::Str(s.clone()),
            Json::Arr(items) => {
                let mut out: Vec<Json> = Vec::new();
                let mut i: usize = 0;
                while i < items.len()
                    invariant
                        self matches Json::Arr(its) && its == items,
                        i == out@.len(),
                        i <= items@.len(),
                        forall|j: int| 0 <= j < i ==> (#[trigger] out@[j])@ == items@[j]@,
                    decreases items@.len() - i,
                {
                    let item = items[i].clone();
                    out.push(item);
                    i += 1;
                }
                proof {
                    lemma_arr_view(out);
                    lemma_arr_view(*items);
                    assert forall|j: int| 0 <= j < items@.len() implies items_view(out@)[j]
                        == items_view(items@)[j] by {
                        assert(out@[j]@ == items@[j]@);
                    }
                    assert(items_view(out@) =~= items_view(items@));
                }
                Json::Arr(out)
            },
            Json::Obj(pairs) => {
                let mut out: Vec<(String, Json)> = Vec::new();
                let mut i: usize = 0;
                while i < pairs.len()
                    invariant
                        self matches Json::Obj(its) && its == pairs,
                        i == out@.len(),
                        i <= pairs@.len(),
                        forall|j: int|
                            0 <= j < i ==> (#[trigger] out@[j]).0@ == pairs@[j].0@ && out@[j].1@
                                == pairs@[j].1@,
                    decreases pairs@.len() - i,
                {
                    let key = pairs[i].0.clone();
                    let item = pairs[i].1.clone();
                    out.push((key, item));
                    i += 1;
                }
                proof {
                    lemma_obj_view(out);
                    lemma_obj_view(*pairs);
                    assert forall|j: int| 0 <= j < pairs@.len() implies pairs_view(out@)[j]
                        == pairs_view(pairs@)[j] by {
                        assert(out@[j].1@ == pairs@[j].1@);
                    }
                    assert(pairs_view(out@) =~= pairs_view(pairs@));
                }
                Json::Obj(out)
            },
        }
    }
}

/// The first value under a key.
pub open spec fn member(pairs: Seq<(Seq<char>, SpecJson)>, key: Seq<char>) -> Option<SpecJson>
    decreases pairs.len(),
{
    if pairs.len() == 0 {
        None
    } else if pairs[0].0 == key {
        Some(pairs[0].1)
    } else {
        member(pairs.skip(1), key)
    }
}

/// The contents of an optional value.
pub open spec fn opt_json(v: Option<&Json>) -> Option<SpecJson> {
    match v {
        Some(x) => Some(x@),
        None => None,
    }
}

impl Json {
    /// Look up a key in an object (first match, file order).
    pub fn get(&self, key: &str) -> (r: Option<&Json>)
        ensures
            opt_json(r) == match self@ {
                SpecJson::Obj(pairs) => member(pairs, key@),
                _ => None,
            },
    {
        match self {
            Json::Obj(pairs) => {
                let ghost all = pairs_view(pairs@);
                proof {
                    lemma_obj_view(*pairs);
                }
                let mut i: usize = 0;
                assert(all.skip(0) =~= all);
                while i < pairs.len()
                    invariant
                        i <= pairs@.len(),
                        all == pairs_view(pairs@),
                        self@ == SpecJson::Obj(all),
                        member(all, key@) == member(all.skip(i as int), key@),
                    decreases pairs@.len() - i,
                {
                    assert(all.skip(i as int)[0] == (pairs@[i as int].0@, pairs@[i as int].1@));
                    if str_eq(pairs[i].0.as_str(), key) {
                        return Some(&pairs[i].1);
                    }
                    i += 1;
                    assert(all.skip(i - 1).skip(1) =~= all.skip(i as int));
                }
                None
            },
            _ => None,
        }
    }
}

// ---------------------------------------------------------------------------
// Errors and positions
// ---------------------------------------------------------------------------

/// A parse error with 1-based line and column.
#[derive(Debug)]
pub struct JsonError {
    pub message: String,
    pub line: usize,
    pub col: usize,
}

/// What a [`JsonError`] says.
pub struct SpecJsonError {
    pub message: Seq<char>,
    pub line: nat,
    pub col: nat,
}

impl View for JsonError {
    type V = SpecJsonError;

    open spec fn view(&self) -> SpecJsonError {
        SpecJsonError { message: self.message@, line: self.line as nat, col: self.col as nat }
    }
}

/// The one-line text of an error.
pub open spec fn json_error_text(e: SpecJsonError) -> Seq<char> {
    e.message + " at "@ + dec(e.line) + ":"@ + dec(e.col)
}

impl JsonError {
    /// The error as one line: the message, and its position.
    pub fn to_text(&self) -> (r: String)
        ensures
            r@ == json_error_text(self@),
    {
        let mut s = self.message.clone();
        s.append(" at ");
        push_dec(&mut s, self.line as u128);
        s.append(":");
        push_dec(&mut s, self.col as u128);
        s
    }
}

/// How many bytes a character takes in UTF-8.
pub open spec fn utf8_width(c: char) -> nat {
    encode_utf8(seq![c]).len()
}

/// The first byte of a character in UTF-8.
pub open spec fn utf8_lead(c: char) -> u8 {
    encode_utf8(seq![c])[0]
}

/// A character takes one to four bytes.
proof fn lemma_utf8_width(c: char)
    ensures
        1 <= utf8_width(c) <= 4,
{
    lemma_byte_len_bound(seq![c]);
    char_is_scalar(c);
    assert(encode_utf8(seq![c]) == encode_scalar(c as u32) + encode_utf8(seq![c].drop_first()));
}

/// How many bytes a character takes in UTF-8.
fn width_of(c: char) -> (r: usize)
    ensures
        r == utf8_width(c),
        1 <= r <= 4,
{
    let mut t = String::new();
    t.push(c);
    proof {
        assert(t@ =~= seq![c]);
        lemma_utf8_width(c);
    }
    t.as_str().as_bytes().len()
}

/// The first byte of a character in UTF-8.
fn lead_of(c: char) -> (r: u8)
    ensures
        r == utf8_lead(c),
{
    let mut t = String::new();
    t.push(c);
    proof {
        assert(t@ =~= seq![c]);
        lemma_utf8_width(c);
    }
    t.as_str().as_bytes()[0]
}

/// The 1-based line and column behind a piece of text; columns count bytes.
pub open spec fn byte_position(s: Seq<char>) -> (nat, nat)
    decreases s.len(),
{
    if s.len() == 0 {
        (1, 1)
    } else {
        let (line, col) = byte_position(s.drop_last());
        if s.last() == '\n' {
            (line + 1, 1)
        } else {
            (line, col + utf8_width(s.last()))
        }
    }
}

/// A value and the position behind it, or an error.
pub type Parsed<T> = Result<(T, int), SpecJsonError>;

/// Failure at position `i`.
pub open spec fn failed<T>(s: Seq<char>, i: int, message: Seq<char>) -> Parsed<T> {
    let (line, col) = byte_position(s.take(i));
    Err(SpecJsonError { message, line, col })
}

// ---------------------------------------------------------------------------
// The grammar
// ---------------------------------------------------------------------------

/// How deeply arrays and objects may be nested.
pub const MAX_DEPTH: usize = 128;

/// The character at position `i` is `c`.
pub open spec fn at(s: Seq<char>, i: int, c: char) -> bool {
    0 <= i < s.len() && s[i] == c
}

/// White space between tokens.
pub open spec fn is_space(c: char) -> bool {
    c == ' ' || c == '\t' || c == '\n' || c == '\r'
}

/// The first position from `i` on that is not white space.
pub open spec fn after_space(s: Seq<char>, i: int) -> int
    decreases s.len() - i,
{
    if 0 <= i < s.len() && is_space(s[i]) {
        after_space(s, i + 1)
    } else {
        i
    }
}

/// A fixed word with its value.
pub open spec fn word_at(s: Seq<char>, i: int, word: Seq<char>, v: SpecJson) -> Parsed<SpecJson> {
    if starts_at(s, i, word) {
        Ok((v, i + word.len()))
    } else {
        failed(s, i, "invalid literal (expected '"@ + word + "')"@)
    }
}

/// A text has at least `n` bytes in UTF-8.
pub open spec fn has_bytes(s: Seq<char>, n: int) -> bool
    decreases s.len(),
{
    n <= 0 || (s.len() > 0 && has_bytes(s.drop_first(), n - utf8_width(s[0])))
}

/// A text can be cut after `n` bytes without splitting a character.
pub open spec fn can_cut(s: Seq<char>, n: int) -> bool
    decreases s.len(),
{
    n == 0 || (n > 0 && s.len() > 0 && can_cut(s.drop_first(), n - utf8_width(s[0])))
}

/// The value of a hexadecimal digit.
pub open spec fn hex_value(c: char) -> Option<nat> {
    if '0' <= c <= '9' {
        Some((c as nat - '0' as nat) as nat)
    } else if 'a' <= c <= 'f' {
        Some((c as nat - 'a' as nat + 10) as nat)
    } else if 'A' <= c <= 'F' {
        Some((c as nat - 'A' as nat + 10) as nat)
    } else {
        None
    }
}

/// The number that hexadecimal digits spell.
pub open spec fn hex_number(s: Seq<char>) -> Option<nat>
    decreases s.len(),
{
    if s.len() == 0 {
        Some(0)
    } else {
        match (hex_number(s.drop_last()), hex_value(s.last())) {
            (Some(n), Some(d)) => Some(16 * n + d),
            _ => None,
        }
    }
}

/// The number that four characters of a `\u` escape spell: hexadecimal digits,
/// of which the first may be replaced by a plus sign.
pub open spec fn hex4_number(s: Seq<char>) -> Option<nat> {
    if s[0] == '+' {
        hex_number(s.skip(1))
    } else {
        hex_number(s)
    }
}

/// The four hexadecimal digits at position `i`.
pub open spec fn hex4_at(s: Seq<char>, i: int) -> Parsed<nat> {
    let t = s.skip(i);
    if !has_bytes(t, 4) {
        failed(s, i, "truncated \\u escape"@)
    } else if !can_cut(t, 4) {
        failed(s, i, "invalid \\u escape"@)
    } else if t.len() >= 4 && hex4_number(t.take(4)) is Some {
        Ok((hex4_number(t.take(4))->Some_0, i + 4))
    } else {
        failed(s, i, "invalid \\u escape"@)
    }
}

/// The character of a `\u` escape, from behind the `u`: one code unit, or a
/// surrogate pair written as two escapes.
pub open spec fn unicode_at(s: Seq<char>, i: int) -> Parsed<char> {
    match hex4_at(s, i) {
        Err(e) => Err(e),
        Ok((high, p)) => if 0xd800 <= high < 0xdc00 {
            if !at(s, p, '\\') {
                failed(s, p, "unpaired surrogate"@)
            } else if !at(s, p + 1, 'u') {
                failed(s, p + 1, "unpaired surrogate"@)
            } else {
                match hex4_at(s, p + 2) {
                    Err(e) => Err(e),
                    Ok((low, q)) => if 0xdc00 <= low < 0xe000 {
                        Ok(
                            (
                                (0x1_0000 + (high - 0xd800) * 0x400 + (low - 0xdc00)) as char,
                                q,
                            ),
                        )
                    } else {
                        failed(s, q, "invalid low surrogate"@)
                    },
                }
            }
        } else if 0xdc00 <= high < 0xe000 {
            failed(s, p, "invalid unicode escape"@)
        } else {
            Ok((high as char, p))
        },
    }
}

/// The character of the escape sequence at position `i`, which holds the
/// backslash.
pub open spec fn escape_at(s: Seq<char>, i: int) -> Parsed<char> {
    let p = i + 1;
    if at(s, p, '"') {
        Ok(('"', p + 1))
    } else if at(s, p, '\\') {
        Ok(('\\', p + 1))
    } else if at(s, p, '/') {
        Ok(('/', p + 1))
    } else if at(s, p, 'b') {
        Ok(('\u{8}', p + 1))
    } else if at(s, p, 'f') {
        Ok(('\u{c}', p + 1))
    } else if at(s, p, 'n') {
        Ok(('\n', p + 1))
    } else if at(s, p, 'r') {
        Ok(('\r', p + 1))
    } else if at(s, p, 't') {
        Ok(('\t', p + 1))
    } else if at(s, p, 'u') {
        unicode_at(s, p + 1)
    } else {
        failed(s, p, "invalid escape sequence"@)
    }
}

/// The rest of a string, from position `i` inside its quotes.
pub open spec fn chars_from(s: Seq<char>, i: int) -> Parsed<Seq<char>>
    decreases s.len() - i,
{
    if i >= s.len() {
        failed(s, i, "unterminated string"@)
    } else if s[i] == '"' {
        Ok((Seq::empty(), i + 1))
    } else if s[i] == '\\' {
        match escape_at(s, i) {
            Err(e) => Err(e),
            Ok((c, next)) => if i < next <= s.len() {
                match chars_from(s, next) {
                    Err(e) => Err(e),
                    Ok((rest, end)) => Ok((seq![c] + rest, end)),
                }
            } else {
                failed(s, i, "invalid escape sequence"@)
            },
        }
    } else if (s[i] as nat) < 0x20 {
        failed(s, i, "raw control character in string"@)
    } else {
        match chars_from(s, i + 1) {
            Err(e) => Err(e),
            Ok((rest, end)) => Ok((seq![s[i]] + rest, end)),
        }
    }
}

/// The string at position `i`, which holds its opening quote.
pub open spec fn string_at(s: Seq<char>, i: int) -> Parsed<Seq<char>> {
    chars_from(s, i + 1)
}

/// There is a digit at position `i`.
pub open spec fn digit_at(s: Seq<char>, i: int) -> bool {
    0 <= i < s.len() && is_digit(s[i])
}

/// The end of the digits from position `i` on.
pub open spec fn after_digits(s: Seq<char>, i: int) -> int {
    i + digit_run(s.skip(i))
}

/// The number that `s[i..end]` spells: an integer where it is one and fits in
/// 128 bits, else the nearest double.
pub open spec fn number_value(s: Seq<char>, i: int, end: int, fraction: bool) -> Parsed<SpecJson> {
    let text = s.subrange(i, end);
    if !fraction && int_of_text(text) is Some {
        Ok((SpecJson::Int(int_of_text(text)->Some_0), end))
    } else {
        match double_of_text(text) {
            Some(bits) => Ok((SpecJson::Float(bits), end)),
            None => failed(s, end, "invalid number"@),
        }
    }
}

/// The number that starts at position `i`, from a possible exponent at `p` on.
pub open spec fn exponent_from(s: Seq<char>, i: int, p: int, fraction: bool) -> Parsed<SpecJson> {
    if at(s, p, 'e') || at(s, p, 'E') {
        let q = if at(s, p + 1, '+') || at(s, p + 1, '-') {
            p + 2
        } else {
            p + 1
        };
        if digit_at(s, q) {
            number_value(s, i, after_digits(s, q), true)
        } else {
            failed(s, q, "digit expected in exponent"@)
        }
    } else {
        number_value(s, i, p, fraction)
    }
}

/// The number that starts at position `i`, from a possible fraction at `p` on.
pub open spec fn fraction_from(s: Seq<char>, i: int, p: int) -> Parsed<SpecJson> {
    if at(s, p, '.') {
        if digit_at(s, p + 1) {
            exponent_from(s, i, after_digits(s, p + 1), true)
        } else {
            failed(s, p + 1, "digit expected after decimal point"@)
        }
    } else {
        exponent_from(s, i, p, false)
    }
}

/// The number at position `i`. Leading zeros are forbidden: "0" alone or a 1-9
/// start.
pub open spec fn number_at(s: Seq<char>, i: int) -> Parsed<SpecJson> {
    let p = if at(s, i, '-') {
        i + 1
    } else {
        i
    };
    if at(s, p, '0') {
        if digit_at(s, p + 1) {
            failed(s, p + 1, "leading zeros are not allowed"@)
        } else {
            fraction_from(s, i, p + 1)
        }
    } else if digit_at(s, p) {
        fraction_from(s, i, after_digits(s, p))
    } else {
        failed(s, p, "invalid number"@)
    }
}

/// The value at position `i`, with `room` levels of nesting left.
pub open spec fn value_from(s: Seq<char>, i: int, room: nat) -> Parsed<SpecJson>
    decreases room, 0int,
{
    if room == 0 {
        failed(s, i, "nesting deeper than "@ + dec(MAX_DEPTH as nat) + " levels"@)
    } else {
        let p = after_space(s, i);
        if p >= s.len() {
            failed(s, p, "unexpected end of input"@)
        } else if s[p] == '{' {
            let q = after_space(s, p + 1);
            if at(s, q, '}') {
                Ok((SpecJson::Obj(Seq::empty()), q + 1))
            } else {
                match members_from(s, p + 1, (room - 1) as nat) {
                    Ok((pairs, end)) => Ok((SpecJson::Obj(pairs), end)),
                    Err(e) => Err(e),
                }
            }
        } else if s[p] == '[' {
            let q = after_space(s, p + 1);
            if at(s, q, ']') {
                Ok((SpecJson::Arr(Seq::empty()), q + 1))
            } else {
                match elements_from(s, q, (room - 1) as nat) {
                    Ok((items, end)) => Ok((SpecJson::Arr(items), end)),
                    Err(e) => Err(e),
                }
            }
        } else if s[p] == '"' {
            match string_at(s, p) {
                Ok((text, end)) => Ok((SpecJson::Str(text), end)),
                Err(e) => Err(e),
            }
        } else if s[p] == 't' {
            word_at(s, p, "true"@, SpecJson::Bool(true))
        } else if s[p] == 'f' {
            word_at(s, p, "false"@, SpecJson::Bool(false))
        } else if s[p] == 'n' {
            word_at(s, p, "null"@, SpecJson::Null)
        } else if s[p] == '-' || is_digit(s[p]) {
            number_at(s, p)
        } else {
            failed(s, p, "unexpected character '"@ + seq![utf8_lead(s[p]) as char] + "'"@)
        }
    }
}

/// The elements of an array from position `i` on, and the position behind its
/// closing bracket.
pub open spec fn elements_from(s: Seq<char>, i: int, room: nat) -> Parsed<Seq<SpecJson>>
    decreases
            room,
            (if i <= s.len() {
                s.len() - i + 1
            } else {
                1
            }),
{
    match value_from(s, i, room) {
        Err(e) => Err(e),
        Ok((v, q)) => {
            let p = after_space(s, q);
            if i <= p && at(s, p, ',') {
                match elements_from(s, p + 1, room) {
                    Err(e) => Err(e),
                    Ok((rest, end)) => Ok((seq![v] + rest, end)),
                }
            } else if at(s, p, ']') {
                Ok((seq![v], p + 1))
            } else {
                failed(s, p, "expected ',' or ']'"@)
            }
        },
    }
}

/// The members of an object from position `i` on, and the position behind its
/// closing brace.
pub open spec fn members_from(s: Seq<char>, i: int, room: nat) -> Parsed<
    Seq<(Seq<char>, SpecJson)>,
>
    decreases
            room,
            (if i <= s.len() {
                s.len() - i + 1
            } else {
                1
            }),
{
    let k = after_space(s, i);
    if !at(s, k, '"') {
        failed(s, k, "expected a string key"@)
    } else {
        match string_at(s, k) {
            Err(e) => Err(e),
            Ok((key, r)) => {
                let c = after_space(s, r);
                if !at(s, c, ':') {
                    failed(s, c, "expected ':'"@)
                } else {
                    match value_from(s, c + 1, room) {
                        Err(e) => Err(e),
                        Ok((v, q)) => {
                            let p = after_space(s, q);
                            if i <= p && at(s, p, ',') {
                                match members_from(s, p + 1, room) {
                                    Err(e) => Err(e),
                                    Ok((rest, end)) => Ok((seq![(key, v)] + rest, end)),
                                }
                            } else if at(s, p, '}') {
                                Ok((seq![(key, v)], p + 1))
                            } else {
                                failed(s, p, "expected ',' or '}'"@)
                            }
                        },
                    }
                }
            },
        }
    }
}

/// The value of a complete document; trailing non-whitespace is an error.
pub open spec fn document(s: Seq<char>) -> Result<SpecJson, SpecJsonError> {
    match value_from(s, 0, (MAX_DEPTH + 1) as nat) {
        Err(e) => Err(e),
        Ok((v, q)) => {
            let p = after_space(s, q);
            if p != s.len() {
                match failed::<SpecJson>(s, p, "trailing characters after the JSON value"@) {
                    Err(e) => Err(e),
                    Ok((w, _)) => Ok(w),
                }
            } else {
                Ok(v)
            }
        },
    }
}

// ---------------------------------------------------------------------------
// Parsing
// ---------------------------------------------------------------------------

/// `r` is what the grammar gives.
spec fn parses<T: View>(r: Result<(T, usize), JsonError>, p: Parsed<T::V>, len: nat) -> bool {
    match (r, p) {
        (Ok((v, q)), Ok((w, e))) => v@ == w && q == e && q <= len,
        (Err(e), Err(f)) => e@ == f,
        _ => false,
    }
}

/// A text short enough for its positions to be counted.
#[verifier::opaque]
spec fn sized(s: Seq<char>) -> bool {
    byte_len(s) < usize::MAX
}

/// A text has no more characters than bytes.
proof fn lemma_len_within_bytes(s: Seq<char>)
    ensures
        s.len() <= byte_len(s),
    decreases s.len(),
{
    if s.len() > 0 {
        let t = s.drop_last();
        lemma_len_within_bytes(t);
        lemma_utf8_width(s.last());
        lemma_encode_concat(t, seq![s.last()]);
        assert(t + seq![s.last()] =~= s);
    }
}

/// The line and the column of a position are within its bytes.
proof fn lemma_byte_position_bound(s: Seq<char>)
    ensures
        1 <= byte_position(s).0 <= 1 + byte_len(s),
        1 <= byte_position(s).1 <= 1 + byte_len(s),
    decreases s.len(),
{
    if s.len() > 0 {
        let t = s.drop_last();
        lemma_byte_position_bound(t);
        lemma_utf8_width(s.last());
        lemma_encode_concat(t, seq![s.last()]);
        assert(t + seq![s.last()] =~= s);
    }
}

/// A part of a text has no more bytes than the whole.
proof fn lemma_byte_len_take(s: Seq<char>, i: int)
    requires
        0 <= i <= s.len(),
    ensures
        byte_len(s.take(i)) <= byte_len(s),
{
    lemma_encode_concat(s.take(i), s.skip(i));
    assert(s.take(i) + s.skip(i) =~= s);
}

/// The error for a failure at position `i`.
fn fail(s: &Vec<char>, i: usize, message: String) -> (e: JsonError)
    requires
        i <= s@.len(),
        s@.len() < usize::MAX,
        sized(s@),
    ensures
        Err::<(SpecJson, int), SpecJsonError>(e@) == failed::<SpecJson>(s@, i as int, message@),
        e@.message == message@,
        (e@.line, e@.col) == byte_position(s@.take(i as int)),
{
    let mut line: usize = 1;
    let mut col: usize = 1;
    let mut j: usize = 0;
    assert(s@.take(0) =~= Seq::<char>::empty());
    while j < i
        invariant
            j <= i <= s@.len(),
            s@.len() < usize::MAX,
        sized(s@),
            (line as nat, col as nat) == byte_position(s@.take(j as int)),
        decreases i - j,
    {
        proof {
            lemma_byte_position_bound(s@.take(j + 1));
            lemma_byte_len_take(s@, j + 1);
            reveal(sized);
            assert(s@.take(j + 1).drop_last() =~= s@.take(j as int));
        }
        let c = s[j];
        if c == '\n' {
            line += 1;
            col = 1;
        } else {
            col += width_of(c);
        }
        j += 1;
    }
    JsonError { message, line, col }
}

/// Skipping white space goes forward, up to the end, and leaves none to skip.
pub proof fn lemma_after_space(s: Seq<char>, i: int)
    requires
        0 <= i <= s.len(),
    ensures
        i <= after_space(s, i) <= s.len(),
        after_space(s, after_space(s, i)) == after_space(s, i),
    decreases s.len() - i,
{
    if i < s.len() && is_space(s[i]) {
        lemma_after_space(s, i + 1);
    }
}

/// The first position from `i` on that is not white space.
fn skip_ws(s: &Vec<char>, i: usize) -> (r: usize)
    requires
        i <= s@.len(),
    ensures
        r == after_space(s@, i as int),
        i <= r <= s@.len(),
{
    let mut j: usize = i;
    while j < s.len() && (s[j] == ' ' || s[j] == '\t' || s[j] == '\n' || s[j] == '\r')
        invariant
            i <= j <= s@.len(),
            after_space(s@, i as int) == after_space(s@, j as int),
        decreases s@.len() - j,
    {
        j += 1;
    }
    j
}

/// Whether the character at position `i` is `c`.
fn is_at(s: &Vec<char>, i: usize, c: char) -> (r: bool)
    ensures
        r == at(s@, i as int, c),
{
    i < s.len() && s[i] == c
}

/// Whether there is a digit at position `i`.
fn is_digit_at(s: &Vec<char>, i: usize) -> (r: bool)
    ensures
        r == digit_at(s@, i as int),
{
    i < s.len() && '0' <= s[i] && s[i] <= '9'
}

/// A fixed word with its value.
fn literal(s: &Vec<char>, i: usize, word: &str, value: Json) -> (r: Result<
    (Json, usize),
    JsonError,
>)
    requires
        i <= s@.len(),
        s@.len() < usize::MAX,
        sized(s@),
    ensures
        parses(r, word_at(s@, i as int, word@, value@), s@.len()),
{
    let w = chars_of(word);
    if starts_here(s, i, &w) {
        Ok((value, i + w.len()))
    } else {
        let mut m = "invalid literal (expected '".to_string();
        m.append(word);
        m.append("')");
        Err(fail(s, i, m))
    }
}

/// The value of a hexadecimal digit.
fn hex_digit_value(c: char) -> (r: Option<u32>)
    ensures
        match r {
            Some(d) => hex_value(c) == Some(d as nat) && d < 16,
            None => hex_value(c) is None,
        },
{
    if '0' <= c && c <= '9' {
        Some(c as u32 - '0' as u32)
    } else if 'a' <= c && c <= 'f' {
        Some(c as u32 - 'a' as u32 + 10)
    } else if 'A' <= c && c <= 'F' {
        Some(c as u32 - 'A' as u32 + 10)
    } else {
        None
    }
}

/// No digits spell zero; a character that is no digit spoils all that follows.
proof fn lemma_hex_number_none(s: Seq<char>, k: int)
    requires
        0 <= k <= s.len(),
        hex_number(s.take(k)) is None,
    ensures
        hex_number(s) is None,
    decreases s.len() - k,
{
    if k == s.len() {
        assert(s.take(k) =~= s);
    } else {
        assert(s.drop_last().take(k) =~= s.take(k));
        lemma_hex_number_none(s.drop_last(), k);
    }
}

/// The number that the hexadecimal digits `s[from..to]` spell.
fn read_hex(s: &Vec<char>, from: usize, to: usize) -> (r: Option<u32>)
    requires
        from <= to <= s@.len(),
        to - from <= 4,
    ensures
        match r {
            Some(v) => hex_number(s@.subrange(from as int, to as int)) == Some(v as nat) && v
                < 0x1_0000,
            None => hex_number(s@.subrange(from as int, to as int)) is None,
        },
{
    let ghost t = s@.subrange(from as int, to as int);
    let mut v: u32 = 0;
    let mut i: usize = from;
    let ghost mut bound: int = 1;
    assert(t.take(0) =~= Seq::<char>::empty());
    while i < to
        invariant
            from <= i <= to <= s@.len(),
            to - from <= 4,
            t == s@.subrange(from as int, to as int),
            hex_number(t.take(i - from)) == Some(v as nat),
            v < bound,
            i - from == 0 ==> bound == 1,
            i - from == 1 ==> bound == 0x10,
            i - from == 2 ==> bound == 0x100,
            i - from == 3 ==> bound == 0x1000,
            i - from == 4 ==> bound == 0x1_0000,
        decreases to - i,
    {
        assert(t.take(i - from + 1).drop_last() =~= t.take(i - from));
        assert(t.take(i - from + 1).last() == s@[i as int]);
        match hex_digit_value(s[i]) {
            None => {
                proof {
                    lemma_hex_number_none(t, i - from + 1);
                }
                return None;
            },
            Some(d) => {
                v = 16 * v + d;
            },
        }
        proof {
            bound = 16 * bound;
        }
        i += 1;
    }
    assert(t.take(i - from) =~= t);
    Some(v)
}

/// Whether `s[i..]` has at least four bytes in UTF-8.
fn has_four_bytes(s: &Vec<char>, i: usize) -> (r: bool)
    requires
        i <= s@.len(),
    ensures
        r == has_bytes(s@.skip(i as int), 4),
{
    proof {
        reveal_with_fuel(has_bytes, 2);
        reveal_with_fuel(can_cut, 2);
    }
    let mut left: usize = 4;
    let mut j: usize = i;
    while j < s.len()
        invariant
            i <= j <= s@.len(),
            0 < left <= 4,
            has_bytes(s@.skip(i as int), 4) == has_bytes(s@.skip(j as int), left as int),
        decreases s@.len() - j,
    {
        let w: usize = width_of(s[j]);
        assert(s@.skip(j as int)[0] == s@[j as int]);
        assert(s@.skip(j as int).drop_first() =~= s@.skip(j + 1));
        if w >= left {
            assert(has_bytes(s@.skip(j + 1), left - w));
            return true;
        }
        left = left - w;
        j += 1;
    }
    false
}

/// Whether `s[i..]` can be cut after four bytes without splitting a character.
fn can_cut_four(s: &Vec<char>, i: usize) -> (r: bool)
    requires
        i <= s@.len(),
    ensures
        r == can_cut(s@.skip(i as int), 4),
{
    proof {
        reveal_with_fuel(has_bytes, 2);
        reveal_with_fuel(can_cut, 2);
    }
    let mut left: usize = 4;
    let mut j: usize = i;
    while j < s.len()
        invariant
            i <= j <= s@.len(),
            0 < left <= 4,
            can_cut(s@.skip(i as int), 4) == can_cut(s@.skip(j as int), left as int),
        decreases s@.len() - j,
    {
        let w: usize = width_of(s[j]);
        assert(s@.skip(j as int)[0] == s@[j as int]);
        assert(s@.skip(j as int).drop_first() =~= s@.skip(j + 1));
        if w >= left {
            assert(can_cut(s@.skip(j + 1), left - w) == (w == left));
            return w == left;
        }
        left = left - w;
        j += 1;
    }
    false
}

/// The four hexadecimal digits at position `i`.
fn hex4(s: &Vec<char>, i: usize) -> (r: Result<(u32, usize), JsonError>)
    requires
        i <= s@.len(),
        s@.len() < usize::MAX,
        sized(s@),
    ensures
        match (r, hex4_at(s@, i as int)) {
            (Ok((v, q)), Ok((n, e))) => v == n && v < 0x1_0000 && q == e && q <= s@.len(),
            (Err(e), Err(f)) => e@ == f,
            _ => false,
        },
{
    let ghost t = s@.skip(i as int);
    if !has_four_bytes(s, i) {
        return Err(fail(s, i, "truncated \\u escape".to_string()));
    }
    if !can_cut_four(s, i) {
        return Err(fail(s, i, "invalid \\u escape".to_string()));
    }
    if s.len() - i >= 4 {
        assert(t.take(4)[0] == s@[i as int]);
        let from: usize = if s[i] == '+' {
            i + 1
        } else {
            i
        };
        assert(t.take(4).skip(1) =~= s@.subrange(i + 1, i + 4));
        assert(t.take(4) =~= s@.subrange(i as int, i + 4));
        match read_hex(s, from, i + 4) {
            Some(v) => {
                return Ok((v, i + 4));
            },
            None => {},
        }
    }
    Err(fail(s, i, "invalid \\u escape".to_string()))
}

/// `char::from_u32` gives the character with a code point; only surrogates and
/// numbers beyond the last code point have none.
pub assume_specification[ char::from_u32 ](n: u32) -> (r: Option<char>)
    ensures
        r is Some <==> (n < 0xd800 || 0xe000 <= n <= 0x10_ffff),
        r matches Some(c) ==> c == n as char,
;

/// The character of a `\u` escape, from behind the `u`.
fn unicode(s: &Vec<char>, i: usize) -> (r: Result<(char, usize), JsonError>)
    requires
        i <= s@.len(),
        s@.len() < usize::MAX,
        sized(s@),
    ensures
        match (r, unicode_at(s@, i as int)) {
            (Ok((c, q)), Ok((d, e))) => c == d && q == e && i + 4 <= q <= s@.len(),
            (Err(e), Err(f)) => e@ == f,
            _ => false,
        },
{
    match hex4(s, i) {
        Err(e) => Err(e),
        Ok((high, p)) => {
            if 0xd800 <= high && high < 0xdc00 {
                if !is_at(s, p, '\\') {
                    return Err(fail(s, p, "unpaired surrogate".to_string()));
                }
                if !is_at(s, p + 1, 'u') {
                    return Err(fail(s, p + 1, "unpaired surrogate".to_string()));
                }
                match hex4(s, p + 2) {
                    Err(e) => Err(e),
                    Ok((low, q)) => {
                        if low < 0xdc00 || low >= 0xe000 {
                            return Err(fail(s, q, "invalid low surrogate".to_string()));
                        }
                        let n: u32 = 0x1_0000 + (high - 0xd800) * 0x400 + (low - 0xdc00);
                        match char::from_u32(n) {
                            Some(c) => Ok((c, q)),
                            None => Err(fail(s, q, "invalid unicode escape".to_string())),
                        }
                    },
                }
            } else {
                match char::from_u32(high) {
                    Some(c) => Ok((c, p)),
                    None => Err(fail(s, p, "invalid unicode escape".to_string())),
                }
            }
        },
    }
}

/// The character of the escape sequence at position `i`, which holds the
/// backslash.
fn escape_sequence(s: &Vec<char>, i: usize) -> (r: Result<(char, usize), JsonError>)
    requires
        i < s@.len(),
        s@.len() < usize::MAX,
        sized(s@),
    ensures
        match (r, escape_at(s@, i as int)) {
            (Ok((c, q)), Ok((d, e))) => c == d && q == e && i < q <= s@.len(),
            (Err(e), Err(f)) => e@ == f,
            _ => false,
        },
{
    let p: usize = i + 1;
    if is_at(s, p, '"') {
        Ok(('"', p + 1))
    } else if is_at(s, p, '\\') {
        Ok(('\\', p + 1))
    } else if is_at(s, p, '/') {
        Ok(('/', p + 1))
    } else if is_at(s, p, 'b') {
        Ok(('\u{8}', p + 1))
    } else if is_at(s, p, 'f') {
        Ok(('\u{c}', p + 1))
    } else if is_at(s, p, 'n') {
        Ok(('\n', p + 1))
    } else if is_at(s, p, 'r') {
        Ok(('\r', p + 1))
    } else if is_at(s, p, 't') {
        Ok(('\t', p + 1))
    } else if is_at(s, p, 'u') {
        unicode(s, p + 1)
    } else {
        Err(fail(s, p, "invalid escape sequence".to_string()))
    }
}

/// Parsing the rest of something, behind what was parsed before.
spec fn prefixed<T>(whole: Parsed<Seq<T>>, done: Seq<T>, left: Parsed<Seq<T>>) -> bool {
    match left {
        Ok((rest, r)) => whole == Ok::<(Seq<T>, int), SpecJsonError>((done + rest, r)),
        Err(e) => whole == Err::<(Seq<T>, int), SpecJsonError>(e),
    }
}

/// Moving one item from what is left to what is done keeps the order.
proof fn lemma_prefixed_step<T>(done: Seq<T>, v: T)
    ensures
        forall|rest: Seq<T>| #[trigger] (done + (seq![v] + rest)) == done.push(v) + rest,
        done + seq![v] == done.push(v),
{
    assert forall|rest: Seq<T>| #[trigger] (done + (seq![v] + rest)) == done.push(v) + rest by {
        assert(done + (seq![v] + rest) =~= done.push(v) + rest);
    }
    assert(done + seq![v] =~= done.push(v));
}

/// The string at position `i`, which holds its opening quote.
fn string(s: &Vec<char>, i: usize) -> (r: Result<(String, usize), JsonError>)
    requires
        i < s@.len(),
        s@.len() < usize::MAX,
        sized(s@),
    ensures
        parses(r, string_at(s@, i as int), s@.len()),
        r matches Ok((_, q)) ==> i < q,
{
    let ghost whole = string_at(s@, i as int);
    let mut out = String::new();
    let mut p: usize = i + 1;
    assert(forall|t: Seq<char>| #[trigger] (Seq::<char>::empty() + t) =~= t);
    loop
        invariant
            i < p <= s@.len(),
            s@.len() < usize::MAX,
        sized(s@),
            whole == string_at(s@, i as int),
            prefixed(whole, out@, chars_from(s@, p as int)),
        decreases s@.len() - p,
    {
        if p >= s.len() {
            return Err(fail(s, p, "unterminated string".to_string()));
        }
        let c = s[p];
        proof {
            lemma_prefixed_step(out@, c);
        }
        if c == '"' {
            assert(out@ + Seq::<char>::empty() =~= out@);
            return Ok((out, p + 1));
        }
        if c == '\\' {
            match escape_sequence(s, p) {
                Err(e) => {
                    return Err(e);
                },
                Ok((d, next)) => {
                    proof {
                        lemma_prefixed_step(out@, d);
                    }
                    out.push(d);
                    p = next;
                },
            }
        } else if char_code(c) < 0x20 {
            return Err(fail(s, p, "raw control character in string".to_string()));
        } else {
            out.push(c);
            p += 1;
        }
    }
}

/// The number that `s[i..end]` spells.
fn finish_number(s: &Vec<char>, i: usize, end: usize, fraction: bool) -> (r: Result<
    (Json, usize),
    JsonError,
>)
    requires
        i <= end <= s@.len(),
        s@.len() < usize::MAX,
        sized(s@),
    ensures
        parses(r, number_value(s@, i as int, end as int, fraction), s@.len()),
{
    let text = string_of(s, i, end);
    if !fraction {
        match parse_i128(text.as_str()) {
            Some(v) => {
                return Ok((Json::Int(v), end));
            },
            None => {},
        }
    }
    match parse_double(text.as_str()) {
        Some(bits) => Ok((Json::Float(bits), end)),
        None => Err(fail(s, end, "invalid number".to_string())),
    }
}

/// The number that starts at position `i`, from a possible exponent at `p` on.
fn exponent(s: &Vec<char>, i: usize, p: usize, fraction: bool) -> (r: Result<
    (Json, usize),
    JsonError,
>)
    requires
        i <= p <= s@.len(),
        s@.len() < usize::MAX,
        sized(s@),
    ensures
        parses(r, exponent_from(s@, i as int, p as int, fraction), s@.len()),
{
    if is_at(s, p, 'e') || is_at(s, p, 'E') {
        let mut q: usize = p + 1;
        if is_at(s, q, '+') || is_at(s, q, '-') {
            q += 1;
        }
        if !is_digit_at(s, q) {
            return Err(fail(s, q, "digit expected in exponent".to_string()));
        }
        let end: usize = run_end(s, q);
        finish_number(s, i, end, true)
    } else {
        finish_number(s, i, p, fraction)
    }
}

/// The number that starts at position `i`, from a possible fraction at `p` on.
fn fraction(s: &Vec<char>, i: usize, p: usize) -> (r: Result<(Json, usize), JsonError>)
    requires
        i <= p <= s@.len(),
        s@.len() < usize::MAX,
        sized(s@),
    ensures
        parses(r, fraction_from(s@, i as int, p as int), s@.len()),
{
    if is_at(s, p, '.') {
        if !is_digit_at(s, p + 1) {
            return Err(fail(s, p + 1, "digit expected after decimal point".to_string()));
        }
        let end: usize = run_end(s, p + 1);
        exponent(s, i, end, true)
    } else {
        exponent(s, i, p, false)
    }
}

/// The number at position `i`.
fn number(s: &Vec<char>, i: usize) -> (r: Result<(Json, usize), JsonError>)
    requires
        i < s@.len(),
        s@.len() < usize::MAX,
        sized(s@),
    ensures
        parses(r, number_at(s@, i as int), s@.len()),
{
    let mut p: usize = i;
    if is_at(s, i, '-') {
        p += 1;
    }
    if is_at(s, p, '0') {
        if is_digit_at(s, p + 1) {
            return Err(fail(s, p + 1, "leading zeros are not allowed".to_string()));
        }
        fraction(s, i, p + 1)
    } else if is_digit_at(s, p) {
        let end: usize = run_end(s, p);
        fraction(s, i, end)
    } else {
        Err(fail(s, p, "invalid number".to_string()))
    }
}

/// The value at position `i`, with `room` levels of nesting left.
fn value(s: &Vec<char>, i: usize, room: usize) -> (r: Result<(Json, usize), JsonError>)
    requires
        i <= s@.len(),
        s@.len() < usize::MAX,
        sized(s@),
    ensures
        parses(r, value_from(s@, i as int, room as nat), s@.len()),
        r matches Ok((_, q)) ==> i <= q,
    decreases room, 0int,
{
    if room == 0 {
        let mut m = "nesting deeper than ".to_string();
        push_dec(&mut m, MAX_DEPTH as u128);
        m.append(" levels");
        return Err(fail(s, i, m));
    }
    let p: usize = skip_ws(s, i);
    if p >= s.len() {
        return Err(fail(s, p, "unexpected end of input".to_string()));
    }
    let c = s[p];
    if c == '{' {
        let q: usize = skip_ws(s, p + 1);
        if is_at(s, q, '}') {
            let none: Vec<(String, Json)> = Vec::new();
            proof {
                lemma_obj_view(none);
                assert(pairs_view(none@) =~= Seq::<(Seq<char>, SpecJson)>::empty());
            }
            return Ok((Json::Obj(none), q + 1));
        }
        match members(s, p + 1, room - 1) {
            Ok((pairs, end)) => {
                proof {
                    lemma_obj_view(pairs);
                }
                Ok((Json::Obj(pairs), end))
            },
            Err(e) => Err(e),
        }
    } else if c == '[' {
        let q: usize = skip_ws(s, p + 1);
        if is_at(s, q, ']') {
            let none: Vec<Json> = Vec::new();
            proof {
                lemma_arr_view(none);
                assert(items_view(none@) =~= Seq::<SpecJson>::empty());
            }
            return Ok((Json::Arr(none), q + 1));
        }
        match elements(s, q, room - 1) {
            Ok((items, end)) => {
                proof {
                    lemma_arr_view(items);
                }
                Ok((Json::Arr(items), end))
            },
            Err(e) => Err(e),
        }
    } else if c == '"' {
        match string(s, p) {
            Ok((text, end)) => Ok((Json::Str(text), end)),
            Err(e) => Err(e),
        }
    } else if c == 't' {
        literal(s, p, "true", Json::Bool(true))
    } else if c == 'f' {
        literal(s, p, "false", Json::Bool(false))
    } else if c == 'n' {
        literal(s, p, "null", Json::Null)
    } else if c == '-' || ('0' <= c && c <= '9') {
        number(s, p)
    } else {
        let mut m = "unexpected character '".to_string();
        m.push(lead_of(c) as char);
        m.append("'");
        assert(m@ =~= "unexpected character '"@ + seq![utf8_lead(c) as char] + "'"@);
        Err(fail(s, p, m))
    }
}

/// The elements of an array from position `i` on, and the position behind its
/// closing bracket.
fn elements(s: &Vec<char>, i: usize, room: usize) -> (r: Result<(Vec<Json>, usize), JsonError>)
    requires
        i <= s@.len(),
        s@.len() < usize::MAX,
        sized(s@),
    ensures
        match (r, elements_from(s@, i as int, room as nat)) {
            (Ok((v, q)), Ok((w, e))) => items_view(v@) == w && q == e && i <= q <= s@.len(),
            (Err(e), Err(f)) => e@ == f,
            _ => false,
        },
    decreases room, 1int,
{
    let ghost whole = elements_from(s@, i as int, room as nat);
    let mut items: Vec<Json> = Vec::new();
    let mut p: usize = i;
    assert(items_view(items@) =~= Seq::<SpecJson>::empty());
    assert(forall|t: Seq<SpecJson>| #[trigger] (Seq::<SpecJson>::empty() + t) =~= t);
    loop
        invariant
            i <= p <= s@.len(),
            s@.len() < usize::MAX,
        sized(s@),
            whole == elements_from(s@, i as int, room as nat),
            prefixed(whole, items_view(items@), elements_from(s@, p as int, room as nat)),
        decreases s@.len() - p,
    {
        match value(s, p, room) {
            Err(e) => {
                return Err(e);
            },
            Ok((v, q)) => {
                let ghost before = items_view(items@);
                items.push(v);
                proof {
                    lemma_prefixed_step(before, v@);
                    assert(items_view(items@) =~= before.push(v@));
                }
                let t: usize = skip_ws(s, q);
                if is_at(s, t, ',') {
                    p = t + 1;
                } else if is_at(s, t, ']') {
                    return Ok((items, t + 1));
                } else {
                    return Err(fail(s, t, "expected ',' or ']'".to_string()));
                }
            },
        }
    }
}

/// The members of an object from position `i` on, and the position behind its
/// closing brace.
fn members(s: &Vec<char>, i: usize, room: usize) -> (r: Result<
    (Vec<(String, Json)>, usize),
    JsonError,
>)
    requires
        i <= s@.len(),
        s@.len() < usize::MAX,
        sized(s@),
    ensures
        match (r, members_from(s@, i as int, room as nat)) {
            (Ok((v, q)), Ok((w, e))) => pairs_view(v@) == w && q == e && i <= q <= s@.len(),
            (Err(e), Err(f)) => e@ == f,
            _ => false,
        },
    decreases room, 1int,
{
    let ghost whole = members_from(s@, i as int, room as nat);
    let mut pairs: Vec<(String, Json)> = Vec::new();
    let mut p: usize = i;
    assert(pairs_view(pairs@) =~= Seq::<(Seq<char>, SpecJson)>::empty());
    assert(forall|t: Seq<(Seq<char>, SpecJson)>| #[trigger]
        (Seq::<(Seq<char>, SpecJson)>::empty() + t) =~= t);
    loop
        invariant
            i <= p <= s@.len(),
            s@.len() < usize::MAX,
        sized(s@),
            whole == members_from(s@, i as int, room as nat),
            prefixed(whole, pairs_view(pairs@), members_from(s@, p as int, room as nat)),
        decreases s@.len() - p,
    {
        let k: usize = skip_ws(s, p);
        if !is_at(s, k, '"') {
            return Err(fail(s, k, "expected a string key".to_string()));
        }
        match string(s, k) {
            Err(e) => {
                return Err(e);
            },
            Ok((key, after)) => {
                let c: usize = skip_ws(s, after);
                if !is_at(s, c, ':') {
                    return Err(fail(s, c, "expected ':'".to_string()));
                }
                match value(s, c + 1, room) {
                    Err(e) => {
                        return Err(e);
                    },
                    Ok((v, q)) => {
                        let ghost before = pairs_view(pairs@);
                        pairs.push((key, v));
                        proof {
                            lemma_prefixed_step(before, (key@, v@));
                            assert(pairs_view(pairs@) =~= before.push((key@, v@)));
                        }
                        let t: usize = skip_ws(s, q);
                        if is_at(s, t, ',') {
                            p = t + 1;
                        } else if is_at(s, t, '}') {
                            return Ok((pairs, t + 1));
                        } else {
                            return Err(fail(s, t, "expected ',' or '}'".to_string()));
                        }
                    },
                }
            },
        }
    }
}

/// Parse a complete JSON document; trailing non-whitespace is an error. (No
/// string is as long as an address can be large.)
pub fn parse(input: &str) -> (r: Result<Json, JsonError>)
    requires
        byte_len(input@) < usize::MAX,
    ensures
        match (r, document(input@)) {
            (Ok(v), Ok(w)) => v@ == w,
            (Err(e), Err(f)) => e@ == f,
            _ => false,
        },
{
    let s = chars_of(input);
    proof {
        lemma_len_within_bytes(s@);
        reveal(sized);
    }
    match value(&s, 0, MAX_DEPTH + 1) {
        Err(e) => Err(e),
        Ok((v, q)) => {
            let p: usize = skip_ws(&s, q);
            if p != s.len() {
                return Err(fail(&s, p, "trailing characters after the JSON value".to_string()));
            }
            Ok(v)
        },
    }
}

// ---------------------------------------------------------------------------
// Where errors point
// ---------------------------------------------------------------------------

/// An error names the 1-based line and column of a position in the text, or of
/// the one just past its end.
pub open spec fn points_into(s: Seq<char>, e: SpecJsonError) -> bool {
    &&& e.line >= 1
    &&& e.col >= 1
    &&& exists|i: int|
        0 <= i <= s.len() && #[trigger] byte_position(s.take(i)) == (e.line, e.col)
}

/// What was read from position `i` on ends in the text; an error points into it.
#[verifier::opaque]
spec fn stays_inside<T>(s: Seq<char>, i: int, p: Parsed<T>) -> bool {
    match p {
        Ok((_, q)) => i <= q <= s.len(),
        Err(e) => points_into(s, e),
    }
}

/// A failure at a position of the text points into it.
proof fn lemma_failed<T>(s: Seq<char>, i: int, k: int, message: Seq<char>)
    requires
        0 <= k <= s.len(),
    ensures
        stays_inside(s, i, failed::<T>(s, k, message)),
{
    reveal(stays_inside);
    lemma_byte_position_bound(s.take(k));
}

/// Hexadecimal digits stay inside the text.
proof fn lemma_hex4_inside(s: Seq<char>, i: int)
    requires
        0 <= i <= s.len(),
    ensures
        stays_inside(s, i, hex4_at(s, i)),
{
    reveal(stays_inside);
    lemma_failed::<nat>(s, i, i, "truncated \\u escape"@);
    lemma_failed::<nat>(s, i, i, "invalid \\u escape"@);
}

/// A `\u` escape stays inside the text.
proof fn lemma_unicode_inside(s: Seq<char>, i: int)
    requires
        0 <= i <= s.len(),
    ensures
        stays_inside(s, i, unicode_at(s, i)),
{
    reveal(stays_inside);
    lemma_hex4_inside(s, i);
    if let Ok((high, p)) = hex4_at(s, i) {
        lemma_failed::<char>(s, i, p, "unpaired surrogate"@);
        lemma_failed::<char>(s, i, p, "invalid unicode escape"@);
        if at(s, p, '\\') {
            lemma_failed::<char>(s, i, p + 1, "unpaired surrogate"@);
            if at(s, p + 1, 'u') {
                lemma_hex4_inside(s, p + 2);
                if let Ok((low, q)) = hex4_at(s, p + 2) {
                    lemma_failed::<char>(s, i, q, "invalid low surrogate"@);
                }
            }
        }
    }
}

/// An escape sequence stays inside the text.
proof fn lemma_escape_inside(s: Seq<char>, i: int)
    requires
        at(s, i, '\\'),
    ensures
        stays_inside(s, i, escape_at(s, i)),
{
    reveal(stays_inside);
    lemma_failed::<char>(s, i, i + 1, "invalid escape sequence"@);
    if at(s, i + 1, 'u') {
        lemma_unicode_inside(s, i + 2);
    }
}

/// The characters of a string stay inside the text.
proof fn lemma_chars_inside(s: Seq<char>, i: int)
    requires
        0 <= i <= s.len(),
    ensures
        stays_inside(s, i, chars_from(s, i)),
    decreases s.len() - i,
{
    reveal(stays_inside);
    lemma_failed::<Seq<char>>(s, i, i, "unterminated string"@);
    lemma_failed::<Seq<char>>(s, i, i, "invalid escape sequence"@);
    lemma_failed::<Seq<char>>(s, i, i, "raw control character in string"@);
    if at(s, i, '\\') {
        lemma_escape_inside(s, i);
        if let Ok((c, next)) = escape_at(s, i) {
            if i < next <= s.len() {
                lemma_chars_inside(s, next);
            }
        }
    } else if i < s.len() {
        lemma_chars_inside(s, i + 1);
    }
}

/// A run of digits stays inside the text.
proof fn lemma_after_digits(s: Seq<char>, i: int)
    requires
        0 <= i <= s.len(),
    ensures
        i <= after_digits(s, i) <= s.len(),
{
    lemma_digit_run(s.skip(i));
}

/// A number stays inside the text, from its exponent on.
proof fn lemma_exponent_inside(s: Seq<char>, i: int, p: int, fraction: bool)
    requires
        0 <= i <= p <= s.len(),
    ensures
        stays_inside(s, i, exponent_from(s, i, p, fraction)),
{
    reveal(stays_inside);
    lemma_failed::<SpecJson>(s, i, p, "invalid number"@);
    if at(s, p, 'e') || at(s, p, 'E') {
        let q = if at(s, p + 1, '+') || at(s, p + 1, '-') {
            p + 2
        } else {
            p + 1
        };
        lemma_failed::<SpecJson>(s, i, q, "digit expected in exponent"@);
        lemma_after_digits(s, q);
        lemma_failed::<SpecJson>(s, i, after_digits(s, q), "invalid number"@);
    }
}

/// A number stays inside the text, from its fraction on.
proof fn lemma_fraction_inside(s: Seq<char>, i: int, p: int)
    requires
        0 <= i <= p <= s.len(),
    ensures
        stays_inside(s, i, fraction_from(s, i, p)),
{
    if at(s, p, '.') {
        lemma_failed::<SpecJson>(s, i, p + 1, "digit expected after decimal point"@);
        lemma_after_digits(s, p + 1);
        lemma_exponent_inside(s, i, after_digits(s, p + 1), true);
    } else {
        lemma_exponent_inside(s, i, p, false);
    }
}

/// A number stays inside the text.
proof fn lemma_number_inside(s: Seq<char>, i: int)
    requires
        0 <= i <= s.len(),
    ensures
        stays_inside(s, i, number_at(s, i)),
{
    let p = if at(s, i, '-') {
        i + 1
    } else {
        i
    };
    lemma_failed::<SpecJson>(s, i, p, "invalid number"@);
    if at(s, p, '0') {
        lemma_failed::<SpecJson>(s, i, p + 1, "leading zeros are not allowed"@);
        lemma_fraction_inside(s, i, p + 1);
    } else if digit_at(s, p) {
        lemma_after_digits(s, p);
        lemma_fraction_inside(s, i, after_digits(s, p));
    }
}

/// A fixed word stays inside the text.
proof fn lemma_word_inside(s: Seq<char>, i: int, word: Seq<char>, v: SpecJson)
    requires
        0 <= i <= s.len(),
    ensures
        stays_inside(s, i, word_at(s, i, word, v)),
{
    reveal(stays_inside);
    lemma_failed::<SpecJson>(s, i, i, "invalid literal (expected '"@ + word + "')"@);
}

/// A value stays inside the text.
proof fn lemma_value_inside(s: Seq<char>, i: int, room: nat)
    requires
        0 <= i <= s.len(),
    ensures
        stays_inside(s, i, value_from(s, i, room)),
    decreases room, 0int,
{
    reveal(stays_inside);
    lemma_after_space(s, i);
    let p = after_space(s, i);
    lemma_failed::<SpecJson>(
        s,
        i,
        i,
        "nesting deeper than "@ + dec(MAX_DEPTH as nat) + " levels"@,
    );
    lemma_failed::<SpecJson>(s, i, p, "unexpected end of input"@);
    if room > 0 && p < s.len() {
        lemma_failed::<SpecJson>(
            s,
            i,
            p,
            "unexpected character '"@ + seq![utf8_lead(s[p]) as char] + "'"@,
        );
        lemma_after_space(s, p + 1);
        if s[p] == '{' {
            lemma_members_inside(s, p + 1, (room - 1) as nat);
        } else if s[p] == '[' {
            lemma_elements_inside(s, after_space(s, p + 1), (room - 1) as nat);
        } else if s[p] == '"' {
            lemma_chars_inside(s, p + 1);
        } else if s[p] == 't' {
            lemma_word_inside(s, p, "true"@, SpecJson::Bool(true));
        } else if s[p] == 'f' {
            lemma_word_inside(s, p, "false"@, SpecJson::Bool(false));
        } else if s[p] == 'n' {
            lemma_word_inside(s, p, "null"@, SpecJson::Null);
        } else {
            lemma_number_inside(s, p);
        }
    }
}

/// The elements of an array stay inside the text.
proof fn lemma_elements_inside(s: Seq<char>, i: int, room: nat)
    requires
        0 <= i <= s.len(),
    ensures
        stays_inside(s, i, elements_from(s, i, room)),
    decreases room, s.len() - i + 1,
{
    reveal(stays_inside);
    lemma_value_inside(s, i, room);
    if let Ok((v, q)) = value_from(s, i, room) {
        lemma_after_space(s, q);
        let p = after_space(s, q);
        lemma_failed::<Seq<SpecJson>>(s, i, p, "expected ',' or ']'"@);
        if at(s, p, ',') {
            lemma_elements_inside(s, p + 1, room);
        }
    }
}

/// The members of an object stay inside the text.
proof fn lemma_members_inside(s: Seq<char>, i: int, room: nat)
    requires
        0 <= i <= s.len(),
    ensures
        stays_inside(s, i, members_from(s, i, room)),
    decreases room, s.len() - i + 1,
{
    reveal(stays_inside);
    lemma_after_space(s, i);
    let k = after_space(s, i);
    lemma_failed::<Seq<(Seq<char>, SpecJson)>>(s, i, k, "expected a string key"@);
    if at(s, k, '"') {
        lemma_chars_inside(s, k + 1);
        if let Ok((key, r)) = string_at(s, k) {
            lemma_after_space(s, r);
            let c = after_space(s, r);
            lemma_failed::<Seq<(Seq<char>, SpecJson)>>(s, i, c, "expected ':'"@);
            if at(s, c, ':') {
                lemma_value_inside(s, c + 1, room);
                if let Ok((v, q)) = value_from(s, c + 1, room) {
                    lemma_after_space(s, q);
                    let p = after_space(s, q);
                    lemma_failed::<Seq<(Seq<char>, SpecJson)>>(s, i, p, "expected ',' or '}'"@);
                    if at(s, p, ',') {
                        lemma_members_inside(s, p + 1, room);
                    }
                }
            }
        }
    }
}

/// A value that is read ends behind its start, inside the text.
pub proof fn lemma_value_end(s: Seq<char>, i: int, room: nat)
    requires
        0 <= i <= s.len(),
    ensures
        value_from(s, i, room) matches Ok((_, q)) ==> i <= q <= s.len(),
{
    reveal(stays_inside);
    lemma_value_inside(s, i, room);
}

/// Every error of a document names a place: a 1-based line and column that are
/// those of a position in the text, or of the one just past its end.
pub proof fn law_errors_point_into_the_text(s: Seq<char>)
    ensures
        document(s) matches Err(e) ==> points_into(s, e),
{
    reveal(stays_inside);
    lemma_value_inside(s, 0, (MAX_DEPTH + 1) as nat);
    if let Ok((v, q)) = value_from(s, 0, (MAX_DEPTH + 1) as nat) {
        lemma_after_space(s, q);
        lemma_failed::<SpecJson>(
            s,
            0,
            after_space(s, q),
            "trailing characters after the JSON value"@,
        );
    }
}

// ---------------------------------------------------------------------------
// Encoding
// ---------------------------------------------------------------------------

/// One character as it stands in a JSON string.
pub open spec fn escaped(c: char) -> Seq<char> {
    if c == '"' {
        seq!['\\', '"']
    } else if c == '\\' {
        seq!['\\', '\\']
    } else if c == '\n' {
        seq!['\\', 'n']
    } else if c == '\r' {
        seq!['\\', 'r']
    } else if c == '\t' {
        seq!['\\', 't']
    } else if (c as nat) < 0x20 {
        seq!['\\', 'u', '0', '0', hex_char(c as int / 16), hex_char(c as int % 16)]
    } else {
        seq![c]
    }
}

/// A text as it stands in a JSON string, without the quotes.
pub open spec fn escaped_text(s: Seq<char>) -> Seq<char>
    decreases s.len(),
{
    if s.len() == 0 {
        Seq::empty()
    } else {
        escaped(s[0]) + escaped_text(s.drop_first())
    }
}

/// Append one character as it stands in a JSON string.
fn push_escaped(out: &mut String, c: char)
    ensures
        final(out)@ == old(out)@ + escaped(c),
{
    let n: u32 = char_code(c);
    if c == '"' {
        out.push('\\');
        out.push('"');
    } else if c == '\\' {
        out.push('\\');
        out.push('\\');
    } else if c == '\n' {
        out.push('\\');
        out.push('n');
    } else if c == '\r' {
        out.push('\\');
        out.push('r');
    } else if c == '\t' {
        out.push('\\');
        out.push('t');
    } else if n < 0x20 {
        out.push('\\');
        out.push('u');
        out.push('0');
        out.push('0');
        out.push(hex_digit((n / 16) as u8));
        out.push(hex_digit((n % 16) as u8));
    } else {
        out.push(c);
    }
    assert(out@ =~= old(out)@ + escaped(c));
}

/// Escape a string for embedding in JSON output (without the quotes).
pub fn escape(s: &str) -> (out: String)
    ensures
        out@ == escaped_text(s@),
{
    let chars = chars_of(s);
    let mut out = String::new();
    let mut i: usize = 0;
    assert(chars@.skip(0) =~= chars@);
    assert(out@ + escaped_text(chars@) =~= escaped_text(chars@));
    while i < chars.len()
        invariant
            i <= chars@.len(),
            out@ + escaped_text(chars@.skip(i as int)) == escaped_text(chars@),
        decreases chars@.len() - i,
    {
        let ghost before = out@;
        push_escaped(&mut out, chars[i]);
        proof {
            let left = chars@.skip(i as int);
            assert(left.drop_first() =~= chars@.skip(i + 1));
            let rest = escaped_text(left.drop_first());
            assert(before + (escaped(left[0]) + rest) =~= out@ + rest);
        }
        i += 1;
    }
    assert(out@ + Seq::<char>::empty() =~= out@);
    out
}

/// What separates a value from what precedes it: a new line and a margin in
/// pretty output, nothing in compact output.
pub open spec fn line_break(margin: Seq<char>, pretty: bool) -> Seq<char> {
    if pretty {
        seq!['\n'] + margin
    } else {
        Seq::empty()
    }
}

/// The margin one level further in.
pub open spec fn deeper(margin: Seq<char>) -> Seq<char> {
    margin + seq![' ', ' ']
}

/// A string with its quotes.
pub open spec fn quoted(s: Seq<char>) -> Seq<char> {
    seq!['"'] + escaped_text(s) + seq!['"']
}

/// The text of a value. `margin` is the indentation of the line it stands on.
pub open spec fn render(v: SpecJson, margin: Seq<char>, pretty: bool) -> Seq<char>
    decreases v, 0nat,
{
    match v {
        SpecJson::Null => "null"@,
        SpecJson::Bool(b) => if b {
            "true"@
        } else {
            "false"@
        },
        SpecJson::Int(i) => int_text(i),
        SpecJson::Float(bits) => if finite_64(bits) {
            exact_64(bits)
        } else {
            "null"@
        },
        SpecJson::Str(s) => quoted(s),
        SpecJson::Arr(items) => if items.len() == 0 {
            seq!['[', ']']
        } else {
            seq!['['] + render_items(items, deeper(margin), pretty) + line_break(margin, pretty)
                + seq![']']
        },
        SpecJson::Obj(pairs) => if pairs.len() == 0 {
            seq!['{', '}']
        } else {
            seq!['{'] + render_pairs(pairs, deeper(margin), pretty) + line_break(margin, pretty)
                + seq!['}']
        },
    }
}

/// The texts of array items, each on its line, with commas between them.
pub open spec fn render_items(items: Seq<SpecJson>, margin: Seq<char>, pretty: bool) -> Seq<char>
    decreases items, items.len(),
{
    if items.len() == 0 {
        Seq::empty()
    } else {
        line_break(margin, pretty) + render(items[0], margin, pretty) + if items.len() > 1 {
            seq![','] + render_items(items.subrange(1, items.len() as int), margin, pretty)
        } else {
            Seq::empty()
        }
    }
}

/// A member's key, up to its value.
pub open spec fn key_text(key: Seq<char>, pretty: bool) -> Seq<char> {
    quoted(key) + if pretty {
        seq![':', ' ']
    } else {
        seq![':']
    }
}

/// The texts of object members, each on its line, with commas between them.
pub open spec fn render_pairs(
    pairs: Seq<(Seq<char>, SpecJson)>,
    margin: Seq<char>,
    pretty: bool,
) -> Seq<char>
    decreases pairs, pairs.len(),
{
    if pairs.len() == 0 {
        Seq::empty()
    } else {
        line_break(margin, pretty) + key_text(pairs[0].0, pretty) + render(
            pairs[0].1,
            margin,
            pretty,
        ) + if pairs.len() > 1 {
            seq![','] + render_pairs(pairs.subrange(1, pairs.len() as int), margin, pretty)
        } else {
            Seq::empty()
        }
    }
}

/// Append a line break.
fn push_break(out: &mut String, margin: &str, pretty: bool)
    ensures
        final(out)@ == old(out)@ + line_break(margin@, pretty),
{
    if pretty {
        out.push('\n');
        out.append(margin);
    }
    assert(out@ =~= old(out)@ + line_break(margin@, pretty));
}

/// Append a string with its quotes.
fn push_quoted(out: &mut String, s: &str)
    ensures
        final(out)@ == old(out)@ + quoted(s@),
{
    out.push('"');
    let e = escape(s);
    out.append(e.as_str());
    out.push('"');
    assert(out@ =~= old(out)@ + quoted(s@));
}

/// Append a member's key, up to its value.
fn push_key(out: &mut String, key: &str, pretty: bool)
    ensures
        final(out)@ == old(out)@ + key_text(key@, pretty),
{
    push_quoted(out, key);
    out.push(':');
    if pretty {
        out.push(' ');
    }
    assert(out@ =~= old(out)@ + key_text(key@, pretty));
}

/// Concatenation is associative.
proof fn lemma_assoc(a: Seq<char>, b: Seq<char>, c: Seq<char>)
    ensures
        a + (b + c) == (a + b) + c,
{
    assert(a + (b + c) =~= (a + b) + c);
}

/// Append the text of a value.
fn encode_into(v: &Json, out: &mut String, margin: &str, pretty: bool)
    ensures
        final(out)@ == old(out)@ + render(v@, margin@, pretty),
    decreases v,
{
    match v {
        Json::Null => out.append("null"),
        Json::Bool(b) => if *b {
            out.append("true")
        } else {
            out.append("false")
        },
        Json::Int(i) => {
            let t = int_string(*i);
            out.append(t.as_str());
        },
        Json::Float(bits) => {
            if is_finite(*bits) {
                let t = exact_double(*bits);
                out.append(t.as_str());
            } else {
                // NaN/Inf have no JSON spelling; null keeps the output valid.
                out.append("null");
            }
        },
        Json::Str(s) => push_quoted(out, s.as_str()),
        Json::Arr(items) => {
            proof {
                lemma_arr_view(*items);
            }
            if items.len() == 0 {
                out.push('[');
                out.push(']');
                assert(out@ =~= old(out)@ + render(v@, margin@, pretty));
                return;
            }
            out.push('[');
            let mut inner = margin.to_string();
            inner.push(' ');
            inner.push(' ');
            assert(inner@ =~= deeper(margin@));
            let ghost start = out@;
            let ghost all = items_view(items@);
            let mut i: usize = 0;
            assert(all.subrange(0, all.len() as int) =~= all);
            while i < items.len()
                invariant
                    v matches Json::Arr(its) && its == items,
                    0 < items@.len(),
                    i <= items@.len(),
                    all == items_view(items@),
                    inner@ == deeper(margin@),
                    i == 0 ==> out@ == start,
                    0 < i < items@.len() ==> out@ + seq![','] + render_items(
                        all.subrange(i as int, all.len() as int),
                        inner@,
                        pretty,
                    ) == start + render_items(all, inner@, pretty),
                    i == items@.len() ==> out@ == start + render_items(all, inner@, pretty),
                decreases items@.len() - i,
            {
                let ghost before = out@;
                if i > 0 {
                    out.push(',');
                }
                let ghost comma = out@;
                push_break(out, inner.as_str(), pretty);
                encode_into(&items[i], out, inner.as_str(), pretty);
                proof {
                    let left = all.subrange(i as int, all.len() as int);
                    assert(left[0] == items@[i as int]@);
                    assert(left.subrange(1, left.len() as int) =~= all.subrange(
                        i + 1,
                        all.len() as int,
                    ));
                    let head = line_break(inner@, pretty) + render(left[0], inner@, pretty);
                    let next = all.subrange(i + 1, all.len() as int);
                    let rest = if left.len() > 1 {
                        seq![','] + render_items(next, inner@, pretty)
                    } else {
                        Seq::empty()
                    };
                    assert(render_items(left, inner@, pretty) == head + rest);
                    assert(out@ =~= comma + head);
                    if i == 0 {
                        assert(left =~= all);
                        assert(out@ + rest =~= start + (head + rest));
                    } else {
                        assert(comma =~= before + seq![',']);
                        assert(out@ + rest =~= before + seq![','] + (head + rest));
                    }
                    if left.len() > 1 {
                        assert(out@ + rest =~= out@ + seq![','] + render_items(
                            next,
                            inner@,
                            pretty,
                        ));
                    } else {
                        assert(out@ + rest =~= out@);
                    }
                }
                i += 1;
            }
            push_break(out, margin, pretty);
            out.push(']');
            assert(out@ =~= old(out)@ + render(v@, margin@, pretty));
        },
        Json::Obj(pairs) => {
            proof {
                lemma_obj_view(*pairs);
            }
            if pairs.len() == 0 {
                out.push('{');
                out.push('}');
                assert(out@ =~= old(out)@ + render(v@, margin@, pretty));
                return;
            }
            out.push('{');
            let mut inner = margin.to_string();
            inner.push(' ');
            inner.push(' ');
            assert(inner@ =~= deeper(margin@));
            let ghost start = out@;
            let ghost all = pairs_view(pairs@);
            let mut i: usize = 0;
            assert(all.subrange(0, all.len() as int) =~= all);
            while i < pairs.len()
                invariant
                    v matches Json::Obj(its) && its == pairs,
                    0 < pairs@.len(),
                    i <= pairs@.len(),
                    all == pairs_view(pairs@),
                    inner@ == deeper(margin@),
                    i == 0 ==> out@ == start,
                    0 < i < pairs@.len() ==> out@ + seq![','] + render_pairs(
                        all.subrange(i as int, all.len() as int),
                        inner@,
                        pretty,
                    ) == start + render_pairs(all, inner@, pretty),
                    i == pairs@.len() ==> out@ == start + render_pairs(all, inner@, pretty),
                decreases pairs@.len() - i,
            {
                let ghost before = out@;
                if i > 0 {
                    out.push(',');
                }
                let ghost comma = out@;
                push_break(out, inner.as_str(), pretty);
                push_key(out, pairs[i].0.as_str(), pretty);
                encode_into(&pairs[i].1, out, inner.as_str(), pretty);
                proof {
                    let left = all.subrange(i as int, all.len() as int);
                    assert(left[0] == (pairs@[i as int].0@, pairs@[i as int].1@));
                    assert(left.subrange(1, left.len() as int) =~= all.subrange(
                        i + 1,
                        all.len() as int,
                    ));
                    let head = line_break(inner@, pretty) + key_text(left[0].0, pretty) + render(
                        left[0].1,
                        inner@,
                        pretty,
                    );
                    let next = all.subrange(i + 1, all.len() as int);
                    let rest = if left.len() > 1 {
                        seq![','] + render_pairs(next, inner@, pretty)
                    } else {
                        Seq::empty()
                    };
                    assert(render_pairs(left, inner@, pretty) == head + rest);
                    let brk = line_break(inner@, pretty);
                    let key = key_text(left[0].0, pretty);
                    let text = render(left[0].1, inner@, pretty);
                    lemma_assoc(comma, brk + key, text);
                    lemma_assoc(comma, brk, key);
                    assert(out@ == comma + head);
                    lemma_assoc(comma, head, rest);
                    if i == 0 {
                        assert(left =~= all);
                    } else {
                        assert(comma =~= before + seq![',']);
                    }
                    if left.len() > 1 {
                        lemma_assoc(out@, seq![','], render_pairs(next, inner@, pretty));
                    } else {
                        assert(out@ + rest =~= out@);
                    }
                }
                i += 1;
            }
            push_break(out, margin, pretty);
            out.push('}');
            assert(out@ =~= old(out)@ + render(v@, margin@, pretty));
        },
    }
}

/// Compact single-line encoding.
pub fn encode(v: &Json) -> (out: String)
    ensures
        out@ == render(v@, Seq::empty(), false),
{
    let mut out = String::new();
    let margin = String::new();
    encode_into(v, &mut out, margin.as_str(), false);
    assert(margin@ =~= Seq::<char>::empty());
    assert(out@ =~= render(v@, Seq::empty(), false));
    out
}

/// Pretty encoding with two-space indentation, as printed by `dump`.
pub fn encode_pretty(v: &Json) -> (out: String)
    ensures
        out@ == render(v@, Seq::empty(), true),
{
    let mut out = String::new();
    let margin = String::new();
    encode_into(v, &mut out, margin.as_str(), true);
    assert(margin@ =~= Seq::<char>::empty());
    assert(out@ =~= render(v@, Seq::empty(), true));
    out
}

} // verus!
