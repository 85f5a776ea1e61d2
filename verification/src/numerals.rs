//! Numbers as they are written: digits, a fraction, an exponent. Every such text is
//! a number in a document and stands for the value that its digits spell.

use crate::exact::{lemma_magnitude_of_number, lemma_run_of};
use crate::float::{decimal_bits, decimal_of, digit_run, double_of_text, exponent_of};
use crate::json::{
    after_digits, after_space, at, digit_at, document, exponent_from, fraction_from, number_at,
    number_value, value_from, SpecJson, SpecJsonError,
};
use crate::text::{all_digits, digits_value, int_of_text, is_digit};
use vstd::prelude::*;
use vstd::string::*;

verus! {

/// How many characters of an exponent come before its digits: the `e`, and a sign.
pub open spec fn power_digits_at(power: Seq<char>) -> int {
    if power.len() > 1 && (power[1] == '+' || power[1] == '-') {
        2
    } else {
        1
    }
}

/// An exponent: `e` or `E`, a sign or none, and digits; or nothing.
pub open spec fn is_power(power: Seq<char>) -> bool {
    power.len() > 0 ==> {
        &&& power[0] == 'e' || power[0] == 'E'
        &&& power.len() > power_digits_at(power)
        &&& all_digits(power.skip(power_digits_at(power)))
    }
}

/// The number that an exponent spells.
pub open spec fn power_value(power: Seq<char>) -> int {
    if power.len() == 0 {
        0
    } else if power.len() > 1 && power[1] == '-' {
        -(digits_value(power.skip(2)) as int)
    } else {
        digits_value(power.skip(power_digits_at(power))) as int
    }
}

/// The text of a number without sign.
pub open spec fn numeral(whole: Seq<char>, fraction: Seq<char>, power: Seq<char>) -> Seq<char> {
    if fraction.len() > 0 {
        whole + (seq!['.'] + (fraction + power))
    } else {
        whole + power
    }
}

/// Digits, a fraction and an exponent make a number.
pub open spec fn is_numeral(whole: Seq<char>, fraction: Seq<char>, power: Seq<char>) -> bool {
    whole.len() > 0 && all_digits(whole) && all_digits(fraction) && is_power(power)
}

/// An exponent does not begin with a digit.
proof fn lemma_power_begins(power: Seq<char>)
    requires
        is_power(power),
    ensures
        power.len() > 0 ==> !is_digit(power[0]) && power[0] != '.',
        exponent_of(power) == Some(power_value(power)),
{
}

/// A number without sign is its digits, taken as one number, times the power of ten
/// that its exponent spells, less one for each digit behind the point.
pub proof fn law_what_numerals_stand_for(
    whole: Seq<char>,
    fraction: Seq<char>,
    power: Seq<char>,
)
    requires
        is_numeral(whole, fraction, power),
    ensures
        decimal_of(numeral(whole, fraction, power)) == Some(
            (digits_value(whole + fraction), power_value(power) - fraction.len()),
        ),
{
    let s = numeral(whole, fraction, power);
    let n = whole.len() as int;
    lemma_power_begins(power);
    if fraction.len() > 0 {
        let rest = seq!['.'] + (fraction + power);
        lemma_run_of(whole, rest);
        assert(s[n] == '.');
        assert(s.skip(n + 1) =~= fraction + power);
        lemma_run_of(fraction, power);
        let j = fraction.len() as int;
        assert(s.skip(n + 1 + j) =~= power);
        assert(s.take(n) + s.subrange(n + 1, n + 1 + j) =~= whole + fraction);
    } else {
        lemma_run_of(whole, power);
        if n < s.len() {
            assert(s[n] == power[0]);
        }
        assert(s.skip(n) =~= power);
        assert(s.take(n) + s.subrange(n, n) =~= whole + fraction);
    }
}

/// The point may stand before all digits, or behind them.
pub proof fn law_points_may_stand_first_or_last(digits: Seq<char>, power: Seq<char>)
    requires
        digits.len() > 0,
        all_digits(digits),
        is_power(power),
    ensures
        decimal_of(seq!['.'] + (digits + power)) == Some(
            (digits_value(digits), power_value(power) - digits.len()),
        ),
        decimal_of(digits + (seq!['.'] + power)) == Some(
            (digits_value(digits), power_value(power)),
        ),
{
    let none = Seq::<char>::empty();
    lemma_power_begins(power);
    let first = seq!['.'] + (digits + power);
    assert(digit_run(first) == 0);
    assert(first.skip(1) =~= digits + power);
    lemma_run_of(digits, power);
    let n = digits.len() as int;
    assert(first.skip(1 + n) =~= power);
    assert(first.take(0) + first.subrange(1, 1 + n) =~= digits);
    let last = digits + (seq!['.'] + power);
    lemma_run_of(digits, seq!['.'] + power);
    assert(last[n] == '.');
    assert(last.skip(n + 1) =~= none + power);
    lemma_run_of(none, power);
    assert(last.skip(n + 1) =~= power);
    assert(last.take(n) + last.subrange(n + 1, n + 1) =~= digits);
}

/// A number begins with a digit, or with a point and a digit.
pub proof fn law_how_numbers_begin(s: Seq<char>)
    ensures
        decimal_of(s) is Some ==> s.len() > 0 && (is_digit(s[0]) || (s[0] == '.' && s.len() > 1
            && is_digit(s[1]))),
{
    if decimal_of(s) is Some && (s.len() == 0 || !is_digit(s[0])) {
        assert(digit_run(s) == 0);
        assert(s.len() > 0 && s[0] == '.');
        let t = s.skip(1);
        assert(digit_run(t) > 0);
        assert(t[0] == s[1]);
    }
}

/// A sign in front of a number, or none.
pub open spec fn minus(negative: bool) -> Seq<char> {
    if negative {
        seq!['-']
    } else {
        Seq::empty()
    }
}

/// The double that a number stands for: the nearest one, with its sign.
pub proof fn law_numerals_are_doubles(
    negative: bool,
    whole: Seq<char>,
    fraction: Seq<char>,
    power: Seq<char>,
)
    requires
        is_numeral(whole, fraction, power),
    ensures
        ({
            let bits = decimal_bits(
                digits_value(whole + fraction),
                power_value(power) - fraction.len(),
            );
            &&& bits <= 0x7ff0_0000_0000_0000
            &&& double_of_text(minus(negative) + numeral(whole, fraction, power)) == Some(
                (bits + if negative {
                    0x8000_0000_0000_0000
                } else {
                    0int
                }) as u64,
            )
        }),
{
    let text = numeral(whole, fraction, power);
    law_what_numerals_stand_for(whole, fraction, power);
    assert(text[0] == whole[0]);
    assert(is_digit(whole[0]));
    lemma_magnitude_of_number(text);
    let s = minus(negative) + text;
    if negative {
        assert(s[0] == '-');
        assert(s.skip(1) =~= text);
    } else {
        assert(s =~= text);
    }
}

// ---------------------------------------------------------------------------
// In documents
// ---------------------------------------------------------------------------

/// Digits end where something else begins.
proof fn lemma_digits_passed(s: Seq<char>, p: int, digits: Seq<char>, rest: Seq<char>)
    requires
        0 <= p <= s.len(),
        s.skip(p) == digits + rest,
        all_digits(digits),
        rest.len() > 0 ==> !is_digit(rest[0]),
    ensures
        after_digits(s, p) == p + digits.len(),
        p + digits.len() <= s.len(),
        s.skip(p + digits.len()) == rest,
        digits.len() > 0 ==> digit_at(s, p) && s[p] == digits[0],
        !digit_at(s, p + digits.len()),
{
    lemma_run_of(digits, rest);
    let t = s.skip(p);
    assert(t.len() == s.len() - p);
    assert(s.skip(p + digits.len()) =~= rest) by {
        assert forall|k: int| 0 <= k < rest.len() implies s[p + digits.len() + k] == rest[k] by {
            assert(t[digits.len() + k] == rest[k]);
        }
    }
    if digits.len() > 0 {
        assert(t[0] == digits[0]);
        assert(is_digit(digits[0]));
    }
    if rest.len() > 0 {
        assert(t[digits.len() as int] == rest[0]);
    }
}

/// An exponent at the end of a number is passed over.
proof fn lemma_power_passed(s: Seq<char>, p: int, power: Seq<char>, fraction: bool)
    requires
        0 <= p <= s.len(),
        s.skip(p) == power,
        is_power(power),
    ensures
        exponent_from(s, 0, p, fraction) == number_value(
            s,
            0,
            s.len() as int,
            fraction || power.len() > 0,
        ),
        !at(s, p, '.'),
{
    let t = s.skip(p);
    if power.len() > 0 {
        assert(t[0] == s[p]);
        let k = power_digits_at(power);
        if power.len() > 1 {
            assert(t[1] == s[p + 1]);
        }
        let digits = power.skip(k);
        assert(s.skip(p + k) =~= digits + Seq::<char>::empty()) by {
            assert forall|j: int| 0 <= j < digits.len() implies s[p + k + j] == digits[j] by {
                assert(t[k + j] == power[k + j]);
            }
        }
        lemma_digits_passed(s, p + k, digits, Seq::empty());
        assert(is_digit(digits[0]));
    }
}

/// What follows the digits before the point.
spec fn behind_whole(fraction: Seq<char>, power: Seq<char>) -> Seq<char> {
    if fraction.len() > 0 {
        seq!['.'] + (fraction + power)
    } else {
        power
    }
}

/// A fraction and an exponent at the end of a number are passed over.
proof fn lemma_fraction_and_power_passed(
    s: Seq<char>,
    p: int,
    fraction: Seq<char>,
    power: Seq<char>,
)
    requires
        0 <= p <= s.len(),
        all_digits(fraction),
        is_power(power),
        s.skip(p) == behind_whole(fraction, power),
    ensures
        fraction_from(s, 0, p) == number_value(
            s,
            0,
            s.len() as int,
            fraction.len() > 0 || power.len() > 0,
        ),
{
    lemma_power_begins(power);
    if fraction.len() > 0 {
        let t = s.skip(p);
        assert(t.len() == s.len() - p);
        assert(t.len() == 1 + fraction.len() + power.len());
        assert(t[0] == s[p]);
        assert(s.skip(p + 1) =~= fraction + power) by {
            assert forall|k: int| 0 <= k < fraction.len() + power.len() implies s[p + 1 + k] == (
            fraction + power)[k] by {
                assert(t[1 + k] == (seq!['.'] + (fraction + power))[1 + k]);
            }
        }
        lemma_digits_passed(s, p + 1, fraction, power);
        lemma_power_passed(s, p + 1 + fraction.len(), power, true);
    } else {
        lemma_power_passed(s, p, power, false);
    }
}

/// A number from its first character to its last.
proof fn lemma_whole_number(
    negative: bool,
    whole: Seq<char>,
    fraction: Seq<char>,
    power: Seq<char>,
)
    requires
        is_numeral(whole, fraction, power),
        whole[0] == '0' ==> whole.len() == 1,
    ensures
        ({
            let s = minus(negative) + numeral(whole, fraction, power);
            &&& s.len() > 0
            &&& s[0] == '-' || is_digit(s[0])
            &&& number_at(s, 0) == number_value(
                s,
                0,
                s.len() as int,
                fraction.len() > 0 || power.len() > 0,
            )
        }),
{
    let sign = minus(negative);
    let s = sign + numeral(whole, fraction, power);
    let p = sign.len() as int;
    let rest = behind_whole(fraction, power);
    lemma_power_begins(power);
    assert(s.skip(p) =~= whole + rest);
    lemma_digits_passed(s, p, whole, rest);
    lemma_fraction_and_power_passed(s, p + whole.len(), fraction, power);
    assert(is_digit(whole[0]));
    assert(s[p] == whole[0]);
    if negative {
        assert(s[0] == '-');
    }
    if whole[0] == '0' {
        assert(!digit_at(s, p + 1));
    }
}

/// A number that goes on to the end is the document.
proof fn lemma_number_is_the_document(s: Seq<char>, v: SpecJson)
    requires
        s.len() > 0,
        s[0] == '-' || is_digit(s[0]),
        number_at(s, 0) == Ok::<(SpecJson, int), SpecJsonError>((v, s.len() as int)),
    ensures
        document(s) == Ok::<SpecJson, SpecJsonError>(v),
{
    assert(after_space(s, 0) == 0);
    assert(value_from(s, 0, 129) == number_at(s, 0));
    assert(after_space(s, s.len() as int) == s.len());
}

/// Every number is a document: an integer where it has neither fraction nor exponent
/// and fits in 128 bits, and else the double that it stands for. Only one that begins
/// with a zero and another digit is none.
pub proof fn law_numbers_are_documents(
    negative: bool,
    whole: Seq<char>,
    fraction: Seq<char>,
    power: Seq<char>,
)
    requires
        is_numeral(whole, fraction, power),
        whole[0] == '0' ==> whole.len() == 1,
    ensures
        ({
            let s = minus(negative) + numeral(whole, fraction, power);
            &&& double_of_text(s) is Some
            &&& document(s) == Ok::<SpecJson, SpecJsonError>(
                if fraction.len() == 0 && power.len() == 0 && int_of_text(s) is Some {
                    SpecJson::Int(int_of_text(s)->Some_0)
                } else {
                    SpecJson::Float(double_of_text(s)->Some_0)
                },
            )
        }),
{
    let s = minus(negative) + numeral(whole, fraction, power);
    law_numerals_are_doubles(negative, whole, fraction, power);
    lemma_whole_number(negative, whole, fraction, power);
    assert(s.subrange(0, s.len() as int) =~= s);
    let v = if fraction.len() == 0 && power.len() == 0 && int_of_text(s) is Some {
        SpecJson::Int(int_of_text(s)->Some_0)
    } else {
        SpecJson::Float(double_of_text(s)->Some_0)
    };
    lemma_number_is_the_document(s, v);
}

} // verus!
