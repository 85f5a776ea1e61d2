//! Floating-point numbers as texts and in two widths: which number is the nearest,
//! how texts name numbers, and what is not finite.

use crate::bignum::{exp10, exp2};
use crate::exact::{
    covers, covers_decimal, exponent_or_zero, lemma_covered_is_rounded, lemma_covers_scaled,
    lemma_covers_shifted, lemma_magnitude_of_number, lemma_nearest, lemma_number_text_read,
    number_text,
};
use crate::float::{
    decimal_bits, display_32, display_64, display_magnitude, double_of_text, downs, exact_64,
    exact_magnitude, infinity, inside, interval_of, least_power, lemma_exp10_add, lemma_exp10_pos,
    lemma_exp2_add, lemma_exp2_pos, lemma_exp2_values, lemma_interval_shape,
    lemma_least_power_bounds, lemma_normalized_shape, lower, magnitude_32, magnitude_64, mantissa,
    most_digits, narrowed, nearest, normalized, pick, plain_text, rounded, scale, shortest,
    shortest_from, tenfold, trimmed, ups, widened, zeros_text, Interval, Width,
};
use crate::text::{all_digits, dec, digits_value, int_text, is_digit, lemma_dec_roundtrip};
use vstd::prelude::*;
use vstd::string::*;

verus! {

// ---------------------------------------------------------------------------
// The nearest number
// ---------------------------------------------------------------------------

/// `num / den` is no further from `m * 2^q / units` than half of `2^q / units`, or
/// than a quarter of it below where the numbers there are twice as dense; and where
/// it is just as far, `m` is even.
pub open spec fn is_near(num: nat, den: nat, m: nat, q: nat, units: nat, dense: bool) -> bool {
    let at = 4 * (m * (den * exp2(q)));
    let here = 4 * (num * units);
    let above = 2 * (den * exp2(q));
    let below = if dense {
        den * exp2(q)
    } else {
        2 * (den * exp2(q))
    };
    if m % 2 == 0 {
        at <= here + below && here <= at + above
    } else {
        at < here + below && here < at + above
    }
}

/// The integer of a double with exponent field `e` and fraction field `f`.
pub open spec fn integer_64(e: nat, f: nat) -> nat {
    if e == 0 {
        f
    } else {
        0x10_0000_0000_0000 + f
    }
}

/// The integer of a single with exponent field `e` and fraction field `f`.
pub open spec fn integer_32(e: nat, f: nat) -> nat {
    if e == 0 {
        f
    } else {
        0x80_0000 + f
    }
}

/// The power of two that goes with the integer.
pub open spec fn power_of(e: nat) -> nat {
    if e <= 1 {
        0
    } else {
        (e - 1) as nat
    }
}

/// The parts of a double.
proof fn lemma_parts_64(e: nat, f: nat)
    requires
        f < 0x10_0000_0000_0000,
    ensures
        mantissa(e * 0x10_0000_0000_0000 + f, Width::Double) == integer_64(e, f),
        scale(e * 0x10_0000_0000_0000 + f, Width::Double) == power_of(e),
{
    lemma_exp2_values();
    let b = e * 0x10_0000_0000_0000 + f;
    assert(b / 0x10_0000_0000_0000 == e && b % 0x10_0000_0000_0000 == f);
}

/// The parts of a single.
proof fn lemma_parts_32(e: nat, f: nat)
    requires
        f < 0x80_0000,
    ensures
        mantissa(e * 0x80_0000 + f, Width::Single) == integer_32(e, f),
        scale(e * 0x80_0000 + f, Width::Single) == power_of(e),
{
    lemma_exp2_values();
    let b = e * 0x80_0000 + f;
    assert(b / 0x80_0000 == e && b % 0x80_0000 == f);
}

/// What is near a number lies in its interval.
proof fn lemma_near_is_covered(
    num: nat,
    den: nat,
    m: nat,
    q: nat,
    units: nat,
    dense: bool,
    b: nat,
    w: Width,
)
    requires
        is_near(num, den, m, q, units, dense),
        m == mantissa(b, w),
        q == scale(b, w),
        interval_of(b, w).den == 4 * units,
        interval_of(b, w).low == (if dense {
            exp2(q)
        } else {
            2 * exp2(q)
        }),
    ensures
        covers(interval_of(b, w), num, den),
{
    let i = interval_of(b, w);
    let p = exp2(q);
    assert(i.num * den == 4 * (m * (den * p))) by (nonlinear_arith)
        requires
            i.num == 4 * m * p,
    ;
    assert(num * i.den == 4 * (num * units)) by (nonlinear_arith)
        requires
            i.den == 4 * units,
    ;
    assert((2 * p) * den == 2 * (den * p)) by (nonlinear_arith);
    assert(p * den == den * p) by (nonlinear_arith);
    assert((i.num + i.high) * den == i.num * den + i.high * den) by (nonlinear_arith);
}

/// Of all doubles the nearest is taken; of two that are equally near, the one whose
/// integer is even. A double with exponent field `e` and fraction field `f` is its
/// integer, which has a leading one where `e` is not zero, times a power of two, in
/// units of 2^-1074.
pub proof fn law_nearest_double(num: nat, den: nat, e: nat, f: nat)
    requires
        den > 0,
        e < 2047,
        f < 0x10_0000_0000_0000,
        e + f > 0,
        is_near(num, den, integer_64(e, f), power_of(e), exp2(1074), f == 0 && e > 1),
    ensures
        rounded(num, den, Width::Double) == e * 0x10_0000_0000_0000 + f,
{
    let b = e * 0x10_0000_0000_0000 + f;
    lemma_parts_64(e, f);
    lemma_exp2_values();
    lemma_near_is_covered(
        num,
        den,
        integer_64(e, f),
        power_of(e),
        exp2(1074),
        f == 0 && e > 1,
        b,
        Width::Double,
    );
    lemma_covered_is_rounded(b, Width::Double, num, den);
}

/// Of all singles the nearest is taken; of two that are equally near, the one whose
/// integer is even. A single is made up as a double is, in units of 2^-149.
pub proof fn law_nearest_single(num: nat, den: nat, e: nat, f: nat)
    requires
        den > 0,
        e < 255,
        f < 0x80_0000,
        e + f > 0,
        is_near(num, den, integer_32(e, f), power_of(e), exp2(149), f == 0 && e > 1),
    ensures
        rounded(num, den, Width::Single) == e * 0x80_0000 + f,
{
    let b = e * 0x80_0000 + f;
    lemma_parts_32(e, f);
    lemma_exp2_values();
    lemma_near_is_covered(
        num,
        den,
        integer_32(e, f),
        power_of(e),
        exp2(149),
        f == 0 && e > 1,
        b,
        Width::Single,
    );
    lemma_covered_is_rounded(b, Width::Single, num, den);
}

/// What is no further from zero than from the least number is zero.
pub proof fn law_nearest_to_zero(num: nat, den: nat)
    requires
        den > 0,
    ensures
        2 * (num * exp2(1074)) <= den ==> rounded(num, den, Width::Double) == 0,
        2 * (num * exp2(149)) <= den ==> rounded(num, den, Width::Single) == 0,
{
    lemma_exp2_values();
    if 2 * (num * exp2(1074)) <= den {
        lemma_exp2_add(1021, 53);
        lemma_zero(num, den, exp2(1021), exp2(53));
    }
    if 2 * (num * exp2(149)) <= den {
        lemma_exp2_add(125, 24);
        lemma_zero(num, den, exp2(125), exp2(24));
    }
    assert(0 * exp2(52) == 0) by (nonlinear_arith);
    assert(0 * exp2(23) == 0) by (nonlinear_arith);
}

/// A ratio that is next to nothing.
proof fn lemma_zero(num: nat, den: nat, r: nat, t: nat)
    requires
        den > 0,
        t > 0,
        2 * (num * (r * t)) <= den,
    ensures
        least_power(num * r, den) == 0,
        nearest((num * r) * t, den * exp2(0)) == 0,
{
    let a = (num * r) * t;
    assert(a == num * (r * t)) by (nonlinear_arith)
        requires
            a == (num * r) * t,
    ;
    assert(num * r <= a) by (nonlinear_arith)
        requires
            a == (num * r) * t,
            t > 0,
    ;
    assert(exp2(0) == 1);
    assert(den * exp2(0) == den);
    assert(0 * den == 0) by (nonlinear_arith);
    lemma_nearest(a, den, 0);
}

/// What is at least half a step beyond the largest number is infinite.
pub proof fn law_too_large_is_infinite(num: nat, den: nat)
    requires
        den > 0,
    ensures
        2 * (num * exp2(1074)) >= 0x3f_ffff_ffff_ffff * (den * exp2(2045)) ==> rounded(
            num,
            den,
            Width::Double,
        ) == 0x7ff0_0000_0000_0000,
        2 * (num * exp2(149)) >= 0x1ff_ffff * (den * exp2(253)) ==> rounded(
            num,
            den,
            Width::Single,
        ) == 0x7f80_0000,
{
    lemma_exp2_values();
    lemma_exp2_add(1021, 53);
    lemma_exp2_add(125, 24);
    if 2 * (num * exp2(1074)) >= 0x3f_ffff_ffff_ffff * (den * exp2(2045)) {
        lemma_overflow(num, den, exp2(1021), 0x10_0000_0000_0000, 2047);
    }
    if 2 * (num * exp2(149)) >= 0x1ff_ffff * (den * exp2(253)) {
        lemma_overflow(num, den, exp2(125), 0x80_0000, 255);
    }
}

/// A ratio beyond the largest number with `top` exponents and `f` fractions.
proof fn lemma_overflow(num: nat, den: nat, r: nat, f: nat, top: nat)
    requires
        den > 0,
        f > 0,
        top >= 3,
        2 * (num * (r * (2 * f))) >= (4 * f - 1) * (den * exp2((top - 2) as nat)),
    ensures
        ({
            let n = num * r;
            let k = least_power(n, den);
            k * f + nearest(n * (2 * f), den * exp2(k)) >= top * f
        }),
{
    let n = num * r;
    let k = least_power(n, den);
    let a = n * (2 * f);
    let x = den * exp2(k);
    let y = den * exp2((top - 2) as nat);
    lemma_least_power_bounds(n, den);
    lemma_exp2_pos(k);
    lemma_exp2_pos((top - 2) as nat);
    assert(a == num * (r * (2 * f))) by (nonlinear_arith)
        requires
            a == (num * r) * (2 * f),
    ;
    assert(x > 0) by (nonlinear_arith)
        requires
            x == den * exp2(k),
            den > 0,
            exp2(k) >= 1,
    ;
    assert(y > 0) by (nonlinear_arith)
        requires
            y == den * exp2((top - 2) as nat),
            den > 0,
            exp2((top - 2) as nat) >= 1,
    ;
    assert(n < x);
    assert(a < (2 * f) * x) by (nonlinear_arith)
        requires
            a == n * (2 * f),
            n < x,
            f > 0,
    ;
    if k < top - 2 {
        let j = (top - 3) as nat;
        lemma_exp2_grows(k, j);
        assert(exp2((top - 2) as nat) == 2 * exp2(j));
        assert(2 * x <= y) by (nonlinear_arith)
            requires
                x == den * exp2(k),
                y == den * (2 * exp2(j)),
                exp2(k) <= exp2(j),
        ;
        assert(false) by (nonlinear_arith)
            requires
                a < (2 * f) * x,
                2 * a >= (4 * f - 1) * y,
                2 * x <= y,
                f > 0,
                y > 0,
        ;
    } else if k == top - 2 {
        let m = 2 * f;
        assert(2 * (m * x) <= 2 * a + x) by (nonlinear_arith)
            requires
                2 * a >= (4 * f - 1) * x,
                m == 2 * f,
        ;
        assert(2 * a <= 2 * (m * x) + x) by (nonlinear_arith)
            requires
                a < (2 * f) * x,
                m == 2 * f,
                x > 0,
        ;
        lemma_nearest(a, x, m);
        assert(k * f + m == top * f) by (nonlinear_arith)
            requires
                k == top - 2,
                m == 2 * f,
        ;
    } else {
        let half = den * exp2((k - 1) as nat);
        assert(exp2(k) == 2 * exp2((k - 1) as nat));
        assert(x == 2 * half) by (nonlinear_arith)
            requires
                x == den * (2 * exp2((k - 1) as nat)),
                half == den * exp2((k - 1) as nat),
        ;
        assert(half <= n);
        assert(f * x <= a) by (nonlinear_arith)
            requires
                x == 2 * half,
                half <= n,
                a == n * (2 * f),
        ;
        assert(a / x >= f) by {
            vstd::arithmetic::div_mod::lemma_div_is_ordered((f * x) as int, a as int, x as int);
            vstd::arithmetic::div_mod::lemma_div_by_multiple(f as int, x as int);
        }
        assert(k * f + f >= top * f) by (nonlinear_arith)
            requires
                k >= top - 1,
        ;
    }
}

/// Powers of two grow.
proof fn lemma_exp2_grows(a: nat, b: nat)
    requires
        a <= b,
    ensures
        exp2(a) <= exp2(b),
{
    lemma_exp2_add(a, (b - a) as nat);
    lemma_exp2_pos((b - a) as nat);
    let x = exp2(a);
    let y = exp2((b - a) as nat);
    assert(x <= x * y) by (nonlinear_arith)
        requires
            y >= 1,
    ;
}

// ---------------------------------------------------------------------------
// Texts
// ---------------------------------------------------------------------------

/// A decimal number is read as the double nearest to its digits, taken as one
/// number, times the power of ten that its exponent gives, less one for each digit
/// behind the point; a minus sign sets the sign bit, and a plus sign does nothing.
pub proof fn law_decimal_texts(whole: Seq<char>, fraction: Seq<char>, exponent: Option<int>)
    requires
        whole.len() > 0,
        all_digits(whole),
        all_digits(fraction),
    ensures
        ({
            let text = number_text(whole, fraction, exponent);
            let bits = decimal_bits(
                digits_value(whole + fraction),
                exponent_or_zero(exponent) - fraction.len(),
            );
            &&& bits <= 0x7ff0_0000_0000_0000
            &&& double_of_text(text) == Some(bits as u64)
            &&& double_of_text(seq!['+'] + text) == Some(bits as u64)
            &&& double_of_text(seq!['-'] + text) == Some((0x8000_0000_0000_0000 + bits) as u64)
        }),
{
    let text = number_text(whole, fraction, exponent);
    lemma_number_text_read(whole, fraction, exponent);
    assert(text[0] == whole[0]);
    assert(is_digit(whole[0]));
    lemma_magnitude_of_number(text);
    assert((seq!['+'] + text).skip(1) =~= text);
    assert((seq!['-'] + text).skip(1) =~= text);
}

/// A character is a letter, in upper or lower case.
pub open spec fn is_letter(c: char, small: char, capital: char) -> bool {
    c == small || c == capital
}

/// `nan`, `inf` and `infinity` name what is not finite, in whatever case and with a
/// sign in front of it or not.
pub proof fn law_named_numbers(s: Seq<char>)
    ensures
        s.len() == 3 && is_letter(s[0], 'n', 'N') && is_letter(s[1], 'a', 'A') && is_letter(
            s[2],
            'n',
            'N',
        ) ==> {
            &&& double_of_text(s) == Some(0x7ff8_0000_0000_0000u64)
            &&& double_of_text(seq!['-'] + s) == Some(0xfff8_0000_0000_0000u64)
        },
        s.len() == 3 && is_letter(s[0], 'i', 'I') && is_letter(s[1], 'n', 'N') && is_letter(
            s[2],
            'f',
            'F',
        ) ==> {
            &&& double_of_text(s) == Some(0x7ff0_0000_0000_0000u64)
            &&& double_of_text(seq!['+'] + s) == Some(0x7ff0_0000_0000_0000u64)
            &&& double_of_text(seq!['-'] + s) == Some(0xfff0_0000_0000_0000u64)
        },
{
    reveal_strlit("nan");
    reveal_strlit("inf");
    reveal_strlit("infinity");
    let t = s.map_values(|c: char| lower(c));
    assert((seq!['+'] + s).skip(1) =~= s);
    assert((seq!['-'] + s).skip(1) =~= s);
    if s.len() == 3 {
        assert(t[0] == lower(s[0]) && t[1] == lower(s[1]) && t[2] == lower(s[2]));
        if is_letter(s[0], 'n', 'N') && is_letter(s[1], 'a', 'A') && is_letter(s[2], 'n', 'N') {
            assert(t =~= "nan"@);
        }
        if is_letter(s[0], 'i', 'I') && is_letter(s[1], 'n', 'N') && is_letter(s[2], 'f', 'F') {
            assert(t =~= "inf"@);
            assert("nan"@[0] == 'n');
        }
    }
}

/// How numbers that are not finite are shown: `inf` and `-inf`, and `NaN` whatever
/// its sign.
pub proof fn law_how_what_is_not_finite_is_shown(bits: u64, single: u32)
    ensures
        display_64(0x7ff0_0000_0000_0000) == "inf"@,
        display_64(0xfff0_0000_0000_0000) == "-"@ + "inf"@,
        bits % 0x8000_0000_0000_0000 > 0x7ff0_0000_0000_0000 ==> display_64(bits) == "NaN"@,
        display_32(0x7f80_0000) == "inf"@,
        display_32(0xff80_0000) == "-"@ + "inf"@,
        single % 0x8000_0000 > 0x7f80_0000 ==> display_32(single) == "NaN"@,
{
    assert(Seq::<char>::empty() + "inf"@ =~= "inf"@);
    assert(Seq::<char>::empty() + "NaN"@ =~= "NaN"@);
}

/// A negative number is shown as the positive one with a minus sign before it.
pub proof fn law_minus_signs(bits: u64, single: u32)
    ensures
        bits <= 0x7ff0_0000_0000_0000 ==> display_64((0x8000_0000_0000_0000 + bits) as u64) == "-"@
            + display_64(bits),
        single <= 0x7f80_0000 ==> display_32((0x8000_0000 + single) as u32) == "-"@ + display_32(
            single,
        ),
{
    if bits <= 0x7ff0_0000_0000_0000 {
        assert(display_64(bits) =~= display_magnitude(bits as nat, Width::Double));
    }
    if single <= 0x7f80_0000 {
        assert(display_32(single) =~= display_magnitude(single as nat, Width::Single));
    }
}

/// A number that is written out has only digits and a point.
proof fn lemma_plain_characters(d: nat, x: int, pointed: bool, k: int)
    requires
        0 <= k < plain_text(d, x, pointed).len(),
    ensures
        is_digit(plain_text(d, x, pointed)[k]) || plain_text(d, x, pointed)[k] == '.',
{
    reveal_strlit("0.");
    reveal_strlit(".0");
    reveal_strlit(".");
    lemma_dec_roundtrip(d);
    let ds = dec(d);
    let at = ds.len() + x;
    let s = plain_text(d, x, pointed);
    assert forall|j: int| 0 <= j < ds.len() implies is_digit(#[trigger] ds[j]) by {}
    if at <= 0 {
        let zeros = zeros_text((-at) as nat);
        if k < 2 {
            assert(s[k] == "0."@[k]);
        } else if k < 2 + zeros.len() {
            assert(s[k] == zeros[k - 2]);
        } else {
            assert(s[k] == ds[k - 2 - zeros.len()]);
        }
    } else if x >= 0 {
        let zeros = zeros_text(x as nat);
        if k < ds.len() {
            assert(s[k] == ds[k]);
        } else if k < ds.len() + zeros.len() {
            assert(s[k] == zeros[k - ds.len()]);
        } else {
            assert(s[k] == ".0"@[k - ds.len() - zeros.len()]);
        }
    } else {
        if k < at {
            assert(s[k] == ds[k]);
        } else if k == at {
            assert(s[k] == '.');
        } else {
            assert(s[k] == ds[k - 1]);
        }
    }
}

/// Numbers are shown without exponents.
pub proof fn law_no_exponents_are_shown(bits: u64, k: int)
    requires
        bits < 0x7ff0_0000_0000_0000,
        0 <= k < display_64(bits).len(),
    ensures
        '0' <= display_64(bits)[k] <= '9' || display_64(bits)[k] == '.',
{
    reveal_strlit("0");
    let b = bits as nat;
    assert(display_64(bits) =~= display_magnitude(b, Width::Double));
    if b > 0 {
        let (d, x) = shortest(b, Width::Double);
        lemma_plain_characters(d, x, false, k);
    }
}

/// Numbers in documents have an exponent exactly where they are below one
/// ten-thousandth or from ten to the sixteenth on, and not zero.
pub proof fn law_exponents_in_documents(bits: u64)
    requires
        bits < 0x7ff0_0000_0000_0000,
    ensures
        exact_64(bits).contains('e') <==> 0 < bits < 0x3f1a_36e2_eb1c_432d || bits
            >= 0x4341_c379_37e0_8000,
{
    reveal_strlit("0.0");
    reveal_strlit("e");
    let b = bits as nat;
    let s = exact_magnitude(b);
    assert(exact_64(bits) =~= s);
    if b > 0 {
        let (d, x) = shortest(b, Width::Double);
        if b < 0x3f1a_36e2_eb1c_432d || b >= 0x4341_c379_37e0_8000 {
            let ds = dec(d);
            let front = ds.take(1) + if ds.len() > 1 {
                "."@ + ds.skip(1)
            } else {
                Seq::empty()
            };
            assert(s == front + "e"@ + int_text(ds.len() + x - 1));
            assert(s[front.len() as int] == 'e');
        } else {
            assert forall|k: int| 0 <= k < s.len() implies s[k] != 'e' by {
                lemma_plain_characters(d, x, true, k);
            }
        }
    } else {
        assert forall|k: int| 0 <= k < s.len() implies s[k] != 'e' by {
            assert(s[k] == "0.0"@[k]);
        }
    }
}

/// The last place of a decimal is not lowered by leaving out trailing zeros, and no
/// digits are added.
proof fn lemma_trimmed(d: nat, x: int)
    ensures
        trimmed(d, x).0 <= d,
        trimmed(d, x).1 >= x,
        d == 10 ==> trimmed(d, x).0 == 1,
    decreases d,
{
    if d > 0 && d % 10 == 0 {
        lemma_trimmed(d / 10, x + 1);
    }
}

/// Where the search for the shortest digits goes on, no coarser decimal lies in the
/// interval.
proof fn lemma_no_coarser_digits(i: Interval, n: nat, most: nat, k: nat, v: nat)
    requires
        i.den > 0,
        0 < i.low <= i.high,
        n <= k < shortest_from(i, n, most).1,
    ensures
        !covers(i, v, exp10((k - n) as nat)),
    decreases most - n,
{
    let d = i.num / i.den;
    vstd::arithmetic::div_mod::lemma_fundamental_div_mod(i.num as int, i.den as int);
    assert(i.den * d == d * i.den) by (nonlinear_arith);
    assert((d + 1) * i.den == d * i.den + i.den) by (nonlinear_arith);
    if k == n {
        assert(exp10(0) == 1);
        assert(i.num * 1 == i.num && i.low * 1 == i.low && (i.num + i.high) * 1 == i.num + i.high);
        if v <= d {
            assert(v * i.den <= d * i.den) by (nonlinear_arith)
                requires
                    v <= d,
            ;
        } else {
            assert((d + 1) * i.den <= v * i.den) by (nonlinear_arith)
                requires
                    d + 1 <= v,
            ;
        }
    } else {
        let j = tenfold(i);
        let g = exp10((k - n - 1) as nat);
        lemma_no_coarser_digits(j, n + 1, most, k, v);
        assert(exp10((k - n) as nat) == 10 * g);
        assert((10 * i.num) * g == i.num * (10 * g)) by (nonlinear_arith);
        assert((10 * i.low) * g == i.low * (10 * g)) by (nonlinear_arith);
        assert((10 * i.num + 10 * i.high) * g == (i.num + i.high) * (10 * g)) by (nonlinear_arith);
    }
}

/// The search for the shortest digits does not go back.
proof fn lemma_search_goes_on(i: Interval, n: nat, most: nat)
    ensures
        shortest_from(i, n, most).1 >= n,
        shortest_from(i, n, most).1 == n ==> shortest_from(i, n, most).0 == pick(i),
    decreases most - n,
{
    let d = i.num / i.den;
    if !(n >= most || inside(i, d) || inside(i, d + 1)) {
        lemma_search_goes_on(tenfold(i), n + 1, most);
    }
}

/// A decimal, on the scale of a number with one digit before the point.
proof fn lemma_on_its_scale(i: Interval, v: nat, k: nat)
    requires
        k >= 1,
    ensures
        covers_decimal(i, v, ups(i.num, i.den) - downs(i.num, i.den) - k + 1) == covers(
            normalized(i),
            v,
            exp10((k - 1) as nat),
        ),
{
    let j = normalized(i);
    let u = ups(i.num, i.den);
    let w = downs(i.num, i.den);
    let up = exp10(u);
    let down = exp10(w);
    let e = exp10((k - 1) as nat);
    let den = e * down;
    assert((i.num * down) * e == i.num * den) by (nonlinear_arith)
        requires
            den == e * down,
    ;
    assert(v * (i.den * up) == (v * up) * i.den) by (nonlinear_arith);
    assert((i.low * down) * e == i.low * den) by (nonlinear_arith)
        requires
            den == e * down,
    ;
    assert((i.num * down + i.high * down) * e == (i.num + i.high) * den) by (nonlinear_arith)
        requires
            den == e * down,
    ;
    assert(covers(i, v * up, den) == covers(j, v, e));
    let s = (k - 1 + w) as nat;
    lemma_exp10_add((k - 1) as nat, w);
    let x = u - w - k + 1;
    if x >= 0 {
        let g = exp10(x as nat);
        lemma_exp10_add(x as nat, s);
        assert(x + s == u);
        lemma_exp10_pos(s);
        assert(v * (g * den) == (v * g) * den) by (nonlinear_arith);
        lemma_covers_scaled(i, v * g, 1, den);
        assert(1 * den == den);
    } else {
        let g = exp10((-x) as nat);
        lemma_exp10_add((-x) as nat, u);
        assert(-x + u == s);
        lemma_exp10_pos(u);
        lemma_covers_scaled(i, v, g, up);
    }
}

/// No decimal whose last place is higher than that of the shortest one lies in the
/// interval of a number.
proof fn lemma_no_coarser_decimal(b: nat, w: Width, v: nat, y: int)
    requires
        0 < b < infinity(w),
        shortest(b, w).0 >= 10,
        y > shortest(b, w).1,
    ensures
        !covers_decimal(interval_of(b, w), v, y),
{
    let i = interval_of(b, w);
    let j = normalized(i);
    lemma_interval_shape(b, w);
    lemma_normalized_shape(i);
    let (d, n) = shortest_from(j, 1, most_digits(w));
    let e = ups(i.num, i.den) - downs(i.num, i.den);
    lemma_trimmed(d, e - n + 1);
    lemma_search_goes_on(j, 1, most_digits(w));
    if n <= 1 {
        assert(j.num / j.den < 10) by (nonlinear_arith)
            requires
                j.num < 10 * j.den,
                j.den > 0,
        ;
    }
    assert(n >= 2);
    if y <= e {
        let k = (e - y + 1) as nat;
        lemma_on_its_scale(i, v, k);
        lemma_no_coarser_digits(j, 1, most_digits(w), k, v);
    } else {
        let more = (y - e) as nat;
        lemma_covers_shifted(i, v, y, more);
        lemma_on_its_scale(i, v * exp10(more), 1);
        lemma_no_coarser_digits(j, 1, most_digits(w), 1, v * exp10(more));
    }
}

/// The digits that are printed for a double are as few as can be: with a higher last
/// place no decimal is nearer to it than to all others. (Where only one digit is
/// printed there is nothing to leave out.)
pub proof fn law_no_fewer_digits_would_do(e: nat, f: nat, v: nat, y: int)
    requires
        e < 2047,
        f < 0x10_0000_0000_0000,
        e + f > 0,
        shortest(e * 0x10_0000_0000_0000 + f, Width::Double).0 >= 10,
        y > shortest(e * 0x10_0000_0000_0000 + f, Width::Double).1,
    ensures
        y >= 0 ==> !is_near(
            v * exp10(y as nat),
            1,
            integer_64(e, f),
            power_of(e),
            exp2(1074),
            f == 0 && e > 1,
        ),
        y < 0 ==> !is_near(
            v,
            exp10((-y) as nat),
            integer_64(e, f),
            power_of(e),
            exp2(1074),
            f == 0 && e > 1,
        ),
{
    let b = e * 0x10_0000_0000_0000 + f;
    let m = integer_64(e, f);
    let q = power_of(e);
    let dense = f == 0 && e > 1;
    lemma_parts_64(e, f);
    lemma_exp2_values();
    lemma_no_coarser_decimal(b, Width::Double, v, y);
    if y >= 0 {
        if is_near(v * exp10(y as nat), 1, m, q, exp2(1074), dense) {
            lemma_near_is_covered(
                v * exp10(y as nat),
                1,
                m,
                q,
                exp2(1074),
                dense,
                b,
                Width::Double,
            );
        }
    } else if is_near(v, exp10((-y) as nat), m, q, exp2(1074), dense) {
        lemma_near_is_covered(v, exp10((-y) as nat), m, q, exp2(1074), dense, b, Width::Double);
    }
}

// ---------------------------------------------------------------------------
// The two widths
// ---------------------------------------------------------------------------

/// The 23 payload bits of a NaN, with the first of them set.
pub open spec fn quiet(payload: nat) -> nat {
    if payload < 0x40_0000 {
        payload + 0x40_0000
    } else {
        payload
    }
}

/// A finite double becomes the single nearest to it; one that is infinite stays so,
/// a NaN stays one with the upper bits of its payload, and the sign is kept.
pub proof fn law_narrowing(bits: u64, e: nat, f: nat)
    requires
        e <= 2047,
        f < 0x10_0000_0000_0000,
        bits == e * 0x10_0000_0000_0000 + f || bits == 0x8000_0000_0000_0000 + e
            * 0x10_0000_0000_0000 + f,
    ensures
        ({
            let sign: nat = if bits >= 0x8000_0000_0000_0000 {
                0x8000_0000
            } else {
                0
            };
            &&& e < 2047 ==> narrowed(bits) == sign + rounded(
                integer_64(e, f) * exp2(power_of(e)),
                exp2(1074),
                Width::Single,
            )
            &&& e == 2047 && f == 0 ==> narrowed(bits) == sign + 0x7f80_0000
            &&& e == 2047 && f > 0 ==> narrowed(bits) == sign + 0x7f80_0000 + quiet(
                f / 0x2000_0000,
            )
        }),
{
    lemma_parts_64(e, f);
    lemma_exp2_values();
    let b = e * 0x10_0000_0000_0000 + f;
    assert(magnitude_64(bits) == b);
    if e == 2047 && f > 0 {
        assert(exp2(29) == 0x2000_0000) by {
            reveal_with_fuel(exp2, 30);
        }
        assert(b % 0x10_0000_0000_0000 == f);
        assert(f / 0x2000_0000 < 0x80_0000);
    }
}

/// A single that is infinite becomes a double that is, a NaN becomes one with its
/// payload as the upper bits, and the sign is kept; zero stays zero.
pub proof fn law_widening(bits: u32, f: nat)
    requires
        f < 0x80_0000,
        bits == 0x7f80_0000 + f || bits == 0xff80_0000 + f,
    ensures
        ({
            let sign: nat = if bits >= 0x8000_0000 {
                0x8000_0000_0000_0000
            } else {
                0
            };
            &&& f == 0 ==> widened(bits) == sign + 0x7ff0_0000_0000_0000
            &&& f > 0 ==> widened(bits) == sign + 0x7ff0_0000_0000_0000 + quiet(f) * 0x2000_0000
        }),
        widened(0) == 0,
        widened(0x8000_0000) == 0x8000_0000_0000_0000,
{
    lemma_exp2_values();
    let b = 0x7f80_0000 + f;
    assert(magnitude_32(bits) == b);
    if f > 0 {
        assert(exp2(29) == 0x2000_0000) by {
            reveal_with_fuel(exp2, 30);
        }
        assert(b % 0x80_0000 == f);
    }
}

} // verus!
