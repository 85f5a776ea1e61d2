//! Printed doubles read back exactly: the text that [`crate::float`] writes for
//! a finite double names, of all doubles, that one.

use crate::bignum::{exp10, exp2};
use crate::float::{
    decimal_bits, decimal_of, digit_run, display_64, display_magnitude, double_of_text, downs,
    exact_64, exact_magnitude, exponent_of, exponent_text, finite_64, infinity, inside, interval_of,
    law_widening_is_exact, lemma_decimal_zero, lemma_digits_value_skip_zeros, lemma_exp10_17,
    lemma_exp10_add, lemma_exp10_pos, lemma_exp2_add, lemma_exp2_pos, lemma_exp2_values,
    lemma_interval_shape, lemma_least_power, lemma_normalized_shape, lower, magnitude_32,
    magnitude_64, magnitude_of_text, mantissa, most_digits, narrowed, nearest, normalized, pick,
    plain_text, precision, reach, rounded, scale, shortest, shortest_from, sign_text, spells,
    tenfold, trimmed, ups, widened, zeros_text, Interval, Width, LARGE_64, SIGN_64, SMALL_64,
};
use crate::text::{all_digits, dec, digits_value, int_text, is_digit, lemma_dec_roundtrip};
use vstd::prelude::*;

verus! {

/// `num / den` lies in the interval.
pub open spec fn covers(i: Interval, num: nat, den: nat) -> bool {
    if i.even {
        i.num * den <= num * i.den + i.low * den && num * i.den <= (i.num + i.high) * den
    } else {
        i.num * den < num * i.den + i.low * den && num * i.den < (i.num + i.high) * den
    }
}

/// What is at most half away from an integer is rounded to it, where ties lead
/// to an even one.
pub proof fn lemma_nearest(a: nat, b: nat, m: nat)
    requires
        b > 0,
        2 * a <= 2 * (m * b) + b,
        2 * (m * b) <= 2 * a + b,
        m % 2 == 1 ==> 2 * a < 2 * (m * b) + b && 2 * (m * b) < 2 * a + b,
    ensures
        nearest(a, b) == m,
{
    if a >= m * b {
        vstd::arithmetic::div_mod::lemma_fundamental_div_mod_converse(
            a as int,
            b as int,
            m as int,
            a - m * b,
        );
    } else {
        assert(m > 0) by (nonlinear_arith)
            requires
                a < m * b,
        ;
        assert((m - 1) * b == m * b - b) by (nonlinear_arith);
        vstd::arithmetic::div_mod::lemma_fundamental_div_mod_converse(
            a as int,
            b as int,
            m - 1,
            a - (m - 1) * b,
        );
    }
}

/// The bit pattern of a number, from its parts.
proof fn lemma_parts(b: nat, w: Width)
    requires
        0 < b < infinity(w),
    ensures
        ({
            let f = exp2((precision(w) - 1) as nat);
            let m = mantissa(b, w);
            let q = scale(b, w);
            &&& b == q * f + m
            &&& 0 < m < 2 * f
            &&& q > 0 ==> m >= f
            &&& f % 2 == 0
            &&& f > 2
            &&& exp2(precision(w)) == 2 * f
        }),
{
    lemma_exp2_values();
    let f = exp2((precision(w) - 1) as nat);
    if b >= f {
        let q = scale(b, w);
        assert(b == (b / f) * f + b % f) by {
            vstd::arithmetic::div_mod::lemma_fundamental_div_mod(b as int, f as int);
            assert(f * (b / f) == (b / f) * f) by (nonlinear_arith);
        }
        assert(b / f >= 1) by {
            vstd::arithmetic::div_mod::lemma_div_is_ordered(f as int, b as int, f as int);
            vstd::arithmetic::div_mod::lemma_div_by_self(f as int);
        }
        assert((q + 1) * f == q * f + f) by (nonlinear_arith);
    } else {
        assert(0 * f == 0) by (nonlinear_arith);
    }
}

/// Every ratio in the interval of a number is rounded to that number.
pub proof fn lemma_covered_is_rounded(b: nat, w: Width, num: nat, den: nat)
    requires
        0 < b < infinity(w),
        den > 0,
        covers(interval_of(b, w), num, den),
    ensures
        rounded(num, den, w) == b,
{
    let i = interval_of(b, w);
    let f = exp2((precision(w) - 1) as nat);
    let m = mantissa(b, w);
    let q = scale(b, w);
    lemma_parts(b, w);
    let p2 = exp2(q);
    let r = exp2(reach(w));
    let t = exp2(precision(w));
    lemma_exp2_add(reach(w), precision(w));
    lemma_exp2_pos(q);
    let n = num * r;
    let a = n * t;
    let x = den * p2;
    // The conditions of the interval, in terms of `a` and `x`.
    let l: nat = if m == f && q > 0 {
        1
    } else {
        2
    };
    assert(num * i.den == 4 * a) by (nonlinear_arith)
        requires
            i.den == 4 * (r * t),
            a == (num * r) * t,
    ;
    assert(i.num * den == 4 * (m * x)) by (nonlinear_arith)
        requires
            i.num == 4 * m * p2,
            x == den * p2,
    ;
    assert((i.num + i.high) * den == 4 * (m * x) + 2 * x) by (nonlinear_arith)
        requires
            i.num * den == 4 * (m * x),
            i.high == 2 * p2,
            x == den * p2,
    ;
    assert(i.low * den == l * x) by (nonlinear_arith)
        requires
            i.low == l * p2,
            x == den * p2,
    ;
    assert(x > 0) by (nonlinear_arith)
        requires
            den > 0,
            p2 >= 1,
            x == den * p2,
    ;
    assert(4 * (m * x) <= 4 * a + l * x);
    assert(4 * a <= 4 * (m * x) + 2 * x);
    assert(m * x <= 2 * (f * x) - x) by (nonlinear_arith)
        requires
            m < 2 * f,
            x > 0,
    ;
    assert(a == 2 * (n * f)) by (nonlinear_arith)
        requires
            a == n * t,
            t == 2 * f,
    ;
    assert(n < x) by (nonlinear_arith)
        requires
            a < 2 * (f * x),
            a == 2 * (n * f),
            f > 2,
    ;
    if q > 0 && m == f && a < f * x {
        let h = exp2((q - 1) as nat);
        let y = den * h;
        assert(x == 2 * y) by (nonlinear_arith)
            requires
                x == den * p2,
                p2 == 2 * h,
                y == den * h,
        ;
        assert(f * x == 2 * (f * y)) by (nonlinear_arith)
            requires
                x == 2 * y,
        ;
        assert(n < y) by (nonlinear_arith)
            requires
                2 * (n * f) < 2 * (f * y),
                f > 2,
        ;
        if q > 1 {
            let g = exp2((q - 2) as nat);
            let z = den * g;
            assert(y == 2 * z) by (nonlinear_arith)
                requires
                    y == den * h,
                    h == 2 * g,
                    z == den * g,
            ;
            assert(f * y == 2 * (f * z)) by (nonlinear_arith)
                requires
                    y == 2 * z,
            ;
            assert(f * z >= z) by (nonlinear_arith)
                requires
                    f > 2,
            ;
            // 4 * a >= 16 * f * z - 4 * z
            assert(z <= n) by (nonlinear_arith)
                requires
                    n * f >= f * z,
                    f > 2,
            ;
        }
        lemma_least_power(n, den, (q - 1) as nat);
        assert((2 * f) * y == 2 * (f * y)) by (nonlinear_arith);
        lemma_nearest(a, y, 2 * f);
        assert((q - 1) * f + 2 * f == q * f + f) by (nonlinear_arith);
    } else {
        if q > 0 {
            let h = exp2((q - 1) as nat);
            let y = den * h;
            assert(x == 2 * y) by (nonlinear_arith)
                requires
                    x == den * p2,
                    p2 == 2 * h,
                    y == den * h,
            ;
            if m > f {
                assert(m * x >= f * x + x) by (nonlinear_arith)
                    requires
                        m >= f + 1,
                ;
            }
            assert(a >= f * x);
            assert(f * x == 2 * (f * y)) by (nonlinear_arith)
                requires
                    x == 2 * y,
            ;
            assert(y <= n) by (nonlinear_arith)
                requires
                    n * f >= f * y,
                    f > 2,
            ;
        }
        lemma_least_power(n, den, q);
        lemma_nearest(a, x, m);
    }
}

/// A number is the nearest one to itself: narrowing the double that equals a
/// single gives that single, bit for bit.
pub proof fn law_narrowing_undoes_widening(bits: u32)
    requires
        magnitude_32(bits) <= infinity(Width::Single),
    ensures
        narrowed(widened(bits)) == bits,
{
    let w = Width::Single;
    let b = magnitude_32(bits);
    if b < infinity(w) {
        law_widening_is_exact(bits);
        let c = magnitude_64(widened(bits));
        let m = mantissa(b, w);
        let q = scale(b, w);
        let num = mantissa(c, Width::Double) * exp2(scale(c, Width::Double));
        let den = exp2(1074);
        lemma_exp2_pos(1074);
        if b == 0 {
            lemma_exp2_values();
            let e = exp2(q + 925);
            assert(m * e == 0) by (nonlinear_arith)
                requires
                    m == 0,
            ;
            lemma_zero_is_rounded(den);
        } else {
            let i = interval_of(b, w);
            let p2 = exp2(q);
            lemma_exp2_add(q, 925);
            lemma_exp2_add(149, 925);
            let e = exp2(925);
            let f = exp2(149);
            assert(num * i.den == i.num * den) by (nonlinear_arith)
                requires
                    num == m * (p2 * e),
                    i.den == 4 * f,
                    i.num == 4 * m * p2,
                    den == f * e,
            ;
            lemma_interval_shape(b, w);
            let d = den;
            assert(i.low * d > 0) by (nonlinear_arith)
                requires
                    i.low > 0,
                    d >= 1,
            ;
            assert((i.num + i.high) * d > i.num * d) by (nonlinear_arith)
                requires
                    i.high > 0,
                    d >= 1,
            ;
            lemma_covered_is_rounded(b, w, num, den);
        }
    }
}

/// Nothing is rounded to zero.
proof fn lemma_zero_is_rounded(den: nat)
    requires
        den > 0,
    ensures
        rounded(0, den, Width::Single) == 0,
{
    lemma_exp2_values();
    let r = exp2(reach(Width::Single));
    let t = exp2(precision(Width::Single));
    assert(0 * r == 0) by (nonlinear_arith);
    assert(0 * t == 0) by (nonlinear_arith);
    assert(den * exp2(0) == den) by (nonlinear_arith)
        requires
            exp2(0) == 1,
    ;
    lemma_least_power(0, den, 0);
    lemma_nearest(0, den, 0);
    assert(0 * exp2(23) == 0) by (nonlinear_arith);
}

/// Multiplying both sides of a ratio changes nothing.
pub proof fn lemma_covers_scaled(i: Interval, num: nat, den: nat, c: nat)
    requires
        c > 0,
    ensures
        covers(i, num * c, den * c) == covers(i, num, den),
{
    let a = i.num * den;
    let b = num * i.den;
    let l = i.low * den;
    let h = (i.num + i.high) * den;
    assert(i.num * (den * c) == a * c) by (nonlinear_arith)
        requires
            a == i.num * den,
    ;
    assert((num * c) * i.den == b * c) by (nonlinear_arith)
        requires
            b == num * i.den,
    ;
    assert(i.low * (den * c) == l * c) by (nonlinear_arith)
        requires
            l == i.low * den,
    ;
    assert((i.num + i.high) * (den * c) == h * c) by (nonlinear_arith)
        requires
            h == (i.num + i.high) * den,
    ;
    assert(b * c + l * c == (b + l) * c) by (nonlinear_arith);
    assert((a * c <= (b + l) * c) == (a <= b + l)) by (nonlinear_arith)
        requires
            c > 0,
    ;
    assert((a * c < (b + l) * c) == (a < b + l)) by (nonlinear_arith)
        requires
            c > 0,
    ;
    assert((b * c <= h * c) == (b <= h)) by (nonlinear_arith)
        requires
            c > 0,
    ;
    assert((b * c < h * c) == (b < h)) by (nonlinear_arith)
        requires
            c > 0,
    ;
}

/// A ratio lies in the interval just when ten times the ratio lies in the
/// interval ten times as large.
proof fn lemma_covers_tenfold(i: Interval, num: nat, den: nat)
    requires
        covers(tenfold(i), num, den),
    ensures
        covers(i, num, 10 * den),
{
    assert((10 * i.num) * den == i.num * (10 * den)) by (nonlinear_arith);
    assert((10 * i.low) * den == i.low * (10 * den)) by (nonlinear_arith);
    assert((10 * i.num + 10 * i.high) * den == (i.num + i.high) * (10 * den)) by (nonlinear_arith);
}

/// Where the search for the shortest digits ends, the digits lie in the
/// interval; the last number of digits is enough where the interval is then
/// wider than one.
proof fn lemma_shortest_from(i: Interval, n: nat, most: nat)
    requires
        i.den > 0,
        0 < i.low <= i.high,
        i.num >= i.den,
        n <= most,
        (i.low + i.high) * exp10((most - n) as nat) > i.den,
    ensures
        ({
            let (d, k) = shortest_from(i, n, most);
            &&& d > 0
            &&& n <= k <= most
            &&& covers(i, d, exp10((k - n) as nat))
        }),
    decreases most - n,
{
    let d = i.num / i.den;
    vstd::arithmetic::div_mod::lemma_fundamental_div_mod(i.num as int, i.den as int);
    let r = i.num % i.den;
    assert(i.den * d == d * i.den) by (nonlinear_arith);
    assert(d > 0) by (nonlinear_arith)
        requires
            d * i.den + r >= i.den,
            r < i.den,
    ;
    assert((d + 1) * i.den == d * i.den + i.den) by (nonlinear_arith);
    if n >= most || inside(i, d) || inside(i, d + 1) {
        assert(exp10(0) == 1);
        if n >= most {
            assert((i.low + i.high) * exp10(0) == i.low + i.high) by (nonlinear_arith)
                requires
                    exp10(0) == 1,
            ;
            assert(r < i.low || i.den - r < i.high);
            assert(inside(i, d) || inside(i, d + 1));
        }
        let v = pick(i);
        assert(inside(i, v));
        assert(covers(i, v, 1)) by {
            assert(i.num * 1 == i.num);
            assert(i.low * 1 == i.low);
            assert((i.num + i.high) * 1 == i.num + i.high);
        }
    } else {
        let j = tenfold(i);
        let e = exp10((most - n - 1) as nat);
        assert((10 * i.low + 10 * i.high) * e == (i.low + i.high) * (10 * e)) by (nonlinear_arith);
        lemma_shortest_from(j, n + 1, most);
        let (v, k) = shortest_from(j, n + 1, most);
        lemma_covers_tenfold(i, v, exp10((k - n - 1) as nat));
    }
}

/// `d * 10^x` lies in the interval.
pub open spec fn covers_decimal(i: Interval, d: nat, x: int) -> bool {
    if x >= 0 {
        covers(i, d * exp10(x as nat), 1)
    } else {
        covers(i, d, exp10((-x) as nat))
    }
}

/// Zeros may be moved from the power of ten into the digits.
pub proof fn lemma_covers_shifted(i: Interval, d: nat, x: int, j: nat)
    ensures
        covers_decimal(i, d * exp10(j), x - j) == covers_decimal(i, d, x),
{
    let e = exp10(j);
    if x >= j {
        let g = exp10((x - j) as nat);
        lemma_exp10_add(j, (x - j) as nat);
        assert((d * e) * g == d * (e * g)) by (nonlinear_arith);
    } else if x >= 0 {
        let g = exp10(x as nat);
        let c = exp10((j - x) as nat);
        lemma_exp10_add(x as nat, (j - x) as nat);
        lemma_exp10_pos((j - x) as nat);
        assert((d * g) * c == d * (g * c)) by (nonlinear_arith);
        lemma_covers_scaled(i, d * g, 1, c);
        assert(1 * c == c);
    } else {
        let g = exp10((-x) as nat);
        lemma_exp10_add((-x) as nat, j);
        lemma_exp10_pos(j);
        lemma_covers_scaled(i, d, g, e);
    }
}

/// Trailing zeros may be left out.
proof fn lemma_covers_trimmed(i: Interval, d: nat, x: int)
    requires
        d > 0,
        covers_decimal(i, d, x),
    ensures
        trimmed(d, x).0 > 0,
        covers_decimal(i, trimmed(d, x).0, trimmed(d, x).1),
    decreases d,
{
    if d % 10 == 0 {
        let e = d / 10;
        assert(exp10(1) == 10 * exp10(0));
        assert(exp10(0) == 1);
        assert(e * exp10(1) == d) by (nonlinear_arith)
            requires
                exp10(1) == 10,
                d == 10 * e,
        ;
        lemma_covers_shifted(i, e, x + 1, 1);
        lemma_covers_trimmed(i, e, x + 1);
    }
}

/// The last number of digits is always enough.
proof fn lemma_most_digits(b: nat, w: Width)
    requires
        0 < b < infinity(w),
    ensures
        ({
            let j = normalized(interval_of(b, w));
            (j.low + j.high) * exp10((most_digits(w) - 1) as nat) > j.den
        }),
{
    let i = interval_of(b, w);
    let j = normalized(i);
    let f = exp2((precision(w) - 1) as nat);
    let m = mantissa(b, w);
    let q = scale(b, w);
    let p2 = exp2(q);
    lemma_parts(b, w);
    lemma_exp2_values();
    lemma_exp10_17();
    lemma_exp2_pos(q);
    lemma_interval_shape(b, w);
    lemma_normalized_shape(i);
    let down = exp10(downs(i.num, i.den));
    lemma_exp10_pos(downs(i.num, i.den));
    let c = p2 * down;
    let e = exp10((most_digits(w) - 1) as nat);
    assert(c > 0) by (nonlinear_arith)
        requires
            c == p2 * down,
            p2 >= 1,
            down >= 1,
    ;
    assert(j.num == (4 * m) * c) by (nonlinear_arith)
        requires
            j.num == (4 * m * p2) * down,
            c == p2 * down,
    ;
    let l: nat = if m == f && q > 0 {
        1
    } else {
        2
    };
    assert(j.low + j.high == (l + 2) * c) by (nonlinear_arith)
        requires
            j.low == (l * p2) * down,
            j.high == (2 * p2) * down,
            c == p2 * down,
    ;
    assert(4 * m < (l + 2) * e);
    assert(((l + 2) * c) * e > (4 * m) * c) by (nonlinear_arith)
        requires
            4 * m < (l + 2) * e,
            c > 0,
    ;
}

/// The shortest decimal of a number lies in the number's interval.
proof fn lemma_shortest_covers(b: nat, w: Width)
    requires
        0 < b < infinity(w),
    ensures
        shortest(b, w).0 > 0,
        covers_decimal(interval_of(b, w), shortest(b, w).0, shortest(b, w).1),
{
    let i = interval_of(b, w);
    let j = normalized(i);
    lemma_interval_shape(b, w);
    lemma_normalized_shape(i);
    lemma_most_digits(b, w);
    lemma_shortest_from(j, 1, most_digits(w));
    let (d, n) = shortest_from(j, 1, most_digits(w));
    let u = ups(i.num, i.den);
    let v = downs(i.num, i.den);
    let up = exp10(u);
    let down = exp10(v);
    let e = exp10((n - 1) as nat);
    // The digits, on the scale of the number.
    let den = e * down;
    assert(covers(i, d * up, den)) by {
        assert((i.num * down) * e == i.num * den) by (nonlinear_arith)
            requires
                den == e * down,
        ;
        assert(d * (i.den * up) == (d * up) * i.den) by (nonlinear_arith);
        assert((i.low * down) * e == i.low * den) by (nonlinear_arith)
            requires
                den == e * down,
        ;
        assert((i.num * down + i.high * down) * e == (i.num + i.high) * den) by (nonlinear_arith)
            requires
                den == e * down,
        ;
    }
    let s = (n - 1 + v) as nat;
    lemma_exp10_add((n - 1) as nat, v);
    let x = u - v - n + 1;
    if x >= 0 {
        let g = exp10(x as nat);
        lemma_exp10_add(x as nat, s);
        assert(x + s == u);
        lemma_exp10_pos(s);
        assert(d * (g * den) == (d * g) * den) by (nonlinear_arith);
        lemma_covers_scaled(i, d * g, 1, den);
        assert(1 * den == den);
    } else {
        let g = exp10((-x) as nat);
        lemma_exp10_add((-x) as nat, u);
        assert(-x + u == s);
        lemma_exp10_pos(u);
        lemma_covers_scaled(i, d, g, up);
    }
    lemma_covers_trimmed(i, d, x);
}

/// The decimal that is displayed for a finite number, single or double, is
/// nearer to that number than to any other of its width (ties included).
pub proof fn law_shortest_decimal_names_the_number(b: nat, w: Width)
    requires
        0 < b < infinity(w),
    ensures
        ({
            let (d, x) = shortest(b, w);
            if x >= 0 {
                rounded(d * exp10(x as nat), 1, w) == b
            } else {
                rounded(d, exp10((-x) as nat), w) == b
            }
        }),
{
    let (d, x) = shortest(b, w);
    lemma_shortest_covers(b, w);
    if x >= 0 {
        lemma_covered_is_rounded(b, w, d * exp10(x as nat), 1);
    } else {
        lemma_exp10_pos((-x) as nat);
        lemma_covered_is_rounded(b, w, d, exp10((-x) as nat));
    }
}

/// The shortest decimal of a double is read as that double, whatever zeros are
/// moved from the power of ten into the digits.
pub proof fn lemma_shortest_is_read(b: nat, j: nat)
    requires
        0 < b < infinity(Width::Double),
    ensures
        ({
            let (d, x) = shortest(b, Width::Double);
            &&& d > 0
            &&& decimal_bits(d * exp10(j), x - j) == b
        }),
{
    let w = Width::Double;
    let i = interval_of(b, w);
    let (d, x) = shortest(b, w);
    lemma_shortest_covers(b, w);
    lemma_covers_shifted(i, d, x, j);
    let n = d * exp10(j);
    let y = x - j;
    if y >= 0 {
        lemma_covered_is_rounded(b, w, n * exp10(y as nat), 1);
    } else {
        lemma_exp10_pos((-y) as nat);
        lemma_covered_is_rounded(b, w, n, exp10((-y) as nat));
    }
}

// ---------------------------------------------------------------------------
// The text of a number
// ---------------------------------------------------------------------------

/// The text of a number without sign: digits, a point and more digits where
/// there are any, and an exponent where there is one.
pub open spec fn number_text(whole: Seq<char>, fraction: Seq<char>, exponent: Option<int>) -> Seq<
    char,
> {
    whole + (if fraction.len() > 0 {
        "."@ + fraction
    } else {
        Seq::empty()
    }) + (match exponent {
        Some(e) => "e"@ + int_text(e),
        None => Seq::empty(),
    })
}

/// The exponent of a number, nothing counting as zero.
pub open spec fn exponent_or_zero(exponent: Option<int>) -> int {
    match exponent {
        Some(e) => e,
        None => 0,
    }
}

/// A run of digits ends where something else begins.
pub proof fn lemma_run_of(digits: Seq<char>, rest: Seq<char>)
    requires
        all_digits(digits),
        rest.len() > 0 ==> !is_digit(rest[0]),
    ensures
        digit_run(digits + rest) == digits.len(),
    decreases digits.len(),
{
    let s = digits + rest;
    if digits.len() > 0 {
        assert(is_digit(digits[0]));
        let t = digits.drop_first();
        assert forall|i: int| 0 <= i < t.len() implies is_digit(#[trigger] t[i]) by {
            assert(t[i] == digits[i + 1]);
        }
        lemma_run_of(t, rest);
        assert(s.drop_first() =~= t + rest);
    } else {
        assert(s =~= rest);
    }
}

/// An exponent is read as it is written.
proof fn lemma_exponent_read(e: int)
    ensures
        exponent_of("e"@ + int_text(e)) == Some(e),
{
    reveal_strlit("e");
    let s = "e"@ + int_text(e);
    assert(s[0] == 'e');
    if e < 0 {
        lemma_dec_roundtrip((-e) as nat);
        assert(s[1] == '-');
        assert(s.skip(2) =~= dec((-e) as nat));
    } else {
        lemma_dec_roundtrip(e as nat);
        assert(s[1] == dec(e as nat)[0]);
        assert(is_digit(dec(e as nat)[0]));
        assert(s.skip(1) =~= dec(e as nat));
    }
}

/// A number's text is read as its digits and its exponent.
pub proof fn lemma_number_text_read(whole: Seq<char>, fraction: Seq<char>, exponent: Option<int>)
    requires
        whole.len() > 0,
        all_digits(whole),
        all_digits(fraction),
    ensures
        decimal_of(number_text(whole, fraction, exponent)) == Some(
            (digits_value(whole + fraction), exponent_or_zero(exponent) - fraction.len()),
        ),
{
    reveal_strlit(".");
    reveal_strlit("e");
    let s = number_text(whole, fraction, exponent);
    let tail: Seq<char> = match exponent {
        Some(e) => "e"@ + int_text(e),
        None => Seq::empty(),
    };
    match exponent {
        Some(e) => {
            lemma_exponent_read(e);
            assert(tail[0] == 'e');
        },
        None => {},
    }
    let n = whole.len() as int;
    if fraction.len() > 0 {
        let rest = "."@ + fraction + tail;
        assert(s =~= whole + rest);
        assert(rest[0] == '.');
        lemma_run_of(whole, rest);
        assert(s[n] == '.');
        assert(s.skip(n + 1) =~= fraction + tail);
        lemma_run_of(fraction, tail);
        let j = fraction.len() as int;
        assert(s.skip(n + 1 + j) =~= tail);
        assert(s.take(n) + s.subrange(n + 1, n + 1 + j) =~= whole + fraction);
    } else {
        assert(s =~= whole + tail);
        lemma_run_of(whole, tail);
        if n < s.len() {
            assert(s[n] == 'e');
        }
        assert(s.skip(n) =~= tail);
        assert(s.take(n) + s.subrange(n, n) =~= whole + fraction);
    }
}

/// Text that starts with a digit is no word.
pub proof fn lemma_magnitude_of_number(s: Seq<char>)
    requires
        s.len() > 0,
        is_digit(s[0]),
    ensures
        magnitude_of_text(s) == match decimal_of(s) {
            Some((d, x)) => Some(decimal_bits(d, x)),
            None => None::<nat>,
        },
{
    reveal_strlit("nan");
    reveal_strlit("inf");
    reveal_strlit("infinity");
    let t = s.map_values(|c: char| lower(c));
    assert(t[0] == s[0]);
    assert(!spells(s, "nan"@)) by {
        assert("nan"@[0] == 'n');
    }
    assert(!spells(s, "inf"@)) by {
        assert("inf"@[0] == 'i');
    }
    assert(!spells(s, "infinity"@)) by {
        assert("infinity"@[0] == 'i');
    }
}

/// Zeros behind digits.
proof fn lemma_digits_value_zeros(s: Seq<char>, j: nat)
    ensures
        digits_value(s + zeros_text(j)) == digits_value(s) * exp10(j),
    decreases j,
{
    let t = s + zeros_text(j);
    if j == 0 {
        assert(t =~= s);
        assert(exp10(0) == 1);
        assert(digits_value(s) * 1 == digits_value(s));
    } else {
        let k = (j - 1) as nat;
        lemma_digits_value_zeros(s, k);
        assert(t.drop_last() =~= s + zeros_text(k));
        assert(t.last() == '0');
        let v = digits_value(s);
        let e = exp10(k);
        assert((v * e) * 10 == v * (10 * e)) by (nonlinear_arith);
    }
}

/// The parts of a number written without exponent, and that they are read as
/// the number.
proof fn lemma_plain_parts(b: nat, pointed: bool) -> (r: (Seq<char>, Seq<char>))
    requires
        0 < b < infinity(Width::Double),
    ensures
        ({
            let (d, x) = shortest(b, Width::Double);
            let (whole, fraction) = r;
            &&& plain_text(d, x, pointed) == number_text(whole, fraction, None)
            &&& whole.len() > 0
            &&& all_digits(whole)
            &&& all_digits(fraction)
            &&& whole[0] == '0' ==> whole.len() == 1
            &&& pointed ==> fraction.len() > 0
            &&& decimal_bits(digits_value(whole + fraction), -fraction.len()) == b
        }),
{
    reveal_strlit(".");
    reveal_strlit("0.");
    reveal_strlit(".0");
    let (d, x) = shortest(b, Width::Double);
    let ds = dec(d);
    let at = ds.len() + x;
    lemma_shortest_is_read(b, 0);
    assert(exp10(0) == 1);
    assert(d * exp10(0) == d) by (nonlinear_arith)
        requires
            exp10(0) == 1,
    ;
    lemma_dec_roundtrip(d);
    let text = plain_text(d, x, pointed);
    if at <= 0 {
        let z = zeros_text((-at) as nat);
        let fraction = z + ds;
        let whole = seq!['0'];
        assert forall|i: int| 0 <= i < fraction.len() implies is_digit(#[trigger] fraction[i]) by {
            if i >= z.len() {
                assert(fraction[i] == ds[i - z.len()]);
            }
        }
        let both = whole + fraction;
        lemma_digits_value_skip_zeros(both, 1 - at);
        assert(both.skip(1 - at) =~= ds);
        assert(text =~= number_text(whole, fraction, None));
        (whole, fraction)
    } else if x >= 0 {
        let z = zeros_text(x as nat);
        let whole = ds + z;
        assert forall|i: int| 0 <= i < whole.len() implies is_digit(#[trigger] whole[i]) by {
            if i < ds.len() {
                assert(whole[i] == ds[i]);
            }
        }
        assert(whole[0] == ds[0]);
        if pointed {
            let fraction = seq!['0'];
            lemma_shortest_is_read(b, (x + 1) as nat);
            assert(whole + fraction =~= ds + zeros_text((x + 1) as nat));
            lemma_digits_value_zeros(ds, (x + 1) as nat);
            assert(text =~= number_text(whole, fraction, None));
            (whole, fraction)
        } else {
            let fraction = Seq::<char>::empty();
            lemma_shortest_is_read(b, x as nat);
            assert(whole + fraction =~= whole);
            lemma_digits_value_zeros(ds, x as nat);
            assert(text =~= number_text(whole, fraction, None));
            (whole, fraction)
        }
    } else {
        let whole = ds.take(at);
        let fraction = ds.skip(at);
        assert forall|i: int| 0 <= i < fraction.len() implies is_digit(#[trigger] fraction[i]) by {
            assert(fraction[i] == ds[i + at]);
        }
        assert forall|i: int| 0 <= i < whole.len() implies is_digit(#[trigger] whole[i]) by {
            assert(whole[i] == ds[i]);
        }
        assert(whole[0] == ds[0]);
        assert(whole + fraction =~= ds);
        assert(text =~= number_text(whole, fraction, None));
        (whole, fraction)
    }
}

/// The parts of the exact text of a finite double without sign, and that they
/// are read as the number.
pub proof fn lemma_exact_parts(b: nat) -> (r: (Seq<char>, Seq<char>, Option<int>))
    requires
        b < infinity(Width::Double),
    ensures
        ({
            let (whole, fraction, exponent) = r;
            &&& exact_magnitude(b) == number_text(whole, fraction, exponent)
            &&& whole.len() > 0
            &&& all_digits(whole)
            &&& all_digits(fraction)
            &&& whole[0] == '0' ==> whole.len() == 1
            &&& fraction.len() > 0 || exponent is Some
            &&& decimal_bits(
                digits_value(whole + fraction),
                exponent_or_zero(exponent) - fraction.len(),
            ) == b
        }),
{
    reveal_strlit(".");
    reveal_strlit("0.0");
    reveal_strlit("e");
    if b == 0 {
        let zero = seq!['0'];
        lemma_decimal_zero(-1);
        lemma_digits_value_skip_zeros(zero + zero, 2);
        assert((zero + zero).skip(2) =~= Seq::<char>::empty());
        assert(digits_value(zero + zero) == 0);
        assert("0.0"@ =~= number_text(zero, zero, None));
        (zero, zero, None)
    } else if b < SMALL_64 || b >= LARGE_64 {
        let (d, x) = shortest(b, Width::Double);
        let ds = dec(d);
        lemma_shortest_is_read(b, 0);
        assert(exp10(0) == 1);
        assert(d * exp10(0) == d) by (nonlinear_arith)
            requires
                exp10(0) == 1,
        ;
        lemma_dec_roundtrip(d);
        let whole = ds.take(1);
        let fraction = ds.skip(1);
        assert(whole[0] == ds[0]);
        assert forall|i: int| 0 <= i < fraction.len() implies is_digit(#[trigger] fraction[i]) by {
            assert(fraction[i] == ds[i + 1]);
        }
        assert(whole + fraction =~= ds);
        assert(exponent_text(d, x) =~= number_text(whole, fraction, Some(ds.len() + x - 1)));
        (whole, fraction, Some(ds.len() + x - 1))
    } else {
        let (whole, fraction) = lemma_plain_parts(b, true);
        (whole, fraction, None)
    }
}

/// Text without sign is read with the sign in front of it.
proof fn lemma_sign_read(bits: u64, text: Seq<char>)
    requires
        finite_64(bits),
        text.len() > 0,
        is_digit(text[0]),
        magnitude_of_text(text) == Some(magnitude_64(bits)),
    ensures
        double_of_text(
            sign_text(bits >= SIGN_64, magnitude_64(bits), Width::Double) + text,
        ) == Some(bits),
{
    reveal_strlit("-");
    let s = sign_text(bits >= SIGN_64, magnitude_64(bits), Width::Double) + text;
    if bits >= SIGN_64 {
        assert(s[0] == '-');
        assert(s.skip(1) =~= text);
    } else {
        assert(s =~= text);
    }
}

/// The exact text of a finite double, and its displayed text, are read as that
/// double, bit for bit.
pub proof fn law_printed_double_is_read_back(bits: u64)
    requires
        finite_64(bits),
    ensures
        double_of_text(exact_64(bits)) == Some(bits),
        double_of_text(display_64(bits)) == Some(bits),
{
    let b = magnitude_64(bits);
    let (whole, fraction, exponent) = lemma_exact_parts(b);
    lemma_number_text_read(whole, fraction, exponent);
    assert(exact_magnitude(b)[0] == whole[0]);
    lemma_magnitude_of_number(exact_magnitude(b));
    lemma_sign_read(bits, exact_magnitude(b));
    if b == 0 {
        reveal_strlit("0");
        let zero = seq!['0'];
        let none = Seq::<char>::empty();
        assert("0"@ =~= number_text(zero, none, None));
        lemma_number_text_read(zero, none, None);
        assert(zero + none =~= zero);
        lemma_digits_value_skip_zeros(zero, 1);
        assert(zero.skip(1) =~= none);
        assert(digits_value(none) == 0);
        lemma_decimal_zero(0);
        lemma_magnitude_of_number("0"@);
        lemma_sign_read(bits, "0"@);
    } else {
        let (whole, fraction) = lemma_plain_parts(b, false);
        lemma_number_text_read(whole, fraction, None);
        assert(display_magnitude(b, Width::Double)[0] == whole[0]);
        lemma_magnitude_of_number(display_magnitude(b, Width::Double));
        lemma_sign_read(bits, display_magnitude(b, Width::Double));
    }
}

} // verus!
