//! Floating-point numbers as bit patterns: reading decimal text, rounding
//! between widths, and writing the shortest text that reads back the same.
//! Everything is exact integer arithmetic.
//!
//! A finite number of a given width is `m * 2^q` units, where one unit is the
//! least positive number of that width; its bit pattern without the sign is
//! `q * 2^(p - 1) + m`, with `p` the precision in bits.

use crate::bignum::{
    big, copy_of, exp10, exp2, extend_to, lemma_big_bound, less, mul_add, mul_add_grow, small,
    subtract, times_exp10, times_exp2, weight,
};
use crate::text::{
    all_digits, chars_of, dec, dec_string, digits_value, int_string, int_text, is_digit,
    parse_digits, string_of,
};
use vstd::prelude::*;
use vstd::string::*;

verus! {

/// The two widths of floating-point numbers.
#[derive(Clone, Copy, Debug, PartialEq, Eq, Structural)]
pub enum Width {
    Single,
    Double,
}

/// Bits of precision, the leading one counted.
pub open spec fn precision(w: Width) -> nat {
    match w {
        Width::Single => 24,
        Width::Double => 53,
    }
}

/// How many powers of two lie between one unit and `2^-precision`.
pub open spec fn reach(w: Width) -> nat {
    match w {
        Width::Single => 125,
        Width::Double => 1021,
    }
}

/// The bit pattern of infinity.
pub open spec fn infinity(w: Width) -> nat {
    match w {
        Width::Single => 0x7f80_0000,
        Width::Double => 0x7ff0_0000_0000_0000,
    }
}

/// The least `k` with `num < den * 2^k`.
pub open spec fn least_power(num: nat, den: nat) -> nat
    decreases
            (if num < den {
                0
            } else {
                num - den + 1
            }),
{
    if den == 0 || num < den {
        0
    } else {
        1 + least_power(num, 2 * den)
    }
}

/// The integer nearest to `a / b`; of two that are equally near, the even one.
pub open spec fn nearest(a: nat, b: nat) -> nat {
    let q = a / b;
    let r = a % b;
    if 2 * r < b || (2 * r == b && q % 2 == 0) {
        q
    } else {
        q + 1
    }
}

/// The bit pattern of the number nearest to `num / den`; ties go to the even
/// pattern, and what is too large becomes infinity.
pub open spec fn rounded(num: nat, den: nat, w: Width) -> nat {
    let n = num * exp2(reach(w));
    let k = least_power(n, den);
    let m = nearest(n * exp2(precision(w)), den * exp2(k));
    let raw = k * exp2((precision(w) - 1) as nat) + m;
    if raw >= infinity(w) {
        infinity(w)
    } else {
        raw
    }
}

/// Powers of two that the widths are made of.
pub proof fn lemma_exp2_values()
    ensures
        exp2(0) == 1,
        exp2(23) == 0x80_0000,
        exp2(24) == 0x100_0000,
        exp2(31) == 0x8000_0000,
        exp2(52) == 0x10_0000_0000_0000,
        exp2(53) == 0x20_0000_0000_0000,
        exp2(63) == 0x8000_0000_0000_0000,
{
    reveal_with_fuel(exp2, 12);
    assert(exp2(10) == 1024);
    assert(exp2(20) == 1024 * 1024);
    assert(exp2(23) == 0x80_0000);
    assert(exp2(30) == 0x4000_0000);
    assert(exp2(40) == 0x100_0000_0000);
    assert(exp2(50) == 0x4_0000_0000_0000);
    assert(exp2(60) == 0x1000_0000_0000_0000);
}

pub proof fn lemma_exp2_add(a: nat, b: nat)
    ensures
        exp2(a + b) == exp2(a) * exp2(b),
    decreases a,
{
    if a > 0 {
        lemma_exp2_add((a - 1) as nat, b);
        let x = exp2((a - 1) as nat);
        let y = exp2(b);
        assert(2 * (x * y) == (2 * x) * y) by (nonlinear_arith);
    } else {
        assert(1 * exp2(b) == exp2(b));
    }
}

pub proof fn lemma_exp2_pos(n: nat)
    ensures
        exp2(n) >= 1,
    decreases n,
{
    if n > 0 {
        lemma_exp2_pos((n - 1) as nat);
    }
}

pub proof fn lemma_exp2_mono(a: nat, b: nat)
    requires
        a <= b,
    ensures
        exp2(a) <= exp2(b),
    decreases b,
{
    if a < b {
        lemma_exp2_mono(a, (b - 1) as nat);
    }
}

pub proof fn lemma_exp10_add(a: nat, b: nat)
    ensures
        exp10(a + b) == exp10(a) * exp10(b),
    decreases a,
{
    if a > 0 {
        lemma_exp10_add((a - 1) as nat, b);
        let x = exp10((a - 1) as nat);
        let y = exp10(b);
        assert(10 * (x * y) == (10 * x) * y) by (nonlinear_arith);
    } else {
        assert(1 * exp10(b) == exp10(b));
    }
}

pub proof fn lemma_exp10_pos(n: nat)
    ensures
        exp10(n) >= 1,
    decreases n,
{
    if n > 0 {
        lemma_exp10_pos((n - 1) as nat);
    }
}

/// Ten is more than two to the third.
pub proof fn lemma_exp10_exp2(n: nat)
    ensures
        exp10(n) >= exp2(3 * n),
    decreases n,
{
    if n > 0 {
        lemma_exp10_exp2((n - 1) as nat);
        reveal_with_fuel(exp2, 4);
        assert(exp2(3 * n) == 8 * exp2((3 * n - 3) as nat));
    } else {
        assert(exp2(0) == 1);
    }
}

/// What fits in the limbs is doubled without a carry.
fn double_in(v: &mut Vec<u32>)
    requires
        2 * big(old(v)@) < weight(old(v)@.len()),
    ensures
        final(v)@.len() == old(v)@.len(),
        big(final(v)@) == 2 * big(old(v)@),
{
    let ghost w = weight(old(v)@.len());
    let c: u32 = mul_add(v, 2, 0);
    proof {
        assert(c == 0) by (nonlinear_arith)
            requires
                w * (c as nat) < w,
        ;
        assert(w * c as nat == 0) by (nonlinear_arith)
            requires
                c == 0,
        ;
    }
}

/// Give `v` and `like` equally many limbs, by zero limbs at the top.
fn even_out(a: &mut Vec<u32>, b: &mut Vec<u32>)
    ensures
        big(final(a)@) == big(old(a)@),
        big(final(b)@) == big(old(b)@),
        final(a)@.len() == final(b)@.len(),
        final(a)@.len() > old(a)@.len(),
        final(b)@.len() > old(b)@.len(),
{
    extend_to(a, b.len());
    extend_to(b, a.len());
    proof {
        lemma_push_zero(a@);
        lemma_push_zero(b@);
    }
    a.push(0);
    b.push(0);
}

/// A zero limb at the top changes nothing.
proof fn lemma_push_zero(s: Seq<u32>)
    ensures
        big(s.push(0)) == big(s),
{
    crate::bignum::lemma_big_push(s, 0);
    assert(weight(s.len()) * 0 == 0);
}

/// One more limb makes room for 32 more bits.
proof fn lemma_weight_step(a: nat, b: nat)
    requires
        a < b,
    ensures
        0x1_0000_0000 * weight(a) <= weight(b),
    decreases b,
{
    if a + 1 < b {
        lemma_weight_step(a, (b - 1) as nat);
    }
}

/// Multiplying the divisor by a power of two takes that many steps off.
proof fn lemma_least_power_step(num: nat, den: nat)
    requires
        den > 0,
        num >= den,
    ensures
        least_power(num, den) == 1 + least_power(num, 2 * den),
{
}

/// The least power is the one between two bounds.
pub proof fn lemma_least_power(num: nat, den: nat, k: nat)
    requires
        den > 0,
        num < den * exp2(k),
        k > 0 ==> den * exp2((k - 1) as nat) <= num,
    ensures
        least_power(num, den) == k,
    decreases k,
{
    if k == 0 {
        assert(den * 1 == den);
    } else {
        let e = exp2((k - 1) as nat);
        assert((2 * den) * e == den * (2 * e)) by (nonlinear_arith);
        lemma_exp2_pos((k - 1) as nat);
        assert(den <= den * e) by (nonlinear_arith)
            requires
                e >= 1,
        ;
        if k > 1 {
            let f = exp2((k - 2) as nat);
            assert((2 * den) * f == den * (2 * f)) by (nonlinear_arith);
        }
        lemma_least_power(num, 2 * den, (k - 1) as nat);
    }
}

/// The least power bounds what it was made from, on both sides.
pub proof fn lemma_least_power_bounds(num: nat, den: nat)
    requires
        den > 0,
    ensures
        num < den * exp2(least_power(num, den)),
        least_power(num, den) > 0 ==> den * exp2((least_power(num, den) - 1) as nat) <= num,
    decreases
            (if num < den {
                0
            } else {
                num - den + 1
            }),
{
    let k = least_power(num, den);
    if num < den {
        assert(den * 1 == den);
    } else {
        lemma_least_power_bounds(num, 2 * den);
        let j = least_power(num, 2 * den);
        let e = exp2(j);
        assert((2 * den) * e == den * (2 * e)) by (nonlinear_arith);
        if j > 0 {
            let f = exp2((j - 1) as nat);
            assert((2 * den) * f == den * (2 * f)) by (nonlinear_arith);
        } else {
            assert(den * 1 == den);
        }
    }
}

/// A quotient beyond the largest number becomes infinity.
proof fn lemma_rounded_infinite(num: nat, den: nat, w: Width)
    requires
        den > 0,
        least_power(num * exp2(reach(w)), den) >= match w {
            Width::Single => 255nat,
            Width::Double => 2047nat,
        },
    ensures
        rounded(num, den, w) == infinity(w),
{
    lemma_exp2_values();
    let k = least_power(num * exp2(reach(w)), den);
    let top: nat = match w {
        Width::Single => 255,
        Width::Double => 2047,
    };
    let e = exp2((precision(w) - 1) as nat);
    assert(k * e >= top * e) by (nonlinear_arith)
        requires
            k >= top,
    ;
}

/// The bit pattern of the number nearest to `num / den`.
pub fn round_ratio(num: Vec<u32>, den: Vec<u32>, w: Width) -> (r: u64)
    requires
        big(den@) > 0,
    ensures
        r == rounded(big(num@), big(den@), w),
        r <= infinity(w),
{
    let ghost n0 = big(num@);
    let ghost d0 = big(den@);
    let (p, e0, top, inf): (u64, u64, u64, u64) = match w {
        Width::Single => (24, 125, 255, 0x7f80_0000),
        Width::Double => (53, 1021, 2047, 0x7ff0_0000_0000_0000),
    };
    let mut n = num;
    times_exp2(&mut n, e0);
    let mut d = den;
    let ghost target = big(n@);
    proof {
        lemma_big_bound(n@);
        lemma_big_bound(d@);
    }
    let ghost short_n = n@.len();
    let ghost short_d = d@.len();
    even_out(&mut n, &mut d);
    proof {
        lemma_weight_step(short_n, n@.len());
        lemma_weight_step(short_d, d@.len());
        assert(d0 * 1 == d0);
    }
    let mut k: u64 = 0;
    while k < top && !less(&n, &d)
        invariant
            k <= top <= 2047,
            n@.len() == d@.len(),
            big(n@) == target,
            d0 > 0,
            big(d@) == d0 * exp2(k as nat),
            big(d@) > 0,
            least_power(target, d0) == k + least_power(target, big(d@)),
            4 * target < weight(n@.len()),
            2 * big(d@) < weight(d@.len()),
        decreases top - k,
    {
        proof {
            lemma_least_power_step(target, big(d@));
            let e = exp2(k as nat);
            assert(2 * (d0 * e) == d0 * (2 * e)) by (nonlinear_arith);
        }
        double_in(&mut d);
        k += 1;
    }
    if !less(&n, &d) {
        proof {
            lemma_rounded_infinite(n0, d0, w);
        }
        return inf;
    }
    if k == top {
        proof {
            lemma_rounded_infinite(n0, d0, w);
        }
        return inf;
    }
    let ghost div = big(d@);
    let mut m: u64 = 0;
    let mut i: u64 = 0;
    assert(exp2(0) == 1);
    assert(target * 1 == target);
    while i < p
        invariant
            i <= p <= 53,
            n@.len() == d@.len(),
            big(d@) == div,
            big(n@) < div,
            2 * div < weight(d@.len()),
            target * exp2(i as nat) == m * div + big(n@),
            m < exp2(i as nat),
        decreases p - i,
    {
        proof {
            lemma_exp2_mono((i + 1) as nat, 53);
            lemma_exp2_values();
        }
        let ghost r0 = big(n@);
        let ghost m0 = m as nat;
        let ghost e = exp2(i as nat);
        double_in(&mut n);
        m = 2 * m;
        if !less(&n, &d) {
            subtract(&mut n, &d);
            m = m + 1;
        }
        proof {
            assert(target * (2 * e) == 2 * (target * e)) by (nonlinear_arith);
            assert((2 * m0) * div == 2 * (m0 * div)) by (nonlinear_arith);
            assert((2 * m0 + 1) * div == 2 * (m0 * div) + div) by (nonlinear_arith);
        }
        i += 1;
    }
    let ghost r = big(n@);
    proof {
        vstd::arithmetic::div_mod::lemma_fundamental_div_mod_converse(
            (target * exp2(p as nat)) as int,
            div as int,
            m as int,
            r as int,
        );
        lemma_exp2_values();
        assert(k * exp2((p - 1) as nat) <= 2046 * exp2((p - 1) as nat)) by (nonlinear_arith)
            requires
                k <= 2046,
        ;
        assert(w == Width::Single ==> k * exp2((p - 1) as nat) <= 254 * exp2((p - 1) as nat))
            by (nonlinear_arith)
            requires
                w == Width::Single ==> k <= 254,
        ;
    }
    double_in(&mut n);
    let below = less(&n, &d);
    let above = less(&d, &n);
    let rest: u64 = if below || (!above && m % 2 == 0) {
        m
    } else {
        m + 1
    };
    let half: u64 = match w {
        Width::Single => 0x80_0000,
        Width::Double => 0x10_0000_0000_0000,
    };
    let raw: u64 = k * half + rest;
    if raw >= inf {
        inf
    } else {
        raw
    }
}

// ---------------------------------------------------------------------------
// Reading decimal text
// ---------------------------------------------------------------------------

/// The bit pattern of the double nearest to `d * 10^x`.
pub open spec fn decimal_bits(d: nat, x: int) -> nat {
    if x >= 0 {
        rounded(d * exp10(x as nat), 1, Width::Double)
    } else {
        rounded(d, exp10((-x) as nat), Width::Double)
    }
}

/// How many digits a text starts with.
pub open spec fn digit_run(s: Seq<char>) -> nat
    decreases s.len(),
{
    if s.len() > 0 && is_digit(s[0]) {
        1 + digit_run(s.drop_first())
    } else {
        0
    }
}

/// The exponent that a text spells: nothing, or `e` or `E`, an optional sign
/// and digits.
pub open spec fn exponent_of(s: Seq<char>) -> Option<int> {
    if s.len() == 0 {
        Some(0)
    } else if s[0] == 'e' || s[0] == 'E' {
        let signed = s.len() > 1 && (s[1] == '+' || s[1] == '-');
        let digits = s.skip(
            if signed {
                2
            } else {
                1
            },
        );
        if digits.len() > 0 && all_digits(digits) {
            Some(
                if signed && s[1] == '-' {
                    -(digits_value(digits) as int)
                } else {
                    digits_value(digits) as int
                },
            )
        } else {
            None
        }
    } else {
        None
    }
}

/// The number `d * 10^x` that a text spells, without sign: digits, with a point
/// among, before or behind them, and an optional exponent.
pub open spec fn decimal_of(s: Seq<char>) -> Option<(nat, int)> {
    let i = digit_run(s) as int;
    let pointed = i < s.len() && s[i] == '.';
    let start = if pointed {
        i + 1
    } else {
        i
    };
    let j = if pointed {
        digit_run(s.skip(i + 1)) as int
    } else {
        0
    };
    match exponent_of(s.skip(start + j)) {
        Some(e) => if i + j > 0 {
            Some((digits_value(s.take(i) + s.subrange(start, start + j)), e - j))
        } else {
            None
        },
        None => None,
    }
}

/// An ASCII letter in lower case; any other character as it is.
pub open spec fn lower(c: char) -> char {
    if 'A' <= c <= 'Z' {
        (c as u32 + 32) as char
    } else {
        c
    }
}

/// `s` spells `word`, upper and lower case alike.
pub open spec fn spells(s: Seq<char>, word: Seq<char>) -> bool {
    s.map_values(|c: char| lower(c)) == word
}

/// The bit pattern that marks a double which is not a number.
pub const NAN_BITS: u64 = 0x7ff8_0000_0000_0000;

/// The bit pattern without sign of the double that a text without sign spells.
pub open spec fn magnitude_of_text(s: Seq<char>) -> Option<nat> {
    if spells(s, "nan"@) {
        Some(NAN_BITS as nat)
    } else if spells(s, "inf"@) || spells(s, "infinity"@) {
        Some(infinity(Width::Double))
    } else {
        match decimal_of(s) {
            Some((d, x)) => Some(decimal_bits(d, x)),
            None => None,
        }
    }
}

/// The weight of the sign in a double's bit pattern.
pub const SIGN_64: u64 = 0x8000_0000_0000_0000;

/// The bit pattern of the double that a text spells: an optional sign, then
/// `nan`, `inf`, `infinity` or a decimal number.
pub open spec fn double_of_text(s: Seq<char>) -> Option<u64> {
    let signed = s.len() > 0 && (s[0] == '+' || s[0] == '-');
    let body = if signed {
        s.skip(1)
    } else {
        s
    };
    match magnitude_of_text(body) {
        Some(m) => Some(
            (if signed && s[0] == '-' {
                SIGN_64 + m
            } else {
                m as int
            }) as u64,
        ),
        None => None,
    }
}

/// A run of digits is as long as it can be.
pub proof fn lemma_digit_run(s: Seq<char>)
    ensures
        digit_run(s) <= s.len(),
        all_digits(s.take(digit_run(s) as int)),
        digit_run(s) < s.len() ==> !is_digit(s[digit_run(s) as int]),
    decreases s.len(),
{
    if s.len() > 0 && is_digit(s[0]) {
        let t = s.drop_first();
        lemma_digit_run(t);
        assert forall|i: int| 0 <= i < digit_run(s) implies is_digit(
            #[trigger] s.take(digit_run(s) as int)[i],
        ) by {
            if i > 0 {
                assert(t.take(digit_run(t) as int)[i - 1] == s[i]);
            }
        }
        if digit_run(s) < s.len() {
            assert(t[digit_run(t) as int] == s[digit_run(s) as int]);
        }
    }
}

/// Where the run of digits that starts at `from` ends.
pub fn run_end(s: &Vec<char>, from: usize) -> (r: usize)
    requires
        from <= s@.len(),
    ensures
        r == from + digit_run(s@.skip(from as int)),
        r <= s@.len(),
        all_digits(s@.subrange(from as int, r as int)),
{
    let ghost t = s@.skip(from as int);
    proof {
        lemma_digit_run(t);
        assert(s@.subrange(from as int, from + digit_run(t)) =~= t.take(digit_run(t) as int));
    }
    let mut i: usize = from;
    while i < s.len() && '0' <= s[i] && s[i] <= '9'
        invariant
            from <= i <= s@.len(),
            t == s@.skip(from as int),
            i - from <= digit_run(t) <= t.len(),
            digit_run(t) < t.len() ==> !is_digit(t[digit_run(t) as int]),
        decreases s@.len() - i,
    {
        assert(t[i - from] == s@[i as int]);
        i += 1;
    }
    proof {
        if i - from < digit_run(t) {
            assert(t.take(digit_run(t) as int)[i - from] == s@[i as int]);
        }
    }
    i
}

/// Whether `s[from..]` spells `word`, upper and lower case alike.
fn spells_word(s: &Vec<char>, from: usize, word: &str) -> (r: bool)
    requires
        from <= s@.len(),
    ensures
        r == spells(s@.skip(from as int), word@),
{
    let wanted = chars_of(word);
    let ghost t = s@.skip(from as int).map_values(|c: char| lower(c));
    let n: usize = s.len();
    if n - from != wanted.len() {
        return false;
    }
    let mut i: usize = 0;
    while i < wanted.len()
        invariant
            i <= wanted@.len(),
            n == s@.len(),
            from + wanted@.len() == s@.len(),
            wanted@ == word@,
            t == s@.skip(from as int).map_values(|c: char| lower(c)),
            forall|j: int| 0 <= j < i ==> t[j] == wanted@[j],
        decreases wanted@.len() - i,
    {
        let c = s[from + i];
        let l = to_lower(c);
        assert(t[i as int] == l);
        if l != wanted[i] {
            return false;
        }
        i += 1;
    }
    assert(t =~= word@);
    true
}

/// An ASCII letter in lower case; any other character as it is.
fn to_lower(c: char) -> (r: char)
    ensures
        r == lower(c),
{
    if 'A' <= c && c <= 'Z' {
        let n: u8 = (c as u32 + 32) as u8;
        n as char
    } else {
        c
    }
}

/// The exponent that `s[from..]` spells, kept within a very large bound on either
/// side.
fn read_exponent(s: &Vec<char>, from: usize) -> (r: Option<i128>)
    requires
        from <= s@.len(),
    ensures
        match r {
            Some(e) => exponent_of(s@.skip(from as int)) matches Some(x) && clamped(e as int, x),
            None => exponent_of(s@.skip(from as int)) is None,
        },
{
    let ghost t = s@.skip(from as int);
    if from == s.len() {
        return Some(0);
    }
    assert(t[0] == s@[from as int]);
    if s[from] != 'e' && s[from] != 'E' {
        return None;
    }
    let mut at: usize = from + 1;
    let mut negative = false;
    if at < s.len() && (s[at] == '+' || s[at] == '-') {
        assert(t[1] == s@[at as int]);
        negative = s[at] == '-';
        at += 1;
        assert(t.skip(2) =~= s@.skip(at as int));
    } else {
        if at < s.len() {
            assert(t[1] == s@[at as int]);
        }
        assert(t.skip(1) =~= s@.skip(at as int));
    }
    if at == s.len() {
        return None;
    }
    let end = run_end(s, at);
    if end != s.len() {
        proof {
            let u = s@.skip(at as int);
            lemma_digit_run(u);
            assert(!is_digit(u[end - at]));
        }
        return None;
    }
    assert(s@.subrange(at as int, end as int) =~= s@.skip(at as int));
    let magnitude: i128 = match parse_digits(s, at) {
        Some(v) => if v > 0x10_0000_0000_0000_0000_0000_0000 {
            0x10_0000_0000_0000_0000_0000_0000
        } else {
            v as i128
        },
        None => 0x10_0000_0000_0000_0000_0000_0000,
    };
    Some(
        if negative {
            -magnitude
        } else {
            magnitude
        },
    )
}

/// `e` is `x`, or both are beyond the same very large bound.
spec fn clamped(e: int, x: int) -> bool {
    let bound = 0x10_0000_0000_0000_0000_0000_0000int;
    ||| e == x && -bound <= x <= bound
    ||| e == bound && x >= bound
    ||| e == -bound && x <= -bound
}

/// A number that starts with a digit other than zero has as many digits as it
/// shows.
proof fn lemma_digits_value_bounds(s: Seq<char>)
    requires
        all_digits(s),
    ensures
        digits_value(s) < exp10(s.len()),
        s.len() > 0 && s[0] != '0' ==> digits_value(s) >= exp10((s.len() - 1) as nat),
    decreases s.len(),
{
    if s.len() > 0 {
        let t = s.drop_last();
        assert forall|i: int| 0 <= i < t.len() implies is_digit(#[trigger] t[i]) by {
            assert(t[i] == s[i]);
        }
        lemma_digits_value_bounds(t);
        assert(is_digit(s[s.len() - 1]));
        if s.len() == 1 {
            assert(digits_value(t) == 0);
            assert(exp10(0) == 1);
        } else {
            assert(t[0] == s[0]);
        }
    }
}

/// Leading zeros do not count.
pub proof fn lemma_digits_value_skip_zeros(s: Seq<char>, z: int)
    requires
        0 <= z <= s.len(),
        forall|i: int| 0 <= i < z ==> s[i] == '0',
    ensures
        digits_value(s) == digits_value(s.skip(z)),
    decreases s.len(),
{
    if z == s.len() {
        if s.len() > 0 {
            let t = s.drop_last();
            lemma_digits_value_skip_zeros(t, z - 1);
            assert(t.skip(z - 1) =~= Seq::<char>::empty());
            assert(s.skip(z) =~= Seq::<char>::empty());
        } else {
            assert(s.skip(z) =~= s);
        }
    } else {
        let t = s.drop_last();
        lemma_digits_value_skip_zeros(t, z);
        assert(t.skip(z) =~= s.skip(z).drop_last());
        assert(s.skip(z).last() == s.last());
    }
}

/// What is at least ten to the 400 is infinite.
proof fn lemma_decimal_huge(d: nat, x: int, len: nat)
    requires
        len > 0,
        d >= exp10((len - 1) as nat),
        len - 1 + x >= 400,
    ensures
        decimal_bits(d, x) == infinity(Width::Double),
{
    let w = Width::Double;
    let (num, den) = if x >= 0 {
        (d * exp10(x as nat), 1nat)
    } else {
        (d, exp10((-x) as nat))
    };
    lemma_exp10_pos((-x) as nat);
    // num >= den * 10^400
    assert(num >= den * exp10(400)) by {
        let a = exp10((len - 1) as nat);
        if x >= 0 {
            let b = exp10(x as nat);
            lemma_exp10_add((len - 1) as nat, x as nat);
            lemma_exp10_mono(400, (len - 1 + x) as nat);
            assert(d * b >= a * b) by (nonlinear_arith)
                requires
                    d >= a,
            ;
            assert(1 * exp10(400) == exp10(400));
        } else {
            lemma_exp10_add((len - 1 + x) as nat, (-x) as nat);
            lemma_exp10_mono(400, (len - 1 + x) as nat);
            let c = exp10((len - 1 + x) as nat);
            let e = exp10(400);
            assert(c * den >= den * e) by (nonlinear_arith)
                requires
                    c >= e,
            ;
        }
    }
    lemma_exp10_exp2(400);
    lemma_exp2_mono(1026, 1200);
    let n = num * exp2(1021);
    let k = least_power(n, den);
    lemma_least_power_bounds(n, den);
    if k < 2047 {
        lemma_exp2_mono(k, 2046);
        lemma_exp2_add(1025, 1021);
        let e = exp2(1021);
        let f = exp2(1025);
        let g = exp2(k);
        let h = exp10(400);
        lemma_exp2_pos(1021);
        lemma_exp2_mono(1025, 1026);
        assert(den * g <= den * (f * e)) by (nonlinear_arith)
            requires
                g <= f * e,
        ;
        assert(num * e >= (den * h) * e) by (nonlinear_arith)
            requires
                num >= den * h,
        ;
        assert((den * h) * e >= den * (f * e)) by (nonlinear_arith)
            requires
                h >= f,
        ;
    }
    lemma_rounded_infinite(num, den, w);
}

proof fn lemma_exp10_mono(a: nat, b: nat)
    requires
        a <= b,
    ensures
        exp10(a) <= exp10(b),
    decreases b,
{
    if a < b {
        lemma_exp10_mono(a, (b - 1) as nat);
    }
}

/// What is below ten to the minus 400 is zero.
proof fn lemma_decimal_tiny(d: nat, x: int, len: nat)
    requires
        d < exp10(len),
        len + x <= -400,
    ensures
        decimal_bits(d, x) == 0,
{
    let den = exp10((-x) as nat);
    lemma_exp10_add(len, (-x - len) as nat);
    lemma_exp10_mono(400, (-x - len) as nat);
    let h = exp10(400);
    let c = exp10((-x - len) as nat);
    let a = exp10(len);
    lemma_exp10_pos((-x - len) as nat);
    // d * 10^400 < den
    assert(d * h < a * c) by (nonlinear_arith)
        requires
            d < a,
            h <= c,
            c >= 1,
    ;
    lemma_exp10_exp2(400);
    lemma_exp2_mono(1075, 1200);
    let n = d * exp2(1021);
    lemma_exp2_add(1021, 53);
    lemma_exp2_mono(1021, 1075);
    let e = exp2(1021);
    let f = exp2(53);
    let g = exp2(1075);
    assert(exp2(1075) == 2 * exp2(1074));
    assert(d * g < den) by (nonlinear_arith)
        requires
            d * h < den,
            g <= h,
    ;
    assert(n <= d * g) by (nonlinear_arith)
        requires
            n == d * e,
            e <= g,
    ;
    assert(least_power(n, den) == 0);
    assert((d * e) * f == d * (e * f)) by (nonlinear_arith);
    let top = n * f;
    assert(2 * top == d * g) by (nonlinear_arith)
        requires
            top == d * (e * f),
            g == 2 * (e * f),
    ;
    lemma_exp2_values();
    let one = exp2(0);
    assert(den * one == den) by (nonlinear_arith)
        requires
            one == 1,
    ;
    assert(least_power(n, den) * exp2(52) == 0) by (nonlinear_arith)
        requires
            least_power(n, den) == 0,
    ;
    assert(n * exp2(precision(Width::Double)) == top);
    assert(top / den == 0 && top % den == top) by {
        vstd::arithmetic::div_mod::lemma_fundamental_div_mod_converse(
            top as int,
            den as int,
            0,
            top as int,
        );
    }
    lemma_exp2_values();
}

/// The bit pattern of the double nearest to a run of digits, taken as a number,
/// times ten to the power `x`; `x` may stand for any exponent beyond a very
/// large bound.
fn digits_to_bits(ds: &Vec<char>, x: i128, Ghost(exact): Ghost<int>) -> (r: u64)
    requires
        all_digits(ds@),
        ({
            let bound = 0x8_0000_0000_0000_0000_0000_0000int;
            ||| x == exact && -0x7fff_ffff_ffff_ffff_ffff_ffff_ffff_ffff <= x
            ||| x >= bound && exact >= bound
            ||| x <= -bound && exact <= -bound
        }),
    ensures
        r == decimal_bits(digits_value(ds@), exact),
        r <= infinity(Width::Double),
{
    let mut z: usize = 0;
    while z < ds.len() && ds[z] == '0'
        invariant
            z <= ds@.len(),
            forall|i: int| 0 <= i < z ==> ds@[i] == '0',
        decreases ds@.len() - z,
    {
        z += 1;
    }
    let ghost sig = ds@.skip(z as int);
    proof {
        lemma_digits_value_skip_zeros(ds@, z as int);
        assert forall|i: int| 0 <= i < sig.len() implies is_digit(#[trigger] sig[i]) by {
            assert(sig[i] == ds@[i + z]);
        }
        lemma_digits_value_bounds(sig);
    }
    if z == ds.len() {
        assert(sig =~= Seq::<char>::empty());
        proof {
            lemma_decimal_zero(exact);
        }
        return 0;
    }
    assert(sig[0] == ds@[z as int]);
    let len: i128 = (ds.len() - z) as i128;
    assert(len <= 0x1_0000_0000_0000_0000);
    if x > 0x1000_0000_0000_0000_0000 || len - 1 + x >= 400 {
        proof {
            lemma_decimal_huge(digits_value(sig), exact, sig.len());
        }
        return 0x7ff0_0000_0000_0000;
    }
    if x < -0x1000_0000_0000_0000_0000 || len + x <= -400 {
        proof {
            lemma_decimal_tiny(digits_value(sig), exact, sig.len());
        }
        return 0;
    }
    assert(x == exact);
    let mut num = small(0);
    let mut i: usize = z;
    assert(sig.take(0) =~= Seq::<char>::empty());
    while i < ds.len()
        invariant
            z <= i <= ds@.len(),
            sig == ds@.skip(z as int),
            all_digits(ds@),
            big(num@) == digits_value(sig.take(i - z)),
        decreases ds@.len() - i,
    {
        let c = ds[i];
        assert(is_digit(ds@[i as int]));
        let d: u32 = c as u32 - '0' as u32;
        mul_add_grow(&mut num, 10, d);
        i += 1;
        assert(sig.take(i - z).drop_last() =~= sig.take(i - z - 1));
        assert(sig.take(i - z).last() == c);
    }
    assert(sig.take(i - z) =~= sig);
    let mut den = small(1);
    if x >= 0 {
        times_exp10(&mut num, x as u128);
    } else {
        times_exp10(&mut den, (-x) as u128);
        proof {
            lemma_exp10_pos((-x) as nat);
            assert(1 * exp10((-x) as nat) == exp10((-x) as nat));
        }
    }
    round_ratio(num, den, Width::Double)
}

/// Zero is zero, whatever the exponent.
pub proof fn lemma_decimal_zero(x: int)
    ensures
        decimal_bits(0, x) == 0,
{
    lemma_exp10_pos((-x) as nat);
    if x >= 0 {
        assert(0 * exp10(x as nat) == 0) by (nonlinear_arith);
        lemma_rounded_zero(1);
    } else {
        lemma_rounded_zero(exp10((-x) as nat));
    }
}

/// Zero over anything rounds to zero.
proof fn lemma_rounded_zero(den: nat)
    requires
        den > 0,
    ensures
        rounded(0, den, Width::Double) == 0,
{
    let e = exp2(reach(Width::Double));
    let f = exp2(precision(Width::Double));
    lemma_exp2_values();
    let one = exp2(0);
    assert(0 * e == 0) by (nonlinear_arith);
    assert(0 * f == 0) by (nonlinear_arith);
    assert(least_power(0, den) == 0);
    assert(den * one == den) by (nonlinear_arith)
        requires
            one == 1,
    ;
    vstd::arithmetic::div_mod::lemma_fundamental_div_mod_converse(0, den as int, 0, 0);
    assert(nearest(0, den) == 0);
    assert(0 * exp2(52) == 0) by (nonlinear_arith);
}

/// The decimal number that `s[from..]` spells, as the bit pattern of the
/// nearest double.
fn read_decimal(s: &Vec<char>, from: usize) -> (r: Option<u64>)
    requires
        from <= s@.len(),
    ensures
        match r {
            Some(b) => decimal_of(s@.skip(from as int)) matches Some((d, x)) && b == decimal_bits(
                d,
                x,
            ) && b <= infinity(Width::Double),
            None => decimal_of(s@.skip(from as int)) is None,
        },
{
    let ghost t = s@.skip(from as int);
    let whole = run_end(s, from);
    let ghost i = whole - from;
    let pointed = whole < s.len() && s[whole] == '.';
    assert(whole < s@.len() ==> t[i] == s@[whole as int]);
    let start: usize = if pointed {
        whole + 1
    } else {
        whole
    };
    let end: usize = if pointed {
        run_end(s, start)
    } else {
        whole
    };
    proof {
        if pointed {
            assert(t.skip(i + 1) =~= s@.skip(whole + 1));
        }
        assert(t.take(i) =~= s@.subrange(from as int, whole as int));
        assert(t.skip(end - from) =~= s@.skip(end as int));
        assert(t.subrange(start - from, end - from) =~= s@.subrange(start as int, end as int));
    }
    let mut ds: Vec<char> = Vec::new();
    let mut k: usize = from;
    while k < whole
        invariant
            from <= k <= whole <= s@.len(),
            ds@ == s@.subrange(from as int, k as int),
        decreases whole - k,
    {
        ds.push(s[k]);
        k += 1;
        assert(ds@ =~= s@.subrange(from as int, k as int));
    }
    let ghost left = s@.subrange(from as int, whole as int);
    let mut l: usize = start;
    assert(ds@ =~= left + s@.subrange(start as int, start as int));
    while l < end
        invariant
            start <= l <= end <= s@.len(),
            ds@ == left + s@.subrange(start as int, l as int),
        decreases end - l,
    {
        ds.push(s[l]);
        l += 1;
        assert(ds@ =~= left + s@.subrange(start as int, l as int));
    }
    match read_exponent(s, end) {
        None => None,
        Some(e) => {
            if ds.len() == 0 {
                return None;
            }
            let j: i128 = (end - start) as i128;
            let ghost exact = exponent_of(s@.skip(end as int))->Some_0 - j;
            assert(j <= 0x1_0000_0000_0000_0000);
            proof {
                let right = s@.subrange(start as int, end as int);
                assert forall|m: int| 0 <= m < ds@.len() implies is_digit(#[trigger] ds@[m]) by {
                    if m < left.len() {
                        assert(ds@[m] == left[m]);
                    } else {
                        assert(ds@[m] == right[m - left.len()]);
                    }
                }
            }
            Some(digits_to_bits(&ds, e - j, Ghost(exact)))
        },
    }
}

/// The bit pattern of the double that a text spells (see [`double_of_text`]).
pub fn parse_double(raw: &str) -> (r: Option<u64>)
    ensures
        r == double_of_text(raw@),
{
    let s = chars_of(raw);
    let mut from: usize = 0;
    let mut negative = false;
    if s.len() > 0 && (s[0] == '+' || s[0] == '-') {
        negative = s[0] == '-';
        from = 1;
    } else {
        assert(s@.skip(0) =~= s@);
    }
    let magnitude: Option<u64> = if spells_word(&s, from, "nan") {
        Some(NAN_BITS)
    } else if spells_word(&s, from, "inf") || spells_word(&s, from, "infinity") {
        Some(0x7ff0_0000_0000_0000)
    } else {
        read_decimal(&s, from)
    };
    match magnitude {
        Some(m) => if negative {
            Some(SIGN_64 + m)
        } else {
            Some(m)
        },
        None => None,
    }
}

// ---------------------------------------------------------------------------
// Taking bit patterns apart, and changing width
// ---------------------------------------------------------------------------

/// The integer `m` of a finite number `m * 2^q` units, from its bit pattern
/// without sign.
pub open spec fn mantissa(b: nat, w: Width) -> nat {
    let f = exp2((precision(w) - 1) as nat);
    if b < f {
        b
    } else {
        b % f + f
    }
}

/// The exponent `q` of a finite number `m * 2^q` units.
pub open spec fn scale(b: nat, w: Width) -> nat {
    let f = exp2((precision(w) - 1) as nat);
    if b < f {
        0
    } else {
        (b / f - 1) as nat
    }
}

/// The bit pattern without sign.
pub open spec fn magnitude_64(bits: u64) -> nat {
    (bits % SIGN_64) as nat
}

/// The weight of the sign in the bit pattern of a single.
pub const SIGN_32: u32 = 0x8000_0000;

/// The bit pattern without sign.
pub open spec fn magnitude_32(bits: u32) -> nat {
    (bits % SIGN_32) as nat
}

/// A double is neither infinite nor a NaN.
pub open spec fn finite_64(bits: u64) -> bool {
    magnitude_64(bits) < infinity(Width::Double)
}

/// Whether a double is neither infinite nor a NaN.
pub fn is_finite(bits: u64) -> (r: bool)
    ensures
        r == finite_64(bits),
{
    bits % SIGN_64 < 0x7ff0_0000_0000_0000
}

/// The 23 payload bits of a NaN in the narrower width, with the quiet bit set.
pub open spec fn quiet_payload(payload: nat) -> nat {
    if payload < 0x40_0000 {
        payload + 0x40_0000
    } else {
        payload
    }
}

/// The single nearest to a double. Infinity stays infinity, a NaN stays a
/// (quiet) NaN with the upper bits of its payload, and the sign is kept.
pub open spec fn narrowed(bits: u64) -> u32 {
    let b = magnitude_64(bits);
    let m = if b > infinity(Width::Double) {
        infinity(Width::Single) + quiet_payload((b % exp2(52)) / exp2(29))
    } else if b == infinity(Width::Double) {
        infinity(Width::Single)
    } else {
        rounded(
            mantissa(b, Width::Double) * exp2(scale(b, Width::Double)),
            exp2(reach(Width::Double) + precision(Width::Double)),
            Width::Single,
        )
    };
    (m + if bits >= SIGN_64 {
        SIGN_32 as nat
    } else {
        0
    }) as u32
}

/// How many binary digits a number has.
pub open spec fn bit_length(n: nat) -> nat
    decreases n,
{
    if n == 0 {
        0
    } else {
        1 + bit_length(n / 2)
    }
}

/// The double equal to a single. A NaN becomes a quiet NaN with the same
/// payload, and the sign is kept.
pub open spec fn widened(bits: u32) -> u64 {
    let b = magnitude_32(bits);
    let m = mantissa(b, Width::Single);
    let l = bit_length(m);
    let r = if b > infinity(Width::Single) {
        infinity(Width::Double) + quiet_payload(b % exp2(23)) * exp2(29)
    } else if b == infinity(Width::Single) {
        infinity(Width::Double)
    } else if b == 0 {
        0
    } else {
        (scale(b, Width::Single) + l + 872) * exp2(52) + m * exp2((53 - l) as nat)
    };
    (r + if bits >= SIGN_32 {
        SIGN_64 as nat
    } else {
        0
    }) as u64
}

/// The limbs of a 64-bit number.
fn limbs_of(x: u64) -> (r: Vec<u32>)
    ensures
        big(r@) == x,
{
    let high: u32 = (x / 0x1_0000_0000) as u32;
    let low: u32 = (x % 0x1_0000_0000) as u32;
    let mut v: Vec<u32> = Vec::new();
    v.push(low);
    v.push(high);
    proof {
        let e = Seq::<u32>::empty();
        crate::bignum::lemma_big_push(e, low);
        crate::bignum::lemma_big_push(e.push(low), high);
        assert(v@ =~= e.push(low).push(high));
        let w0 = weight(e.len());
        let w1 = weight(e.push(low).len());
        assert(w0 == 1);
        assert(w1 == 0x1_0000_0000 * weight(0));
        assert(weight(0) == 1);
        assert(w0 * (low as nat) == low) by (nonlinear_arith)
            requires
                w0 == 1,
        ;
        assert(w1 * (high as nat) == 0x1_0000_0000 * high) by (nonlinear_arith)
            requires
                w1 == 0x1_0000_0000,
        ;
    }
    v
}

/// The integer `m` and the exponent `q` of a finite number `m * 2^q` units.
fn take_apart(b: u64, w: Width) -> (r: (u64, u64))
    requires
        b < infinity(w),
    ensures
        r.0 == mantissa(b as nat, w),
        r.1 == scale(b as nat, w),
        r.0 < exp2(precision(w)),
        r.0 == 0 <==> b == 0,
        r.1 < match w {
            Width::Single => 254nat,
            Width::Double => 2046nat,
        },
{
    proof {
        lemma_exp2_values();
    }
    let f: u64 = match w {
        Width::Single => 0x80_0000,
        Width::Double => 0x10_0000_0000_0000,
    };
    if b < f {
        (b, 0)
    } else {
        (b % f + f, b / f - 1)
    }
}

/// The single nearest to a double (see [`narrowed`]).
pub fn narrow(bits: u64) -> (r: u32)
    ensures
        r == narrowed(bits),
{
    let b: u64 = bits % SIGN_64;
    proof {
        lemma_exp2_values();
        assert(exp2(29) == 0x2000_0000) by {
            reveal_with_fuel(exp2, 7);
        }
    }
    let m: u32 = if b > 0x7ff0_0000_0000_0000 {
        let payload: u64 = (b % 0x10_0000_0000_0000) / 0x2000_0000;
        let quiet: u64 = if payload < 0x40_0000 {
            payload + 0x40_0000
        } else {
            payload
        };
        0x7f80_0000 + quiet as u32
    } else if b == 0x7ff0_0000_0000_0000 {
        0x7f80_0000
    } else {
        let (m, q) = take_apart(b, Width::Double);
        let mut num = limbs_of(m);
        times_exp2(&mut num, q);
        let mut den = small(1);
        times_exp2(&mut den, 1074);
        proof {
            lemma_exp2_pos(1074);
            assert(1 * exp2(1074) == exp2(1074));
        }
        round_ratio(num, den, Width::Single) as u32
    };
    if bits >= SIGN_64 {
        m + SIGN_32
    } else {
        m
    }
}

/// The binary digits of a number bound it.
proof fn lemma_bit_length(n: nat)
    requires
        n > 0,
    ensures
        bit_length(n) > 0,
        exp2((bit_length(n) - 1) as nat) <= n < exp2(bit_length(n)),
    decreases n,
{
    if n > 1 {
        lemma_bit_length(n / 2);
    } else {
        assert(bit_length(0) == 0);
        assert(exp2(0) == 1);
        assert(exp2(1) == 2);
    }
}

/// A number below `2^k` has at most `k` binary digits.
pub proof fn lemma_bit_length_bound(n: nat, k: nat)
    requires
        n < exp2(k),
    ensures
        bit_length(n) <= k,
    decreases k,
{
    if n > 0 {
        lemma_exp2_pos(0);
        if k > 0 {
            lemma_bit_length_bound(n / 2, (k - 1) as nat);
        }
    }
}

/// The double equal to a single (see [`widened`]).
pub fn widen(bits: u32) -> (r: u64)
    ensures
        r == widened(bits),
{
    let b: u32 = bits % SIGN_32;
    proof {
        lemma_exp2_values();
        assert(exp2(29) == 0x2000_0000) by {
            reveal_with_fuel(exp2, 7);
        }
    }
    let r: u64 = if b > 0x7f80_0000 {
        let payload: u64 = (b % 0x80_0000) as u64;
        let quiet: u64 = if payload < 0x40_0000 {
            payload + 0x40_0000
        } else {
            payload
        };
        0x7ff0_0000_0000_0000 + quiet * 0x2000_0000
    } else if b == 0x7f80_0000 {
        0x7ff0_0000_0000_0000
    } else if b == 0 {
        0
    } else {
        let (m, q) = take_apart(b as u64, Width::Single);
        let mut l: u64 = 0;
        let mut rest: u64 = m;
        proof {
            lemma_bit_length_bound(m as nat, 24);
        }
        while rest > 0
            invariant
                bit_length(m as nat) == l + bit_length(rest as nat),
                bit_length(m as nat) <= 24,
            decreases rest,
        {
            rest = rest / 2;
            l += 1;
        }
        let mut top: u64 = m;
        let mut i: u64 = l;
        proof {
            lemma_bit_length(m as nat);
            assert(m * 1 == m);
        }
        while i < 53
            invariant
                l <= i <= 53,
                m < exp2(l as nat),
                top == m * exp2((i - l) as nat),
                top < exp2(i as nat),
            decreases 53 - i,
        {
            proof {
                lemma_exp2_values();
                lemma_exp2_mono((i + 1) as nat, 53);
                let e = exp2((i - l) as nat);
                assert(2 * (m * e) == m * (2 * e)) by (nonlinear_arith);
            }
            top = 2 * top;
            i += 1;
        }
        (q + l + 872) * 0x10_0000_0000_0000 + top
    };
    if bits >= SIGN_32 {
        r + SIGN_64
    } else {
        r
    }
}

/// Widening is exact: the double stands for the same number. (One unit of a
/// single is `2^925` units of a double.)
pub proof fn law_widening_is_exact(bits: u32)
    requires
        magnitude_32(bits) < infinity(Width::Single),
    ensures
        ({
            let b = magnitude_32(bits);
            let c = magnitude_64(widened(bits));
            &&& finite_64(widened(bits))
            &&& (widened(bits) >= SIGN_64 <==> bits >= SIGN_32)
            &&& mantissa(c, Width::Double) * exp2(scale(c, Width::Double)) == mantissa(
                b,
                Width::Single,
            ) * exp2(scale(b, Width::Single) + 925)
        }),
{
    lemma_exp2_values();
    let b = magnitude_32(bits);
    let m = mantissa(b, Width::Single);
    let q = scale(b, Width::Single);
    if b == 0 {
        assert(0 * exp2(q + 925) == 0) by (nonlinear_arith);
        assert(0 * exp2(0) == 0) by (nonlinear_arith);
    } else {
        let l = bit_length(m);
        lemma_bit_length(m);
        lemma_bit_length_bound(m, 24);
        let e = exp2((53 - l) as nat);
        let top = m * e;
        lemma_exp2_add((l - 1) as nat, (53 - l) as nat);
        lemma_exp2_add(l, (53 - l) as nat);
        let lo = exp2((l - 1) as nat);
        let hi = exp2(l);
        assert(lo * e <= m * e) by (nonlinear_arith)
            requires
                lo <= m,
        ;
        lemma_exp2_pos((53 - l) as nat);
        assert(m * e < hi * e) by (nonlinear_arith)
            requires
                m < hi,
                e >= 1,
        ;
        let f = exp2(52);
        let qq = (q + l + 872) as nat;
        let c = qq * f + top;
        assert(c == (qq + 1) * f + (top - f)) by (nonlinear_arith)
            requires
                c == qq * f + top,
        ;
        vstd::arithmetic::div_mod::lemma_fundamental_div_mod_converse(
            c as int,
            f as int,
            qq as int + 1,
            top - f,
        );
        assert(c < infinity(Width::Double));
        assert(magnitude_64(widened(bits)) == c);
        assert(mantissa(c, Width::Double) == top);
        assert(scale(c, Width::Double) == qq);
        lemma_exp2_add((53 - l) as nat, qq);
        let g = exp2(qq);
        assert((m * e) * g == m * (e * g)) by (nonlinear_arith);
        assert(53 - l + qq == q + 925);
    }
}

// ---------------------------------------------------------------------------
// Writing the shortest decimal text
// ---------------------------------------------------------------------------

/// A positive number `num / den`, with the distances `low / den` and
/// `high / den` to the ends of the interval in which every number is rounded to
/// it. The ends count as inside where the number's integer is even.
pub struct Interval {
    pub num: nat,
    pub den: nat,
    pub low: nat,
    pub high: nat,
    pub even: bool,
}

/// The interval of a finite positive number, in quarters of a unit: half way to
/// either neighbour. Below a power of two the neighbours are twice as dense.
pub open spec fn interval_of(b: nat, w: Width) -> Interval {
    let m = mantissa(b, w);
    let q = scale(b, w);
    Interval {
        num: 4 * m * exp2(q),
        den: 4 * exp2(reach(w) + precision(w)),
        low: if m == exp2((precision(w) - 1) as nat) && q > 0 {
            exp2(q)
        } else {
            2 * exp2(q)
        },
        high: 2 * exp2(q),
        even: m % 2 == 0,
    }
}

/// `d` lies in the interval.
pub open spec fn inside(i: Interval, d: nat) -> bool {
    if i.even {
        i.num <= d * i.den + i.low && d * i.den <= i.num + i.high
    } else {
        i.num < d * i.den + i.low && d * i.den < i.num + i.high
    }
}

/// The interval, ten times as large.
pub open spec fn tenfold(i: Interval) -> Interval {
    Interval { num: 10 * i.num, low: 10 * i.low, high: 10 * i.high, ..i }
}

/// How often `den` can be multiplied by ten without exceeding `num`.
pub open spec fn ups(num: nat, den: nat) -> nat
    decreases
            (if num < den {
                0
            } else {
                num - den + 1
            }),
{
    if den == 0 || num < 10 * den {
        0
    } else {
        1 + ups(num, 10 * den)
    }
}

/// How often `num` has to be multiplied by ten to reach `den`.
pub open spec fn downs(num: nat, den: nat) -> nat
    decreases
            (if den < num {
                0
            } else {
                den - num + 1
            }),
{
    if num == 0 || num >= den {
        0
    } else {
        1 + downs(10 * num, den)
    }
}

/// The interval scaled by a power of ten, so that the number has one digit
/// before the point.
pub open spec fn normalized(i: Interval) -> Interval {
    let up = exp10(ups(i.num, i.den));
    let down = exp10(downs(i.num, i.den));
    Interval {
        num: i.num * down,
        den: i.den * up,
        low: i.low * down,
        high: i.high * down,
        even: i.even,
    }
}

/// The integer in the interval nearest to the number; of two that are equally
/// near, the upper one.
pub open spec fn pick(i: Interval) -> nat {
    let d = i.num / i.den;
    if inside(i, d) && !inside(i, d + 1) {
        d
    } else if inside(i, d + 1) && !inside(i, d) {
        d + 1
    } else if 2 * (i.num % i.den) < i.den {
        d
    } else {
        d + 1
    }
}

/// The digits for the first number of digits, from `n` on, with which some
/// decimal lies in the interval; and that number of digits.
pub open spec fn shortest_from(i: Interval, n: nat, most: nat) -> (nat, nat)
    decreases most - n,
{
    let d = i.num / i.den;
    if n >= most || inside(i, d) || inside(i, d + 1) {
        (pick(i), n)
    } else {
        shortest_from(tenfold(i), n + 1, most)
    }
}

/// As many digits tell any two numbers of a width apart.
pub open spec fn most_digits(w: Width) -> nat {
    match w {
        Width::Single => 9,
        Width::Double => 17,
    }
}

/// `d * 10^x` without trailing zeros in `d`.
pub open spec fn trimmed(d: nat, x: int) -> (nat, int)
    decreases d,
{
    if d > 0 && d % 10 == 0 {
        trimmed(d / 10, x + 1)
    } else {
        (d, x)
    }
}

/// The shortest decimal `d * 10^x` that reads back as a given finite positive
/// number, and of these the nearest to it.
pub open spec fn shortest(b: nat, w: Width) -> (nat, int) {
    let i = interval_of(b, w);
    let (d, n) = shortest_from(normalized(i), 1, most_digits(w));
    trimmed(d, ups(i.num, i.den) - downs(i.num, i.den) - n + 1)
}

/// `n` zeros.
pub open spec fn zeros_text(n: nat) -> Seq<char> {
    Seq::new(n, |i: int| '0')
}

/// `d * 10^x` written out without an exponent. `pointed` asks for a point even
/// in whole numbers.
pub open spec fn plain_text(d: nat, x: int, pointed: bool) -> Seq<char> {
    let ds = dec(d);
    let at = ds.len() + x;
    if at <= 0 {
        "0."@ + zeros_text((-at) as nat) + ds
    } else if x >= 0 {
        ds + zeros_text(x as nat) + if pointed {
            ".0"@
        } else {
            Seq::empty()
        }
    } else {
        ds.take(at) + "."@ + ds.skip(at)
    }
}

/// `d * 10^x` with one digit before the point, and an exponent.
pub open spec fn exponent_text(d: nat, x: int) -> Seq<char> {
    let ds = dec(d);
    ds.take(1) + if ds.len() > 1 {
        "."@ + ds.skip(1)
    } else {
        Seq::empty()
    } + "e"@ + int_text(ds.len() + x - 1)
}

/// How a number is displayed, given its bit pattern without sign.
pub open spec fn display_magnitude(b: nat, w: Width) -> Seq<char> {
    if b > infinity(w) {
        "NaN"@
    } else if b == infinity(w) {
        "inf"@
    } else if b == 0 {
        "0"@
    } else {
        let (d, x) = shortest(b, w);
        plain_text(d, x, false)
    }
}

/// The sign in front of a number's text; a NaN shows none.
pub open spec fn sign_text(negative: bool, b: nat, w: Width) -> Seq<char> {
    if negative && b <= infinity(w) {
        "-"@
    } else {
        Seq::empty()
    }
}

/// How a single is displayed.
pub open spec fn display_32(bits: u32) -> Seq<char> {
    let b = magnitude_32(bits);
    sign_text(bits >= SIGN_32, b, Width::Single) + display_magnitude(b, Width::Single)
}

/// How a double is displayed.
pub open spec fn display_64(bits: u64) -> Seq<char> {
    let b = magnitude_64(bits);
    sign_text(bits >= SIGN_64, b, Width::Double) + display_magnitude(b, Width::Double)
}

/// The bit pattern of the double next to one ten-thousandth.
pub const SMALL_64: u64 = 0x3f1a_36e2_eb1c_432d;

/// The bit pattern of the double ten to the sixteenth.
pub const LARGE_64: u64 = 0x4341_c379_37e0_8000;

/// The text of a double that always reads back as a number with a fraction:
/// with a point, or an exponent where the number is very large or small.
pub open spec fn exact_magnitude(b: nat) -> Seq<char> {
    if b > infinity(Width::Double) {
        "NaN"@
    } else if b == infinity(Width::Double) {
        "inf"@
    } else if b == 0 {
        "0.0"@
    } else {
        let (d, x) = shortest(b, Width::Double);
        if b < SMALL_64 || b >= LARGE_64 {
            exponent_text(d, x)
        } else {
            plain_text(d, x, true)
        }
    }
}

/// The exact text of a double.
pub open spec fn exact_64(bits: u64) -> Seq<char> {
    let b = magnitude_64(bits);
    sign_text(bits >= SIGN_64, b, Width::Double) + exact_magnitude(b)
}

/// Whether `a < b`, whatever their numbers of limbs.
fn less_any(a: &Vec<u32>, b: &Vec<u32>) -> (r: bool)
    ensures
        r == (big(a@) < big(b@)),
{
    if a.len() == b.len() {
        return less(a, b);
    }
    let mut x = copy_of(a);
    let mut y = copy_of(b);
    extend_to(&mut x, b.len());
    extend_to(&mut y, a.len());
    less(&x, &y)
}

/// Multiplying a denominator by ten too often exceeds the number.
proof fn lemma_ups_bound(num: nat, den: nat, k: nat)
    requires
        den > 0,
        num < den * exp2(3 * k),
    ensures
        ups(num, den) <= k,
    decreases k,
{
    if num >= 10 * den {
        if k == 0 {
            assert(den * 1 == den);
        } else {
            let e = exp2((3 * k - 3) as nat);
            reveal_with_fuel(exp2, 4);
            assert(exp2(3 * k) == 8 * e);
            assert(den * (8 * e) <= (10 * den) * e) by (nonlinear_arith);
            lemma_ups_bound(num, 10 * den, (k - 1) as nat);
        }
    }
}

/// Multiplying a numerator by ten often enough reaches the denominator.
proof fn lemma_downs_bound(num: nat, den: nat, k: nat)
    requires
        num > 0,
        den < num * exp2(3 * k),
    ensures
        downs(num, den) <= k,
    decreases k,
{
    if num < den {
        if k == 0 {
            assert(num * 1 == num);
        } else {
            let e = exp2((3 * k - 3) as nat);
            reveal_with_fuel(exp2, 4);
            assert(exp2(3 * k) == 8 * e);
            assert(num * (8 * e) <= (10 * num) * e) by (nonlinear_arith);
            lemma_downs_bound(10 * num, den, (k - 1) as nat);
        }
    }
}

/// Normalizing leaves one digit before the point.
proof fn lemma_normalized(num: nat, den: nat)
    requires
        num > 0,
        den > 0,
    ensures
        ({
            let n = num * exp10(downs(num, den));
            let d = den * exp10(ups(num, den));
            d <= n < 10 * d
        }),
        ups(num, den) == 0 || downs(num, den) == 0,
    decreases
            (if num < den {
                den - num
            } else {
                num - den
            }),
{
    if num >= 10 * den {
        lemma_normalized(num, 10 * den);
        let e = exp10(ups(num, 10 * den));
        assert((10 * den) * e == den * (10 * e)) by (nonlinear_arith);
    } else if num < den {
        lemma_normalized_down(num, den);
        assert(den * 1 == den);
    } else {
        assert(num * 1 == num);
        assert(den * 1 == den);
    }
}

proof fn lemma_normalized_down(num: nat, den: nat)
    requires
        num > 0,
        num < 10 * den,
    ensures
        den <= num * exp10(downs(num, den)) < 10 * den,
    decreases
            (if num < den {
                den - num
            } else {
                0
            }),
{
    if num < den {
        lemma_normalized_down(10 * num, den);
        let e = exp10(downs(10 * num, den));
        assert((10 * num) * e == num * (10 * e)) by (nonlinear_arith);
    } else {
        assert(num * 1 == num);
    }
}

/// What fits in the limbs is multiplied by ten without a carry.
fn tenfold_in(v: &mut Vec<u32>)
    requires
        10 * big(old(v)@) < weight(old(v)@.len()),
    ensures
        final(v)@.len() == old(v)@.len(),
        big(final(v)@) == 10 * big(old(v)@),
{
    let ghost w = weight(old(v)@.len());
    let c: u32 = mul_add(v, 10, 0);
    proof {
        assert(c == 0) by (nonlinear_arith)
            requires
                w * (c as nat) < w,
        ;
        assert(w * (c as nat) == 0) by (nonlinear_arith)
            requires
                c == 0,
        ;
    }
}

/// Take the divisor out of `r` as often as it goes in (less than ten times).
fn take_digit(r: &mut Vec<u32>, den: &Vec<u32>) -> (digit: u64)
    requires
        old(r)@.len() == den@.len(),
        big(den@) > 0,
        big(old(r)@) < 10 * big(den@),
    ensures
        final(r)@.len() == old(r)@.len(),
        digit < 10,
        big(old(r)@) == digit * big(den@) + big(final(r)@),
        big(final(r)@) < big(den@),
{
    let ghost total = big(old(r)@);
    let ghost d = big(den@);
    let mut digit: u64 = 0;
    assert(0 * d == 0) by (nonlinear_arith);
    while !less(r, den)
        invariant
            r@.len() == den@.len(),
            r@.len() == old(r)@.len(),
            d == big(den@),
            d > 0,
            total < 10 * d,
            digit < 10,
            total == digit * d + big(r@),
        decreases big(r@),
    {
        subtract(r, den);
        proof {
            assert((digit + 1) * d == digit * d + d) by (nonlinear_arith);
            assert(digit + 1 < 10) by (nonlinear_arith)
                requires
                    (digit + 1) * d <= total,
                    total < 10 * d,
            ;
        }
        digit += 1;
    }
    digit
}

/// Bignums that describe an interval, apart from the digits already taken out
/// of the number.
spec fn describes(
    i: Interval,
    d: nat,
    r: Seq<u32>,
    den: Seq<u32>,
    low: Seq<u32>,
    high: Seq<u32>,
) -> bool {
    &&& r.len() == den.len() && low.len() == den.len() && high.len() == den.len()
    &&& i.den == big(den)
    &&& i.den > 0
    &&& i.low == big(low)
    &&& i.high == big(high)
    &&& i.high > 0
    &&& i.low <= i.high
    &&& i.num == d * i.den + big(r)
    &&& big(r) < i.den
    &&& 100 * i.den < weight(den.len())
}

/// Whether the integers next to the number lie in the interval, in terms of
/// what is left of the number.
proof fn lemma_inside(i: Interval, d: nat, r: nat)
    requires
        i.den > 0,
        i.num == d * i.den + r,
        r < i.den,
        i.high > 0,
        i.low <= i.high,
    ensures
        i.num / i.den == d,
        i.num % i.den == r,
        inside(i, d) == if i.even {
            r <= i.low
        } else {
            r < i.low
        },
        i.low > 0 ==> inside(i, d + 1) == if i.even {
            i.den - r <= i.high
        } else {
            i.den - r < i.high
        },
{
    vstd::arithmetic::div_mod::lemma_fundamental_div_mod_converse(
        i.num as int,
        i.den as int,
        d as int,
        r as int,
    );
    assert((d + 1) * i.den == d * i.den + i.den) by (nonlinear_arith);
}

/// The digits of the shortest decimal in an interval, and how many they are.
fn find_shortest(
    first: u64,
    rest: Vec<u32>,
    den: &Vec<u32>,
    low: Vec<u32>,
    high: Vec<u32>,
    even: bool,
    most: u64,
    Ghost(start): Ghost<Interval>,
) -> (out: (u64, u64))
    requires
        describes(start, first as nat, rest@, den@, low@, high@),
        start.even == even,
        start.low > 0,
        10 * start.high < weight(den@.len()),
        first < 10,
        1 <= most <= 17,
    ensures
        (out.0 as nat, out.1 as nat) == shortest_from(start, 1, most as nat),
        1 <= out.1 <= most,
        out.0 <= 100_000_000_000_000_000,
{
    let mut d: u64 = first;
    let mut r = rest;
    let mut low = low;
    let mut high = high;
    let mut n: u64 = 1;
    let ghost mut i = start;
    proof {
        assert(exp10(1) == 10 * exp10(0));
        assert(exp10(0) == 1);
        lemma_exp10_17();
    }
    while n < most
        invariant_except_break
            1 <= n <= most <= 17,
            describes(i, d as nat, r@, den@, low@, high@),
            10 * i.high < weight(den@.len()),
            i.even == even,
            i.low > 0,
            d < exp10(n as nat),
            shortest_from(start, 1, most as nat) == shortest_from(i, n as nat, most as nat),
        ensures
            1 <= n <= most <= 17,
            describes(i, d as nat, r@, den@, low@, high@),
            i.even == even,
            i.low > 0,
            d < exp10(n as nat),
            shortest_from(start, 1, most as nat) == (pick(i), n as nat),
        decreases most - n,
    {
        proof {
            lemma_inside(i, d as nat, big(r@));
        }
        let below = less(&r, &low);
        let above = less(&low, &r);
        let mut t = copy_of(den);
        subtract(&mut t, &r);
        let short = less(&t, &high);
        let long = less(&high, &t);
        let down = below || (even && !above);
        let up = short || (even && !long);
        if down || up {
            break;
        }
        let ghost before = i;
        let ghost r0 = big(r@);
        let ghost d0 = d as nat;
        tenfold_in(&mut r);
        let digit: u64 = take_digit(&mut r, den);
        proof {
            lemma_exp10_17();
            lemma_exp10_mono((n + 1) as nat, 17);
            let c = i.den;
            assert(10 * (d0 * c + r0) == (10 * d0 + digit) * c + big(r@)) by (nonlinear_arith)
                requires
                    10 * r0 == digit * c + big(r@),
            ;
        }
        d = 10 * d + digit;
        tenfold_in(&mut low);
        tenfold_in(&mut high);
        proof {
            i = tenfold(before);
        }
        n += 1;
    }
    proof {
        lemma_inside(i, d as nat, big(r@));
        lemma_exp10_mono(n as nat, 17);
        lemma_exp10_17();
    }
    let below = less(&r, &low);
    let above = less(&low, &r);
    let mut t = copy_of(den);
    subtract(&mut t, &r);
    let short = less(&t, &high);
    let long = less(&high, &t);
    let down = below || (even && !above);
    let up = short || (even && !long);
    let nearer = less(&r, &t);
    if down && !up {
        (d, n)
    } else if up && !down {
        (d + 1, n)
    } else if nearer {
        (d, n)
    } else {
        (d + 1, n)
    }
}

pub proof fn lemma_exp10_17()
    ensures
        exp10(8) == 100_000_000,
        exp10(16) == 10_000_000_000_000_000,
        exp10(17) == 100_000_000_000_000_000,
{
    reveal_with_fuel(exp10, 10);
    assert(exp10(8) == 100_000_000);
    assert(exp10(16) == 10_000_000_000_000_000);
}

/// Give `v` one limb more than `n`, so that it can be multiplied by ten.
fn fit_to(v: &mut Vec<u32>, n: usize)
    requires
        old(v)@.len() <= n,
    ensures
        big(final(v)@) == big(old(v)@),
        final(v)@.len() == n + 1,
        100 * big(final(v)@) < weight(final(v)@.len()),
{
    extend_to(v, n);
    proof {
        lemma_push_zero(v@);
        lemma_big_bound(v@);
        lemma_weight_step(n as nat, (n + 1) as nat);
    }
    v.push(0);
}

/// The interval of a positive number is not empty, and the number is not too far
/// from one.
pub proof fn lemma_interval_shape(b: nat, w: Width)
    requires
        0 < b < infinity(w),
    ensures
        ({
            let i = interval_of(b, w);
            &&& i.num > 0
            &&& i.den > 0
            &&& 0 < i.low <= i.high
            &&& ups(i.num, i.den) <= 700
            &&& downs(i.num, i.den) <= 700
        }),
{
    lemma_exp2_values();
    let i = interval_of(b, w);
    let m = mantissa(b, w);
    let q = scale(b, w);
    let f = exp2((precision(w) - 1) as nat);
    assert(0 < m < 2 * f);
    assert(q < 2046) by {
        if b >= f {
            assert(b / f < 2047);
        }
    }
    let e = exp2(q);
    let u = exp2(reach(w) + precision(w));
    lemma_exp2_pos(q);
    lemma_exp2_pos(reach(w) + precision(w));
    assert((4 * m) * e >= 4) by (nonlinear_arith)
        requires
            m >= 1,
            e >= 1,
    ;
    lemma_exp2_mono(q, 2046);
    lemma_exp2_mono(precision(w), 53);
    lemma_exp2_add(54, 2046);
    let t = exp2(2046);
    let h = exp2(2100);
    assert(exp2(54) == 2 * exp2(53));
    let g = exp2(54);
    assert(m * e < g * t) by (nonlinear_arith)
        requires
            m < g,
            e <= t,
            t >= 1,
    ;
    assert((4 * m) * e < (4 * u) * h) by (nonlinear_arith)
        requires
            m * e < h,
            u >= 1,
    ;
    lemma_ups_bound(i.num, i.den, 700);
    lemma_exp2_mono(reach(w) + precision(w) + 1, 2100);
    assert(u < h);
    let n = (4 * m) * e;
    assert(4 * u < n * h) by (nonlinear_arith)
        requires
            n >= 4,
            u < h,
    ;
    lemma_downs_bound(i.num, i.den, 700);
}

/// A normalized interval is not empty, and its number has one digit before the
/// point.
pub proof fn lemma_normalized_shape(i: Interval)
    requires
        i.num > 0,
        i.den > 0,
        0 < i.low <= i.high,
    ensures
        ({
            let j = normalized(i);
            &&& j.den > 0
            &&& 0 < j.low <= j.high
            &&& j.den <= j.num < 10 * j.den
        }),
{
    lemma_normalized(i.num, i.den);
    let down = exp10(downs(i.num, i.den));
    let up = exp10(ups(i.num, i.den));
    lemma_exp10_pos(downs(i.num, i.den));
    lemma_exp10_pos(ups(i.num, i.den));
    assert(i.low * down > 0) by (nonlinear_arith)
        requires
            i.low > 0,
            down >= 1,
    ;
    assert(i.low * down <= i.high * down) by (nonlinear_arith)
        requires
            i.low <= i.high,
    ;
    assert(i.den * up > 0) by (nonlinear_arith)
        requires
            i.den > 0,
            up >= 1,
    ;
}

/// Scale an interval by a power of ten, so that its number has one digit before
/// the point; returns the exponent of that power.
fn normalize(
    num: &mut Vec<u32>,
    den: &mut Vec<u32>,
    low: &mut Vec<u32>,
    high: &mut Vec<u32>,
    Ghost(i): Ghost<Interval>,
) -> (x: i64)
    requires
        i.num == big(old(num)@),
        i.den == big(old(den)@),
        i.low == big(old(low)@),
        i.high == big(old(high)@),
        i.num > 0,
        i.den > 0,
        ups(i.num, i.den) <= 700,
        downs(i.num, i.den) <= 700,
    ensures
        normalized(i).num == big(final(num)@),
        normalized(i).den == big(final(den)@),
        normalized(i).low == big(final(low)@),
        normalized(i).high == big(final(high)@),
        x == ups(i.num, i.den) - downs(i.num, i.den),
        -700 <= x <= 700,
{
    proof {
        lemma_normalized(i.num, i.den);
        assert(exp10(0) == 1);
        assert(i.den * 1 == i.den);
        assert(i.num * 1 == i.num);
        assert(i.low * 1 == i.low);
        assert(i.high * 1 == i.high);
    }
    let mut x: i64 = 0;
    // Make the number less than ten.
    loop
        invariant_except_break
            0 <= x,
            big(num@) == i.num,
            i.den > 0,
            big(den@) == i.den * exp10(x as nat),
            big(den@) > 0,
            ups(i.num, i.den) == x + ups(i.num, big(den@)),
            ups(i.num, i.den) <= 700,
        ensures
            0 <= x <= 700,
            big(num@) == i.num,
            big(den@) == i.den * exp10(x as nat),
            big(den@) > 0,
            ups(i.num, i.den) == x,
        decreases 700 - x,
    {
        let mut ten = copy_of(den);
        mul_add_grow(&mut ten, 10, 0);
        if less_any(num, &ten) {
            break;
        }
        proof {
            let f = exp10(x as nat);
            assert(10 * (i.den * f) == i.den * (10 * f)) by (nonlinear_arith);
        }
        *den = ten;
        x += 1;
    }
    let ghost up = x;
    proof {
        if up > 0 {
            assert(i.num >= 10 * i.den);
            assert(downs(i.num, i.den) == 0);
        }
    }
    // Make the number at least one.
    let mut y: i64 = 0;
    while less_any(num, den)
        invariant
            0 <= y,
            0 <= up,
            i.num > 0,
            up == 0 ==> big(den@) == i.den,
            up > 0 ==> y == 0 && big(den@) <= i.num,
            big(num@) == i.num * exp10(y as nat),
            big(low@) == i.low * exp10(y as nat),
            big(high@) == i.high * exp10(y as nat),
            big(num@) > 0,
            exp10(0) == 1,
            i.num * 1 == i.num,
            up == 0 ==> downs(i.num, i.den) == y + downs(big(num@), i.den),
            downs(i.num, i.den) <= 700,
            big(den@) == i.den * exp10(up as nat),
        decreases 700 - y,
    {
        proof {
            let f = exp10(y as nat);
            assert(10 * (i.num * f) == i.num * (10 * f)) by (nonlinear_arith);
            assert(10 * (i.low * f) == i.low * (10 * f)) by (nonlinear_arith);
            assert(10 * (i.high * f) == i.high * (10 * f)) by (nonlinear_arith);
        }
        mul_add_grow(num, 10, 0);
        mul_add_grow(low, 10, 0);
        mul_add_grow(high, 10, 0);
        y += 1;
    }
    x - y
}

/// `d * 10^x` without trailing zeros in `d`.
fn trim(d: u64, x: i64) -> (out: (u64, i64))
    requires
        -1000 <= x <= 1000,
    ensures
        (out.0 as nat, out.1 as int) == trimmed(d as nat, x as int),
        -2000 <= out.1 <= 2000,
{
    let mut e: u64 = d;
    let mut y: i64 = x;
    let ghost mut k: nat = 0;
    assert(exp10(0) == 1);
    while e > 0 && e % 10 == 0
        invariant
            trimmed(d as nat, x as int) == trimmed(e as nat, y as int),
            y == x + k,
            -1000 <= x <= 1000,
            k <= 20,
            e > 0 ==> exp10(k) <= d,
            e > 0 ==> e * exp10(k) <= d,
        decreases e,
    {
        proof {
            let f = exp10(k);
            let g = (e / 10) as nat;
            assert(g * (10 * f) == (10 * g) * f) by (nonlinear_arith);
            assert(10 * g == e);
            assert(10 * f <= g * (10 * f)) by (nonlinear_arith)
                requires
                    g >= 1,
            ;
            lemma_exp10_17();
            if k == 20 {
                lemma_exp10_mono(17, 20);
                assert(exp10(20) == 10 * exp10(19));
                assert(exp10(19) == 10 * exp10(18));
                assert(exp10(18) == 10 * exp10(17));
            }
            k = k + 1;
        }
        e = e / 10;
        y += 1;
    }
    (e, y)
}

/// The shortest decimal `d * 10^x` of a finite positive number (see
/// [`shortest`]).
fn shortest_decimal(b: u64, w: Width) -> (out: (u64, i64))
    requires
        0 < b < infinity(w),
    ensures
        (out.0 as nat, out.1 as int) == shortest(b as nat, w),
        -2000 <= out.1 <= 2000,
{
    let (m, q) = take_apart(b, w);
    let (half, units, most): (u64, u64, u64) = match w {
        Width::Single => (0x80_0000, 149, 9),
        Width::Double => (0x10_0000_0000_0000, 1074, 17),
    };
    let ghost i = interval_of(b as nat, w);
    proof {
        lemma_exp2_values();
        lemma_interval_shape(b as nat, w);
        lemma_normalized_shape(i);
    }
    let ghost e = exp2(q as nat);
    let even = m % 2 == 0;
    let mut num = limbs_of(4 * m);
    times_exp2(&mut num, q);
    let mut den = small(4);
    times_exp2(&mut den, units);
    let mut low = small(
        if m == half && q > 0 {
            1
        } else {
            2
        },
    );
    times_exp2(&mut low, q);
    let mut high = small(2);
    times_exp2(&mut high, q);
    assert(1 * e == e);
    let x: i64 = normalize(&mut num, &mut den, &mut low, &mut high, Ghost(i));
    // Give all of them the same number of limbs, with one to spare.
    let mut len: usize = num.len();
    if den.len() > len {
        len = den.len();
    }
    if low.len() > len {
        len = low.len();
    }
    if high.len() > len {
        len = high.len();
    }
    fit_to(&mut num, len);
    fit_to(&mut den, len);
    fit_to(&mut low, len);
    fit_to(&mut high, len);
    let digit: u64 = take_digit(&mut num, &den);
    let (d, count) = find_shortest(
        digit,
        num,
        &den,
        low,
        high,
        even,
        most,
        Ghost(normalized(i)),
    );
    trim(d, x - count as i64 + 1)
}

/// Append zeros.
fn push_zeros(out: &mut String, n: u64)
    ensures
        final(out)@ == old(out)@ + zeros_text(n as nat),
{
    let mut i: u64 = 0;
    assert(out@ =~= old(out)@ + zeros_text(0));
    while i < n
        invariant
            i <= n,
            out@ == old(out)@ + zeros_text(i as nat),
        decreases n - i,
    {
        out.push('0');
        i += 1;
        assert(out@ =~= old(out)@ + zeros_text(i as nat));
    }
}

/// Append `d * 10^x` without an exponent.
fn push_plain(out: &mut String, d: u64, x: i64, pointed: bool)
    requires
        -2000 <= x <= 2000,
    ensures
        final(out)@ == old(out)@ + plain_text(d as nat, x as int, pointed),
{
    let text = dec_string(d as u128);
    let ds = chars_of(text.as_str());
    proof {
        lemma_dec_len(d as nat);
    }
    let len: i64 = ds.len() as i64;
    let at: i64 = len + x;
    if at <= 0 {
        out.append("0.");
        push_zeros(out, (-at) as u64);
        out.append(text.as_str());
    } else if x >= 0 {
        out.append(text.as_str());
        push_zeros(out, x as u64);
        if pointed {
            out.append(".0");
        }
    } else {
        let whole = string_of(&ds, 0, at as usize);
        let frac = string_of(&ds, at as usize, ds.len());
        out.append(whole.as_str());
        out.append(".");
        out.append(frac.as_str());
        assert(ds@.subrange(0, at as int) =~= ds@.take(at as int));
        assert(ds@.subrange(at as int, ds@.len() as int) =~= ds@.skip(at as int));
    }
    assert(out@ =~= old(out)@ + plain_text(d as nat, x as int, pointed));
}

/// A 64-bit number has at least one and at most twenty digits.
proof fn lemma_dec_len(n: nat)
    requires
        n <= u64::MAX,
    ensures
        1 <= dec(n).len() <= 20,
{
    reveal_with_fuel(exp10, 21);
    assert(exp10(10) == 10_000_000_000);
    assert(exp10(20) == 100_000_000_000_000_000_000);
    lemma_dec_len_exp(n, 20);
}

/// A number below `10^k` has at most `k` digits, and zero has one.
proof fn lemma_dec_len_exp(n: nat, k: nat)
    requires
        n < exp10(k),
        k >= 1,
    ensures
        1 <= dec(n).len() <= k,
    decreases k,
{
    if n >= 10 {
        if k == 1 {
            assert(exp10(1) == 10 * exp10(0));
            assert(exp10(0) == 1);
        } else {
            lemma_dec_len_exp(n / 10, (k - 1) as nat);
        }
    }
}

/// Append `d * 10^x` with an exponent.
fn push_exponent(out: &mut String, d: u64, x: i64)
    requires
        -2000 <= x <= 2000,
    ensures
        final(out)@ == old(out)@ + exponent_text(d as nat, x as int),
{
    let text = dec_string(d as u128);
    let ds = chars_of(text.as_str());
    proof {
        lemma_dec_len(d as nat);
    }
    let len: i64 = ds.len() as i64;
    let first = string_of(&ds, 0, 1);
    out.append(first.as_str());
    assert(ds@.subrange(0, 1) =~= ds@.take(1));
    if ds.len() > 1 {
        let frac = string_of(&ds, 1, ds.len());
        out.append(".");
        out.append(frac.as_str());
        assert(ds@.subrange(1, ds@.len() as int) =~= ds@.skip(1));
    }
    out.append("e");
    let e = int_string((len + x - 1) as i128);
    out.append(e.as_str());
    assert(out@ =~= old(out)@ + exponent_text(d as nat, x as int));
}

/// How a number is displayed, given its sign and its bit pattern without sign.
fn display(negative: bool, b: u64, w: Width) -> (out: String)
    ensures
        out@ == sign_text(negative, b as nat, w) + display_magnitude(b as nat, w),
{
    let inf: u64 = match w {
        Width::Single => 0x7f80_0000,
        Width::Double => 0x7ff0_0000_0000_0000,
    };
    let mut out = String::new();
    assert(out@ =~= Seq::<char>::empty());
    if negative && b <= inf {
        out.append("-");
        assert(out@ =~= "-"@);
    }
    if b > inf {
        out.append("NaN");
    } else if b == inf {
        out.append("inf");
    } else if b == 0 {
        out.append("0");
    } else {
        let (d, x) = shortest_decimal(b, w);
        push_plain(&mut out, d, x, false);
    }
    out
}

/// How a single is displayed (see [`display_32`]).
pub fn display_single(bits: u32) -> (out: String)
    ensures
        out@ == display_32(bits),
{
    display(bits >= SIGN_32, (bits % SIGN_32) as u64, Width::Single)
}

/// How a double is displayed (see [`display_64`]).
pub fn display_double(bits: u64) -> (out: String)
    ensures
        out@ == display_64(bits),
{
    display(bits >= SIGN_64, bits % SIGN_64, Width::Double)
}

/// The text of a double that reads back exactly, and as a number with a
/// fraction (see [`exact_64`]).
pub fn exact_double(bits: u64) -> (out: String)
    ensures
        out@ == exact_64(bits),
{
    let b: u64 = bits % SIGN_64;
    let mut out = String::new();
    assert(out@ =~= Seq::<char>::empty());
    if bits >= SIGN_64 && b <= 0x7ff0_0000_0000_0000 {
        out.append("-");
        assert(out@ =~= "-"@);
    }
    if b > 0x7ff0_0000_0000_0000 {
        out.append("NaN");
    } else if b == 0x7ff0_0000_0000_0000 {
        out.append("inf");
    } else if b == 0 {
        out.append("0.0");
    } else {
        let (d, x) = shortest_decimal(b, Width::Double);
        if b < SMALL_64 || b >= LARGE_64 {
            push_exponent(&mut out, d, x);
        } else {
            push_plain(&mut out, d, x, true);
        }
    }
    out
}

} // verus!
