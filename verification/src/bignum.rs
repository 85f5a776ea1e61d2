//! Natural numbers of any size, as little-endian vectors of 32-bit limbs.
//! Just what exact conversion between decimal text and binary floating point
//! needs: multiply by a small number, double, compare, subtract.

use vstd::prelude::*;

verus! {

/// The weight of limb `i`.
pub open spec fn weight(i: nat) -> nat
    decreases i,
{
    if i == 0 {
        1
    } else {
        0x1_0000_0000 * weight((i - 1) as nat)
    }
}

/// The number that limbs stand for.
pub open spec fn big(s: Seq<u32>) -> nat
    decreases s.len(),
{
    if s.len() == 0 {
        0
    } else {
        big(s.drop_last()) + weight((s.len() - 1) as nat) * s.last() as nat
    }
}

pub proof fn lemma_big_push(s: Seq<u32>, x: u32)
    ensures
        big(s.push(x)) == big(s) + weight(s.len()) * x as nat,
{
    assert(s.push(x).drop_last() =~= s);
}

/// Limbs stand for less than the weight of the limb behind them.
pub proof fn lemma_big_bound(s: Seq<u32>)
    ensures
        big(s) < weight(s.len()),
    decreases s.len(),
{
    if s.len() > 0 {
        lemma_big_bound(s.drop_last());
        let w = weight((s.len() - 1) as nat);
        let x = s.last() as nat;
        assert(w + w * x <= 0x1_0000_0000 * w) by (nonlinear_arith)
            requires
                x <= 0xffff_ffff,
        ;
    }
}

/// A number made of its low limbs and one more.
proof fn lemma_take_step(s: Seq<u32>, i: int)
    requires
        0 <= i < s.len(),
    ensures
        big(s.take(i + 1)) == big(s.take(i)) + weight(i as nat) * s[i] as nat,
{
    assert(s.take(i + 1).drop_last() =~= s.take(i));
}

/// The limbs of a small number.
pub fn small(x: u32) -> (r: Vec<u32>)
    ensures
        big(r@) == x,
{
    let mut v: Vec<u32> = Vec::new();
    v.push(x);
    proof {
        lemma_big_push(Seq::empty(), x);
        assert(v@ =~= Seq::<u32>::empty().push(x));
        assert(weight(0) == 1);
        assert(1 * x as nat == x as nat);
    }
    v
}

/// Multiply by `m` and add `a`, keeping the number of limbs; what is carried
/// out at the top is returned.
pub fn mul_add(v: &mut Vec<u32>, m: u32, a: u32) -> (carry: u32)
    ensures
        final(v)@.len() == old(v)@.len(),
        big(final(v)@) + weight(old(v)@.len()) * carry as nat == big(old(v)@) * m as nat + a as nat,
{
    let ghost o = old(v)@;
    let mut c: u64 = a as u64;
    let mut i: usize = 0;
    assert(o.take(0) =~= Seq::<u32>::empty());
    assert(v@.take(0) =~= Seq::<u32>::empty());
    assert(weight(0) == 1);
    assert(big(o.take(0)) * m as nat == 0) by (nonlinear_arith)
        requires
            big(o.take(0)) == 0,
    ;
    while i < v.len()
        invariant
            i <= v@.len(),
            v@.len() == o.len(),
            c <= 0xffff_ffff,
            forall|j: int| i <= j < o.len() ==> v@[j] == o[j],
            big(v@.take(i as int)) + weight(i as nat) * c as nat == big(o.take(i as int)) * m as nat
                + a as nat,
        decreases v@.len() - i,
    {
        let x: u64 = v[i] as u64;
        let ghost before = v@;
        assert(x * (m as u64) + c <= 0xffff_ffff_ffff_ffff) by (nonlinear_arith)
            requires
                x <= 0xffff_ffff,
                m <= 0xffff_ffff,
                c <= 0xffff_ffff,
        ;
        let t: u64 = x * (m as u64) + c;
        let low: u32 = (t % 0x1_0000_0000) as u32;
        let high: u64 = t / 0x1_0000_0000;
        v.set(i, low);
        proof {
            lemma_take_step(v@, i as int);
            lemma_take_step(o, i as int);
            assert(v@.take(i as int) =~= before.take(i as int));
            let w = weight(i as nat) as int;
            assert(weight((i + 1) as nat) == 0x1_0000_0000 * w);
            let bo = big(o.take(i as int)) as int;
            let bv = big(before.take(i as int)) as int;
            lemma_mul_step(w, bo, bv, m as int, c as int, x as int, low as int, high as int, a as int);
        }
        c = high;
        i += 1;
    }
    assert(v@.take(i as int) =~= v@);
    assert(o.take(i as int) =~= o);
    c as u32
}

proof fn lemma_mul_step(
    w: int,
    bo: int,
    bv: int,
    m: int,
    c: int,
    x: int,
    low: int,
    high: int,
    a: int,
)
    requires
        bv + w * c == bo * m + a,
        low + 0x1_0000_0000 * high == x * m + c,
    ensures
        (bv + w * low) + (0x1_0000_0000 * w) * high == (bo + w * x) * m + a,
{
    assert((bo + w * x) * m + a == bo * m + a + w * (x * m)) by (nonlinear_arith);
    assert(w * (x * m) == w * (low + 0x1_0000_0000 * high - c)) by (nonlinear_arith)
        requires
            low + 0x1_0000_0000 * high == x * m + c,
    ;
    assert(w * (low + 0x1_0000_0000 * high - c) == w * low + (0x1_0000_0000 * w) * high - w * c)
        by (nonlinear_arith);
}

/// Multiply by `m` and add `a`, adding a limb where one is needed.
pub fn mul_add_grow(v: &mut Vec<u32>, m: u32, a: u32)
    ensures
        big(final(v)@) == big(old(v)@) * m as nat + a as nat,
{
    let c: u32 = mul_add(v, m, a);
    if c > 0 {
        proof {
            lemma_big_push(v@, c);
        }
        v.push(c);
    } else {
        assert(forall|w: nat| #[trigger] (w * c as nat) == 0) by (nonlinear_arith)
            requires
                c == 0,
        ;
    }
}

/// Add zero limbs at the top, up to `n` limbs.
pub fn extend_to(v: &mut Vec<u32>, n: usize)
    ensures
        big(final(v)@) == big(old(v)@),
        final(v)@.len() == if n >= old(v)@.len() {
            n as nat
        } else {
            old(v)@.len()
        },
{
    while v.len() < n
        invariant
            big(v@) == big(old(v)@),
            v@.len() >= old(v)@.len(),
            v@.len() <= n || v@.len() == old(v)@.len(),
        decreases n - v@.len(),
    {
        proof {
            lemma_big_push(v@, 0);
            assert(weight(v@.len()) * 0 == 0);
        }
        v.push(0);
    }
}

/// Whether `a` is less than `b`, for numbers of equally many limbs.
pub fn less(a: &Vec<u32>, b: &Vec<u32>) -> (r: bool)
    requires
        a@.len() == b@.len(),
    ensures
        r == (big(a@) < big(b@)),
{
    let mut i: usize = a.len();
    assert(a@.take(i as int) =~= a@);
    assert(b@.take(i as int) =~= b@);
    while i > 0
        invariant
            i <= a@.len(),
            a@.len() == b@.len(),
            big(a@) - big(a@.take(i as int)) == big(b@) - big(b@.take(i as int)),
        decreases i,
    {
        proof {
            lemma_take_step(a@, i - 1);
            lemma_take_step(b@, i - 1);
            lemma_big_bound(a@.take(i - 1));
            lemma_big_bound(b@.take(i - 1));
        }
        let x: u32 = a[i - 1];
        let y: u32 = b[i - 1];
        if x < y {
            proof {
                let w = weight((i - 1) as nat);
                assert(w * y >= w * x + w) by (nonlinear_arith)
                    requires
                        y >= x + 1,
                ;
            }
            return true;
        }
        if x > y {
            proof {
                let w = weight((i - 1) as nat);
                assert(w * x >= w * y + w) by (nonlinear_arith)
                    requires
                        x >= y + 1,
                ;
            }
            return false;
        }
        i -= 1;
    }
    assert(a@.take(0) =~= Seq::<u32>::empty());
    assert(b@.take(0) =~= Seq::<u32>::empty());
    false
}

/// Subtract `b`, for numbers of equally many limbs.
pub fn subtract(a: &mut Vec<u32>, b: &Vec<u32>)
    requires
        old(a)@.len() == b@.len(),
        big(b@) <= big(old(a)@),
    ensures
        final(a)@.len() == old(a)@.len(),
        big(final(a)@) == big(old(a)@) - big(b@),
{
    let ghost o = old(a)@;
    let mut borrow: u64 = 0;
    let mut i: usize = 0;
    assert(a@.take(0) =~= Seq::<u32>::empty());
    assert(o.take(0) =~= Seq::<u32>::empty());
    assert(b@.take(0) =~= Seq::<u32>::empty());
    assert(weight(0) * borrow as nat == 0) by (nonlinear_arith)
        requires
            borrow == 0,
    ;
    while i < a.len()
        invariant
            i <= a@.len(),
            a@.len() == o.len(),
            o.len() == b@.len(),
            borrow <= 1,
            forall|j: int| i <= j < o.len() ==> a@[j] == o[j],
            big(a@.take(i as int)) + big(b@.take(i as int)) == big(o.take(i as int)) + weight(
                i as nat,
            ) * borrow as nat,
        decreases a@.len() - i,
    {
        let ghost before = a@;
        let x: u64 = a[i] as u64;
        let y: u64 = b[i] as u64 + borrow;
        let next: u64 = if x < y {
            1
        } else {
            0
        };
        let d: u64 = x + next * 0x1_0000_0000 - y;
        a.set(i, d as u32);
        proof {
            lemma_take_step(a@, i as int);
            lemma_take_step(o, i as int);
            lemma_take_step(b@, i as int);
            assert(a@.take(i as int) =~= before.take(i as int));
            let w = weight(i as nat) as int;
            assert(weight((i + 1) as nat) == 0x1_0000_0000 * w);
            lemma_sub_step(w, x as int, b@[i as int] as int, borrow as int, next as int, d as int);
        }
        borrow = next;
        i += 1;
    }
    assert(a@.take(i as int) =~= a@);
    assert(o.take(i as int) =~= o);
    assert(b@.take(i as int) =~= b@);
    proof {
        lemma_big_bound(a@);
        let w = weight(i as nat);
        if borrow == 1 {
            assert(w * borrow as nat == w) by (nonlinear_arith)
                requires
                    borrow == 1,
            ;
        } else {
            assert(w * borrow as nat == 0) by (nonlinear_arith)
                requires
                    borrow == 0,
            ;
        }
    }
}

proof fn lemma_sub_step(w: int, x: int, y: int, borrow: int, next: int, d: int)
    requires
        d == x + next * 0x1_0000_0000 - (y + borrow),
    ensures
        w * d + w * y + w * borrow == w * x + (0x1_0000_0000 * w) * next,
{
    assert(w * d + w * y + w * borrow == w * x + (0x1_0000_0000 * w) * next) by (nonlinear_arith)
        requires
            d == x + next * 0x1_0000_0000 - (y + borrow),
    ;
}

/// A copy.
pub fn copy_of(v: &Vec<u32>) -> (r: Vec<u32>)
    ensures
        r@ == v@,
{
    let mut out: Vec<u32> = Vec::new();
    let mut i: usize = 0;
    while i < v.len()
        invariant
            i <= v@.len(),
            out@ == v@.take(i as int),
        decreases v@.len() - i,
    {
        out.push(v[i]);
        i += 1;
        assert(out@ =~= v@.take(i as int));
    }
    assert(v@.take(i as int) =~= v@);
    out
}

/// Two to the power `n`.
pub open spec fn exp2(n: nat) -> nat
    decreases n,
{
    if n == 0 {
        1
    } else {
        2 * exp2((n - 1) as nat)
    }
}

/// Ten to the power `n`.
pub open spec fn exp10(n: nat) -> nat
    decreases n,
{
    if n == 0 {
        1
    } else {
        10 * exp10((n - 1) as nat)
    }
}

/// Multiply by two to the power `n`.
pub fn times_exp2(v: &mut Vec<u32>, n: u64)
    ensures
        big(final(v)@) == big(old(v)@) * exp2(n as nat),
{
    let mut i: u64 = 0;
    assert(exp2(0) == 1);
    assert(big(v@) == big(old(v)@) * 1);
    while i < n
        invariant
            i <= n,
            big(v@) == big(old(v)@) * exp2(i as nat),
        decreases n - i,
    {
        mul_add_grow(v, 2, 0);
        proof {
            let b = big(old(v)@);
            let e = exp2(i as nat);
            assert((b * e) * 2 == b * (2 * e)) by (nonlinear_arith);
        }
        i += 1;
    }
}

/// Multiply by ten to the power `n`.
pub fn times_exp10(v: &mut Vec<u32>, n: u128)
    ensures
        big(final(v)@) == big(old(v)@) * exp10(n as nat),
{
    let mut i: u128 = 0;
    assert(exp10(0) == 1);
    assert(big(v@) == big(old(v)@) * 1);
    while i < n
        invariant
            i <= n,
            big(v@) == big(old(v)@) * exp10(i as nat),
        decreases n - i,
    {
        mul_add_grow(v, 10, 0);
        proof {
            let b = big(old(v)@);
            let e = exp10(i as nat);
            assert((b * e) * 10 == b * (10 * e)) by (nonlinear_arith);
        }
        i += 1;
    }
}

} // verus!
