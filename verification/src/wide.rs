//! Whole numbers of any size, as limbs of 64 bits from the lowest up: the
//! arithmetic that a product of many factors needs before it is cut down to
//! a machine word.

use vstd::prelude::*;
use vstd::arithmetic::div_mod::lemma_fundamental_div_mod;

verus! {

/// The number that limbs stand for, the lowest limb first.
pub open spec fn wide_value(s: Seq<u64>) -> nat
    decreases s.len(),
{
    if s.len() == 0 {
        0
    } else {
        s[0] as nat + 0x1_0000_0000_0000_0000 * wide_value(s.skip(1))
    }
}

/// The limbs of a machine word.
pub fn wide_from(v: u64) -> (r: Vec<u64>)
    ensures
        wide_value(r@) == v,
{
    let mut r: Vec<u64> = Vec::new();
    r.push(v);
    assert(r@.skip(1) =~= Seq::<u64>::empty());
    assert(wide_value(r@.skip(1)) == 0);
    r
}

proof fn lemma_front(s: Seq<u64>, x: u64)
    ensures
        wide_value(s.insert(0, x)) == x + 0x1_0000_0000_0000_0000 * wide_value(s),
{
    assert(s.insert(0, x).skip(1) =~= s);
    assert(s.insert(0, x)[0] == x);
}

fn times_from(a: &Vec<u64>, i: usize, m: u64, carry: u64) -> (r: Vec<u64>)
    requires
        i <= a@.len(),
    ensures
        wide_value(r@) == wide_value(a@.skip(i as int)) * m + carry,
    decreases a@.len() - i,
{
    if i >= a.len() {
        let r = if carry == 0 {
            Vec::new()
        } else {
            wide_from(carry)
        };
        assert(a@.skip(i as int) =~= Seq::<u64>::empty());
        assert(wide_value(a@.skip(i as int)) * m == 0) by (nonlinear_arith)
            requires
                wide_value(a@.skip(i as int)) == 0,
        ;
        return r;
    }
    let x: u64 = a[i];
    assert(0 <= (x as int) * (m as int) <= 0xFFFF_FFFF_FFFF_FFFF * 0xFFFF_FFFF_FFFF_FFFF) by (nonlinear_arith)
        requires
            0 <= x <= 0xFFFF_FFFF_FFFF_FFFF,
            0 <= m <= 0xFFFF_FFFF_FFFF_FFFF,
    ;
    let t: u128 = (x as u128) * (m as u128) + (carry as u128);
    let lo: u64 = (t % 0x1_0000_0000_0000_0000) as u64;
    let hi: u64 = (t / 0x1_0000_0000_0000_0000) as u64;
    let mut rest = times_from(a, i + 1, m, hi);
    let ghost tail = rest@;
    rest.insert(0, lo);
    proof {
        lemma_front(tail, lo);
        let s = a@.skip(i as int);
        assert(s[0] == x);
        assert(s.skip(1) =~= a@.skip(i + 1));
        let v1 = wide_value(a@.skip(i + 1)) as int;
        assert(wide_value(s) == x + 0x1_0000_0000_0000_0000 * v1);
        assert(t == lo + 0x1_0000_0000_0000_0000 * hi);
        assert((x + 0x1_0000_0000_0000_0000 * v1) * m + carry == (x as int) * (m as int) + carry
            + 0x1_0000_0000_0000_0000 * (v1 * m)) by (nonlinear_arith);
        assert(0x1_0000_0000_0000_0000 * (v1 * m + hi) == 0x1_0000_0000_0000_0000 * (v1 * m)
            + 0x1_0000_0000_0000_0000 * hi) by (nonlinear_arith);
    }
    rest
}

/// The product of a wide number and a machine word.
pub fn wide_times(a: &Vec<u64>, m: u64) -> (r: Vec<u64>)
    ensures
        wide_value(r@) == wide_value(a@) * m,
{
    assert(a@.skip(0) =~= a@);
    times_from(a, 0, m, 0)
}

fn over_from(a: &Vec<u64>, i: usize, d: u64) -> (r: (Vec<u64>, u64))
    requires
        i <= a@.len(),
        d > 0,
    ensures
        wide_value(r.0@) * d + r.1 == wide_value(a@.skip(i as int)),
        r.1 < d,
    decreases a@.len() - i,
{
    if i >= a.len() {
        assert(a@.skip(i as int) =~= Seq::<u64>::empty());
        let q: Vec<u64> = Vec::new();
        assert(wide_value(q@) * d == 0) by (nonlinear_arith)
            requires
                wide_value(q@) == 0,
        ;
        return (q, 0);
    }
    let (mut q, rem) = over_from(a, i + 1, d);
    let x: u64 = a[i];
    let cur: u128 = (rem as u128) * 0x1_0000_0000_0000_0000 + (x as u128);
    assert(cur < d * 0x1_0000_0000_0000_0000);
    assert(cur / (d as u128) < 0x1_0000_0000_0000_0000) by (nonlinear_arith)
        requires
            cur < d * 0x1_0000_0000_0000_0000,
            d > 0,
    ;
    let qi: u64 = (cur / (d as u128)) as u64;
    let r2: u64 = (cur % (d as u128)) as u64;
    let ghost tail = q@;
    q.insert(0, qi);
    proof {
        lemma_front(tail, qi);
        let s = a@.skip(i as int);
        assert(s[0] == x);
        assert(s.skip(1) =~= a@.skip(i + 1));
        let vq = wide_value(tail) as int;
        lemma_fundamental_div_mod(cur as int, d as int);
        assert(cur == d * qi + r2);
        assert((qi + 0x1_0000_0000_0000_0000 * vq) * d + r2 == d * qi + r2 + 0x1_0000_0000_0000_0000 * (vq
            * d)) by (nonlinear_arith);
        assert(0x1_0000_0000_0000_0000 * (vq * d + rem) == 0x1_0000_0000_0000_0000 * (vq * d)
            + 0x1_0000_0000_0000_0000 * rem) by (nonlinear_arith);
    }
    (q, r2)
}

/// The quotient of a wide number by a machine word, rounded down.
pub fn wide_over(a: &Vec<u64>, d: u64) -> (r: Vec<u64>)
    requires
        d > 0,
    ensures
        wide_value(r@) == wide_value(a@) as int / (d as int),
{
    assert(a@.skip(0) =~= a@);
    let (q, rem) = over_from(a, 0, d);
    proof {
        let v = wide_value(a@) as int;
        let w = wide_value(q@) as int;
        lemma_fundamental_div_mod(v, d as int);
        assert(w == v / (d as int)) by (nonlinear_arith)
            requires
                w * d + rem == v,
                0 <= rem < d,
                v == d * (v / (d as int)) + v % (d as int),
                0 <= v % (d as int) < d,
                d > 0,
        ;
    }
    q
}

fn zero_from(a: &Vec<u64>, i: usize) -> (r: bool)
    requires
        i <= a@.len(),
    ensures
        r == (wide_value(a@.skip(i as int)) == 0),
    decreases a@.len() - i,
{
    if i >= a.len() {
        assert(a@.skip(i as int) =~= Seq::<u64>::empty());
        return true;
    }
    let rest = zero_from(a, i + 1);
    proof {
        let s = a@.skip(i as int);
        assert(s[0] == a@[i as int]);
        assert(s.skip(1) =~= a@.skip(i + 1));
    }
    a[i] == 0 && rest
}

/// A wide number cut down to a machine word: the number itself, or `limit`
/// where it is larger.
pub fn wide_min(a: &Vec<u64>, limit: u64) -> (r: u64)
    ensures
        r == if wide_value(a@) <= limit {
            wide_value(a@)
        } else {
            limit as nat
        },
{
    if a.len() == 0 {
        return 0;
    }
    let small = zero_from(a, 1);
    if small {
        let v = a[0];
        if v <= limit {
            v
        } else {
            limit
        }
    } else {
        limit
    }
}

} // verus!
