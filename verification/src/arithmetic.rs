//! Whole-number arithmetic for the sizing of the filters: rounding up, and
//! exact products of powers. These outgrow every machine integer, so they
//! are held as sequences of 64-bit limbs, lowest first.

use vstd::prelude::*;

verus! {

/// The least integer that is at least `num / den`.
pub open spec fn ceil_div(num: int, den: int) -> int {
    (num + den - 1) / den
}

/// `b` to the power of `e`.
pub open spec fn power(b: nat, e: nat) -> nat
    decreases e,
{
    if e == 0 {
        1
    } else {
        b * power(b, (e - 1) as nat)
    }
}

/// A power grows with its base.
pub proof fn lemma_power_grows(a: nat, b: nat, e: nat)
    requires
        a <= b,
    ensures
        power(a, e) <= power(b, e),
    decreases e,
{
    if e > 0 {
        lemma_power_grows(a, b, (e - 1) as nat);
        assert(a * power(a, (e - 1) as nat) <= b * power(b, (e - 1) as nat)) by (nonlinear_arith)
            requires
                a <= b,
                power(a, (e - 1) as nat) <= power(b, (e - 1) as nat),
        ;
    }
}

/// The power of a product is the product of the powers.
pub proof fn lemma_power_of_product(a: nat, b: nat, e: nat)
    ensures
        power(a * b, e) == power(a, e) * power(b, e),
    decreases e,
{
    if e > 0 {
        lemma_power_of_product(a, b, (e - 1) as nat);
        let pa = power(a, (e - 1) as nat);
        let pb = power(b, (e - 1) as nat);
        assert((a * b) * (pa * pb) == (a * pa) * (b * pb)) by (nonlinear_arith);
    } else {
        assert(power(a, e) * power(b, e) == 1) by (nonlinear_arith)
            requires
                power(a, e) == 1,
                power(b, e) == 1,
        ;
    }
}

/// A power with a sum as exponent is the product of the powers.
pub proof fn lemma_power_of_sum(a: nat, e1: nat, e2: nat)
    ensures
        power(a, e1 + e2) == power(a, e1) * power(a, e2),
    decreases e1,
{
    if e1 > 0 {
        lemma_power_of_sum(a, (e1 - 1) as nat, e2);
        let p1 = power(a, (e1 - 1) as nat);
        let p2 = power(a, e2);
        assert(a * (p1 * p2) == (a * p1) * p2) by (nonlinear_arith);
    } else {
        assert(1 * power(a, e2) == power(a, e2));
    }
}

/// A power of a power is a power with the product of the exponents.
pub proof fn lemma_power_of_power(a: nat, x: nat, e: nat)
    ensures
        power(power(a, x), e) == power(a, x * e),
    decreases e,
{
    if e > 0 {
        lemma_power_of_power(a, x, (e - 1) as nat);
        lemma_power_of_sum(a, x, x * ((e - 1) as nat));
        assert(x + x * ((e - 1) as nat) == x * e) by (nonlinear_arith)
            requires
                e > 0,
        ;
    } else {
        assert(x * e == 0) by (nonlinear_arith)
            requires
                e == 0,
        ;
    }
}

/// A power of a positive number is positive.
pub proof fn lemma_power_positive(a: nat, e: nat)
    requires
        a >= 1,
    ensures
        power(a, e) >= 1,
    decreases e,
{
    if e > 0 {
        lemma_power_positive(a, (e - 1) as nat);
        assert(a * power(a, (e - 1) as nat) >= 1) by (nonlinear_arith)
            requires
                a >= 1,
                power(a, (e - 1) as nat) >= 1,
        ;
    }
}

/// A product of numbers within bounds is within the product of the bounds.
pub proof fn lemma_product_bound(a: int, b: int, most_a: int, most_b: int)
    by (nonlinear_arith)
    requires
        0 <= a <= most_a,
        0 <= b <= most_b,
    ensures
        0 <= a * b <= most_a * most_b,
{
}

/// The base of the limbs: 2^64.
pub open spec fn base() -> nat {
    0x1_0000_0000_0000_0000
}

/// Limb number `j` of a number, which is zero beyond its length.
pub open spec fn limb(limbs: Seq<u64>, j: int) -> nat {
    if 0 <= j < limbs.len() {
        limbs[j] as nat
    } else {
        0
    }
}

/// The number that the lowest `upto` limbs stand for.
pub open spec fn value_upto(limbs: Seq<u64>, upto: nat) -> nat
    decreases upto,
{
    if upto == 0 {
        0
    } else {
        value_upto(limbs, (upto - 1) as nat) + limb(limbs, upto - 1) * power(
            base(),
            (upto - 1) as nat,
        )
    }
}

/// The number that a sequence of limbs stands for.
pub open spec fn value(limbs: Seq<u64>) -> nat {
    value_upto(limbs, limbs.len())
}

proof fn lemma_value_agrees(s: Seq<u64>, t: Seq<u64>, upto: nat)
    requires
        forall|j: int| 0 <= j < upto ==> limb(s, j) == limb(t, j),
    ensures
        value_upto(s, upto) == value_upto(t, upto),
    decreases upto,
{
    if upto > 0 {
        lemma_value_agrees(s, t, (upto - 1) as nat);
    }
}

proof fn lemma_value_padded(s: Seq<u64>, upto: nat)
    requires
        upto >= s.len(),
    ensures
        value_upto(s, upto) == value(s),
    decreases upto,
{
    if upto > s.len() {
        lemma_value_padded(s, (upto - 1) as nat);
        assert(limb(s, upto - 1) * power(base(), (upto - 1) as nat) == 0) by (nonlinear_arith)
            requires
                limb(s, upto - 1) == 0,
        ;
    }
}

proof fn lemma_value_bound(s: Seq<u64>, upto: nat)
    ensures
        value_upto(s, upto) < power(base(), upto),
    decreases upto,
{
    if upto > 0 {
        lemma_value_bound(s, (upto - 1) as nat);
        let low = value_upto(s, (upto - 1) as nat);
        let unit = power(base(), (upto - 1) as nat);
        let top = limb(s, upto - 1);
        assert(low + top * unit < base() * unit) by (nonlinear_arith)
            requires
                low < unit,
                top < base(),
                base() == 0x1_0000_0000_0000_0000,
        ;
    }
}

/// The product of a number and a machine integer.
pub fn times(a: &Vec<u64>, m: u64) -> (out: Vec<u64>)
    ensures
        value(out@) == value(a@) * m,
{
    let mut out: Vec<u64> = Vec::new();
    let mut carry: u64 = 0;
    let mut i: usize = 0;
    proof {
        let unit = power(base(), 0);
        assert(carry * unit == 0 && value_upto(a@, 0) * m == 0) by (nonlinear_arith)
            requires
                carry == 0,
                value_upto(a@, 0) == 0,
        ;
    }
    while i < a.len()
        invariant
            i <= a@.len(),
            out@.len() == i,
            value_upto(out@, i as nat) + carry * power(base(), i as nat) == value_upto(
                a@,
                i as nat,
            ) * m,
        decreases a@.len() - i,
    {
        let digit: u128 = a[i] as u128;
        let factor: u128 = m as u128;
        proof {
            lemma_product_bound(digit as int, factor as int, u64::MAX as int, u64::MAX as int);
        }
        let product: u128 = digit * factor + carry as u128;
        let low: u64 = (product % 0x1_0000_0000_0000_0000) as u64;
        let high: u64 = (product / 0x1_0000_0000_0000_0000) as u64;
        let ghost before = out@;
        out.push(low);
        proof {
            let unit = power(base(), i as nat);
            lemma_value_agrees(before, out@, i as nat);
            let done = value_upto(before, i as nat);
            let given = value_upto(a@, i as nat);
            assert(done + low * unit + high * (base() * unit) == (given + digit * unit) * m)
                by (nonlinear_arith)
                requires
                    done + carry * unit == given * m,
                    product == digit * factor + carry,
                    factor == m,
                    product == low + high * base(),
            ;
        }
        carry = high;
        i += 1;
    }
    let ghost before = out@;
    out.push(carry);
    proof {
        lemma_value_agrees(before, out@, i as nat);
    }
    out
}

/// The product of a number and a power of a machine integer.
pub fn times_power(a: Vec<u64>, b: u64, e: usize) -> (out: Vec<u64>)
    ensures
        value(out@) == value(a@) * power(b as nat, e as nat),
{
    let mut out = a;
    let mut k: usize = 0;
    assert(value(out@) * 1 == value(out@));
    while k < e
        invariant
            k <= e,
            value(out@) == value(a@) * power(b as nat, k as nat),
        decreases e - k,
    {
        let ghost so_far = power(b as nat, k as nat);
        let ghost start = value(a@);
        let ghost held = value(out@);
        out = times(&out, b);
        proof {
            assert(held * b == start * (b * so_far)) by (nonlinear_arith)
                requires
                    held == start * so_far,
            ;
        }
        k += 1;
    }
    out
}

/// The number one.
pub fn one() -> (out: Vec<u64>)
    ensures
        value(out@) == 1,
{
    let mut out: Vec<u64> = Vec::new();
    out.push(1);
    assert(value_upto(out@, 0) == 0);
    assert(limb(out@, 0) == 1);
    out
}

/// Whether the first number is at most the second.
pub fn at_most(a: &Vec<u64>, b: &Vec<u64>) -> (yes: bool)
    ensures
        yes == (value(a@) <= value(b@)),
{
    let len = if a.len() >= b.len() { a.len() } else { b.len() };
    proof {
        lemma_value_padded(a@, len as nat);
        lemma_value_padded(b@, len as nat);
    }
    let mut i: usize = len;
    while i > 0
        invariant
            i <= len,
            len >= a@.len(),
            len >= b@.len(),
            value_upto(a@, len as nat) == value(a@),
            value_upto(b@, len as nat) == value(b@),
            value_upto(a@, len as nat) - value_upto(a@, i as nat) == value_upto(b@, len as nat)
                - value_upto(b@, i as nat),
        decreases i,
    {
        let j = i - 1;
        let left: u64 = if j < a.len() { a[j] } else { 0 };
        let right: u64 = if j < b.len() { b[j] } else { 0 };
        proof {
            let unit = power(base(), j as nat);
            lemma_value_bound(a@, j as nat);
            lemma_value_bound(b@, j as nat);
            if left < right {
                assert(value_upto(a@, j as nat) + left * unit < value_upto(b@, j as nat) + right
                    * unit) by (nonlinear_arith)
                    requires
                        value_upto(a@, j as nat) < unit,
                        left + 1 <= right,
                ;
            }
            if right < left {
                assert(value_upto(b@, j as nat) + right * unit < value_upto(a@, j as nat) + left
                    * unit) by (nonlinear_arith)
                    requires
                        value_upto(b@, j as nat) < unit,
                        right + 1 <= left,
                ;
            }
        }
        if left < right {
            return true;
        }
        if left > right {
            return false;
        }
        i = j;
    }
    true
}

} // verus!
