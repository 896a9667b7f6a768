//! Exact arithmetic on fixed-point amounts: products that are divided again
//! before they are stored, without loss and without overflow in between.

use vstd::arithmetic::div_mod::{lemma_fundamental_div_mod, lemma_fundamental_div_mod_converse};
use vstd::prelude::*;

verus! {

/// The least integer that is not below `n / d`, for a positive `d`.
pub open spec fn ceil_div(n: int, d: int) -> int {
    if n % d == 0 {
        n / d
    } else {
        n / d + 1
    }
}

/// `ceil_div(n, d)` is the least integer whose product with `d` reaches `n`.
pub proof fn lemma_ceil_div_is_least(n: int, d: int)
    requires
        d > 0,
    ensures
        ceil_div(n, d) * d >= n,
        (ceil_div(n, d) - 1) * d < n,
{
    lemma_fundamental_div_mod(n, d);
    let q = n / d;
    assert(d * q + n % d == n);
    assert(0 <= n % d < d);
    assert(q * d == d * q) by (nonlinear_arith);
    assert((q + 1) * d == q * d + d) by (nonlinear_arith);
    assert((q - 1) * d == q * d - d) by (nonlinear_arith);
}

/// The ceiling of a quotient that is not above zero is the floor of the
/// opposite quotient, negated.
pub proof fn lemma_ceil_div_of_negated(m: int, d: int)
    requires
        m >= 0,
        d > 0,
    ensures
        ceil_div(-m, d) == -(m / d),
{
    lemma_fundamental_div_mod(m, d);
    let q = m / d;
    let r = m % d;
    assert(m == d * q + r);
    assert(0 <= r < d);
    if r == 0 {
        assert(-m == (-q) * d + 0) by (nonlinear_arith)
            requires
                m == d * q + r,
                r == 0,
        ;
        lemma_fundamental_div_mod_converse(-m, d, -q, 0);
    } else {
        assert(-m == (-q - 1) * d + (d - r)) by (nonlinear_arith)
            requires
                m == d * q + r,
        ;
        lemma_fundamental_div_mod_converse(-m, d, -q - 1, d - r);
    }
}

/// The quotient and the remainder of a product, from those of its factors.
proof fn lemma_product_div(a: int, b: int, d: int)
    requires
        a >= 0,
        b >= 0,
        d > 0,
    ensures
        (a * b) / d == (a / d) * (b / d) * d + (a / d) * (b % d) + (a % d) * (b / d) + ((a % d) * (
        b % d)) / d,
        (a * b) % d == ((a % d) * (b % d)) % d,
{
    let q1 = a / d;
    let r1 = a % d;
    let q2 = b / d;
    let r2 = b % d;
    lemma_fundamental_div_mod(a, d);
    lemma_fundamental_div_mod(b, d);
    lemma_fundamental_div_mod(r1 * r2, d);
    let k = q1 * q2 * d + q1 * r2 + r1 * q2;
    let low = r1 * r2;
    let x = d * q1;
    let y = d * q2;
    assert(a * b == x * b + r1 * b) by (nonlinear_arith)
        requires
            a == x + r1,
    ;
    assert(x * b == x * y + x * r2) by (nonlinear_arith)
        requires
            b == y + r2,
    ;
    assert(r1 * b == r1 * y + r1 * r2) by (nonlinear_arith)
        requires
            b == y + r2,
    ;
    assert(x * y == (q1 * q2 * d) * d) by (nonlinear_arith)
        requires
            x == d * q1,
            y == d * q2,
    ;
    assert(x * r2 == (q1 * r2) * d) by (nonlinear_arith)
        requires
            x == d * q1,
    ;
    assert(r1 * y == (r1 * q2) * d) by (nonlinear_arith)
        requires
            y == d * q2,
    ;
    assert(k * d == (q1 * q2 * d) * d + (q1 * r2) * d + (r1 * q2) * d) by (nonlinear_arith)
        requires
            k == q1 * q2 * d + q1 * r2 + r1 * q2,
    ;
    assert(a * b == k * d + low);
    assert(a * b == (k + low / d) * d + low % d) by (nonlinear_arith)
        requires
            a * b == k * d + low,
            low == d * (low / d) + low % d,
    ;
    lemma_fundamental_div_mod_converse(a * b, d, k + low / d, low % d);
}

/// The floor of `a * b / d`, and whether the division leaves no remainder.
/// `None` where the floor does not fit in 128 bits.
pub fn mul_div(a: u128, b: u128, d: u128) -> (r: Option<(u128, bool)>)
    requires
        d > 0,
        d * d <= u128::MAX,
    ensures
        match r {
            Some((quotient, exact)) => quotient == (a * b) / (d as int) && exact == ((a * b) % (
            d as int) == 0),
            None => (a * b) / (d as int) > u128::MAX,
        },
{
    let q1 = a / d;
    let r1 = a % d;
    let q2 = b / d;
    let r2 = b % d;
    proof {
        lemma_product_div(a as int, b as int, d as int);
        assert(r1 * r2 <= d * d) by (nonlinear_arith)
            requires
                0 <= r1 < d,
                0 <= r2 < d,
        ;
        assert(q1 * q2 * d >= 0 && q1 * r2 >= 0 && r1 * q2 >= 0 && q1 * q2 >= 0 && (r1 * r2) / (
        d as int) >= 0) by (nonlinear_arith)
            requires
                q1 >= 0,
                q2 >= 0,
                r1 >= 0,
                r2 >= 0,
                d > 0,
        ;
        assert(q1 * q2 * d >= q1 * q2) by (nonlinear_arith)
            requires
                q1 * q2 >= 0,
                d >= 1,
        ;
    }
    let low: u128 = r1 * r2;
    let high = match q1.checked_mul(q2) {
        None => {
            return None;
        },
        Some(x) => match x.checked_mul(d) {
            None => {
                return None;
            },
            Some(y) => y,
        },
    };
    let left = match q1.checked_mul(r2) {
        None => {
            return None;
        },
        Some(x) => x,
    };
    let right = match r1.checked_mul(q2) {
        None => {
            return None;
        },
        Some(x) => x,
    };
    let sum = match high.checked_add(left) {
        None => {
            return None;
        },
        Some(x) => match x.checked_add(right) {
            None => {
                return None;
            },
            Some(y) => match y.checked_add(low / d) {
                None => {
                    return None;
                },
                Some(z) => z,
            },
        },
    };
    Some((sum, low % d == 0))
}

} // verus!
