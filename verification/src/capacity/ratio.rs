//! Comparing two fractions without multiplying them out.

use vstd::prelude::*;

verus! {

proof fn lemma_quotients_decide(a: int, b: int, c: int, d: int)
    requires
        a >= 0,
        c >= 0,
        b > 0,
        d > 0,
        a / b < c / d,
    ensures
        a * d < c * b,
{
    let q = a / b;
    let p = c / d;
    assert(a < (q + 1) * b) by (nonlinear_arith)
        requires
            q == a / b,
            b > 0,
    ;
    assert(p * d <= c) by (nonlinear_arith)
        requires
            p == c / d,
            d > 0,
    ;
    assert(a * d < c * b) by (nonlinear_arith)
        requires
            a < (q + 1) * b,
            p * d <= c,
            q + 1 <= p,
            b > 0,
            d > 0,
    ;
}

proof fn lemma_remainders_decide(a: int, b: int, c: int, d: int)
    requires
        a >= 0,
        c >= 0,
        b > 0,
        d > 0,
        a / b == c / d,
    ensures
        (a * d < c * b) == ((a % b) * d < (c % d) * b),
{
    let q = a / b;
    let r = a % b;
    let s = c % d;
    assert(a == q * b + r) by (nonlinear_arith)
        requires
            q == a / b,
            r == a % b,
            b > 0,
    ;
    assert(c == q * d + s) by (nonlinear_arith)
        requires
            q == c / d,
            s == c % d,
            d > 0,
    ;
    assert(a * d == q * (b * d) + r * d) by (nonlinear_arith)
        requires
            a == q * b + r,
    ;
    assert(c * b == q * (b * d) + s * b) by (nonlinear_arith)
        requires
            c == q * d + s,
    ;
}

/// Whether `a / b` is less than `c / d`.
pub fn ratio_lt(a: u128, b: u128, c: u128, d: u128) -> (r: bool)
    requires
        b > 0,
        d > 0,
    ensures
        r == (a * d < c * b),
    decreases b + d,
{
    let q = a / b;
    let p = c / d;
    if q < p {
        proof {
            lemma_quotients_decide(a as int, b as int, c as int, d as int);
        }
        return true;
    }
    if q > p {
        proof {
            lemma_quotients_decide(c as int, d as int, a as int, b as int);
        }
        return false;
    }
    let x = a % b;
    let y = c % d;
    proof {
        lemma_remainders_decide(a as int, b as int, c as int, d as int);
    }
    if y == 0 {
        assert(x * d >= 0) by (nonlinear_arith);
        return false;
    }
    if x == 0 {
        assert(y * b > 0 && x * d == 0) by (nonlinear_arith)
            requires
                x == 0,
                y > 0,
                b > 0,
        ;
        return true;
    }
    let r = ratio_lt(d, y, b, x);
    assert(d * x == x * d && b * y == y * b) by (nonlinear_arith);
    r
}

} // verus!
