//! Greatest common divisor and least common multiple of whole beat counts.
use vstd::arithmetic::div_mod::{
    lemma_fundamental_div_mod, lemma_mod_bound, lemma_mod_multiples_basic,
};
use vstd::prelude::*;

verus! {

/// Greatest common divisor, by Euclid's algorithm.
pub open spec fn spec_gcd(a: nat, b: nat) -> nat
    decreases b,
{
    if b == 0 {
        a
    } else {
        spec_gcd(b, a % b)
    }
}

/// Least common multiple, `a / gcd(a, b) * b`.
pub open spec fn spec_lcm(a: nat, b: nat) -> nat {
    if spec_gcd(a, b) == 0 {
        0
    } else {
        (a / spec_gcd(a, b)) * b
    }
}

/// `d` divides `n` (with `d > 0`).
pub open spec fn divides(d: nat, n: int) -> bool {
    d > 0 && n % (d as int) == 0
}

/// Bezout coefficients `(x, y)` with `a * x + b * y == gcd(a, b)`.
pub open spec fn bezout(a: nat, b: nat) -> (int, int)
    decreases b,
{
    if b == 0 {
        (1, 0)
    } else {
        let (x, y) = bezout(b, a % b);
        (y, x - (a / b) as int * y)
    }
}

pub proof fn lemma_bezout(a: nat, b: nat)
    ensures
        a * bezout(a, b).0 + b * bezout(a, b).1 == spec_gcd(a, b) as int,
    decreases b,
{
    if b != 0 {
        lemma_bezout(b, a % b);
        let (x, y) = bezout(b, a % b);
        let q = (a / b) as int;
        let r = (a % b) as int;
        lemma_fundamental_div_mod(a as int, b as int);
        let g = spec_gcd(a, b) as int;
        assert(a * y + b * (x - q * y) == g) by (nonlinear_arith)
            requires
                b * x + r * y == g,
                a as int == b * q + r,
        ;
    }
}

/// The gcd divides both arguments, and is positive unless both are zero.
pub proof fn lemma_gcd_divides(a: nat, b: nat)
    ensures
        (a > 0 || b > 0) ==> spec_gcd(a, b) > 0,
        spec_gcd(a, b) > 0 ==> a % spec_gcd(a, b) == 0 && b % spec_gcd(a, b) == 0,
        spec_gcd(a, b) == 0 ==> a == 0 && b == 0,
    decreases b,
{
    if b != 0 {
        lemma_gcd_divides(b, a % b);
        let g = spec_gcd(a, b);
        let r = a % b;
        let q = a / b;
        lemma_fundamental_div_mod(a as int, b as int);
        if g > 0 {
            // a == b * q + r, with g dividing b and r
            let kb = b / g;
            let kr = r / g;
            lemma_fundamental_div_mod(b as int, g as int);
            lemma_fundamental_div_mod(r as int, g as int);
            assert(a as int == g * (kb * q + kr)) by (nonlinear_arith)
                requires
                    a as int == b * q + r,
                    b as int == g * kb,
                    r as int == g * kr,
            ;
            lemma_mod_multiples_basic((kb * q + kr) as int, g as int);
            assert(g * (kb * q + kr) == (kb * q + kr) * g) by (nonlinear_arith);
        }
    }
}

/// Every common divisor of `a` and `b` divides their gcd.
pub proof fn lemma_common_divisor_divides_gcd(a: nat, b: nat, d: nat)
    requires
        divides(d, a as int),
        divides(d, b as int),
    ensures
        divides(d, spec_gcd(a, b) as int),
{
    lemma_bezout(a, b);
    let (x, y) = bezout(a, b);
    let ka = a / d;
    let kb = b / d;
    lemma_fundamental_div_mod(a as int, d as int);
    lemma_fundamental_div_mod(b as int, d as int);
    let g = spec_gcd(a, b) as int;
    assert(g == (ka * x + kb * y) * d) by (nonlinear_arith)
        requires
            a * x + b * y == g,
            a as int == d * ka,
            b as int == d * kb,
    ;
    lemma_mod_multiples_basic(ka * x + kb * y, d as int);
}

/// The lcm of two positive numbers is a positive common multiple, at least as large as `a`.
pub proof fn lemma_lcm_common_multiple(a: nat, b: nat)
    requires
        a > 0,
        b > 0,
    ensures
        spec_lcm(a, b) > 0,
        spec_lcm(a, b) >= a,
        spec_lcm(a, b) >= b,
        divides(a, spec_lcm(a, b) as int),
        divides(b, spec_lcm(a, b) as int),
        spec_lcm(a, b) * spec_gcd(a, b) == a * b,
{
    lemma_gcd_divides(a, b);
    let g = spec_gcd(a, b);
    let qa = a / g;
    let qb = b / g;
    lemma_fundamental_div_mod(a as int, g as int);
    lemma_fundamental_div_mod(b as int, g as int);
    assert(spec_lcm(a, b) == qa * b);
    assert(qa > 0 && qb > 0) by (nonlinear_arith)
        requires
            a as int == g * qa,
            b as int == g * qb,
            a > 0,
            b > 0,
            g > 0,
    ;
    assert(qa * b == a * qb && qa * b >= a && qa * b >= b && (qa * b) * g == a * b)
        by (nonlinear_arith)
        requires
            a as int == g * qa,
            b as int == g * qb,
            qa > 0,
            qb > 0,
            g > 0,
    ;
    lemma_mod_multiples_basic(qa as int, b as int);
    lemma_mod_multiples_basic(qb as int, a as int);
    assert(a * qb == qb * a) by (nonlinear_arith);
}

/// The lcm of two positive numbers divides every common multiple of them.
pub proof fn lemma_lcm_least(a: nat, b: nat, m: int)
    requires
        a > 0,
        b > 0,
        divides(a, m),
        divides(b, m),
    ensures
        divides(spec_lcm(a, b), m),
{
    lemma_lcm_common_multiple(a, b);
    lemma_gcd_divides(a, b);
    lemma_bezout(a, b);
    let (x, y) = bezout(a, b);
    let g = spec_gcd(a, b) as int;
    let l = spec_lcm(a, b) as int;
    let s = m / (a as int);
    let t = m / (b as int);
    lemma_fundamental_div_mod(m, a as int);
    lemma_fundamental_div_mod(m, b as int);
    let k = t * x + s * y;
    // m * g == m * (a x + b y) == (b t) a x + (a s) b y == a b k == l g k
    assert(m * g == l * g * k) by (nonlinear_arith)
        requires
            a * x + b * y == g,
            m == a * s,
            m == b * t,
            l * g == a * b,
            k == t * x + s * y,
    ;
    assert(m == k * l) by (nonlinear_arith)
        requires
            m * g == l * g * k,
            g > 0,
    ;
    lemma_mod_multiples_basic(k, l);
}

/// Greatest common divisor of two numbers (Euclid's algorithm).
pub fn gcd(a: u64, b: u64) -> (r: u64)
    ensures
        r == spec_gcd(a as nat, b as nat),
    decreases b,
{
    if b == 0 {
        a
    } else {
        proof {
            lemma_mod_bound(a as int, b as int);
        }
        gcd(b, a % b)
    }
}

/// Least common multiple of two numbers, computed as `a / gcd(a, b) * b`.
///
/// Both arguments may not be zero together (the gcd would be zero), and the
/// result must fit in a `u64`.
pub fn lcm(a: u64, b: u64) -> (r: u64)
    requires
        a > 0 || b > 0,
        spec_lcm(a as nat, b as nat) <= u64::MAX,
    ensures
        r == spec_lcm(a as nat, b as nat),
{
    proof {
        lemma_gcd_divides(a as nat, b as nat);
    }
    let g = gcd(a, b);
    let q = a / g;
    assert(q * b == spec_lcm(a as nat, b as nat));
    q * b
}

} // verus!
