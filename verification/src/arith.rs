//! Divisibility over the mathematical integers, and the small lemmas that
//! connect it with truncated division as the big-integer layer reports it.

use vstd::prelude::*;

verus! {

/// `d` divides `x` exactly.
pub open spec fn divides(d: int, x: int) -> bool {
    exists|k: int| x == #[trigger] (k * d)
}

/// Any multiple is divisible.
pub proof fn lemma_divides_witness(d: int, k: int)
    ensures
        divides(d, k * d),
{
}

/// A remainder smaller than the divisor in magnitude must be zero once
/// the divisor is known to divide the dividend.
pub proof fn lemma_small_remainder_zero(a: int, b: int, q: int, r: int)
    requires
        b != 0,
        a == q * b + r,
        -(if b < 0 {
            -b
        } else {
            b
        }) < r < (if b < 0 {
            -b
        } else {
            b
        }),
        divides(b, a),
    ensures
        r == 0,
        a == q * b,
{
    let k = choose|k: int| a == #[trigger] (k * b);
    let m: int = if b < 0 {
        -b
    } else {
        b
    };
    assert(r == 0) by (nonlinear_arith)
        requires
            a == q * b + r,
            a == k * b,
            b != 0,
            -m < r < m,
            m == (if b < 0 {
                -b
            } else {
                b
            }),
    ;
}

/// A division that leaves a non-zero remainder smaller than the divisor
/// witnesses that the divisor does not divide the dividend.
pub proof fn lemma_nonzero_remainder_not_divides(a: int, b: int, q: int, r: int)
    requires
        b != 0,
        a == q * b + r,
        -(if b < 0 {
            -b
        } else {
            b
        }) < r < (if b < 0 {
            -b
        } else {
            b
        }),
        r != 0,
    ensures
        !divides(b, a),
{
    if divides(b, a) {
        lemma_small_remainder_zero(a, b, q, r);
    }
}

/// Divisibility is transitive.
pub proof fn lemma_divides_trans(e: int, x: int, y: int)
    requires
        divides(e, x),
        divides(x, y),
    ensures
        divides(e, y),
{
    let k1 = choose|k: int| x == #[trigger] (k * e);
    let k2 = choose|k: int| y == #[trigger] (k * x);
    assert(y == (k2 * k1) * e) by (nonlinear_arith)
        requires
            x == k1 * e,
            y == k2 * x,
    ;
}

/// A common divisor of `x` and `y` divides `x - q * y` as well; this is
/// the step that keeps Euclid's algorithm honest.
pub proof fn lemma_divides_linear(e: int, x: int, y: int, q: int)
    requires
        divides(e, x),
        divides(e, y),
    ensures
        divides(e, x - q * y),
{
    let k1 = choose|k: int| x == #[trigger] (k * e);
    let k2 = choose|k: int| y == #[trigger] (k * e);
    assert(x - q * y == (k1 - q * k2) * e) by (nonlinear_arith)
        requires
            x == k1 * e,
            y == k2 * e,
    ;
}

/// The least common multiple really is least: with `g = gcd(a, b)`
/// written as an integer combination of `a` and `b`, and `l` the
/// product `a * b / g`, every common multiple of `a` and `b` is a
/// multiple of `l`.
pub proof fn lemma_lcm_least(a: int, b: int, g: int, l: int, u: int, v: int, m: int)
    requires
        g > 0,
        g == u * a + v * b,
        l * g == a * b,
        divides(a, m),
        divides(b, m),
    ensures
        divides(l, m),
{
    let x = choose|k: int| m == #[trigger] (k * a);
    let y = choose|k: int| m == #[trigger] (k * b);
    // m * g = m*u*a + m*v*b = (y*b)*u*a + (x*a)*v*b = (a*b)*(y*u + x*v)
    assert(m * g == m * (u * a) + m * (v * b)) by (nonlinear_arith)
        requires
            g == u * a + v * b,
    ;
    assert(m * (u * a) == (y * u) * (a * b)) by (nonlinear_arith)
        requires
            m == y * b,
    ;
    assert(m * (v * b) == (x * v) * (a * b)) by (nonlinear_arith)
        requires
            m == x * a,
    ;
    assert(m * g == (y * u + x * v) * (a * b)) by (nonlinear_arith)
        requires
            m * g == m * (u * a) + m * (v * b),
            m * (u * a) == (y * u) * (a * b),
            m * (v * b) == (x * v) * (a * b),
    ;
    assert(m * g == ((y * u + x * v) * l) * g) by (nonlinear_arith)
        requires
            m * g == (y * u + x * v) * (a * b),
            l * g == a * b,
    ;
    assert(m == (y * u + x * v) * l) by (nonlinear_arith)
        requires
            m * g == ((y * u + x * v) * l) * g,
            g > 0,
    ;
}

/// Bezout coefficients exist for any pair of non-negative integers
/// with a positive first member: some positive common divisor of the
/// two is an integer combination of them.
proof fn lemma_bezout(a: int, b: int) -> (r: (int, int, int))
    requires
        a > 0,
        b >= 0,
    ensures
        r.0 > 0,
        divides(r.0, a),
        divides(r.0, b),
        r.0 == r.1 * a + r.2 * b,
    decreases b,
{
    if b == 0 {
        lemma_divides_witness(a, 1);
        lemma_divides_witness(a, 0);
        assert(a == 1 * a + 0 * b);
        (a, 1, 0)
    } else {
        vstd::arithmetic::div_mod::lemma_fundamental_div_mod(a, b);
        vstd::arithmetic::div_mod::lemma_mod_bound(a, b);
        let q = a / b;
        let rr = a % b;
        let (g, u, v) = lemma_bezout(b, rr);
        assert(rr - (-q) * b == a) by (nonlinear_arith)
            requires
                a == b * q + rr,
        ;
        lemma_divides_linear(g, rr, b, -q);
        assert(g == v * a + (u - v * q) * b) by (nonlinear_arith)
            requires
                g == u * b + v * rr,
                rr == a - q * b,
        ;
        (g, v, u - v * q)
    }
}

/// Two integers that divide one another and are both positive are
/// equal.
proof fn lemma_mutual_divides(x: int, y: int)
    requires
        x > 0,
        y > 0,
        divides(x, y),
        divides(y, x),
    ensures
        x == y,
{
    let k1 = choose|k: int| y == #[trigger] (k * x);
    let k2 = choose|k: int| x == #[trigger] (k * y);
    assert(x == y) by (nonlinear_arith)
        requires
            x > 0,
            y > 0,
            y == k1 * x,
            x == k2 * y,
    ;
}

/// A fraction in lowest terms is the only one with its value: equal
/// cross products, positive denominators and no common divisor above
/// one on either side force the numerators and denominators to agree.
pub proof fn lemma_reduced_fraction_unique(a: int, b: int, c: int, d: int)
    requires
        b > 0,
        d > 0,
        a * d == c * b,
        forall|e: int| e > 1 ==> !(divides(e, a) && #[trigger] divides(e, b)),
        forall|e: int| e > 1 ==> !(divides(e, c) && #[trigger] divides(e, d)),
    ensures
        a == c,
        b == d,
{
    let aa: int = if a < 0 {
        -a
    } else {
        a
    };
    // gcd(a, b) is an integer combination and must be one
    let (g1, u1, v1) = lemma_bezout(b, aa);
    assert(divides(g1, a)) by {
        let k = choose|k: int| aa == #[trigger] (k * g1);
        if a < 0 {
            assert(a == (-k) * g1) by (nonlinear_arith)
                requires
                    aa == k * g1,
                    aa == -a,
            ;
        }
    }
    assert(g1 == 1) by {
        if g1 > 1 {
            assert(divides(g1, a) && divides(g1, b));
        }
    }
    let cc: int = if c < 0 {
        -c
    } else {
        c
    };
    let (g2, u2, v2) = lemma_bezout(d, cc);
    assert(divides(g2, c)) by {
        let k = choose|k: int| cc == #[trigger] (k * g2);
        if c < 0 {
            assert(c == (-k) * g2) by (nonlinear_arith)
                requires
                    cc == k * g2,
                    cc == -c,
            ;
        }
    }
    assert(g2 == 1) by {
        if g2 > 1 {
            assert(divides(g2, c) && divides(g2, d));
        }
    }
    // 1 = u1*b + v1*|a| gives d = (...) * b, so b divides d
    let s1: int = if a < 0 {
        -v1
    } else {
        v1
    };
    assert(1 == u1 * b + s1 * a) by (nonlinear_arith)
        requires
            1 == u1 * b + v1 * aa,
            aa == (if a < 0 {
                -a
            } else {
                a
            }),
            s1 == (if a < 0 {
                -v1
            } else {
                v1
            }),
    ;
    assert(d == (u1 * d + s1 * c) * b) by (nonlinear_arith)
        requires
            1 == u1 * b + s1 * a,
            a * d == c * b,
    ;
    lemma_divides_witness(b, u1 * d + s1 * c);
    assert(divides(b, d));
    let s2: int = if c < 0 {
        -v2
    } else {
        v2
    };
    assert(1 == u2 * d + s2 * c) by (nonlinear_arith)
        requires
            1 == u2 * d + v2 * cc,
            cc == (if c < 0 {
                -c
            } else {
                c
            }),
            s2 == (if c < 0 {
                -v2
            } else {
                v2
            }),
    ;
    assert(b == (u2 * b + s2 * a) * d) by (nonlinear_arith)
        requires
            1 == u2 * d + s2 * c,
            a * d == c * b,
    ;
    lemma_divides_witness(d, u2 * b + s2 * a);
    assert(divides(d, b));
    lemma_mutual_divides(b, d);
    assert(a == c) by (nonlinear_arith)
        requires
            a * d == c * b,
            b == d,
            b > 0,
    ;
}

} // verus!
