//! The order of rationals.
use vstd::prelude::*;

use core::cmp::Ordering;

use super::{abs, magnitude, Ratio};

verus! {

/// How `x` compares with `y`.
pub open spec fn order_of(x: int, y: int) -> Ordering {
    if x < y {
        Ordering::Less
    } else if x > y {
        Ordering::Greater
    } else {
        Ordering::Equal
    }
}

/// How `a / b` compares with `c / d`, by their whole parts and then, where those
/// are equal, by the reciprocals of what is left: no product is formed, so nothing
/// overflows.
fn compare_fractions(a: u128, b: u128, c: u128, d: u128) -> (order: Ordering)
    requires
        b > 0,
        d > 0,
    ensures
        order == order_of(a * d, c * b),
    decreases b + d,
{
    let q1 = a / b;
    let r1 = a % b;
    let q2 = c / d;
    let r2 = c % d;
    proof {
        assert(a == b * q1 + r1 && 0 <= r1 < b) by (nonlinear_arith)
            requires
                b > 0,
                q1 == a / b,
                r1 == a % b,
        ;
        assert(c == d * q2 + r2 && 0 <= r2 < d) by (nonlinear_arith)
            requires
                d > 0,
                q2 == c / d,
                r2 == c % d,
        ;
    }
    if q1 < q2 {
        assert(a * d < c * b) by (nonlinear_arith)
            requires
                b > 0,
                d > 0,
                a == b * q1 + r1,
                r1 < b,
                c == d * q2 + r2,
                r2 >= 0,
                q1 + 1 <= q2,
        ;
        Ordering::Less
    } else if q1 > q2 {
        assert(a * d > c * b) by (nonlinear_arith)
            requires
                b > 0,
                d > 0,
                a == b * q1 + r1,
                r1 >= 0,
                c == d * q2 + r2,
                r2 < d,
                q2 + 1 <= q1,
        ;
        Ordering::Greater
    } else {
        assert(a * d - c * b == r1 * d - r2 * b) by (nonlinear_arith)
            requires
                a == b * q1 + r1,
                c == d * q2 + r2,
                q1 == q2,
        ;
        if r1 == 0 {
            assert(r1 * d == 0) by (nonlinear_arith)
                requires
                    r1 == 0,
            ;
            if r2 == 0 {
                assert(r2 * b == 0) by (nonlinear_arith)
                    requires
                        r2 == 0,
                ;
                assert(a * d == c * b);
                Ordering::Equal
            } else {
                assert(r2 * b > 0) by (nonlinear_arith)
                    requires
                        r2 > 0,
                        b > 0,
                ;
                Ordering::Less
            }
        } else if r2 == 0 {
            assert(r2 * b == 0) by (nonlinear_arith)
                requires
                    r2 == 0,
            ;
            assert(r1 * d > 0) by (nonlinear_arith)
                requires
                    r1 > 0,
                    d > 0,
            ;
            Ordering::Greater
        } else {
            let order = compare_fractions(d, r2, b, r1);
            assert(d * r1 - b * r2 == r1 * d - r2 * b) by (nonlinear_arith);
            assert(order_of(a * d, c * b) == order_of(d * r1, b * r2));
            order
        }
    }
}

impl PartialOrd for Ratio {
    fn partial_cmp(&self, other: &Ratio) -> (order: Option<Ordering>) {
        proof {
            use_type_invariant(self);
            use_type_invariant(other);
        }
        let (n1, d1) = (self.numerator, self.denominator);
        let (n2, d2) = (other.numerator, other.denominator);
        let (m1, e1) = (magnitude(n1), magnitude(d1));
        let (m2, e2) = (magnitude(n2), magnitude(d2));
        if n1 < 0 && n2 >= 0 {
            assert(n1 * d2 < 0 <= n2 * d1) by (nonlinear_arith)
                requires
                    n1 < 0,
                    n2 >= 0,
                    d1 > 0,
                    d2 > 0,
            ;
            Some(Ordering::Less)
        } else if n1 >= 0 && n2 < 0 {
            assert(n2 * d1 < 0 <= n1 * d2) by (nonlinear_arith)
                requires
                    n2 < 0,
                    n1 >= 0,
                    d1 > 0,
                    d2 > 0,
            ;
            Some(Ordering::Greater)
        } else if n1 >= 0 {
            Some(compare_fractions(m1, e1, m2, e2))
        } else {
            let order = compare_fractions(m2, e2, m1, e1);
            assert(m2 * e1 - m1 * e2 == n1 * d2 - n2 * d1) by (nonlinear_arith)
                requires
                    m1 == -n1,
                    m2 == -n2,
                    e1 == d1,
                    e2 == d2,
            ;
            Some(order)
        }
    }
}

impl vstd::std_specs::cmp::PartialOrdSpecImpl for Ratio {
    open spec fn obeys_partial_cmp_spec() -> bool {
        true
    }

    open spec fn partial_cmp_spec(&self, other: &Ratio) -> Option<Ordering> {
        Some(order_of(self.num() * other.den(), other.num() * self.den()))
    }
}

} // verus!
