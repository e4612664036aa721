//! What is rational, computed exactly: rational numbers in lowest terms, binomial
//! coefficients, factorials and the Bernoulli numbers; and the double nearest to a
//! quotient of integers, bit for bit.
use vstd::prelude::*;
use vstd::arithmetic::power2::{
    lemma2_to64, lemma2_to64_rest, lemma_pow2_adds, lemma_pow2_pos, lemma_pow2_strictly_increases, lemma_pow2_unfold,
    pow2,
};

mod order;
mod rounding;

pub use order::order_of;
pub use rounding::{
    nearest_from_i128, nearest_from_u64, nearest_from_usize, quotient_bits, leading, lemma_leading_unique, lemma_scaled_grows, lemma_scaled_step, nearest_bits, normal_quotient, rounded,
    scaled, shift_of, whole_at,
};

verus! {

/// The greatest common divisor, by Euclid's algorithm; `gcd(0, 0) = 0`.
pub open spec fn gcd(a: nat, b: nat) -> nat
    decreases b,
{
    if b == 0 {
        a
    } else {
        gcd(b, a % b)
    }
}

/// The magnitude of an integer.
pub open spec fn abs(value: int) -> nat {
    if value < 0 {
        (-value) as nat
    } else {
        value as nat
    }
}

/// `a` is `d` times `q`, exactly.
proof fn lemma_multiple(a: nat, d: nat)
    requires
        d > 0,
        a % d == 0,
    ensures
        a == d * (a / d),
{
    assert(a == d * (a / d) + a % d) by (nonlinear_arith)
        requires
            d > 0,
    ;
}

/// A multiple of `d` leaves no remainder by it.
proof fn lemma_of_multiple(d: nat, q: nat)
    requires
        d > 0,
    ensures
        (d * q) % d == 0,
        (d * q) / d == q,
{
    assert((d * q) % d == 0 && (d * q) / d == q) by (nonlinear_arith)
        requires
            d > 0,
    ;
}

/// The greatest common divisor divides both numbers, and is 0 only for two zeros.
pub proof fn lemma_gcd_divides(a: nat, b: nat)
    ensures
        (gcd(a, b) == 0) == (a == 0 && b == 0),
        gcd(a, b) > 0 ==> a % gcd(a, b) == 0 && b % gcd(a, b) == 0,
    decreases b,
{
    if b == 0 {
        if a > 0 {
            lemma_of_multiple(a, 1);
        }
        lemma_of_multiple(1, 0);
        if a > 0 {
            assert(0nat % a == 0) by (nonlinear_arith)
                requires
                    a > 0,
            ;
        }
    } else {
        let r = a % b;
        lemma_gcd_divides(b, r);
        let g = gcd(a, b);
        assert(g == gcd(b, r));
        assert(g > 0);
        lemma_multiple(b, g);
        lemma_multiple(r, g);
        let x = b / g;
        let y = r / g;
        let q = a / b;
        assert(a == g * (x * q + y)) by (nonlinear_arith)
            requires
                b > 0,
                r == a % b,
                q == a / b,
                b == g * x,
                r == g * y,
        ;
        lemma_of_multiple(g, x * q + y);
    }
}

/// Every common divisor of two numbers divides their greatest common divisor.
pub proof fn lemma_gcd_greatest(a: nat, b: nat, d: nat)
    requires
        d > 0,
        a % d == 0,
        b % d == 0,
    ensures
        gcd(a, b) % d == 0,
    decreases b,
{
    if b > 0 {
        let r = a % b;
        lemma_multiple(a, d);
        lemma_multiple(b, d);
        let x = a / d;
        let y = b / d;
        let q = a / b;
        assert(r == d * (x - y * q) && x - y * q >= 0) by (nonlinear_arith)
            requires
                d > 0,
                b > 0,
                r == a % b,
                q == a / b,
                a == d * x,
                b == d * y,
        ;
        lemma_of_multiple(d, (x - y * q) as nat);
        lemma_gcd_greatest(b, r, d);
    }
}

/// The greatest common divisor of a positive number and another is at most the
/// positive one.
pub proof fn lemma_gcd_at_most(a: nat, b: nat)
    requires
        b > 0,
    ensures
        0 < gcd(a, b) <= b,
{
    lemma_gcd_divides(a, b);
    let g = gcd(a, b);
    lemma_multiple(b, g);
    assert(g <= b) by (nonlinear_arith)
        requires
            g > 0,
            b > 0,
            b == g * (b / g),
    ;
}

/// Two numbers divided by their greatest common divisor have none but 1.
pub proof fn lemma_gcd_reduced(a: nat, b: nat)
    requires
        gcd(a, b) > 0,
    ensures
        a % gcd(a, b) == 0,
        b % gcd(a, b) == 0,
        gcd(a / gcd(a, b), b / gcd(a, b)) == 1,
{
    let g = gcd(a, b);
    lemma_gcd_divides(a, b);
    lemma_multiple(a, g);
    lemma_multiple(b, g);
    let x = a / g;
    let y = b / g;
    lemma_gcd_divides(x, y);
    assert(!(x == 0 && y == 0)) by (nonlinear_arith)
        requires
            a == g * x,
            b == g * y,
            !(a == 0 && b == 0),
    ;
    let e = gcd(x, y);
    lemma_multiple(x, e);
    lemma_multiple(y, e);
    let u = x / e;
    let v = y / e;
    assert(a == (g * e) * u && b == (g * e) * v && g * e > 0) by (nonlinear_arith)
        requires
            a == g * x,
            b == g * y,
            x == e * u,
            y == e * v,
            g > 0,
            e > 0,
    ;
    lemma_of_multiple(g * e, u);
    lemma_of_multiple(g * e, v);
    lemma_gcd_greatest(a, b, g * e);
    lemma_multiple(g, g * e);
    assert(e == 1) by (nonlinear_arith)
        requires
            g > 0,
            e > 0,
            g == (g * e) * (g / (g * e)),
    ;
}

/// `a` is `b` times `c`, in integers, where `b` divides `a` and both are given as
/// magnitudes.
proof fn lemma_exact_quotient(a: int, g: nat)
    requires
        g > 0,
        abs(a) % g == 0,
    ensures
        a % (g as int) == 0,
        a == g * (a / (g as int)),
        abs(a / (g as int)) == abs(a) / g,
{
    lemma_multiple(abs(a), g);
    let q = abs(a) / g;
    if a >= 0 {
        assert(a == g * q);
    } else {
        assert(a == g * (-q)) by (nonlinear_arith)
            requires
                a < 0,
                abs(a) == -a,
                abs(a) == g * q,
        ;
    }
    let s: int = if a >= 0 { q as int } else { -q };
    assert(a == g * s);
    assert(a % (g as int) == 0 && a / (g as int) == s) by (nonlinear_arith)
        requires
            g > 0,
            a == g * s,
    ;
}

/// The magnitude of an `i128`, as a `u128`.
pub(crate) fn magnitude(value: i128) -> (result: u128)
    ensures
        result == abs(value as int),
{
    if value >= 0 {
        value as u128
    } else if value == i128::MIN {
        0x8000_0000_0000_0000_0000_0000_0000_0000u128
    } else {
        (-value) as u128
    }
}

/// The greatest common divisor of two `u128`.
fn gcd_u128(a: u128, b: u128) -> (result: u128)
    ensures
        result == gcd(a as nat, b as nat),
{
    let mut x = a;
    let mut y = b;
    while y != 0
        invariant
            gcd(x as nat, y as nat) == gcd(a as nat, b as nat),
        decreases y,
    {
        let r = x % y;
        x = y;
        y = r;
    }
    x
}

/// A rational number in lowest terms, with a positive denominator: exact
/// arithmetic for the few rationals that need it (the Bernoulli numbers). Its
/// operations ask that every intermediate value fit in 128 bits, rather than round.
#[derive(Debug, Clone, Copy, PartialEq, Eq, Structural, Hash)]
pub struct Ratio {
    numerator: i128,
    denominator: i128,
}

/// The rational `n / d`, as [`Ratio::new`] makes it: in lowest terms, with the
/// sign on the numerator.
pub closed spec fn reduced(n: int, d: int) -> Ratio {
    let g = gcd(abs(n), abs(d)) as int;
    if d < 0 {
        Ratio { numerator: (-(n / g)) as i128, denominator: (-(d / g)) as i128 }
    } else {
        Ratio { numerator: (n / g) as i128, denominator: (d / g) as i128 }
    }
}

/// Whether [`Ratio::new`] takes `n / d`: a denominator other than 0, and a
/// reduced numerator and denominator that fit once the sign is moved.
pub open spec fn new_fits(n: int, d: int) -> bool {
    let g = gcd(abs(n), abs(d)) as int;
    &&& d != 0
    &&& i128::MIN <= n <= i128::MAX
    &&& i128::MIN <= d <= i128::MAX
    &&& g <= i128::MAX
    &&& d < 0 ==> n / g > i128::MIN && d / g > i128::MIN
}

impl Ratio {
    /// The numerator, in contracts.
    pub closed spec fn num(self) -> int {
        self.numerator as int
    }

    /// The denominator, in contracts.
    pub closed spec fn den(self) -> int {
        self.denominator as int
    }

    /// Every `Ratio` is in lowest terms, with a positive denominator.
    #[verifier::type_invariant]
    spec fn lowest_terms(self) -> bool {
        self.wf()
    }

    /// In lowest terms, with a positive denominator.
    pub open spec fn wf(self) -> bool {
        &&& self.den() > 0
        &&& gcd(abs(self.num()), self.den() as nat) == 1
    }

    /// Its value is `n / d`.
    pub open spec fn is(self, n: int, d: int) -> bool {
        self.num() * d == n * self.den()
    }

    /// The rational `numerator / denominator`, in lowest terms.
    pub fn new(numerator: i128, denominator: i128) -> (ratio: Ratio)
        requires
            new_fits(numerator as int, denominator as int),
        ensures
            ratio == reduced(numerator as int, denominator as int),
            ratio.wf(),
            ratio.is(numerator as int, denominator as int),
    {
        let divisor = gcd_u128(magnitude(numerator), magnitude(denominator));
        proof {
            lemma_reduced(numerator as int, denominator as int);
            lemma_gcd_divides(abs(numerator as int), abs(denominator as int));
            lemma_exact_quotient(numerator as int, divisor as nat);
            lemma_exact_quotient(denominator as int, divisor as nat);
        }
        let divisor = divisor as i128;
        let n = numerator / divisor;
        let d = denominator / divisor;
        if denominator < 0 {
            Ratio { numerator: -n, denominator: -d }
        } else {
            Ratio { numerator: n, denominator: d }
        }
    }

    /// The integer `value`.
    pub fn integer(value: i128) -> (ratio: Ratio)
        ensures
            ratio == reduced(value as int, 1),
            ratio.num() == value,
            ratio.den() == 1,
            ratio.wf(),
            ratio.is(value as int, 1),
    {
        proof {
            assert(gcd(abs(value as int), 1) == gcd(1, 0)) by {
                assert(abs(value as int) % 1 == 0);
            }
            lemma_integer(value as int);
        }
        Ratio { numerator: value, denominator: 1 }
    }

    /// The numerator, in lowest terms.
    pub fn numerator(self) -> (numerator: i128)
        ensures
            numerator == self.num(),
    {
        self.numerator
    }

    /// The denominator, positive, in lowest terms.
    pub fn denominator(self) -> (denominator: i128)
        ensures
            denominator == self.den(),
    {
        self.denominator
    }

    /// The bits of the double nearest to it, ties to even ([`quotient_bits`]).
    pub fn nearest_bits(self) -> (bits: u64)
        requires
            normal_quotient(self.num(), self.den()),
        ensures
            bits == nearest_bits(self.num(), self.den()),
    {
        quotient_bits(self.numerator, self.denominator)
    }
}

/// What [`Ratio::new`] makes of `n / d` is in lowest terms and of that value.
pub proof fn lemma_reduced(n: int, d: int)
    requires
        new_fits(n, d),
    ensures
        reduced(n, d).wf(),
        reduced(n, d).is(n, d),
        ({
            let g = gcd(abs(n), abs(d)) as int;
            &&& g > 0
            &&& n % g == 0
            &&& d % g == 0
            &&& reduced(n, d).num() == (if d < 0 { -(n / g) } else { n / g })
            &&& reduced(n, d).den() == (if d < 0 { -(d / g) } else { d / g })
        }),
{
    let g = gcd(abs(n), abs(d));
    lemma_gcd_divides(abs(n), abs(d));
    lemma_gcd_reduced(abs(n), abs(d));
    lemma_exact_quotient(n, g);
    lemma_exact_quotient(d, g);
    lemma_gcd_at_most(abs(n), abs(d));
    let gi = g as int;
    let x = n / gi;
    let y = d / gi;
    assert(abs(x) <= abs(n) && abs(y) <= abs(d)) by (nonlinear_arith)
        requires
            gi > 0,
            abs(x) == abs(n) / g,
            abs(y) == abs(d) / g,
            g == gi,
    ;
    let r = reduced(n, d);
    if d < 0 {
        assert(abs(-x) == abs(x));
        assert(r.num() == -x && r.den() == -y);
    } else {
        assert(r.num() == x && r.den() == y);
    }
    assert(r.den() > 0) by (nonlinear_arith)
        requires
            d != 0,
            d == gi * y,
            gi > 0,
            r.den() == (if d < 0 { -y } else { y }),
    ;
    assert(r.num() * d == n * r.den()) by (nonlinear_arith)
        requires
            n == gi * x,
            d == gi * y,
            r.num() == (if d < 0 { -x } else { x }),
            r.den() == (if d < 0 { -y } else { y }),
    ;
}


/// Whether a value fits in an `i128`.
pub open spec fn in_i128(value: int) -> bool {
    i128::MIN <= value <= i128::MAX
}

/// The negation of a rational: its numerator negated.
pub closed spec fn negated(a: Ratio) -> Ratio {
    Ratio { numerator: (-a.num()) as i128, denominator: a.denominator }
}

/// The numerators and the denominator of a sum over the least common multiple of
/// the denominators: `(left, right, denominator)`.
pub open spec fn sum_parts(a: Ratio, b: Ratio) -> (int, int, int) {
    let g = gcd(a.den() as nat, b.den() as nat) as int;
    (a.num() * (b.den() / g), b.num() * (a.den() / g), (a.den() / g) * b.den())
}

/// Whether a sum is computed in 128 bits.
pub open spec fn sum_fits(a: Ratio, b: Ratio) -> bool {
    let (left, right, denominator) = sum_parts(a, b);
    &&& in_i128(left)
    &&& in_i128(right)
    &&& in_i128(left + right)
    &&& in_i128(denominator)
}

/// The sum of two rationals, in lowest terms.
pub open spec fn sum(a: Ratio, b: Ratio) -> Ratio {
    let (left, right, denominator) = sum_parts(a, b);
    reduced(left + right, denominator)
}

/// The factors of a product, each cancelled across first:
/// `a.num / b.den` and `b.num / a.den` in lowest terms.
pub open spec fn product_parts(a: Ratio, b: Ratio) -> (Ratio, Ratio) {
    (reduced(a.num(), b.den()), reduced(b.num(), a.den()))
}

/// Whether a product is computed in 128 bits.
pub open spec fn product_fits(a: Ratio, b: Ratio) -> bool {
    let (first, second) = product_parts(a, b);
    &&& in_i128(first.num() * second.num())
    &&& in_i128(first.den() * second.den())
}

/// The product of two rationals, in lowest terms.
pub open spec fn product(a: Ratio, b: Ratio) -> Ratio {
    let (first, second) = product_parts(a, b);
    reduced(first.num() * second.num(), first.den() * second.den())
}

/// Whether a quotient is computed in 128 bits: a divisor other than 0 whose
/// reciprocal is made, and the product by it.
pub open spec fn quotient_fits(a: Ratio, b: Ratio) -> bool {
    &&& b.num() != 0
    &&& new_fits(b.den(), b.num())
    &&& product_fits(a, reduced(b.den(), b.num()))
}

/// The quotient of two rationals: the product by the reciprocal.
pub open spec fn divided(a: Ratio, b: Ratio) -> Ratio {
    product(a, reduced(b.den(), b.num()))
}

/// A positive number over a positive denominator is taken by [`Ratio::new`].
proof fn lemma_new_fits_positive(n: int, d: int)
    requires
        d > 0,
        in_i128(n),
        in_i128(d),
    ensures
        new_fits(n, d),
{
    lemma_gcd_at_most(abs(n), abs(d));
}

/// The negation of a rational in lowest terms is in lowest terms, and its value is
/// the negated value.
pub proof fn lemma_negated(a: Ratio)
    requires
        a.wf(),
        a.num() > i128::MIN,
    ensures
        negated(a).wf(),
        negated(a).num() == -a.num(),
        negated(a).den() == a.den(),
        negated(a).is(-a.num(), a.den()),
{
    assert(abs(-a.num()) == abs(a.num()));
}

/// The sum of rationals in lowest terms is in lowest terms, and its value is the
/// sum of their values.
pub proof fn lemma_sum(a: Ratio, b: Ratio)
    requires
        a.wf(),
        b.wf(),
        sum_fits(a, b),
    ensures
        sum(a, b).wf(),
        sum(a, b).is(a.num() * b.den() + b.num() * a.den(), a.den() * b.den()),
        sum_parts(a, b).2 > 0,
        new_fits(sum_parts(a, b).0 + sum_parts(a, b).1, sum_parts(a, b).2),
{
    let g = gcd(a.den() as nat, b.den() as nat);
    lemma_gcd_divides(a.den() as nat, b.den() as nat);
    lemma_multiple(a.den() as nat, g);
    lemma_multiple(b.den() as nat, g);
    let gi = g as int;
    let x = a.den() / gi;
    let y = b.den() / gi;
    let (left, right, denominator) = sum_parts(a, b);
    assert(x > 0 && y > 0 && denominator > 0) by (nonlinear_arith)
        requires
            a.den() > 0,
            b.den() > 0,
            gi > 0,
            a.den() == gi * x,
            b.den() == gi * y,
            denominator == x * b.den(),
    ;
    lemma_new_fits_positive(left + right, denominator);
    lemma_reduced(left + right, denominator);
    let r = sum(a, b);
    let (n1, n2, d1, d2) = (a.num(), b.num(), a.den(), b.den());
    let (rn, rd) = (r.num(), r.den());
    assert(d1 * d2 == denominator * gi) by (nonlinear_arith)
        requires
            d1 == gi * x,
            d2 == gi * y,
            denominator == x * d2,
    ;
    assert(n1 * d2 + n2 * d1 == (left + right) * gi) by (nonlinear_arith)
        requires
            d1 == gi * x,
            d2 == gi * y,
            left == n1 * y,
            right == n2 * x,
    ;
    assert(rn * (denominator * gi) == ((left + right) * gi) * rd) by (nonlinear_arith)
        requires
            rn * denominator == (left + right) * rd,
    ;
}

/// The product of rationals in lowest terms is in lowest terms, and its value is
/// the product of their values.
pub proof fn lemma_product(a: Ratio, b: Ratio)
    requires
        a.wf(),
        b.wf(),
        product_fits(a, b),
    ensures
        product(a, b).wf(),
        product(a, b).is(a.num() * b.num(), a.den() * b.den()),
        new_fits(a.num(), b.den()),
        new_fits(b.num(), a.den()),
        product_parts(a, b).0.den() * product_parts(a, b).1.den() > 0,
        new_fits(
            product_parts(a, b).0.num() * product_parts(a, b).1.num(),
            product_parts(a, b).0.den() * product_parts(a, b).1.den(),
        ),
{
    lemma_new_fits_positive(a.num(), b.den());
    lemma_new_fits_positive(b.num(), a.den());
    lemma_reduced(a.num(), b.den());
    lemma_reduced(b.num(), a.den());
    let (f, s) = product_parts(a, b);
    assert(f.den() * s.den() > 0) by (nonlinear_arith)
        requires
            f.den() > 0,
            s.den() > 0,
    ;
    lemma_new_fits_positive(f.num() * s.num(), f.den() * s.den());
    lemma_reduced(f.num() * s.num(), f.den() * s.den());
    let r = product(a, b);
    let (n1, n2, d1, d2) = (a.num(), b.num(), a.den(), b.den());
    let (fn_, fd, sn, sd, rn, rd) = (f.num(), f.den(), s.num(), s.den(), r.num(), r.den());
    let k = fd * sd;
    assert((rn * (d1 * d2)) * k == (rn * k) * (d1 * d2)) by (nonlinear_arith);
    assert((rn * k) * (d1 * d2) == ((fn_ * sn) * rd) * (d1 * d2)) by (nonlinear_arith)
        requires
            rn * k == (fn_ * sn) * rd,
    ;
    assert(((fn_ * sn) * rd) * (d1 * d2) == ((fn_ * d2) * (sn * d1)) * rd) by (nonlinear_arith);
    assert(((fn_ * d2) * (sn * d1)) * rd == ((n1 * fd) * (n2 * sd)) * rd) by (nonlinear_arith)
        requires
            fn_ * d2 == n1 * fd,
            sn * d1 == n2 * sd,
    ;
    assert(((n1 * fd) * (n2 * sd)) * rd == ((n1 * n2) * rd) * k) by (nonlinear_arith)
        requires
            k == fd * sd,
    ;
    assert(rn * (d1 * d2) == (n1 * n2) * rd) by (nonlinear_arith)
        requires
            k > 0,
            (rn * (d1 * d2)) * k == ((n1 * n2) * rd) * k,
    ;
}

/// The quotient of rationals in lowest terms is in lowest terms, and its value is
/// the quotient of their values.
pub proof fn lemma_divided(a: Ratio, b: Ratio)
    requires
        a.wf(),
        b.wf(),
        quotient_fits(a, b),
    ensures
        divided(a, b).wf(),
        divided(a, b).is(a.num() * b.den(), a.den() * b.num()),
{
    lemma_reduced(b.den(), b.num());
    let c = reduced(b.den(), b.num());
    lemma_product(a, c);
    let r = divided(a, b);
    let (n1, n2, d1, d2) = (a.num(), b.num(), a.den(), b.den());
    let (cn, cd, rn, rd) = (c.num(), c.den(), r.num(), r.den());
    assert((rn * (d1 * n2)) * cd == (rn * (d1 * cd)) * n2) by (nonlinear_arith);
    assert((rn * (d1 * cd)) * n2 == ((n1 * cn) * rd) * n2) by (nonlinear_arith)
        requires
            rn * (d1 * cd) == (n1 * cn) * rd,
    ;
    assert(((n1 * cn) * rd) * n2 == (n1 * rd) * (cn * n2)) by (nonlinear_arith);
    assert((n1 * rd) * (cn * n2) == (n1 * rd) * (d2 * cd)) by (nonlinear_arith)
        requires
            cn * n2 == d2 * cd,
    ;
    assert((n1 * rd) * (d2 * cd) == ((n1 * d2) * rd) * cd) by (nonlinear_arith);
    assert(rn * (d1 * n2) == (n1 * d2) * rd) by (nonlinear_arith)
        requires
            cd > 0,
            (rn * (d1 * n2)) * cd == ((n1 * d2) * rd) * cd,
    ;
}

impl core::ops::Neg for Ratio {
    type Output = Ratio;

    fn neg(self) -> (negative: Ratio) {
        Ratio { numerator: -self.numerator, denominator: self.denominator }
    }
}

impl vstd::std_specs::ops::NegSpecImpl for Ratio {
    open spec fn obeys_neg_spec() -> bool {
        true
    }

    open spec fn neg_req(self) -> bool {
        self.wf() && self.num() > i128::MIN
    }

    open spec fn neg_spec(self) -> Ratio {
        negated(self)
    }
}

impl core::ops::Add for Ratio {
    type Output = Ratio;

    fn add(self, other: Ratio) -> (total: Ratio) {
        proof {
            lemma_gcd_at_most(self.den() as nat, other.den() as nat);
            lemma_gcd_divides(self.den() as nat, other.den() as nat);
            lemma_sum(self, other);
        }
        let divisor = gcd_u128(self.denominator as u128, other.denominator as u128) as i128;
        let left = self.numerator * (other.denominator / divisor);
        let right = other.numerator * (self.denominator / divisor);
        proof {
            let (l, r, d) = sum_parts(self, other);
            lemma_new_fits_positive(l + r, d);
        }
        Ratio::new(left + right, (self.denominator / divisor) * other.denominator)
    }
}

impl vstd::std_specs::ops::AddSpecImpl for Ratio {
    open spec fn obeys_add_spec() -> bool {
        true
    }

    open spec fn add_req(self, other: Ratio) -> bool {
        self.wf() && other.wf() && sum_fits(self, other)
    }

    open spec fn add_spec(self, other: Ratio) -> Ratio {
        sum(self, other)
    }
}

impl core::ops::Sub for Ratio {
    type Output = Ratio;

    fn sub(self, other: Ratio) -> (difference: Ratio) {
        proof {
            lemma_negated(other);
        }
        core::ops::Add::add(self, core::ops::Neg::neg(other))
    }
}

impl vstd::std_specs::ops::SubSpecImpl for Ratio {
    open spec fn obeys_sub_spec() -> bool {
        true
    }

    open spec fn sub_req(self, other: Ratio) -> bool {
        self.wf() && other.wf() && other.num() > i128::MIN && sum_fits(self, negated(other))
    }

    open spec fn sub_spec(self, other: Ratio) -> Ratio {
        sum(self, negated(other))
    }
}

impl core::ops::Mul for Ratio {
    type Output = Ratio;

    fn mul(self, other: Ratio) -> (total: Ratio) {
        proof {
            lemma_new_fits_positive(self.num(), other.den());
            lemma_new_fits_positive(other.num(), self.den());
            lemma_product(self, other);
        }
        let first = Ratio::new(self.numerator, other.denominator);
        let second = Ratio::new(other.numerator, self.denominator);
        proof {
            lemma_new_fits_positive(first.num() * second.num(), first.den() * second.den());
        }
        Ratio::new(first.numerator * second.numerator, first.denominator * second.denominator)
    }
}

impl vstd::std_specs::ops::MulSpecImpl for Ratio {
    open spec fn obeys_mul_spec() -> bool {
        true
    }

    open spec fn mul_req(self, other: Ratio) -> bool {
        self.wf() && other.wf() && product_fits(self, other)
    }

    open spec fn mul_spec(self, other: Ratio) -> Ratio {
        product(self, other)
    }
}

impl core::ops::Div for Ratio {
    type Output = Ratio;

    fn div(self, other: Ratio) -> (total: Ratio) {
        proof {
            lemma_reduced(other.den(), other.num());
        }
        core::ops::Mul::mul(self, Ratio::new(other.denominator, other.numerator))
    }
}

impl vstd::std_specs::ops::DivSpecImpl for Ratio {
    open spec fn obeys_div_spec() -> bool {
        true
    }

    open spec fn div_req(self, other: Ratio) -> bool {
        self.wf() && other.wf() && quotient_fits(self, other)
    }

    open spec fn div_spec(self, other: Ratio) -> Ratio {
        divided(self, other)
    }
}


/// An integer is its own rational: numerator the integer, denominator 1.
pub proof fn lemma_integer(value: int)
    requires
        in_i128(value),
    ensures
        reduced(value, 1).num() == value,
        reduced(value, 1).den() == 1,
        reduced(value, 1).wf(),
{
    assert(gcd(abs(value), 1) == gcd(1, 0)) by {
        assert(abs(value) % 1 == 0);
    }
    lemma_reduced(value, 1);
    assert(value / 1 == value);
}

/// The value of an option that holds one.
fn checked(value: Option<i128>) -> (result: i128)
    requires
        value is Some,
    ensures
        result == value->0,
{
    match value {
        Some(result) => result,
        None => 0,
    }
}

/// `n!`.
pub open spec fn factorial_of(n: nat) -> nat
    decreases n,
{
    if n == 0 {
        1
    } else {
        n * factorial_of((n - 1) as nat)
    }
}

/// The factorials grow with `n`, from 1.
pub proof fn lemma_factorial_grows(i: nat, n: nat)
    requires
        i <= n,
    ensures
        1 <= factorial_of(i) <= factorial_of(n),
    decreases n,
{
    if i < n {
        lemma_factorial_grows(i, (n - 1) as nat);
        assert(factorial_of((n - 1) as nat) <= n * factorial_of((n - 1) as nat)) by (nonlinear_arith)
            requires
                n >= 1,
                factorial_of((n - 1) as nat) >= 1,
        ;
    } else if n > 0 {
        lemma_factorial_grows((n - 1) as nat, (n - 1) as nat);
        assert(1 <= n * factorial_of((n - 1) as nat)) by (nonlinear_arith)
            requires
                n >= 1,
                factorial_of((n - 1) as nat) >= 1,
        ;
    }
}

/// `n!`, exactly.
pub fn factorial(n: u32) -> (value: i128)
    requires
        factorial_of(n as nat) <= i128::MAX,
    ensures
        value == factorial_of(n as nat),
{
    let mut product: i128 = 1;
    let mut factor: u32 = 1;
    while factor <= n
        invariant
            1 <= factor <= n as int + 1,
            product == factorial_of((factor - 1) as nat),
            factorial_of(n as nat) <= i128::MAX,
        decreases n as int + 1 - factor,
    {
        proof {
            lemma_factorial_grows(factor as nat, n as nat);
            assert(factorial_of(factor as nat) == factor * factorial_of((factor - 1) as nat));
            assert(product * factor == factor * product) by (nonlinear_arith);
        }
        product = checked(product.checked_mul(factor as i128));
        if factor == n {
            return product;
        }
        factor = factor + 1;
    }
    product
}

/// The binomial coefficient `C(n, k)`, by Pascal's rule.
pub open spec fn binomial_coefficient(n: nat, k: nat) -> nat
    decreases n,
{
    if k == 0 {
        1
    } else if n == 0 {
        0
    } else {
        binomial_coefficient((n - 1) as nat, (k - 1) as nat) + binomial_coefficient((n - 1) as nat, k)
    }
}

/// Choosing more than there are gives 0.
pub proof fn lemma_choose_beyond(n: nat, k: nat)
    requires
        k > n,
    ensures
        binomial_coefficient(n, k) == 0,
    decreases n,
{
    if n > 0 {
        lemma_choose_beyond((n - 1) as nat, (k - 1) as nat);
        lemma_choose_beyond((n - 1) as nat, k);
    }
}

/// Choosing all gives 1.
pub proof fn lemma_choose_all(n: nat)
    ensures
        binomial_coefficient(n, n) == 1,
    decreases n,
{
    if n > 0 {
        lemma_choose_all((n - 1) as nat);
        lemma_choose_beyond((n - 1) as nat, n);
    }
}

/// `(k + 1) C(n, k + 1) = (n - k) C(n, k)`: the step from one coefficient of a row
/// to the next.
pub proof fn lemma_choose_step(n: nat, k: nat)
    ensures
        (k + 1) * binomial_coefficient(n, k + 1) == (n - k) * binomial_coefficient(n, k),
    decreases n,
{
    if n == 0 {
        lemma_choose_beyond(0, k + 1);
        if k > 0 {
            lemma_choose_beyond(0, k);
        }
        let (left, right) = (binomial_coefficient(n, k + 1), binomial_coefficient(n, k));
        assert((k + 1) * left == (n - k) * right) by (nonlinear_arith)
            requires
                n == 0,
                left == 0,
                k > 0 ==> right == 0,
        ;
    } else {
        let m = (n - 1) as nat;
        lemma_choose_step(m, k);
        assert(binomial_coefficient(n, k + 1) == binomial_coefficient(m, k) + binomial_coefficient(m, k + 1));
        if k == 0 {
            assert(binomial_coefficient(m, 0) == 1);
            assert((k + 1) * binomial_coefficient(n, k + 1) == n * binomial_coefficient(m, k)) by (nonlinear_arith)
                requires
                    k == 0,
                    binomial_coefficient(n, k + 1) == binomial_coefficient(m, k) + binomial_coefficient(m, k + 1),
                    (k + 1) * binomial_coefficient(m, k + 1) == (m - k) * binomial_coefficient(m, k),
                    m == n - 1,
            ;
        } else {
            lemma_choose_step(m, (k - 1) as nat);
            assert(binomial_coefficient(n, k) == binomial_coefficient(m, (k - 1) as nat) + binomial_coefficient(m, k));
            assert((k + 1) * binomial_coefficient(n, k + 1) == (n - k) * binomial_coefficient(n, k)) by (nonlinear_arith)
                requires
                    k >= 1,
                    m == n - 1,
                    binomial_coefficient(n, k + 1) == binomial_coefficient(m, k) + binomial_coefficient(m, k + 1),
                    binomial_coefficient(n, k) == binomial_coefficient(m, (k - 1) as nat) + binomial_coefficient(m, k),
                    (k + 1) * binomial_coefficient(m, k + 1) == (m - k) * binomial_coefficient(m, k),
                    k * binomial_coefficient(m, k) == (m - (k - 1)) * binomial_coefficient(m, (k - 1) as nat),
            ;
        }
    }
}

/// `C(n, k) = C(n, n - k)`.
pub proof fn lemma_choose_symmetric(n: nat, k: nat)
    requires
        k <= n,
    ensures
        binomial_coefficient(n, k) == binomial_coefficient(n, (n - k) as nat),
    decreases n,
{
    if k == 0 {
        lemma_choose_all(n);
    } else if k == n {
        lemma_choose_all(n);
    } else {
        let m = (n - 1) as nat;
        lemma_choose_symmetric(m, (k - 1) as nat);
        lemma_choose_symmetric(m, k);
        assert(binomial_coefficient(n, (n - k) as nat) == binomial_coefficient(m, (n - k - 1) as nat) + binomial_coefficient(m, (n - k) as nat));
    }
}

/// `C(n, k) = n! / (k! (n - k)!)`: the coefficient times the factorials of the two
/// parts is the factorial of the whole.
pub proof fn lemma_choose_factorials(n: nat, k: nat)
    requires
        k <= n,
    ensures
        binomial_coefficient(n, k) * factorial_of(k) * factorial_of((n - k) as nat) == factorial_of(n),
    decreases k,
{
    if k == 0 {
        assert(factorial_of(0) == 1);
        assert(binomial_coefficient(n, 0) == 1);
        assert((n - k) as nat == n);
        let (c, a, b, f) = (binomial_coefficient(n, k), factorial_of(k), factorial_of((n - k) as nat), factorial_of(n));
        assert(c * a * b == f) by (nonlinear_arith)
            requires
                c == 1,
                a == 1,
                b == f,
        ;
    } else {
        let j = (k - 1) as nat;
        lemma_choose_factorials(n, j);
        lemma_choose_step(n, j);
        let (c, d) = (binomial_coefficient(n, k), binomial_coefficient(n, j));
        let (fk, fj) = (factorial_of(k), factorial_of(j));
        let (rest, more) = (factorial_of((n - k) as nat), factorial_of((n - j) as nat));
        assert(fk == k * fj);
        assert(more == (n - j) * rest);
        assert(c * fk * rest == factorial_of(n)) by (nonlinear_arith)
            requires
                k * c == (n - j) * d,
                d * fj * more == factorial_of(n),
                fk == k * fj,
                more == (n - j) * rest,
        ;
    }
}

/// A coefficient of row `n` is at most `2^n`.
proof fn lemma_choose_at_most_power(n: nat, k: nat)
    ensures
        binomial_coefficient(n, k) <= pow2(n),
    decreases n,
{
    lemma_pow2_pos(n);
    if k > 0 && n > 0 {
        lemma_choose_at_most_power((n - 1) as nat, (k - 1) as nat);
        lemma_choose_at_most_power((n - 1) as nat, k);
        lemma_pow2_unfold(n);
    }
}

/// Up to `n = 120`, [`binomial`] computes every `C(n, k)` in 128 bits: each
/// coefficient is at most `2^n`, and times at most `n` it stays below `2^127`.
pub proof fn lemma_binomial_fits(n: nat, k: nat)
    requires
        n <= 120,
    ensures
        binomial_fits(n, k),
{
    assert forall|index: nat| index < n implies #[trigger] binomial_coefficient(n, index) * (n - index)
        <= i128::MAX by {
        lemma_choose_at_most_power(n, index);
        lemma_pow2_pos(n);
        if n < 120 {
            lemma_pow2_strictly_increases(n, 120);
        }
        lemma_pow2_adds(120, 7);
        lemma2_to64();
        assert(pow2(127) == 0x8000_0000_0000_0000_0000_0000_0000_0000) by {
            lemma2_to64_rest();
            lemma_pow2_adds(64, 63);
        }
        let c = binomial_coefficient(n, index);
        assert(c * (n - index) <= pow2(120) * 120) by (nonlinear_arith)
            requires
                c <= pow2(n),
                pow2(n) <= pow2(120),
                0 <= n - index <= 120,
                0 <= c,
        ;
        assert(pow2(120) * 120 < pow2(120) * 128) by (nonlinear_arith)
            requires
                pow2(120) > 0,
        ;
        assert(pow2(120) * pow2(7) == pow2(127));
        assert(pow2(7) == 128);
    }
}

/// Whether [`binomial`] computes `C(n, k)` in 128 bits: each step's product fits.
pub open spec fn binomial_fits(n: nat, k: nat) -> bool {
    let steps = if k <= n && n - k < k { (n - k) as nat } else { k };
    k <= n ==> forall|index: nat|
        index < steps ==> #[trigger] binomial_coefficient(n, index) * (n - index) <= i128::MAX
}

/// The binomial coefficient `C(n, k)`, exactly.
pub fn binomial(n: u32, k: u32) -> (value: i128)
    requires
        binomial_fits(n as nat, k as nat),
    ensures
        value == binomial_coefficient(n as nat, k as nat),
{
    if k > n {
        proof {
            lemma_choose_beyond(n as nat, k as nat);
        }
        return 0;
    }
    let k = if n - k < k { n - k } else { k };
    proof {
        lemma_choose_symmetric(n as nat, k as nat);
    }
    let mut value: i128 = 1;
    let mut index: u32 = 0;
    while index < k
        invariant
            index <= k <= n,
            value == binomial_coefficient(n as nat, index as nat),
            forall|i: nat| i < k ==> #[trigger] binomial_coefficient(n as nat, i) * (n - i) <= i128::MAX,
        decreases k - index,
    {
        proof {
            lemma_choose_step(n as nat, index as nat);
            assert(binomial_coefficient(n as nat, index as nat) * (n - index) <= i128::MAX);
        }
        let product = checked(value.checked_mul((n - index) as i128));
        let next = product / ((index + 1) as i128);
        proof {
            let c = binomial_coefficient(n as nat, (index + 1) as nat);
            assert(product == (index + 1) * c);
            assert(next == c) by (nonlinear_arith)
                requires
                    product == (index + 1) * c,
                    index + 1 > 0,
                    next == product as int / (index + 1) as int,
            ;
        }
        value = next;
        index = index + 1;
    }
    value
}


/// The Bernoulli number `B_m`, from `sum over j <= m of C(m + 1, j) B_j = 0` for
/// `m >= 1`, and `B_0 = 1` (so `B_1 = -1/2`).
pub open spec fn bernoulli_number(m: nat) -> Ratio
    decreases m, m + 1,
{
    if m == 0 {
        reduced(1, 1)
    } else {
        divided(negated(bernoulli_partial(m, m)), reduced(m + 1 as int, 1))
    }
}

/// `sum over j < count of C(m + 1, j) B_j`, the terms added one after another from
/// 0; for `count` up to `m`.
pub open spec fn bernoulli_partial(m: nat, count: nat) -> Ratio
    decreases m, count,
{
    if count == 0 || count > m {
        reduced(0, 1)
    } else {
        sum(
            bernoulli_partial(m, (count - 1) as nat),
            product(
                reduced(binomial_coefficient(m + 1, (count - 1) as nat) as int, 1),
                bernoulli_number((count - 1) as nat),
            ),
        )
    }
}

/// Whether the step of [`bernoulli`] that makes `B_m` is computed in 128 bits:
/// every binomial coefficient, product and sum of the terms, and the negation and
/// the quotient that end it.
#[verifier::opaque]
pub open spec fn bernoulli_step_fits(m: nat) -> bool {
    &&& m + 1 <= u32::MAX
    &&& terms_fit(m, m)
    &&& bernoulli_partial(m, m).num() > i128::MIN
    &&& quotient_fits(negated(bernoulli_partial(m, m)), reduced(m + 1 as int, 1))
}

/// Whether the `i`th term of the step of `B_m` is computed in 128 bits: its binomial
/// coefficient, its product by the number, and the sum so far with it.
pub open spec fn term_fits(m: nat, i: nat) -> bool {
    let coefficient = reduced(binomial_coefficient(m + 1, i) as int, 1);
    &&& binomial_fits(m + 1, i)
    &&& binomial_coefficient(m + 1, i) <= i128::MAX
    &&& product_fits(coefficient, bernoulli_number(i))
    &&& sum_fits(bernoulli_partial(m, i), product(coefficient, bernoulli_number(i)))
}

/// Whether the terms of the step of `B_m` before the `j`th are computed in 128 bits.
pub open spec fn terms_fit(m: nat, j: nat) -> bool {
    forall|i: nat| i < j ==> #[trigger] term_fits(m, i)
}

/// Whether [`bernoulli`] computes the first `count` numbers in 128 bits.
pub open spec fn bernoulli_fits(count: nat) -> bool {
    forall|m: nat| 1 <= m < count ==> #[trigger] bernoulli_step_fits(m)
}

/// Where the numbers are computed in 128 bits, every one of them is in lowest
/// terms.
pub proof fn lemma_bernoulli_lowest_terms(count: nat)
    requires
        bernoulli_fits(count),
    ensures
        forall|j: nat| j < count ==> #[trigger] bernoulli_number(j).wf(),
    decreases count,
{
    if count > 0 {
        let m = (count - 1) as nat;
        assert(bernoulli_fits(m));
        lemma_bernoulli_lowest_terms(m);
        if m == 0 {
            lemma_integer(1);
        } else {
            assert(bernoulli_step_fits(m));
            lemma_bernoulli_step_lowest_terms(m);
        }
    }
}

/// Where the numbers before `B_m` are in lowest terms, so are the partial sums of
/// its step, and so is `B_m`.
proof fn lemma_bernoulli_step_lowest_terms(m: nat)
    requires
        1 <= m,
        bernoulli_step_fits(m),
        forall|i: nat| i < m ==> #[trigger] bernoulli_number(i).wf(),
    ensures
        bernoulli_number(m).wf(),
{
    lemma_bernoulli_partial_lowest_terms(m, m);
    reveal(bernoulli_step_fits);
    let total = bernoulli_partial(m, m);
    assert(total.wf());
    lemma_negated(total);
    lemma_integer(m + 1 as int);
    lemma_divided(negated(total), reduced(m + 1 as int, 1));
}

/// The partial sums of a step are in lowest terms where the numbers before are.
proof fn lemma_bernoulli_partial_lowest_terms(m: nat, j: nat)
    requires
        1 <= m,
        j <= m,
        bernoulli_step_fits(m),
        forall|i: nat| i < m ==> #[trigger] bernoulli_number(i).wf(),
    ensures
        bernoulli_partial(m, j).wf(),
    decreases j,
{
    reveal(bernoulli_step_fits);
    lemma_integer(0);
    if j > 0 {
        let i = (j - 1) as nat;
        lemma_bernoulli_partial_lowest_terms(m, i);
        assert(term_fits(m, i));
        lemma_integer(binomial_coefficient(m + 1, i) as int);
        let coefficient = reduced(binomial_coefficient(m + 1, i) as int, 1);
        assert(bernoulli_number(i).wf());
        lemma_product(coefficient, bernoulli_number(i));
        lemma_sum(bernoulli_partial(m, i), product(coefficient, bernoulli_number(i)));
    }
}

/// The Bernoulli numbers `B_0`, ..., `B_(count - 1)`, exactly, from
/// `sum over j <= m of C(m + 1, j) B_j = 0` (`B_1 = -1/2`), where every step is
/// computed in 128 bits; [`try_bernoulli`] tells where it is.
pub fn bernoulli(count: usize) -> (numbers: Vec<Ratio>)
    requires
        bernoulli_fits(count as nat),
    ensures
        numbers@.len() == count,
        forall|j: int| 0 <= j < count ==> numbers@[j] == bernoulli_number(j as nat),
{
    let mut numbers: Vec<Ratio> = Vec::with_capacity(count);
    if count == 0 {
        return numbers;
    }
    proof {
        lemma_bernoulli_lowest_terms(count as nat);
    }
    numbers.push(Ratio::integer(1));
    let mut m: usize = 1;
    while m < count
        invariant
            1 <= m <= count,
            numbers@.len() == m,
            bernoulli_fits(count as nat),
            forall|j: nat| j < count ==> #[trigger] bernoulli_number(j).wf(),
            forall|j: int| 0 <= j < m ==> numbers@[j] == bernoulli_number(j as nat),
        decreases count - m,
    {
        assert(bernoulli_step_fits(m as nat));
        proof {
            reveal(bernoulli_step_fits);
        }
        let order = m as u32;
        let mut total = Ratio::integer(0);
        let mut j: usize = 0;
        while j < m
            invariant
                1 <= m < count,
                j <= m,
                order == m,
                numbers@.len() == m,
                bernoulli_step_fits(m as nat),
                forall|i: nat| i < count ==> #[trigger] bernoulli_number(i).wf(),
                forall|i: int| 0 <= i < m ==> numbers@[i] == bernoulli_number(i as nat),
                total == bernoulli_partial(m as nat, j as nat),
            decreases m - j,
        {
            let index = j as u32;
            proof {
                reveal(bernoulli_step_fits);
            }
            assert(term_fits(m as nat, j as nat));
            let coefficient = Ratio::integer(binomial(order + 1, index));
            proof {
                lemma_integer(binomial_coefficient(m as nat + 1, j as nat) as int);
                assert(numbers@[j as int] == bernoulli_number(j as nat));
            }
            let term = core::ops::Mul::mul(coefficient, numbers[j]);
            proof {
                lemma_product(coefficient, numbers@[j as int]);
                lemma_bernoulli_partial_lowest_terms(m as nat, j as nat);
            }
            total = core::ops::Add::add(total, term);
            j = j + 1;
        }
        proof {
            reveal(bernoulli_step_fits);
            lemma_bernoulli_partial_lowest_terms(m as nat, m as nat);
            lemma_negated(total);
            lemma_integer(m + 1 as int);
        }
        let negative = core::ops::Neg::neg(total);
        let number = core::ops::Div::div(negative, Ratio::integer((order + 1) as i128));
        numbers.push(number);
        m = m + 1;
    }
    numbers
}

/// The sum of two rationals, where it is computed in 128 bits.
fn sum_within(a: Ratio, b: Ratio) -> (total: Option<Ratio>)
    ensures
        match total {
            Some(total) => sum_fits(a, b) && total == sum(a, b),
            None => !sum_fits(a, b),
        },
{
    proof {
        use_type_invariant(&a);
        use_type_invariant(&b);
        lemma_gcd_at_most(a.den() as nat, b.den() as nat);
        lemma_gcd_divides(a.den() as nat, b.den() as nat);
    }
    let divisor = gcd_u128(a.denominator as u128, b.denominator as u128) as i128;
    let left = a.numerator.checked_mul(b.denominator / divisor);
    let right = b.numerator.checked_mul(a.denominator / divisor);
    let denominator = (a.denominator / divisor).checked_mul(b.denominator);
    let fits = match (left, right, denominator) {
        (Some(l), Some(r), Some(_)) => l.checked_add(r).is_some(),
        _ => false,
    };
    if fits {
        Some(core::ops::Add::add(a, b))
    } else {
        None
    }
}

/// The product of two rationals, where it is computed in 128 bits.
fn product_within(a: Ratio, b: Ratio) -> (total: Option<Ratio>)
    ensures
        match total {
            Some(total) => product_fits(a, b) && total == product(a, b),
            None => !product_fits(a, b),
        },
{
    proof {
        use_type_invariant(&a);
        use_type_invariant(&b);
        lemma_new_fits_positive(a.num(), b.den());
        lemma_new_fits_positive(b.num(), a.den());
    }
    let first = Ratio::new(a.numerator, b.denominator);
    let second = Ratio::new(b.numerator, a.denominator);
    let fits = first.numerator.checked_mul(second.numerator).is_some() && first.denominator.checked_mul(
        second.denominator,
    ).is_some();
    if fits {
        Some(core::ops::Mul::mul(a, b))
    } else {
        None
    }
}

/// `C(n, k)`, where [`binomial`] computes it in 128 bits.
fn binomial_within(n: u32, k: u32) -> (value: Option<i128>)
    ensures
        match value {
            Some(value) => binomial_fits(n as nat, k as nat) && value == binomial_coefficient(n as nat, k as nat),
            None => !binomial_fits(n as nat, k as nat),
        },
{
    if k > n {
        return Some(binomial(n, k));
    }
    let steps = if n - k < k { n - k } else { k };
    let mut index: u32 = 0;
    let mut value: i128 = 1;
    while index < steps
        invariant
            index <= steps <= n,
            steps == (if n - k < k { (n - k) as nat } else { k as nat }),
            k <= n,
            value == binomial_coefficient(n as nat, index as nat),
            forall|i: nat| i < index ==> #[trigger] binomial_coefficient(n as nat, i) * (n - i) <= i128::MAX,
        decreases steps - index,
    {
        proof {
            lemma_choose_step(n as nat, index as nat);
        }
        match value.checked_mul((n - index) as i128) {
            Some(product) => {
                let next = product / ((index + 1) as i128);
                proof {
                    let c = binomial_coefficient(n as nat, (index + 1) as nat);
                    assert(product == (index + 1) * c);
                    assert(next == c) by (nonlinear_arith)
                        requires
                            product == (index + 1) * c,
                            index + 1 > 0,
                            next == product as int / (index + 1) as int,
                    ;
                }
                value = next;
                index = index + 1;
            },
            None => {
                proof {
                    assert(!(binomial_coefficient(n as nat, index as nat) * (n - index) <= i128::MAX));
                }
                return None;
            },
        }
    }
    Some(binomial(n, k))
}

/// `B_m` from the numbers before it, where its step is computed in 128 bits.
fn step_within(m: usize, numbers: &Vec<Ratio>) -> (number: Option<Ratio>)
    requires
        1 <= m,
        numbers@.len() == m,
        forall|i: int| 0 <= i < m ==> numbers@[i] == bernoulli_number(i as nat),
    ensures
        match number {
            Some(number) => bernoulli_step_fits(m as nat) && number == bernoulli_number(m as nat),
            None => !bernoulli_step_fits(m as nat),
        },
{
    proof {
        reveal(bernoulli_step_fits);
    }
    if m >= 0xFFFF_FFFF {
        return None;
    }
    let order = m as u32;
    let mut total = Ratio::integer(0);
    let mut j: usize = 0;
    while j < m
        invariant
            1 <= m < 0xFFFF_FFFF,
            order == m,
            j <= m,
            numbers@.len() == m,
            forall|i: int| 0 <= i < m ==> numbers@[i] == bernoulli_number(i as nat),
            total == bernoulli_partial(m as nat, j as nat),
            terms_fit(m as nat, j as nat),
        decreases m - j,
    {
        let ghost coefficient = reduced(binomial_coefficient(m as nat + 1, j as nat) as int, 1);
        let value = match binomial_within(order + 1, j as u32) {
            Some(value) => value,
            None => {
                proof {
                    assert(!term_fits(m as nat, j as nat));
                    reveal(bernoulli_step_fits);
                }
                return None;
            },
        };
        let ratio = Ratio::integer(value);
        proof {
            assert(numbers@[j as int] == bernoulli_number(j as nat));
        }
        let term = match product_within(ratio, numbers[j]) {
            Some(term) => term,
            None => {
                proof {
                    assert(!term_fits(m as nat, j as nat));
                    reveal(bernoulli_step_fits);
                }
                return None;
            },
        };
        let next = match sum_within(total, term) {
            Some(next) => next,
            None => {
                proof {
                    assert(!term_fits(m as nat, j as nat));
                    reveal(bernoulli_step_fits);
                }
                return None;
            },
        };
        proof {
            assert(term_fits(m as nat, j as nat));
            assert(bernoulli_partial(m as nat, (j + 1) as nat) == sum(
                bernoulli_partial(m as nat, j as nat),
                product(coefficient, bernoulli_number(j as nat)),
            ));
            assert forall|i: nat| i < j + 1 implies #[trigger] term_fits(m as nat, i) by {
                if i < j {
                    assert(term_fits(m as nat, i));
                }
            }
        }
        total = next;
        j = j + 1;
    }
    if total.numerator() == i128::MIN {
        proof {
            reveal(bernoulli_step_fits);
        }
        return None;
    }
    proof {
        use_type_invariant(&total);
        lemma_negated(total);
        lemma_new_fits_positive(1, m + 1 as int);
        lemma_integer(m + 1 as int);
    }
    let negative = core::ops::Neg::neg(total);
    let reciprocal = Ratio::new(1, (order + 1) as i128);
    proof {
        assert(reduced(m + 1 as int, 1).num() == m + 1);
        assert(reduced(m + 1 as int, 1).den() == 1);
        lemma_new_fits_positive(1, m + 1 as int);
        reveal(bernoulli_step_fits);
    }
    if product_within(negative, reciprocal).is_none() {
        return None;
    }
    proof {
        reveal(bernoulli_step_fits);
        assert(bernoulli_step_fits(m as nat));
    }
    Some(core::ops::Div::div(negative, Ratio::integer((order + 1) as i128)))
}

/// The Bernoulli numbers `B_0`, ..., `B_(count - 1)`, where [`bernoulli`] computes
/// them in 128 bits, and `None` where one of its steps does not fit.
pub fn try_bernoulli(count: usize) -> (numbers: Option<Vec<Ratio>>)
    ensures
        match numbers {
            Some(numbers) => {
                &&& bernoulli_fits(count as nat)
                &&& numbers@.len() == count
                &&& forall|j: int| 0 <= j < count ==> numbers@[j] == bernoulli_number(j as nat)
            },
            None => !bernoulli_fits(count as nat),
        },
{
    let mut m: usize = 1;
    while m < count
        invariant
            1 <= m,
            forall|i: nat| 1 <= i < m ==> #[trigger] bernoulli_step_fits(i),
        decreases count - m,
    {
        let numbers = bernoulli(m);
        if step_within(m, &numbers).is_none() {
            return None;
        }
        m = m + 1;
    }
    Some(bernoulli(count))
}

/// The recurrence that defines the numbers holds of them: for `1 <= m`, the sum of
/// the terms before `B_m`, and `C(m + 1, m) B_m = (m + 1) B_m`, is 0.
pub proof fn lemma_bernoulli_recurrence(count: nat, m: nat)
    requires
        bernoulli_fits(count),
        1 <= m < count,
    ensures
        ({
            let total = bernoulli_partial(m, m);
            let number = bernoulli_number(m);
            total.num() * number.den() + (m + 1) * number.num() * total.den() == 0
        }),
{
    lemma_bernoulli_lowest_terms(count);
    assert(bernoulli_step_fits(m));
    let total = bernoulli_partial(m, m);
    lemma_bernoulli_partial_lowest_terms(m, m);
    reveal(bernoulli_step_fits);
    lemma_negated(total);
    lemma_integer(m + 1 as int);
    lemma_divided(negated(total), reduced(m + 1 as int, 1));
    let number = bernoulli_number(m);
    assert(number == divided(negated(total), reduced(m + 1 as int, 1)));
    assert(total.num() * number.den() + (m + 1) * number.num() * total.den() == 0)
        by (nonlinear_arith)
        requires
            number.num() * (total.den() * (m + 1)) == (-total.num() * 1) * number.den(),
    ;
}

} // verus!
