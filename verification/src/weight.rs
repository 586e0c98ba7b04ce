//! Exact non-negative fractions, the weights of a distribution.

use crate::bigint::{big_add, big_div, big_eq, big_from_u64, big_lt, big_mul, big_rem, big_value};
use num_bigint::BigUint;
use vstd::prelude::*;

verus! {

/// The real number `n / d`.
pub open spec fn ratio(n: nat, d: nat) -> real {
    n as real / d as real
}

/// Two to the power 64, the denominator of a random draw.
pub open spec fn draw_scale() -> nat {
    0x1_0000_0000_0000_0000
}

/// The product of two naturals as a real number.
pub proof fn lemma_cast_mul(a: nat, b: nat)
    ensures
        (a * b) as real == a as real * b as real,
{
    assert((a * b) as real == a as real * b as real) by (nonlinear_arith);
}

/// A fraction over 1 is its numerator.
pub proof fn lemma_ratio_whole(n: nat)
    ensures
        ratio(n, 1) == n as real,
{
    let x = n as real;
    assert(x / (1 as real) == x) by (nonlinear_arith);
}

/// A fraction of naturals is not negative, and 0 only with the numerator 0.
pub proof fn lemma_ratio_nonneg(n: nat, d: nat)
    requires
        d > 0,
    ensures
        ratio(n, d) >= 0 as real,
        (ratio(n, d) == 0 as real) <==> n == 0,
{
    let x = n as real;
    let y = d as real;
    assert(x / y >= 0 as real && ((x / y == 0 as real) <==> x == 0 as real)) by (nonlinear_arith)
        requires
            x >= 0 as real,
            y > 0 as real,
    ;
}

/// A common factor of numerator and denominator can be left out.
pub proof fn lemma_ratio_scale(n: nat, d: nat, g: nat)
    requires
        d > 0,
        g > 0,
    ensures
        ratio(n * g, d * g) == ratio(n, d),
{
    lemma_cast_mul(n, g);
    lemma_cast_mul(d, g);
    let x = n as real;
    let y = d as real;
    let z = g as real;
    assert((x * z) / (y * z) == x / y) by (nonlinear_arith)
        requires
            y > 0 as real,
            z > 0 as real,
    ;
}

/// The sum of two fractions.
pub proof fn lemma_ratio_add(a: nat, b: nat, c: nat, d: nat)
    requires
        b > 0,
        d > 0,
    ensures
        b * d > 0,
        ratio(a * d + c * b, b * d) == ratio(a, b) + ratio(c, d),
{
    assert(b * d > 0) by (nonlinear_arith)
        requires
            b > 0,
            d > 0,
    ;
    lemma_cast_mul(a, d);
    lemma_cast_mul(c, b);
    lemma_cast_mul(b, d);
    let w = a as real;
    let x = b as real;
    let y = c as real;
    let z = d as real;
    assert((a * d + c * b) as real == (a * d) as real + (c * b) as real);
    assert((w * z + y * x) / (x * z) == w / x + y / z) by (nonlinear_arith)
        requires
            x > 0 as real,
            z > 0 as real,
    ;
}

/// The product of two fractions.
pub proof fn lemma_ratio_mul(a: nat, b: nat, c: nat, d: nat)
    requires
        b > 0,
        d > 0,
    ensures
        b * d > 0,
        ratio(a * c, b * d) == ratio(a, b) * ratio(c, d),
{
    assert(b * d > 0) by (nonlinear_arith)
        requires
            b > 0,
            d > 0,
    ;
    lemma_cast_mul(a, c);
    lemma_cast_mul(b, d);
    let w = a as real;
    let x = b as real;
    let y = c as real;
    let z = d as real;
    assert((w * y) / (x * z) == (w / x) * (y / z)) by (nonlinear_arith)
        requires
            x > 0 as real,
            z > 0 as real,
    ;
}

/// The quotient of two fractions.
pub proof fn lemma_ratio_div(a: nat, b: nat, c: nat, d: nat)
    requires
        b > 0,
        d > 0,
        c > 0,
    ensures
        b * c > 0,
        ratio(a * d, b * c) == ratio(a, b) / ratio(c, d),
{
    assert(b * c > 0) by (nonlinear_arith)
        requires
            b > 0,
            c > 0,
    ;
    lemma_cast_mul(a, d);
    lemma_cast_mul(b, c);
    let w = a as real;
    let x = b as real;
    let y = c as real;
    let z = d as real;
    assert((w * z) / (x * y) == (w / x) / (y / z)) by (nonlinear_arith)
        requires
            x > 0 as real,
            y > 0 as real,
            z > 0 as real,
    ;
}

/// Two fractions compare as their cross products do.
pub proof fn lemma_ratio_less(a: nat, b: nat, c: nat, d: nat)
    requires
        b > 0,
        d > 0,
    ensures
        (a * d < c * b) <==> ratio(a, b) < ratio(c, d),
{
    lemma_cast_mul(a, d);
    lemma_cast_mul(c, b);
    let w = a as real;
    let x = b as real;
    let y = c as real;
    let z = d as real;
    assert((w * z < y * x) <==> (w / x < y / z)) by (nonlinear_arith)
        requires
            x > 0 as real,
            z > 0 as real,
    ;
    assert((a * d < c * b) <==> ((a * d) as real) < ((c * b) as real));
}

/// Whether `d` divides `x`.
pub open spec fn divides(d: nat, x: nat) -> bool {
    d > 0 && x % d == 0
}

/// If `g` divides `x`, then `x` is `g` times the quotient.
proof fn lemma_exact_quotient(x: nat, g: nat)
    requires
        g > 0,
        x % g == 0,
    ensures
        (x / g) * g == x,
{
    vstd::arithmetic::div_mod::lemma_fundamental_div_mod(x as int, g as int);
    assert(g * (x / g) == (x / g) * g) by (nonlinear_arith);
}

/// A divisor of `y` and of `x % y` divides `x`.
proof fn lemma_divides_step(x: nat, y: nat, d: nat)
    requires
        y > 0,
        d > 0,
        y % d == 0,
        (x % y) % d == 0,
    ensures
        x % d == 0,
{
    let r = x % y;
    let q = x / y;
    vstd::arithmetic::div_mod::lemma_fundamental_div_mod(x as int, y as int);
    lemma_exact_quotient(y, d);
    lemma_exact_quotient(r, d);
    let yq = y / d;
    let rq = r / d;
    assert(x == d * (yq * q + rq)) by (nonlinear_arith)
        requires
            x == y * q + r,
            yq * d == y,
            rq * d == r,
    ;
    vstd::arithmetic::div_mod::lemma_mod_multiples_basic((yq * q + rq) as int, d as int);
    assert((yq * q + rq) * d == d * (yq * q + rq)) by (nonlinear_arith);
}

/// A divisor of `x` and of `y` divides `x % y`.
proof fn lemma_divides_remainder(x: nat, y: nat, d: nat)
    requires
        y > 0,
        divides(d, x),
        divides(d, y),
    ensures
        divides(d, x % y),
{
    let q = x / y;
    let r = x % y;
    vstd::arithmetic::div_mod::lemma_fundamental_div_mod(x as int, y as int);
    lemma_exact_quotient(x, d);
    lemma_exact_quotient(y, d);
    let xq = x / d;
    let yq = y / d;
    assert(r == d * (xq - yq * q)) by (nonlinear_arith)
        requires
            x == y * q + r,
            xq * d == x,
            yq * d == y,
    ;
    vstd::arithmetic::div_mod::lemma_mod_multiples_basic(xq - yq * q, d as int);
    assert((xq - yq * q) * d == d * (xq - yq * q)) by (nonlinear_arith);
}

/// Whether two numbers have no common divisor but 1.
pub open spec fn coprime(a: nat, b: nat) -> bool {
    forall|c: nat| #[trigger] divides(c, a) && divides(c, b) ==> c == 1
}

/// Dividing two numbers by a common divisor that every common divisor
/// divides leaves numbers without a common divisor but 1.
proof fn lemma_coprime_quotients(a: nat, b: nat, g: nat)
    requires
        divides(g, a),
        divides(g, b),
        forall|c: nat| #[trigger] divides(c, a) && divides(c, b) ==> divides(c, g),
    ensures
        coprime(a / g, b / g),
{
    lemma_exact_quotient(a, g);
    lemma_exact_quotient(b, g);
    let x = a / g;
    let y = b / g;
    assert forall|c: nat| #[trigger] divides(c, x) && divides(c, y) implies c == 1 by {
        lemma_exact_quotient(x, c);
        lemma_exact_quotient(y, c);
        let cg = c * g;
        let xq = x / c;
        let yq = y / c;
        assert(cg > 0) by (nonlinear_arith)
            requires
                cg == c * g,
                c > 0,
                g > 0,
        ;
        assert(a == xq * cg) by (nonlinear_arith)
            requires
                a == x * g,
                x == xq * c,
                cg == c * g,
        ;
        assert(b == yq * cg) by (nonlinear_arith)
            requires
                b == y * g,
                y == yq * c,
                cg == c * g,
        ;
        vstd::arithmetic::div_mod::lemma_mod_multiples_basic(xq as int, cg as int);
        vstd::arithmetic::div_mod::lemma_mod_multiples_basic(yq as int, cg as int);
        assert(divides(cg, a) && divides(cg, b));
        assert(divides(cg, g));
        lemma_exact_quotient(g, cg);
        let m = g / cg;
        assert(c == 1) by (nonlinear_arith)
            requires
                m * cg == g,
                cg == c * g,
                g > 0,
                c > 0,
        ;
    }
}

/// A number has no common divisor but 1 with 1.
proof fn lemma_coprime_with_one(a: nat)
    ensures
        coprime(a, 1),
{
    assert forall|c: nat| #[trigger] divides(c, a) && divides(c, 1) implies c == 1 by {
        if c > 1 {
            vstd::arithmetic::div_mod::lemma_small_mod(1, c);
        }
    }
}

/// The greatest common divisor of `a` and `b`, found by Euclid's algorithm:
/// a positive number that divides both, and that every number divides that
/// divides both.
fn common_divisor(a: &BigUint, b: &BigUint) -> (g: BigUint)
    requires
        big_value(*b) > 0,
    ensures
        divides(big_value(g), big_value(*a)),
        divides(big_value(g), big_value(*b)),
        forall|c: nat| #[trigger]
            divides(c, big_value(*a)) && divides(c, big_value(*b)) ==> divides(c, big_value(g)),
{
    let zero = big_from_u64(0);
    let mut x = b.clone();
    let mut y = big_rem(a, b);
    proof {
        assert forall|d: nat| #[trigger]
            divides(d, big_value(x)) && divides(d, big_value(y)) implies divides(d, big_value(*a))
            && divides(d, big_value(*b)) by {
            lemma_divides_step(big_value(*a), big_value(*b), d);
        }
        assert forall|c: nat| #[trigger]
            divides(c, big_value(*a)) && divides(c, big_value(*b)) implies divides(c, big_value(x))
            && divides(c, big_value(y)) by {
            lemma_divides_remainder(big_value(*a), big_value(*b), c);
        }
    }
    while !big_eq(&y, &zero)
        invariant
            big_value(zero) == 0,
            big_value(x) > 0,
            forall|d: nat| #[trigger]
                divides(d, big_value(x)) && divides(d, big_value(y)) ==> divides(d, big_value(*a))
                    && divides(d, big_value(*b)),
            forall|c: nat| #[trigger]
                divides(c, big_value(*a)) && divides(c, big_value(*b)) ==> divides(
                    c,
                    big_value(x),
                ) && divides(c, big_value(y)),
        decreases big_value(y),
    {
        let r = big_rem(&x, &y);
        proof {
            let xv = big_value(x);
            let yv = big_value(y);
            vstd::arithmetic::div_mod::lemma_mod_bound(xv as int, yv as int);
            assert forall|d: nat| #[trigger]
                divides(d, yv) && divides(d, big_value(r)) implies divides(d, big_value(*a))
                && divides(d, big_value(*b)) by {
                lemma_divides_step(xv, yv, d);
                assert(divides(d, xv));
            }
            assert forall|c: nat| #[trigger]
                divides(c, big_value(*a)) && divides(c, big_value(*b)) implies divides(c, yv)
                && divides(c, big_value(r)) by {
                lemma_divides_remainder(xv, yv, c);
            }
        }
        x = y;
        y = r;
    }
    proof {
        let xv = big_value(x);
        vstd::arithmetic::div_mod::lemma_mod_self_0(xv as int);
        assert(0nat % xv == 0) by {
            vstd::arithmetic::div_mod::lemma_small_mod(0, xv);
        }
        assert(divides(xv, big_value(x)) && divides(xv, big_value(y)));
    }
    x
}

/// A non-negative rational number, held exactly.
#[derive(Debug)]
pub struct Weight {
    num: BigUint,
    den: BigUint,
}

impl Weight {
    /// A weight is a fraction in lowest terms with a positive denominator.
    #[verifier::type_invariant]
    spec fn well_formed(self) -> bool {
        big_value(self.den) > 0 && coprime(big_value(self.num), big_value(self.den))
    }

    /// The number that this weight stands for.
    pub closed spec fn value(&self) -> real {
        if big_value(self.den) == 0 {
            0 as real
        } else {
            ratio(big_value(self.num), big_value(self.den))
        }
    }

    /// No weight is negative.
    pub proof fn lemma_nonneg(self)
        ensures
            self.value() >= 0 as real,
    {
        if big_value(self.den) > 0 {
            lemma_ratio_nonneg(big_value(self.num), big_value(self.den));
        }
    }

    /// Whether this weight is 0.
    pub fn is_zero(&self) -> (r: bool)
        ensures
            r == (self.value() == 0 as real),
    {
        proof {
            use_type_invariant(self);
            lemma_ratio_nonneg(big_value(self.num), big_value(self.den));
        }
        let zero = big_from_u64(0);
        big_eq(&self.num, &zero)
    }

    /// The fraction `num / den` in lowest terms.
    fn reduced(num: BigUint, den: BigUint) -> (r: Weight)
        requires
            big_value(den) > 0,
        ensures
            r.value() == ratio(big_value(num), big_value(den)),
    {
        let g = common_divisor(&num, &den);
        let n = big_div(&num, &g);
        let d = big_div(&den, &g);
        proof {
            let gv = big_value(g);
            lemma_exact_quotient(big_value(num), gv);
            lemma_exact_quotient(big_value(den), gv);
            assert(big_value(d) > 0) by (nonlinear_arith)
                requires
                    big_value(d) * gv == big_value(den),
                    big_value(den) > 0,
            ;
            lemma_ratio_scale(big_value(n), big_value(d), gv);
            lemma_coprime_quotients(big_value(num), big_value(den), gv);
        }
        Weight { num: n, den: d }
    }

    /// The weight 0.
    pub fn zero() -> (r: Weight)
        ensures
            r.value() == 0 as real,
    {
        proof {
            lemma_ratio_whole(0);
            lemma_coprime_with_one(0);
        }
        Weight { num: big_from_u64(0), den: big_from_u64(1) }
    }

    /// The weight 1.
    pub fn one() -> (r: Weight)
        ensures
            r.value() == 1 as real,
    {
        proof {
            lemma_ratio_whole(1);
            lemma_coprime_with_one(1);
        }
        Weight { num: big_from_u64(1), den: big_from_u64(1) }
    }

    /// The whole number `n` as a weight.
    pub fn from_count(n: u64) -> (r: Weight)
        ensures
            r.value() == n as real,
    {
        proof {
            lemma_ratio_whole(n as nat);
            lemma_coprime_with_one(n as nat);
        }
        Weight { num: big_from_u64(n), den: big_from_u64(1) }
    }

    /// The fraction `n / d`, or nothing when `d` is zero.
    pub fn from_ratio(n: u64, d: u64) -> (r: Option<Weight>)
        ensures
            d == 0 <==> r is None,
            r matches Some(w) ==> w.value() == ratio(n as nat, d as nat),
    {
        if d == 0 {
            None
        } else {
            Some(Weight::reduced(big_from_u64(n), big_from_u64(d)))
        }
    }

    /// A copy of this weight.
    pub fn duplicate(&self) -> (r: Weight)
        ensures
            r.value() == self.value(),
    {
        proof {
            use_type_invariant(self);
        }
        Weight { num: self.num.clone(), den: self.den.clone() }
    }

    /// Numerator and denominator of this weight as a fraction in lowest
    /// terms.
    pub fn to_parts(&self) -> (r: (BigUint, BigUint))
        ensures
            big_value(r.1) > 0,
            coprime(big_value(r.0), big_value(r.1)),
            self.value() == ratio(big_value(r.0), big_value(r.1)),
    {
        proof {
            use_type_invariant(self);
        }
        (self.num.clone(), self.den.clone())
    }

    /// The sum of two weights.
    pub fn plus(&self, other: &Weight) -> (r: Weight)
        ensures
            r.value() == self.value() + other.value(),
    {
        proof {
            use_type_invariant(self);
            use_type_invariant(other);
            lemma_ratio_add(
                big_value(self.num),
                big_value(self.den),
                big_value(other.num),
                big_value(other.den),
            );
        }
        let left = big_mul(&self.num, &other.den);
        let right = big_mul(&other.num, &self.den);
        let num = big_add(&left, &right);
        let den = big_mul(&self.den, &other.den);
        Weight::reduced(num, den)
    }

    /// The product of two weights.
    pub fn times(&self, other: &Weight) -> (r: Weight)
        ensures
            r.value() == self.value() * other.value(),
    {
        proof {
            use_type_invariant(self);
            use_type_invariant(other);
            lemma_ratio_mul(
                big_value(self.num),
                big_value(self.den),
                big_value(other.num),
                big_value(other.den),
            );
        }
        let num = big_mul(&self.num, &other.num);
        let den = big_mul(&self.den, &other.den);
        Weight::reduced(num, den)
    }

    /// This weight divided by another one that is not 0.
    pub fn divided_by(&self, other: &Weight) -> (r: Weight)
        requires
            other.value() != 0 as real,
        ensures
            r.value() == self.value() / other.value(),
    {
        proof {
            use_type_invariant(self);
            use_type_invariant(other);
            lemma_ratio_nonneg(big_value(other.num), big_value(other.den));
            lemma_ratio_div(
                big_value(self.num),
                big_value(self.den),
                big_value(other.num),
                big_value(other.den),
            );
        }
        let num = big_mul(&self.num, &other.den);
        let den = big_mul(&self.den, &other.num);
        Weight::reduced(num, den)
    }

    /// Whether this weight is greater than `draw / 2^64`.
    pub fn exceeds(&self, draw: u64) -> (r: bool)
        ensures
            r == (self.value() > ratio(draw as nat, draw_scale())),
    {
        proof {
            use_type_invariant(self);
            lemma_ratio_less(
                draw as nat,
                draw_scale(),
                big_value(self.num),
                big_value(self.den),
            );
        }
        let half = big_from_u64(0x1_0000_0000);
        let scale = big_mul(&half, &half);
        let left = big_mul(&big_from_u64(draw), &self.den);
        let right = big_mul(&self.num, &scale);
        big_lt(&left, &right)
    }
}

impl Clone for Weight {
    fn clone(&self) -> (r: Weight)
        ensures
            r.value() == self.value(),
    {
        self.duplicate()
    }
}

} // verus!
