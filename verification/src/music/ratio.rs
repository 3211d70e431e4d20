//! Exact fractions of one cycle, always kept in lowest terms.
use vstd::prelude::*;
use vstd::std_specs::cmp::PartialOrdSpecImpl;
use vstd::std_specs::ops::{AddSpecImpl, MulSpecImpl};
use std::cmp::Ordering;

verus! {

/// Greatest common divisor by Euclid's rule; `gcd(0, 0)` is 0.
pub open spec fn gcd(a: nat, b: nat) -> nat
    decreases b,
{
    if b == 0 {
        a
    } else {
        gcd(b, a % b)
    }
}

/// The divisor that brings a fraction to lowest terms: the gcd, or 1 for `0/0`.
pub open spec fn divisor(a: nat, b: nat) -> nat {
    if gcd(a, b) == 0 { 1 } else { gcd(a, b) }
}

/// `a/b` in lowest terms.
pub open spec fn reduced(a: nat, b: nat) -> Ratio {
    Ratio { num: (a / divisor(a, b)) as u64, den: (b / divisor(a, b)) as u64 }
}

/// Whether `a/b` reduces to a fraction whose terms fit in `u64`.
pub open spec fn reducible(a: nat, b: nat) -> bool {
    b != 0 && a / divisor(a, b) <= u64::MAX && b / divisor(a, b) <= u64::MAX
}

/// An exact fraction of one cycle, always reduced.
#[derive(Clone, Copy, Debug, PartialEq, Eq, Hash, Structural)]
pub struct Ratio {
    pub num: u64,
    pub den: u64,
}

/// The gcd divides both of its arguments.
pub proof fn lemma_gcd_divides(a: nat, b: nat)
    ensures
        gcd(a, b) == 0 <==> (a == 0 && b == 0),
        gcd(a, b) > 0 ==> a % gcd(a, b) == 0 && b % gcd(a, b) == 0,
    decreases b,
{
    if b != 0 {
        lemma_gcd_divides(b, a % b);
        let g = gcd(b, a % b);
        if g > 0 {
            // a = (a / b) * b + a % b, and g divides both b and a % b
            let q = a / b;
            let r = a % b;
            assert(a == q * b + r) by (nonlinear_arith) requires b > 0, q == a / b, r == a % b;
            assert(b == (b / g) * g) by (nonlinear_arith) requires g > 0, b % g == 0;
            assert(r == (r / g) * g) by (nonlinear_arith) requires g > 0, r % g == 0;
            let k = q * (b / g) + r / g;
            assert(a == k * g) by (nonlinear_arith)
                requires a == q * b + r, b == (b / g) * g, r == (r / g) * g, k == q * (b / g) + r / g;
            vstd::arithmetic::div_mod::lemma_mod_multiples_basic(k as int, g as int);
        }
    }
}

/// Scaling both arguments scales their gcd.
pub proof fn lemma_gcd_scale(g: nat, x: nat, y: nat)
    requires
        g > 0,
    ensures
        gcd(g * x, g * y) == g * gcd(x, y),
    decreases y,
{
    if y == 0 {
        assert(g * y == 0) by (nonlinear_arith) requires y == 0;
    } else {
        let q = x / y;
        let r = x % y;
        assert(x == q * y + r && r < y) by (nonlinear_arith) requires y > 0, q == x / y, r == x % y;
        assert(g * x == q * (g * y) + g * r && 0 <= g * r < g * y) by (nonlinear_arith)
            requires x == q * y + r, r < y, g > 0, 0 <= r;
        vstd::arithmetic::div_mod::lemma_fundamental_div_mod_converse((g * x) as int, (g * y) as int, q as int, (g * r) as int);
        assert(g * y > 0) by (nonlinear_arith) requires g > 0, y > 0;
        lemma_gcd_scale(g, y, r);
        assert((g * x) % (g * y) == g * r);
    }
}

/// A reduced fraction is in lowest terms, with a positive denominator, and has the value it
/// was made from: `num/den == a/b`.
pub proof fn lemma_reduced_lowest_terms(a: nat, b: nat)
    requires
        reducible(a, b),
    ensures
        reduced(a, b).den >= 1,
        gcd(reduced(a, b).num as nat, reduced(a, b).den as nat) == 1,
        reduced(a, b).num * b == a * reduced(a, b).den,
{
    lemma_gcd_divides(a, b);
    let g = gcd(a, b);
    assert(g > 0);
    let x = a / g;
    let y = b / g;
    assert(a == g * x && b == g * y) by (nonlinear_arith) requires g > 0, a % g == 0, b % g == 0, x == a / g, y == b / g;
    assert(y >= 1) by (nonlinear_arith) requires b == g * y, b > 0;
    assert(reduced(a, b).num == x && reduced(a, b).den == y);
    lemma_gcd_scale(g, x, y);
    assert(gcd(x, y) == 1) by (nonlinear_arith) requires g * gcd(x, y) == g, g > 0;
    assert(x * b == a * y) by (nonlinear_arith) requires a == g * x, b == g * y;
}

/// Euclid's remainder loop on `u128`, returning 1 when both inputs are zero.
pub fn gcd_u128(a: u128, b: u128) -> (g: u128)
    ensures
        g == divisor(a as nat, b as nat),
{
    let mut x = a;
    let mut y = b;
    while y != 0
        invariant
            gcd(x as nat, y as nat) == gcd(a as nat, b as nat),
        decreases y,
    {
        let r = x % y;
        x = y;
        y = r;
    }
    if x == 0 {
        1
    } else {
        x
    }
}

impl Ratio {
    /// The fraction `0/1`.
    pub fn zero() -> (r: Ratio)
        ensures
            r == (Ratio { num: 0, den: 1 }),
    {
        Ratio { num: 0, den: 1 }
    }

    /// The fraction `1/1`.
    pub fn one() -> (r: Ratio)
        ensures
            r == (Ratio { num: 1, den: 1 }),
    {
        Ratio { num: 1, den: 1 }
    }

    /// The fraction as a pair of integers, for reasoning about its value.
    pub open spec fn value_le(self, other: Ratio) -> bool {
        self.num * other.den <= other.num * self.den
    }

    /// `num/den` in lowest terms. `den` must be nonzero and the reduced terms must fit in
    /// `u64`.
    pub fn reduce(num: u128, den: u128) -> (r: Ratio)
        requires
            reducible(num as nat, den as nat),
        ensures
            r == reduced(num as nat, den as nat),
    {
        let g = gcd_u128(num, den);
        proof {
            lemma_gcd_divides(num as nat, den as nat);
        }
        Ratio { num: (num / g) as u64, den: (den / g) as u64 }
    }

    /// `num/den` in lowest terms; a zero denominator is refused by the contract.
    pub fn new(num: u64, den: u64) -> (r: Ratio)
        requires
            den != 0,
        ensures
            r == reduced(num as nat, den as nat),
    {
        proof {
            lemma_gcd_divides(num as nat, den as nat);
            lemma_div_le(num as nat, divisor(num as nat, den as nat));
            lemma_div_le(den as nat, divisor(num as nat, den as nat));
        }
        Self::reduce(num as u128, den as u128)
    }

    pub fn is_zero(self) -> (r: bool)
        ensures
            r == (self.num == 0),
    {
        self.num == 0
    }

    /// `floor(cycle_ticks * num / den)`, saturating at `u64::MAX`.
    pub fn ticks(self, cycle_ticks: u64) -> (t: u64)
        requires
            self.den != 0,
        ensures
            t == floor_ticks(self, cycle_ticks),
    {
        proof {
            assert(cycle_ticks * self.num <= u64::MAX * u64::MAX) by (nonlinear_arith)
                requires cycle_ticks <= u64::MAX, self.num <= u64::MAX;
        }
        let t = (cycle_ticks as u128) * (self.num as u128) / (self.den as u128);
        if t > u64::MAX as u128 {
            u64::MAX
        } else {
            t as u64
        }
    }

    /// `self * n`, the integer multiply, in lowest terms.
    pub fn mul_int(self, n: u64) -> (r: Ratio)
        requires
            reducible((self.num as nat) * (n as nat), self.den as nat),
        ensures
            r == reduced((self.num as nat) * (n as nat), self.den as nat),
    {
        proof {
            assert(self.num * n <= u64::MAX * u64::MAX) by (nonlinear_arith)
                requires self.num <= u64::MAX, n <= u64::MAX;
        }
        Self::reduce((self.num as u128) * (n as u128), self.den as u128)
    }

    /// Whether `self + rhs` has terms that fit.
    pub open spec fn sum_fits(self, rhs: Ratio) -> bool {
        &&& (self.num as nat) * (rhs.den as nat) + (rhs.num as nat) * (self.den as nat) <= u128::MAX
        &&& reducible(
            (self.num as nat) * (rhs.den as nat) + (rhs.num as nat) * (self.den as nat),
            (self.den as nat) * (rhs.den as nat),
        )
    }

    pub open spec fn sum(self, rhs: Ratio) -> Ratio {
        reduced(
            (self.num as nat) * (rhs.den as nat) + (rhs.num as nat) * (self.den as nat),
            (self.den as nat) * (rhs.den as nat),
        )
    }

    pub open spec fn product_fits(self, rhs: Ratio) -> bool {
        reducible((self.num as nat) * (rhs.num as nat), (self.den as nat) * (rhs.den as nat))
    }

    pub open spec fn product(self, rhs: Ratio) -> Ratio {
        reduced((self.num as nat) * (rhs.num as nat), (self.den as nat) * (rhs.den as nat))
    }

    /// Cross-multiplied comparison: `Less`, `Equal` or `Greater` by value.
    pub open spec fn compare(self, other: Ratio) -> Ordering {
        if self.num * other.den < other.num * self.den {
            Ordering::Less
        } else if self.num * other.den == other.num * self.den {
            Ordering::Equal
        } else {
            Ordering::Greater
        }
    }
}

/// `floor(cycle_ticks * r)`, saturated at `u64::MAX`.
pub open spec fn floor_ticks(r: Ratio, cycle_ticks: u64) -> u64 {
    let t = (cycle_ticks as nat) * (r.num as nat) / (r.den as nat);
    if t > u64::MAX { u64::MAX } else { t as u64 }
}

/// Division by a positive divisor never increases a natural number.
pub proof fn lemma_div_le(a: nat, d: nat)
    requires
        d > 0,
    ensures
        a / d <= a,
{
    vstd::arithmetic::div_mod::lemma_div_is_ordered_by_denominator(a as int, 1, d as int);
}

fn product_u64(a: u64, b: u64) -> (p: u128)
    ensures
        p == a * b,
{
    proof {
        assert(a * b <= u64::MAX * u64::MAX) by (nonlinear_arith)
            requires a <= u64::MAX, b <= u64::MAX;
    }
    (a as u128) * (b as u128)
}

impl std::ops::Add for Ratio {
    type Output = Ratio;

    fn add(self, rhs: Ratio) -> (r: Ratio) {
        let a = product_u64(self.num, rhs.den);
        let b = product_u64(rhs.num, self.den);
        Ratio::reduce(a + b, product_u64(self.den, rhs.den))
    }
}

impl AddSpecImpl for Ratio {
    open spec fn obeys_add_spec() -> bool {
        true
    }

    open spec fn add_req(self, rhs: Ratio) -> bool {
        self.sum_fits(rhs)
    }

    open spec fn add_spec(self, rhs: Ratio) -> Ratio {
        self.sum(rhs)
    }
}

impl std::ops::Mul for Ratio {
    type Output = Ratio;

    fn mul(self, rhs: Ratio) -> (r: Ratio) {
        Ratio::reduce(product_u64(self.num, rhs.num), product_u64(self.den, rhs.den))
    }
}

impl MulSpecImpl for Ratio {
    open spec fn obeys_mul_spec() -> bool {
        true
    }

    open spec fn mul_req(self, rhs: Ratio) -> bool {
        self.product_fits(rhs)
    }

    open spec fn mul_spec(self, rhs: Ratio) -> Ratio {
        self.product(rhs)
    }
}

impl PartialOrd for Ratio {
    fn partial_cmp(&self, other: &Ratio) -> (r: Option<Ordering>) {
        let a = product_u64(self.num, other.den);
        let b = product_u64(other.num, self.den);
        if a < b {
            Some(Ordering::Less)
        } else if a == b {
            Some(Ordering::Equal)
        } else {
            Some(Ordering::Greater)
        }
    }
}

impl PartialOrdSpecImpl for Ratio {
    open spec fn obeys_partial_cmp_spec() -> bool {
        true
    }

    open spec fn partial_cmp_spec(&self, other: &Ratio) -> Option<Ordering> {
        Some(self.compare(*other))
    }
}

} // verus!
