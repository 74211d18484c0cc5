//! Exact fractions of seconds with 32-bit components.
//!
//! A [`Rational`] is a pair of 32-bit integers with a positive denominator.
//! Arithmetic is carried out exactly in 128 bits, brought to lowest terms,
//! and only then checked against the 32-bit range, so that a product whose
//! raw components are too large still succeeds when its reduced form fits.

use vstd::arithmetic::div_mod::{
    lemma_fundamental_div_mod, lemma_fundamental_div_mod_converse, lemma_mod_multiples_basic,
    lemma_small_mod, lemma_truncate_middle,
};
use vstd::prelude::*;
use vstd::std_specs::cmp::PartialEqSpecImpl;

verus! {

/// Greatest common divisor of two naturals, by Euclid's rule.
pub open spec fn spec_gcd(a: nat, b: nat) -> nat
    decreases b,
{
    if b == 0 {
        a
    } else {
        spec_gcd(b, a % b)
    }
}

/// Magnitude of an integer.
pub open spec fn magnitude(x: int) -> nat {
    if x < 0 {
        (-x) as nat
    } else {
        x as nat
    }
}

/// Whether `x` lies in the signed 32-bit range.
pub open spec fn fits_i32(x: int) -> bool {
    i32::MIN <= x <= i32::MAX
}

/// Numerator of `n / d` in lowest terms.
pub open spec fn reduced_num(n: int, d: int) -> int {
    n / (spec_gcd(magnitude(n), d as nat) as int)
}

/// Denominator of `n / d` in lowest terms.
pub open spec fn reduced_den(n: int, d: int) -> int {
    d / (spec_gcd(magnitude(n), d as nat) as int)
}

/// Whether `n / d`, brought to lowest terms, has both components in the
/// signed 32-bit range.
pub open spec fn representable(n: int, d: int) -> bool {
    fits_i32(reduced_num(n, d)) && fits_i32(reduced_den(n, d))
}

/// The `k`-th power of ten.
pub open spec fn pow10(k: nat) -> nat
    decreases k,
{
    if k == 0 {
        1
    } else {
        10 * pow10((k - 1) as nat)
    }
}

/// The integer nearest to `n / d`; a tie goes to the larger one.
pub open spec fn round_div(n: int, d: int) -> int {
    (2 * n + d) / (2 * d)
}

/// The bound of the 32-bit range on the side of `n`, as a whole number.
pub open spec fn saturated(n: int) -> Rational {
    if n < 0 {
        Rational { num: i32::MIN, den: 1 }
    } else {
        Rational { num: i32::MAX, den: 1 }
    }
}

/// The approximation of `n / d` on the finest decimal grid, from `10^-e`
/// up to whole numbers, on which its nearest point has a 32-bit numerator;
/// beyond all of them, the bound of the range on the side of `n`.
pub open spec fn approximation(n: int, d: int, e: nat) -> Rational
    decreases e,
{
    let m = round_div(n * pow10(e), d);
    if fits_i32(m) {
        Rational::lowest_terms(m, pow10(e) as int)
    } else if e == 0 {
        saturated(n)
    } else {
        approximation(n, d, (e - 1) as nat)
    }
}

/// `n / d` in lowest terms where that is representable, and otherwise its
/// approximation on a decimal grid no finer than `10^-9`.
pub open spec fn exact_or_nearest(n: int, d: int) -> Rational {
    if representable(n, d) {
        Rational::lowest_terms(n, d)
    } else {
        approximation(n, d, 9)
    }
}

/// Powers of ten are positive and grow with the exponent.
pub proof fn lemma_pow10_monotone(a: nat, b: nat)
    requires
        a <= b,
    ensures
        0 < pow10(a) <= pow10(b),
    decreases b,
{
    if a < b {
        lemma_pow10_monotone(a, (b - 1) as nat);
    } else if a > 0 {
        lemma_pow10_monotone((a - 1) as nat, (a - 1) as nat);
    }
}

/// The gcd is positive as soon as one argument is, and divides both.
pub proof fn lemma_gcd_divides(a: nat, b: nat)
    requires
        a > 0 || b > 0,
    ensures
        spec_gcd(a, b) > 0,
        a % spec_gcd(a, b) == 0,
        b % spec_gcd(a, b) == 0,
    decreases b,
{
    if b == 0 {
        lemma_mod_multiples_basic(1, a as int);
        lemma_small_mod(0, a);
    } else {
        let r = a % b;
        lemma_gcd_divides(b, r);
        let g = spec_gcd(b, r) as int;
        let q = (a / b) as int;
        lemma_fundamental_div_mod(a as int, b as int);
        lemma_fundamental_div_mod(b as int, g);
        lemma_fundamental_div_mod(r as int, g);
        let x = (b as int) / g;
        let y = (r as int) / g;
        assert(a as int == (x * q + y) * g) by (nonlinear_arith)
            requires
                a as int == (b as int) * q + (r as int),
                b as int == g * x,
                r as int == g * y,
        ;
        lemma_mod_multiples_basic(x * q + y, g);
    }
}

/// Every common divisor of `a` and `b` divides their gcd.
pub proof fn lemma_gcd_greatest(a: nat, b: nat, d: nat)
    requires
        d > 0,
        a % d == 0,
        b % d == 0,
    ensures
        spec_gcd(a, b) % d == 0,
    decreases b,
{
    if b != 0 {
        let r = a % b;
        let q = (a / b) as int;
        lemma_fundamental_div_mod(a as int, b as int);
        lemma_fundamental_div_mod(a as int, d as int);
        lemma_fundamental_div_mod(b as int, d as int);
        let x = (a as int) / (d as int);
        let y = (b as int) / (d as int);
        assert(r as int == (x - y * q) * (d as int)) by (nonlinear_arith)
            requires
                a as int == (b as int) * q + (r as int),
                a as int == (d as int) * x,
                b as int == (d as int) * y,
        ;
        lemma_mod_multiples_basic(x - y * q, d as int);
        lemma_gcd_greatest(b, r, d);
    }
}

/// Dividing two numbers by their gcd leaves them coprime.
pub proof fn lemma_gcd_quotients_coprime(a: nat, b: nat)
    requires
        b > 0,
    ensures
        spec_gcd(a / spec_gcd(a, b), b / spec_gcd(a, b)) == 1,
{
    lemma_gcd_divides(a, b);
    let g = spec_gcd(a, b);
    let a1 = a / g;
    let b1 = b / g;
    lemma_fundamental_div_mod(a as int, g as int);
    lemma_fundamental_div_mod(b as int, g as int);
    assert(b1 > 0) by (nonlinear_arith)
        requires
            b as int == (g as int) * (b1 as int),
            b > 0,
            g > 0,
    ;
    lemma_gcd_divides(a1, b1);
    let e = spec_gcd(a1, b1);
    lemma_fundamental_div_mod(a1 as int, e as int);
    lemma_fundamental_div_mod(b1 as int, e as int);
    let x = (a1 as int) / (e as int);
    let y = (b1 as int) / (e as int);
    let eg = e * g;
    assert(eg > 0 && a as int == x * (eg as int) && b as int == y * (eg as int)) by (nonlinear_arith)
        requires
            a as int == (g as int) * (a1 as int),
            b as int == (g as int) * (b1 as int),
            a1 as int == (e as int) * x,
            b1 as int == (e as int) * y,
            e > 0,
            g > 0,
            eg == e * g,
    ;
    lemma_mod_multiples_basic(x, eg as int);
    lemma_mod_multiples_basic(y, eg as int);
    lemma_gcd_greatest(a, b, eg);
    if e > 1 {
        assert(g < eg) by (nonlinear_arith)
            requires
                e > 1,
                g > 0,
                eg == e * g,
        ;
        lemma_small_mod(g, eg);
    }
}

/// Computes the greatest common divisor of `a` and `b`.
pub fn gcd(a: u128, b: u128) -> (g: u128)
    ensures
        g == spec_gcd(a as nat, b as nat),
{
    let mut x: u128 = a;
    let mut y: u128 = b;
    while y != 0
        invariant
            spec_gcd(x as nat, y as nat) == spec_gcd(a as nat, b as nat),
        decreases y,
    {
        let t: u128 = x % y;
        x = y;
        y = t;
    }
    x
}

/// The error of an arithmetic operation whose exact result, in lowest terms,
/// has a component outside the signed 32-bit range.
#[derive(Clone, Copy, Debug, PartialEq, Eq, Structural)]
pub struct Overflow;

/// A fraction `num / den` of 32-bit integers.
#[derive(Clone, Copy, Debug)]
pub struct Rational {
    pub num: i32,
    pub den: i32,
}

impl PartialEq for Rational {
    /// Two fractions are equal when they denote the same number.
    fn eq(&self, other: &Self) -> (r: bool) {
        let (l, r) = self.cross(*other);
        l == r
    }
}

impl Eq for Rational {

}

impl PartialEqSpecImpl for Rational {
    open spec fn obeys_eq_spec() -> bool {
        true
    }

    open spec fn eq_spec(&self, other: &Self) -> bool {
        self.same_value(*other)
    }
}

/// How one fraction stands to another on the number line.
#[derive(Clone, Copy, Debug, PartialEq, Eq, Structural)]
pub enum Order {
    Less,
    Equal,
    Greater,
}

impl Rational {
    /// A fraction is well formed when its denominator is positive.
    pub open spec fn wf(self) -> bool {
        self.den > 0
    }

    /// Lowest terms: well formed, and numerator and denominator share no
    /// factor.
    pub open spec fn is_reduced(self) -> bool {
        self.wf() && spec_gcd(magnitude(self.num as int), self.den as nat) == 1
    }

    /// Whether the fraction denotes the number `n / d`.
    pub open spec fn denotes(self, n: int, d: int) -> bool {
        self.num * d == n * self.den
    }

    /// Whether two fractions denote the same number.
    pub open spec fn same_value(self, other: Rational) -> bool {
        self.num * other.den == other.num * self.den
    }

    /// Whether `self` denotes a smaller number than `other`.
    pub open spec fn less_than(self, other: Rational) -> bool {
        self.num * other.den < other.num * self.den
    }

    /// The fraction `n / d` in lowest terms, where it is representable.
    pub open spec fn lowest_terms(n: int, d: int) -> Rational {
        Rational { num: reduced_num(n, d) as i32, den: reduced_den(n, d) as i32 }
    }

    /// Makes the fraction `num / den`, as given.
    pub fn new(num: i32, den: i32) -> (r: Rational)
        requires
            den > 0,
        ensures
            r.num == num,
            r.den == den,
            r.wf(),
    {
        Rational { num, den }
    }

    /// The numerator as stored.
    pub fn numerator(&self) -> (n: i32)
        ensures
            n == self.num,
    {
        self.num
    }

    /// The denominator as stored.
    pub fn denominator(&self) -> (d: i32)
        ensures
            d == self.den,
    {
        self.den
    }

    /// The two cross products by which fractions are compared.
    fn cross(self, other: Rational) -> (p: (i64, i64))
        ensures
            p.0 == self.num * other.den,
            p.1 == other.num * self.den,
    {
        let a: i64 = self.num as i64;
        let b: i64 = self.den as i64;
        let c: i64 = other.num as i64;
        let d: i64 = other.den as i64;
        assert(-0x4000_0000_0000_0000 <= a * d <= 0x4000_0000_0000_0000) by (nonlinear_arith)
            requires
                -0x8000_0000 <= a <= 0x7fff_ffff,
                -0x8000_0000 <= d <= 0x7fff_ffff,
        ;
        assert(-0x4000_0000_0000_0000 <= c * b <= 0x4000_0000_0000_0000) by (nonlinear_arith)
            requires
                -0x8000_0000 <= c <= 0x7fff_ffff,
                -0x8000_0000 <= b <= 0x7fff_ffff,
        ;
        (a * d, c * b)
    }

    /// Brings `n / d` to lowest terms and checks that it fits.
    pub fn from_ratio(n: i128, d: i128) -> (res: Result<Rational, Overflow>)
        requires
            d > 0,
            n > i128::MIN,
        ensures
            res is Ok <==> representable(n as int, d as int),
            res is Ok ==> res->Ok_0 == Rational::lowest_terms(n as int, d as int),
            res is Ok ==> res->Ok_0.is_reduced() && res->Ok_0.denotes(n as int, d as int),
    {
        let neg: bool = n < 0;
        let m: u128 = if neg {
            (-n) as u128
        } else {
            n as u128
        };
        let du: u128 = d as u128;
        let g: u128 = gcd(m, du);
        proof {
            lemma_gcd_divides(m as nat, du as nat);
            lemma_gcd_quotients_coprime(m as nat, du as nat);
            lemma_fundamental_div_mod(m as int, g as int);
            lemma_fundamental_div_mod(du as int, g as int);
            lemma_fundamental_div_mod(n as int, g as int);
            lemma_exact_division_sign(n as int, g as int);
        }
        let m1: u128 = m / g;
        let d1: u128 = du / g;
        assert(m1 == magnitude(reduced_num(n as int, d as int)));
        assert(d1 == reduced_den(n as int, d as int));
        assert(d1 > 0) by (nonlinear_arith)
            requires
                du as int == (g as int) * (d1 as int),
                du > 0,
                g > 0,
        ;
        if d1 > 0x7fff_ffff {
            return Err(Overflow);
        }
        if neg {
            if m1 > 0x8000_0000 {
                return Err(Overflow);
            }
            let num: i32 = (0 - (m1 as i64)) as i32;
            let r = Rational { num, den: d1 as i32 };
            assert(magnitude(num as int) == m1);
            proof {
                lemma_denotes(n as int, d as int, g as int);
            }
            Ok(r)
        } else {
            if m1 > 0x7fff_ffff {
                return Err(Overflow);
            }
            let r = Rational { num: m1 as i32, den: d1 as i32 };
            proof {
                lemma_denotes(n as int, d as int, g as int);
            }
            Ok(r)
        }
    }

    /// Approximates `n / d` on a decimal grid: the finest one, from
    /// billionths up to whole numbers, on which the nearest point has a
    /// 32-bit numerator. A number beyond the range gives the range's bound.
    pub fn approximate(n: i128, d: i128) -> (r: Rational)
        requires
            0 < d <= 0x1_0000_0000_0000_0000,
            -0x8000_0000_0000_0000_0000_0000 <= n <= 0x8000_0000_0000_0000_0000_0000,
        ensures
            r == approximation(n as int, d as int, 9),
            r.wf(),
    {
        let mut e: u32 = 9;
        let mut k: i128 = 1_000_000_000;
        proof {
            reveal_with_fuel(pow10, 10);
        }
        loop
            invariant
                0 < d <= 0x1_0000_0000_0000_0000,
                -0x8000_0000_0000_0000_0000_0000 <= n <= 0x8000_0000_0000_0000_0000_0000,
                e <= 9,
                k == pow10(e as nat),
                0 < k <= 1_000_000_000,
                approximation(n as int, d as int, 9) == approximation(n as int, d as int, e as nat),
            decreases e,
        {
            assert(-0x8000_0000_0000_0000_0000_0000 * 1_000_000_000 <= n * k
                <= 0x8000_0000_0000_0000_0000_0000 * 1_000_000_000) by (nonlinear_arith)
                requires
                    -0x8000_0000_0000_0000_0000_0000 <= n <= 0x8000_0000_0000_0000_0000_0000,
                    0 < k <= 1_000_000_000,
            ;
            let m: i128 = floor_div(2 * (n * k) + d, 2 * d);
            assert(m == round_div(n * pow10(e as nat), d as int)) by (nonlinear_arith)
                requires
                    m == (2 * (n * k) + d) / (2 * d),
                    k == pow10(e as nat),
            {
                assert(2 * (n * k) == 2 * (n * pow10(e as nat)));
            }
            if -0x8000_0000 <= m && m <= 0x7fff_ffff {
                proof {
                    lemma_reduction_shrinks(m as int, k as int);
                }
                match Rational::from_ratio(m, k) {
                    Ok(r) => {
                        return r;
                    },
                    Err(_) => {
                        assert(false);
                        return Rational { num: 0, den: 1 };
                    },
                }
            }
            if e == 0 {
                return if n < 0 {
                    Rational { num: i32::MIN, den: 1 }
                } else {
                    Rational { num: i32::MAX, den: 1 }
                };
            }
            e -= 1;
            k = k / 10;
        }
    }

    /// `n / d` in lowest terms where that fits, and otherwise its
    /// approximation as [`Rational::approximate`] gives it.
    pub fn exact_or_approximate(n: i128, d: i128) -> (r: Rational)
        requires
            0 < d <= 0x1_0000_0000_0000_0000,
            -0x8000_0000_0000_0000_0000_0000 <= n <= 0x8000_0000_0000_0000_0000_0000,
        ensures
            r == exact_or_nearest(n as int, d as int),
            r.wf(),
    {
        match Rational::from_ratio(n, d) {
            Ok(r) => r,
            Err(_) => Rational::approximate(n, d),
        }
    }

    /// The same number in lowest terms.
    pub fn reduce(self) -> (r: Rational)
        requires
            self.wf(),
        ensures
            r == Rational::lowest_terms(self.num as int, self.den as int),
            r.is_reduced(),
            r.same_value(self),
    {
        proof {
            lemma_reduction_shrinks(self.num as int, self.den as int);
        }
        match Rational::from_ratio(self.num as i128, self.den as i128) {
            Ok(r) => r,
            Err(_) => self,
        }
    }

    /// Exact sum, in lowest terms; `Overflow` when that does not fit.
    pub fn add(self, other: Rational) -> (res: Result<Rational, Overflow>)
        requires
            self.wf(),
            other.wf(),
        ensures
            res is Ok <==> representable(
                self.num * other.den + other.num * self.den,
                self.den * other.den,
            ),
            res is Ok ==> res->Ok_0 == Rational::lowest_terms(
                self.num * other.den + other.num * self.den,
                self.den * other.den,
            ),
            res is Ok ==> res->Ok_0.is_reduced(),
    {
        let a: i128 = self.num as i128;
        let b: i128 = self.den as i128;
        let c: i128 = other.num as i128;
        let d: i128 = other.den as i128;
        proof {
            lemma_product_bounds(a as int, d as int);
            lemma_product_bounds(c as int, b as int);
            lemma_product_bounds(b as int, d as int);
            assert(b * d > 0) by (nonlinear_arith)
                requires
                    b > 0,
                    d > 0,
            ;
        }
        Rational::from_ratio(a * d + c * b, b * d)
    }

    /// Exact difference, in lowest terms; `Overflow` when that does not fit.
    pub fn sub(self, other: Rational) -> (res: Result<Rational, Overflow>)
        requires
            self.wf(),
            other.wf(),
        ensures
            res is Ok <==> representable(
                self.num * other.den - other.num * self.den,
                self.den * other.den,
            ),
            res is Ok ==> res->Ok_0 == Rational::lowest_terms(
                self.num * other.den - other.num * self.den,
                self.den * other.den,
            ),
            res is Ok ==> res->Ok_0.is_reduced(),
    {
        let a: i128 = self.num as i128;
        let b: i128 = self.den as i128;
        let c: i128 = other.num as i128;
        let d: i128 = other.den as i128;
        proof {
            lemma_product_bounds(a as int, d as int);
            lemma_product_bounds(c as int, b as int);
            lemma_product_bounds(b as int, d as int);
            assert(b * d > 0) by (nonlinear_arith)
                requires
                    b > 0,
                    d > 0,
            ;
        }
        Rational::from_ratio(a * d - c * b, b * d)
    }

    /// Exact product, in lowest terms; `Overflow` when a component of the
    /// reduced product lies outside the 32-bit range.
    pub fn mul(self, other: Rational) -> (res: Result<Rational, Overflow>)
        requires
            self.wf(),
            other.wf(),
        ensures
            res is Ok <==> representable(self.num * other.num, self.den * other.den),
            res is Ok ==> res->Ok_0 == Rational::lowest_terms(
                self.num * other.num,
                self.den * other.den,
            ),
            res is Ok ==> res->Ok_0.is_reduced() && res->Ok_0.denotes(
                self.num * other.num,
                self.den * other.den,
            ),
    {
        let a: i128 = self.num as i128;
        let b: i128 = self.den as i128;
        let c: i128 = other.num as i128;
        let d: i128 = other.den as i128;
        proof {
            lemma_product_bounds(a as int, c as int);
            lemma_product_bounds(b as int, d as int);
            assert(b * d > 0) by (nonlinear_arith)
                requires
                    b > 0,
                    d > 0,
            ;
        }
        Rational::from_ratio(a * c, b * d)
    }

    /// Exact product with a tick count, in lowest terms; `Overflow` when a
    /// component of the reduced product lies outside the 32-bit range.
    pub fn safe_mul(a: i64, r: Rational) -> (res: Result<Rational, Overflow>)
        requires
            r.wf(),
        ensures
            res is Ok <==> representable(a * r.num, r.den as int),
            res is Ok ==> res->Ok_0 == Rational::lowest_terms(a * r.num, r.den as int),
            res is Ok ==> res->Ok_0.is_reduced() && res->Ok_0.denotes(a * r.num, r.den as int),
    {
        let x: i128 = a as i128;
        let n: i128 = r.num as i128;
        assert(-0x4000_0000_0000_0000_0000_0000 <= x * n <= 0x4000_0000_0000_0000_0000_0000)
            by (nonlinear_arith)
            requires
                -0x8000_0000_0000_0000 <= x <= 0x7fff_ffff_ffff_ffff,
                -0x8000_0000 <= n <= 0x7fff_ffff,
        ;
        Rational::from_ratio(x * n, r.den as i128)
    }

    /// Where `self` stands relative to `other`.
    pub fn compare(self, other: Rational) -> (o: Order)
        requires
            self.wf(),
            other.wf(),
        ensures
            o == Order::Less <==> self.less_than(other),
            o == Order::Equal <==> self.same_value(other),
            o == Order::Greater <==> other.less_than(self),
    {
        let (l, r) = self.cross(other);
        if l < r {
            Order::Less
        } else if l == r {
            Order::Equal
        } else {
            Order::Greater
        }
    }
}

/// Reducing is idempotent: the lowest terms of a well-formed fraction are
/// well formed, share no factor, and are their own lowest terms.
pub proof fn law_reduce_idempotent(r: Rational)
    requires
        r.wf(),
    ensures
        Rational::lowest_terms(r.num as int, r.den as int).is_reduced(),
        Rational::lowest_terms(r.num as int, r.den as int).same_value(r),
        ({
            let once = Rational::lowest_terms(r.num as int, r.den as int);
            Rational::lowest_terms(once.num as int, once.den as int) == once
        }),
{
    let n = r.num as int;
    let d = r.den as int;
    let g = spec_gcd(magnitude(n), d as nat) as int;
    lemma_reduction_shrinks(n, d);
    lemma_gcd_divides(magnitude(n), d as nat);
    lemma_gcd_quotients_coprime(magnitude(n), d as nat);
    lemma_exact_division_sign(n, g);
    lemma_denotes(n, d, g);
    let once = Rational::lowest_terms(n, d);
    assert(once.num == reduced_num(n, d));
    assert(once.den == reduced_den(n, d));
    assert(spec_gcd(magnitude(once.num as int), once.den as nat) == 1);
}

/// Scaling both numbers scales their gcd.
proof fn lemma_gcd_scales(k: nat, a: nat, b: nat)
    requires
        k > 0,
    ensures
        spec_gcd(k * a, k * b) == k * spec_gcd(a, b),
    decreases b,
{
    if b == 0 {
        assert(k * b == 0) by (nonlinear_arith)
            requires
                b == 0,
        ;
    } else {
        lemma_truncate_middle(a as int, k as int, b as int);
        assert(k * b > 0) by (nonlinear_arith)
            requires
                k > 0,
                b > 0,
        ;
        assert((k * a) % (k * b) == k * (a % b));
        lemma_gcd_scales(k, b, a % b);
    }
}

/// A number that divides a product and shares no factor with one of its
/// factors divides the other.
proof fn lemma_coprime_divides(a: nat, b: nat, c: nat)
    requires
        b > 0,
        spec_gcd(a, b) == 1,
        (a * c) % b == 0,
    ensures
        c % b == 0,
{
    if c > 0 {
        lemma_gcd_scales(c, a, b);
        assert(c * a == a * c && c * spec_gcd(a, b) == c) by (nonlinear_arith)
            requires
                spec_gcd(a, b) == 1,
        ;
        lemma_mod_multiples_basic(c as int, b as int);
        assert(c * b == (c as int) * (b as int));
        lemma_gcd_greatest(c * a, c * b, b);
    } else {
        lemma_small_mod(0, b);
    }
}

/// Two naturals that divide each other are equal.
proof fn lemma_mutual_divisors(a: nat, b: nat)
    requires
        a > 0,
        b > 0,
        a % b == 0,
        b % a == 0,
    ensures
        a == b,
{
    if a < b {
        lemma_small_mod(a, b);
    } else if b < a {
        lemma_small_mod(b, a);
    }
}

/// A number has one fraction in lowest terms only: two well-formed
/// fractions denote the same number exactly if their lowest terms are the
/// same, numerator for numerator and denominator for denominator.
pub proof fn law_lowest_terms_are_unique(a: Rational, b: Rational)
    requires
        a.wf(),
        b.wf(),
    ensures
        a.same_value(b) <==> Rational::lowest_terms(a.num as int, a.den as int)
            == Rational::lowest_terms(b.num as int, b.den as int),
{
    let ra = Rational::lowest_terms(a.num as int, a.den as int);
    let rb = Rational::lowest_terms(b.num as int, b.den as int);
    law_reduce_idempotent(a);
    law_reduce_idempotent(b);
    law_same_value_is_equivalence(ra, a, b);
    law_same_value_is_equivalence(rb, b, a);
    law_same_value_is_equivalence(ra, b, rb);
    law_same_value_is_equivalence(a, ra, b);
    if a.same_value(b) {
        assert(ra.same_value(rb));
        let (n1, d1) = (ra.num as int, ra.den as int);
        let (n2, d2) = (rb.num as int, rb.den as int);
        let m1 = magnitude(n1);
        let m2 = magnitude(n2);
        assert((n1 < 0 <==> n2 < 0) && (n1 > 0 <==> n2 > 0)) by (nonlinear_arith)
            requires
                n1 * d2 == n2 * d1,
                d1 > 0,
                d2 > 0,
        ;
        assert(m1 * d2 == m2 * d1) by (nonlinear_arith)
            requires
                n1 * d2 == n2 * d1,
                (m1 == -n1 && m2 == -n2) || (m1 == n1 && m2 == n2),
        ;
        lemma_mod_multiples_basic(m2 as int, d1);
        lemma_mod_multiples_basic(m1 as int, d2);
        assert((m1 * (d2 as nat)) % (d1 as nat) == 0);
        assert((m2 * (d1 as nat)) % (d2 as nat) == 0);
        lemma_coprime_divides(m1, d1 as nat, d2 as nat);
        lemma_coprime_divides(m2, d2 as nat, d1 as nat);
        lemma_mutual_divisors(d1 as nat, d2 as nat);
        assert(n1 == n2) by (nonlinear_arith)
            requires
                n1 * d2 == n2 * d1,
                d1 == d2,
                d1 > 0,
        ;
    }
}

/// Denoting the same number is an equivalence among well-formed
/// fractions: each equals itself, equality can be turned round, and two
/// fractions equal to a third are equal to each other.
pub proof fn law_same_value_is_equivalence(a: Rational, b: Rational, c: Rational)
    requires
        a.wf(),
        b.wf(),
        c.wf(),
    ensures
        a.same_value(a),
        a.same_value(b) ==> b.same_value(a),
        a.same_value(b) && b.same_value(c) ==> a.same_value(c),
{
    if a.same_value(b) && b.same_value(c) {
        let (an, ad) = (a.num as int, a.den as int);
        let (bn, bd) = (b.num as int, b.den as int);
        let (cn, cd) = (c.num as int, c.den as int);
        assert((an * cd - cn * ad) * bd == 0) by (nonlinear_arith)
            requires
                an * bd == bn * ad,
                bn * cd == cn * bd,
        ;
        assert(an * cd - cn * ad == 0) by (nonlinear_arith)
            requires
                (an * cd - cn * ad) * bd == 0,
                bd > 0,
        ;
    }
}

/// Being less is a strict order among well-formed fractions that goes by
/// the number denoted: nothing is less than itself, of two fractions
/// exactly one is less or they are equal, and less than less is less.
pub proof fn law_less_than_is_an_order(a: Rational, b: Rational, c: Rational)
    requires
        a.wf(),
        b.wf(),
        c.wf(),
    ensures
        !a.less_than(a),
        a.less_than(b) || b.less_than(a) || a.same_value(b),
        !(a.less_than(b) && b.less_than(a)),
        !(a.less_than(b) && a.same_value(b)),
        a.less_than(b) && b.less_than(c) ==> a.less_than(c),
{
    if a.less_than(b) && b.less_than(c) {
        let (an, ad) = (a.num as int, a.den as int);
        let (bn, bd) = (b.num as int, b.den as int);
        let (cn, cd) = (c.num as int, c.den as int);
        assert((an * cd - cn * ad) * bd < 0) by (nonlinear_arith)
            requires
                an * bd < bn * ad,
                bn * cd < cn * bd,
                ad > 0,
                bd > 0,
                cd > 0,
        ;
        assert(an * cd - cn * ad < 0) by (nonlinear_arith)
            requires
                (an * cd - cn * ad) * bd < 0,
                bd > 0,
        ;
    }
}

/// Rounding gives the nearest whole number: `n / d` lies no more than a
/// half below it and less than a half above it.
pub proof fn law_round_div_is_nearest(n: int, d: int)
    requires
        d > 0,
    ensures
        2 * round_div(n, d) * d - d <= 2 * n < 2 * round_div(n, d) * d + d,
{
    let m = round_div(n, d);
    lemma_fundamental_div_mod(2 * n + d, 2 * d);
    let r = (2 * n + d) % (2 * d);
    assert(2 * m * d == (2 * d) * m) by (nonlinear_arith);
}

/// A number beyond the upper end of the range is approximated by the
/// largest whole number of the range.
pub proof fn law_beyond_range_saturates(n: int, d: int)
    requires
        d > 0,
        n >= 0x8000_0000 * d,
    ensures
        exact_or_nearest(n, d) == (Rational { num: i32::MAX, den: 1 }),
{
    // no exact form: the numerator in lowest terms is at least 2^31
    assert(n > 0) by (nonlinear_arith)
        requires
            d > 0,
            n >= 0x8000_0000 * d,
    ;
    lemma_gcd_divides(n as nat, d as nat);
    let g = spec_gcd(magnitude(n), d as nat) as int;
    lemma_fundamental_div_mod(n, g);
    lemma_fundamental_div_mod(d, g);
    let x = n / g;
    let y = d / g;
    assert(x >= 0x8000_0000) by (nonlinear_arith)
        requires
            n == g * x,
            d == g * y,
            g > 0,
            d > 0,
            n >= 0x8000_0000 * d,
    ;
    assert(reduced_num(n, d) == x);
    lemma_beyond_every_grid(n, d, 9);
}

/// On no decimal grid does a number of at least 2^31 have a nearest point
/// with a 32-bit numerator.
proof fn lemma_beyond_every_grid(n: int, d: int, e: nat)
    requires
        d > 0,
        n >= 0x8000_0000 * d,
    ensures
        approximation(n, d, e) == (Rational { num: i32::MAX, den: 1 }),
    decreases e,
{
    lemma_pow10_monotone(0, e);
    let k = pow10(e) as int;
    let m = round_div(n * k, d);
    lemma_fundamental_div_mod(2 * (n * k) + d, 2 * d);
    let r = (2 * (n * k) + d) % (2 * d);
    assert(m >= 0x8000_0000) by (nonlinear_arith)
        requires
            2 * (n * k) + d == (2 * d) * m + r,
            0 <= r < 2 * d,
            d > 0,
            k >= 1,
            n >= 0x8000_0000 * d,
    ;
    if e > 0 {
        lemma_beyond_every_grid(n, d, (e - 1) as nat);
    }
}

/// Division that rounds toward negative infinity.
fn floor_div(a: i128, b: i128) -> (q: i128)
    requires
        b > 0,
        a > i128::MIN + b,
    ensures
        q == a / b,
{
    if a >= 0 {
        a / b
    } else {
        let m: u128 = (0 - a) as u128;
        let bu: u128 = b as u128;
        let q: u128 = (m + bu - 1) / bu;
        proof {
            let t = (m + bu - 1) as int % (bu as int);
            lemma_fundamental_div_mod((m + bu - 1) as int, bu as int);
            assert(a as int == (-(q as int)) * (b as int) + (b - 1 - t)) by (nonlinear_arith)
                requires
                    m + bu - 1 == (bu as int) * (q as int) + t,
                    a as int == -(m as int),
                    bu as int == b as int,
            ;
            lemma_fundamental_div_mod_converse(a as int, b as int, -(q as int), b - 1 - t);
        }
        0 - (q as i128)
    }
}

/// Products of 32-bit values stay far inside 128 bits.
proof fn lemma_product_bounds(a: int, b: int)
    requires
        -0x8000_0000 <= a <= 0x7fff_ffff,
        -0x8000_0000 <= b <= 0x7fff_ffff,
    ensures
        -0x4000_0000_0000_0000 <= a * b <= 0x4000_0000_0000_0000,
{
    assert(-0x4000_0000_0000_0000 <= a * b <= 0x4000_0000_0000_0000) by (nonlinear_arith)
        requires
            -0x8000_0000 <= a <= 0x7fff_ffff,
            -0x8000_0000 <= b <= 0x7fff_ffff,
    ;
}

/// Where `g` divides `n`, the quotient has the sign of `n` and the quotient
/// of the magnitudes as its magnitude.
proof fn lemma_exact_division_sign(n: int, g: int)
    requires
        g > 0,
        magnitude(n) as int % g == 0,
    ensures
        n % g == 0,
        magnitude(n / g) == magnitude(n) as int / g,
        n < 0 ==> n / g == -(magnitude(n) as int / g),
        n >= 0 ==> n / g == magnitude(n) as int / g,
{
    let m = magnitude(n) as int;
    lemma_fundamental_div_mod(m, g);
    let k = m / g;
    if n < 0 {
        assert(n == (-k) * g) by (nonlinear_arith)
            requires
                m == g * k,
                n == -m,
        ;
        lemma_mod_multiples_basic(-k, g);
        lemma_fundamental_div_mod(n, g);
        assert(n / g == -k) by (nonlinear_arith)
            requires
                n == g * (n / g),
                n == (-k) * g,
                g > 0,
        ;
        assert(k >= 0) by (nonlinear_arith)
            requires
                m == g * k,
                m >= 0,
                g > 0,
        ;
    }
}

/// The quotients by a common divisor denote the same number.
proof fn lemma_denotes(n: int, d: int, g: int)
    requires
        g > 0,
        n % g == 0,
        d % g == 0,
    ensures
        (n / g) * d == n * (d / g),
{
    lemma_fundamental_div_mod(n, g);
    lemma_fundamental_div_mod(d, g);
    let x = n / g;
    let y = d / g;
    assert(x * d == n * y) by (nonlinear_arith)
        requires
            n == g * x,
            d == g * y,
    ;
}

/// Lowest terms never have larger components than the fraction itself.
pub proof fn lemma_reduction_shrinks(n: int, d: int)
    requires
        d > 0,
    ensures
        magnitude(reduced_num(n, d)) <= magnitude(n),
        n >= 0 ==> reduced_num(n, d) >= 0,
        n <= 0 ==> reduced_num(n, d) <= 0,
        0 < reduced_den(n, d) <= d,
{
    let g = spec_gcd(magnitude(n), d as nat) as int;
    lemma_gcd_divides(magnitude(n), d as nat);
    lemma_exact_division_sign(n, g);
    let m = magnitude(n) as int;
    lemma_fundamental_div_mod(m, g);
    lemma_fundamental_div_mod(d, g);
    let x = m / g;
    let y = d / g;
    assert(0 <= x <= m && 0 < y <= d) by (nonlinear_arith)
        requires
            m == g * x,
            d == g * y,
            g > 0,
            m >= 0,
            d > 0,
    ;
}

} // verus!
