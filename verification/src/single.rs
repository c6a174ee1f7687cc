//! Single-precision numbers held by their bit patterns.
//!
//! A camera crop is stored as four IEEE 754 binary32 fractions. Everything that
//! is decided about one is decided here on the bits, in whole-number arithmetic,
//! so that each comparison, sum and product is exactly the rounded one that the
//! format prescribes.
//!
//! Every finite single is a whole multiple of the smallest positive one, which is
//! two to the minus 149. Values are therefore counted in that unit: one is
//! `pow2(149)` of them.
use vstd::arithmetic::power2::{
    lemma_pow2_adds, lemma_pow2_pos, lemma_pow2_strictly_increases, lemma_pow2_unfold, pow2,
};
use vstd::prelude::*;

verus! {

/// The first whole number whose successor is no single
pub const SIGNIFICAND_END: u64 = 0x100_0000;

/// A single-precision number, given by its bits
#[derive(Clone, Copy, Debug)]
pub struct Single {
    pub bits: u32,
}

/// Numbers are equal by value: the two zeros are the same and a NaN equals nothing
impl PartialEq for Single {
    fn eq(&self, other: &Single) -> (equal: bool) {
        let nan = (self.bits / 0x80_0000) % 256 == 255 && self.bits % 0x80_0000 != 0;
        !nan && (self.bits == other.bits || (self.bits % 0x8000_0000 == 0 && other.bits
            % 0x8000_0000 == 0))
    }
}

impl vstd::std_specs::cmp::PartialEqSpecImpl for Single {
    open spec fn obeys_eq_spec() -> bool {
        true
    }

    open spec fn eq_spec(&self, other: &Single) -> bool {
        self.equals(*other)
    }
}

impl Single {
    /// The sign bit
    pub open spec fn negative(self) -> bool {
        self.bits >= 0x8000_0000
    }

    /// The eight exponent bits
    pub open spec fn exponent(self) -> nat {
        ((self.bits / 0x80_0000) % 256) as nat
    }

    /// The twenty-three fraction bits
    pub open spec fn fraction(self) -> nat {
        (self.bits % 0x80_0000) as nat
    }

    /// Neither an infinity nor a NaN
    pub open spec fn finite(self) -> bool {
        self.exponent() != 255
    }

    /// The fraction with the leading bit that normal numbers leave unwritten
    pub open spec fn significand(self) -> nat {
        if self.exponent() == 0 {
            self.fraction()
        } else {
            0x80_0000 + self.fraction()
        }
    }

    /// How often the significand is doubled
    pub open spec fn doublings(self) -> nat {
        if self.exponent() == 0 {
            0
        } else {
            (self.exponent() - 1) as nat
        }
    }

    /// The distance from zero of a finite single, in units
    pub open spec fn magnitude(self) -> nat {
        self.significand() * pow2(self.doublings())
    }

    /// The value of a finite single, in units
    pub open spec fn value(self) -> int {
        if self.negative() {
            -(self.magnitude() as int)
        } else {
            self.magnitude() as int
        }
    }

    /// Equality of numbers: the two zeros are the same and a NaN equals nothing
    pub open spec fn equals(self, other: Single) -> bool {
        &&& self.exponent() == 255 ==> self.fraction() == 0
        &&& self.bits == other.bits || (self.bits % 0x8000_0000 == 0 && other.bits % 0x8000_0000
            == 0)
    }

    /// Positive or negative zero
    pub open spec fn zero(self) -> bool {
        self.finite() && self.value() == 0
    }
}

/// The quotient of two whole numbers, rounded to the nearest whole number, with a
/// quotient halfway between two of them going to the even one
pub open spec fn round_half_even(n: nat, d: nat) -> nat {
    let below = n / d;
    let rest = n % d;
    if 2 * rest < d || (2 * rest == d && below % 2 == 0) {
        below
    } else {
        below + 1
    }
}

/// How far apart the singles lie around `n` units
pub open spec fn step(n: nat) -> nat
    decreases n,
{
    if n < SIGNIFICAND_END {
        1
    } else {
        2 * step(n / 2)
    }
}

/// The single closest to `n` units, in units, with ties going to the one whose
/// significand is even. This is what a sum or product that comes to `n` exactly
/// is rounded to.
pub open spec fn nearest(n: nat) -> nat {
    round_half_even(n, step(n)) * step(n)
}

/// A finite value in units rounded to a whole number, halves going up
pub open spec fn whole(units: nat) -> nat {
    (units + pow2(148)) / pow2(149)
}

/// What `length` times a fraction of `magnitude` units rounds to: the length is
/// first made a single itself, the product is rounded to a single, and that is
/// rounded to a whole number
pub open spec fn portion_of(magnitude: nat, length: nat) -> nat {
    whole(nearest(nearest(length) * magnitude))
}

proof fn lemma_step_pos(n: nat)
    ensures
        step(n) >= 1,
    decreases n,
{
    if n >= SIGNIFICAND_END {
        lemma_step_pos(n / 2);
    }
}

/// Away from the smallest numbers, a step is at most a 2^23rd of the number
proof fn lemma_step_is_small(n: nat)
    requires
        n >= SIGNIFICAND_END,
    ensures
        step(n) * 0x80_0000 <= n,
    decreases n,
{
    if n / 2 >= SIGNIFICAND_END {
        lemma_step_is_small(n / 2);
    } else {
        assert(step(n / 2) == 1);
    }
}

proof fn lemma_step_doubles(n: nat)
    requires
        2 * n >= SIGNIFICAND_END,
    ensures
        step(2 * n) == 2 * step(n),
{
    assert((2 * n) / 2 == n);
}

/// The rounded quotient is off by at most half
proof fn lemma_round_half_even_error(n: nat, d: nat)
    requires
        d >= 1,
    ensures
        -(d as int) <= 2 * (round_half_even(n, d) * d - n) <= d,
{
    let q = n / d;
    let r = n % d;
    assert(n == q * d + r && r < d) by (nonlinear_arith)
        requires
            d >= 1,
            q == n / d,
            r == n % d,
    ;
    assert((q + 1) * d == q * d + d) by (nonlinear_arith);
}

proof fn lemma_round_half_even_doubles(n: nat, d: nat)
    requires
        d >= 1,
    ensures
        round_half_even(2 * n, 2 * d) == round_half_even(n, d),
{
    let q = n / d;
    let r = n % d;
    assert(n == q * d + r && r < d) by (nonlinear_arith)
        requires
            d >= 1,
            q == n / d,
            r == n % d,
    ;
    assert(2 * n == q * (2 * d) + 2 * r) by (nonlinear_arith)
        requires
            n == q * d + r,
    ;
    vstd::arithmetic::div_mod::lemma_fundamental_div_mod_converse(
        2 * n as int,
        2 * d as int,
        q as int,
        2 * r as int,
    );
}

/// Whole numbers that fit a significand are singles themselves
pub proof fn lemma_nearest_exact(n: nat)
    requires
        n < SIGNIFICAND_END,
    ensures
        nearest(n) == n,
{
    assert(step(n) == 1);
    assert(n / 1 == n && n % 1 == 0);
    assert(round_half_even(n, 1) == n);
    assert(n * 1 == n);
}

/// Rounding commutes with doubling
proof fn lemma_nearest_doubles(n: nat)
    ensures
        nearest(2 * n) == 2 * nearest(n),
{
    lemma_step_pos(n);
    if 2 * n < SIGNIFICAND_END {
        lemma_nearest_exact(n);
        lemma_nearest_exact(2 * n);
    } else {
        lemma_step_doubles(n);
        lemma_round_half_even_doubles(n, step(n));
        let r = round_half_even(n, step(n));
        assert(r * (2 * step(n)) == 2 * (r * step(n))) by (nonlinear_arith);
    }
}

/// Rounding commutes with any number of doublings
proof fn lemma_nearest_scales(n: nat, k: nat)
    ensures
        nearest(n * pow2(k)) == nearest(n) * pow2(k),
    decreases k,
{
    if k == 0 {
        vstd::arithmetic::power2::lemma2_to64();
    } else {
        let j = (k - 1) as nat;
        lemma_nearest_scales(n, j);
        lemma_pow2_unfold(k);
        assert(n * (2 * pow2(j)) == 2 * (n * pow2(j))) by (nonlinear_arith);
        assert(nearest(n) * (2 * pow2(j)) == 2 * (nearest(n) * pow2(j))) by (nonlinear_arith);
        lemma_nearest_doubles(n * pow2(j));
    }
}

/// Rounding changes a number by at most a 2^24th of it
pub proof fn lemma_nearest_error(n: nat)
    ensures
        -(n as int) <= (nearest(n) - n) * 0x100_0000 <= n,
{
    if n < SIGNIFICAND_END {
        lemma_nearest_exact(n);
    } else {
        lemma_step_pos(n);
        lemma_step_is_small(n);
        lemma_round_half_even_error(n, step(n));
    }
}

/// Two to the given power
fn two_to(k: u32) -> (power: u128)
    requires
        k < 128,
    ensures
        power == pow2(k as nat),
{
    let mut power: u128 = 1;
    let mut i: u32 = 0;
    proof {
        vstd::arithmetic::power2::lemma2_to64();
    }
    while i < k
        invariant
            i <= k < 128,
            power == pow2(i as nat),
        decreases k - i,
    {
        proof {
            lemma_pow2_unfold((i + 1) as nat);
            lemma_pow2_below_128(i as nat);
        }
        power = power * 2;
        i = i + 1;
    }
    power
}

proof fn lemma_pow2_below_128(k: nat)
    requires
        k < 127,
    ensures
        2 * pow2(k) <= u128::MAX,
{
    vstd::arithmetic::power2::lemma2_to64();
    vstd::arithmetic::power2::lemma2_to64_rest();
    lemma_pow2_adds(63, 64);
    assert(pow2(127) == 0x8000_0000_0000_0000 * 0x1_0000_0000_0000_0000);
    if k + 1 < 127 {
        lemma_pow2_strictly_increases(k + 1, 127);
    }
    lemma_pow2_unfold(k + 1);
}

/// The single closest to a whole number
fn round_to_single(n: u64) -> (rounded: u64)
    requires
        n < 0x4000_0000_0000_0000,
    ensures
        rounded == nearest(n as nat),
{
    let mut m: u64 = n;
    let mut s: u64 = 1;
    while m >= SIGNIFICAND_END
        invariant
            n < 0x4000_0000_0000_0000,
            s >= 1,
            s * m <= n,
            s < 0x4000_0000_0000_0000,
            s * step(m as nat) == step(n as nat),
        decreases m,
    {
        proof {
            let half = m / 2;
            assert((s * 2) * half <= s * m) by (nonlinear_arith)
                requires
                    half == m / 2,
            ;
            assert(s * 2 <= s * m) by (nonlinear_arith)
                requires
                    m >= 2,
            ;
            assert((s * 2) * step(half as nat) == s * (2 * step(half as nat)))
                by (nonlinear_arith);
        }
        m = m / 2;
        s = s * 2;
    }
    proof {
        assert(s * step(m as nat) == s) by (nonlinear_arith)
            requires
                step(m as nat) == 1,
        ;
        lemma_nearest_error(n as nat);
    }
    let below: u64 = n / s;
    let rest: u64 = n % s;
    proof {
        assert(below * s + rest == n && rest < s) by (nonlinear_arith)
            requires
                s >= 1,
                below == n / s,
                rest == n % s,
        ;
        assert((below + 1) * s == below * s + s) by (nonlinear_arith);
        lemma_round_half_even_error(n as nat, s as nat);
    }
    if 2 * rest < s || (2 * rest == s && below % 2 == 0) {
        below * s
    } else {
        (below + 1) * s
    }
}

/// A whole number of units that some single stands for
pub open spec fn representable(x: nat) -> bool {
    exists|m: nat, k: nat| m <= SIGNIFICAND_END && x == #[trigger] (m * pow2(k))
}

/// A step is a power of two, and the number it belongs to is that power times a
/// significand
proof fn lemma_step_shape(n: nat) -> (k: nat)
    ensures
        step(n) == pow2(k),
        n < SIGNIFICAND_END * pow2(k),
        k > 0 ==> 0x80_0000 * pow2(k) <= n,
    decreases n,
{
    if n < SIGNIFICAND_END {
        vstd::arithmetic::power2::lemma2_to64();
        0
    } else {
        let j = lemma_step_shape(n / 2);
        lemma_pow2_unfold(j + 1);
        if j == 0 {
            vstd::arithmetic::power2::lemma2_to64();
        }
        j + 1
    }
}

/// The step between two consecutive powers of two
pub proof fn lemma_step_between(n: nat, k: nat)
    requires
        0x80_0000 * pow2(k) <= n < SIGNIFICAND_END * pow2(k),
    ensures
        step(n) == pow2(k),
    decreases k,
{
    if k == 0 {
        vstd::arithmetic::power2::lemma2_to64();
    } else {
        lemma_pow2_unfold(k);
        lemma_pow2_pos((k - 1) as nat);
        lemma_step_between(n / 2, (k - 1) as nat);
    }
}

/// Among the multiples of `d`, the rounded quotient gives one closest to `n`
proof fn lemma_round_half_even_closest(n: nat, d: nat, m: nat)
    requires
        d >= 1,
    ensures
        vstd::math::abs(round_half_even(n, d) * d - n) <= vstd::math::abs(m * d - n),
{
    let q = n / d;
    let r = n % d;
    assert(n == q * d + r && r < d) by (nonlinear_arith)
        requires
            d >= 1,
            q == n / d,
            r == n % d,
    ;
    assert((q + 1) * d == q * d + d) by (nonlinear_arith);
    if m <= q {
        assert(m * d <= q * d) by (nonlinear_arith)
            requires
                m <= q,
        ;
    } else {
        assert((q + 1) * d <= m * d) by (nonlinear_arith)
            requires
                m >= q + 1,
        ;
    }
}

/// No single is closer to `n` than the one it is rounded to
pub proof fn lemma_nearest_is_closest(n: nat, x: nat)
    requires
        representable(x),
    ensures
        vstd::math::abs(nearest(n) - n) <= vstd::math::abs(x - n),
{
    let (m, j) = choose|m: nat, j: nat| m <= SIGNIFICAND_END && x == #[trigger] (m * pow2(j));
    let k = lemma_step_shape(n);
    lemma_pow2_pos(k);
    if j >= k {
        lemma_pow2_adds((j - k) as nat, k);
        assert(m * (pow2((j - k) as nat) * pow2(k)) == (m * pow2((j - k) as nat)) * pow2(k))
            by (nonlinear_arith);
        lemma_round_half_even_closest(n, pow2(k), m * pow2((j - k) as nat));
    } else {
        lemma_pow2_adds((k - 1 - j) as nat, j);
        lemma_pow2_pos((k - 1 - j) as nat);
        lemma_pow2_unfold(k);
        assert(pow2(j) <= pow2((k - 1) as nat)) by (nonlinear_arith)
            requires
                pow2((k - 1) as nat) == pow2((k - 1 - j) as nat) * pow2(j),
                pow2((k - 1 - j) as nat) >= 1,
        ;
        assert(m * pow2(j) <= 0x100_0000 * pow2((k - 1) as nat)) by (nonlinear_arith)
            requires
                m <= 0x100_0000,
                pow2(j) <= pow2((k - 1) as nat),
        ;
        lemma_round_half_even_closest(n, pow2(k), 0x80_0000);
    }
}

/// What a number is rounded to is a single
pub proof fn lemma_nearest_is_representable(n: nat)
    ensures
        representable(nearest(n)),
{
    let k = lemma_step_shape(n);
    lemma_pow2_pos(k);
    let m = round_half_even(n, pow2(k));
    let q = n / pow2(k);
    assert(q < 0x100_0000) by (nonlinear_arith)
        requires
            n < 0x100_0000 * pow2(k),
            q == n / pow2(k),
            pow2(k) >= 1,
    ;
    assert(m <= SIGNIFICAND_END && nearest(n) == m * pow2(k));
}

/// A larger number never rounds to a smaller single
pub proof fn lemma_nearest_is_monotone(a: nat, b: nat)
    requires
        a <= b,
    ensures
        nearest(a) <= nearest(b),
{
    lemma_nearest_is_representable(a);
    lemma_nearest_is_representable(b);
    lemma_nearest_is_closest(a, nearest(b));
    lemma_nearest_is_closest(b, nearest(a));
}

impl Single {
    pub proof fn lemma_parts_bounded(self)
        ensures
            self.significand() < SIGNIFICAND_END,
            self.fraction() < 0x80_0000,
            self.exponent() < 256,
            self.exponent() > 0 ==> self.significand() >= 0x80_0000,
    {
    }

    /// Every finite single is a single, so it rounds to itself
    pub proof fn lemma_magnitude_is_representable(self)
        ensures
            representable(self.magnitude()),
            nearest(self.magnitude()) == self.magnitude(),
    {
        self.lemma_parts_bounded();
        assert(representable(self.significand() * pow2(self.doublings())));
        lemma_nearest_is_closest(self.magnitude(), self.magnitude());
    }

    /// Among singles without a sign, the order of the bits is the order of the values
    pub proof fn lemma_bits_order(self, other: Single)
        requires
            !other.negative(),
            self.bits < other.bits,
        ensures
            self.magnitude() < other.magnitude(),
    {
        let (a, b) = (self, other);
        a.lemma_parts_bounded();
        b.lemma_parts_bounded();
        lemma_pow2_pos(a.doublings());
        lemma_pow2_pos(b.doublings());
        assert(a.exponent() == a.bits / 0x80_0000);
        assert(b.exponent() == b.bits / 0x80_0000);
        if a.exponent() == b.exponent() {
            assert(a.magnitude() < b.magnitude()) by (nonlinear_arith)
                requires
                    a.significand() < b.significand(),
                    a.doublings() == b.doublings(),
                    pow2(b.doublings()) >= 1,
                    a.magnitude() == a.significand() * pow2(a.doublings()),
                    b.magnitude() == b.significand() * pow2(b.doublings()),
            ;
        } else {
            let e = b.doublings();
            assert(0x80_0000 * pow2(e) <= b.magnitude()) by (nonlinear_arith)
                requires
                    b.significand() >= 0x80_0000,
                    e == b.doublings(),
                    b.magnitude() == b.significand() * pow2(b.doublings()),
            ;
            if a.exponent() == 0 {
                vstd::arithmetic::power2::lemma2_to64();
                assert(a.magnitude() == a.significand());
            } else {
                let d = a.doublings();
                assert(a.magnitude() < 0x100_0000 * pow2(d)) by (nonlinear_arith)
                    requires
                        a.significand() < 0x100_0000,
                        d == a.doublings(),
                        pow2(d) >= 1,
                        a.magnitude() == a.significand() * pow2(a.doublings()),
                ;
                lemma_pow2_unfold(d + 1);
                if d + 1 < e {
                    lemma_pow2_strictly_increases(d + 1, e);
                }
            }
        }
    }

    /// Whether this is a number from zero to `limit`
    pub fn within(self, limit: Single) -> (inside: bool)
        requires
            limit.finite(),
            !limit.negative(),
        ensures
            inside == (self.finite() && 0 <= self.value() <= limit.value()),
    {
        proof {
            self.lemma_parts_bounded();
            lemma_pow2_pos(self.doublings());
            if self.negative() {
                if self.bits == 0x8000_0000 {
                    assert(self.significand() == 0);
                    assert(self.magnitude() == 0) by (nonlinear_arith)
                        requires
                            self.significand() == 0,
                            self.magnitude() == self.significand() * pow2(self.doublings()),
                    ;
                } else {
                    assert(self.significand() > 0);
                    assert(self.magnitude() > 0) by (nonlinear_arith)
                        requires
                            self.significand() > 0,
                            pow2(self.doublings()) >= 1,
                            self.magnitude() == self.significand() * pow2(self.doublings()),
                    ;
                }
            } else if self.bits < limit.bits {
                self.lemma_bits_order(limit);
            } else if self.bits > limit.bits {
                limit.lemma_bits_order(self);
            }
        }
        self.bits <= limit.bits || self.bits == 0x8000_0000
    }

    /// Whether this is zero of either sign
    pub fn is_zero(self) -> (zero: bool)
        ensures
            zero == self.zero(),
    {
        let nothing = Single { bits: 0 };
        assert(nothing.magnitude() == 0) by (nonlinear_arith)
            requires
                nothing.magnitude() == nothing.significand() * pow2(nothing.doublings()),
                nothing.significand() == 0,
        ;
        self.within(nothing)
    }

    /// The significand and how often it is doubled
    fn parts(self) -> (parts: (u64, u32))
        ensures
            parts.0 == self.significand(),
            parts.1 == self.doublings(),
    {
        let exponent: u32 = (self.bits / 0x80_0000) % 256;
        let fraction: u32 = self.bits % 0x80_0000;
        if exponent == 0 {
            (fraction as u64, 0)
        } else {
            (0x80_0000 + fraction as u64, exponent - 1)
        }
    }

    /// Whether the sum of two numbers, rounded to a single, is more than `limit`
    ///
    /// The two are not negative and all three are below one. The limit has an even
    /// significand, so a sum exactly halfway to the next single is rounded down to it.
    pub fn sum_exceeds(self, other: Single, limit: Single) -> (more: bool)
        requires
            !self.negative() || self.zero(),
            !other.negative() || other.zero(),
            !limit.negative(),
            self.doublings() <= 125,
            other.doublings() <= 125,
            0 < limit.doublings() <= 125,
            limit.significand() % 2 == 0,
        ensures
            more == (nearest(self.magnitude() + other.magnitude()) > limit.magnitude()),
    {
        let (am, ad) = self.parts();
        let (bm, bd) = other.parts();
        let (lm, ld) = limit.parts();
        proof {
            self.lemma_parts_bounded();
            other.lemma_parts_bounded();
            limit.lemma_parts_bounded();
            lemma_exceeds(self.magnitude() + other.magnitude(), limit);
            assert((2 * lm + 1) * pow2(ld as nat) == 2 * (lm * pow2(ld as nat)) + pow2(ld as nat))
                by (nonlinear_arith);
        }
        let (ah, al) = split(am, ad);
        let (bh, bl) = split(bm, bd);
        let (lh, ll) = split(2 * lm + 1, ld);
        let low: u128 = 2 * (al + bl);
        let high: u128 = 2 * (ah + bh) + low / LIMB;
        let rest: u128 = low % LIMB;
        high > lh || (high == lh && rest > ll)
    }

    /// The pixels that this fraction takes off a `length` of them
    pub fn portion(self, length: u32) -> (pixels: u32)
        requires
            self.finite(),
            self.value() >= 0,
            16 * self.magnitude() <= 15 * pow2(149),
        ensures
            pixels == portion_of(self.magnitude(), length as nat),
    {
        let (m, d) = self.parts();
        proof {
            self.lemma_parts_bounded();
            lemma_below_one(self);
            lemma_nearest_error(length as nat);
        }
        let whole_length: u64 = round_to_single(length as u64);
        assert(whole_length * m <= 0x1_0000_0100 * 0x100_0000) by (nonlinear_arith)
            requires
                whole_length <= 0x1_0000_0100,
                m < 0x100_0000,
        ;
        let product: u64 = whole_length * m;
        let rounded: u64 = round_to_single(product);
        let k: u32 = 149 - d;
        proof {
            lemma_nearest_error(product as nat);
            lemma_portion_by_parts(self, length as nat, rounded as nat);
            lemma_portion_fits(self.magnitude(), length);
            vstd::arithmetic::power2::lemma2_to64();
            vstd::arithmetic::power2::lemma2_to64_rest();
        }
        if k >= 59 {
            proof {
                let half = pow2((k - 1) as nat);
                lemma_pow2_unfold(k as nat);
                if k > 59 {
                    lemma_pow2_strictly_increases(58, (k - 1) as nat);
                }
                assert((rounded + half) / (2 * half as int) == 0) by (nonlinear_arith)
                    requires
                        0 <= rounded < half,
                ;
            }
            0
        } else {
            let half: u128 = two_to(k - 1);
            let full: u128 = two_to(k);
            proof {
                lemma_pow2_unfold(k as nat);
                lemma_pow2_pos(k as nat);
                if k < 64 {
                    lemma_pow2_strictly_increases(k as nat, 64);
                }
            }
            ((rounded as u128 + half) / full) as u32
        }
    }
}

/// Two to the hundredth, the base in which long sums are kept
const LIMB: u128 = 0x10_0000_0000_0000_0000_0000_0000;

proof fn lemma_limb()
    ensures
        pow2(100) == LIMB,
        forall|k: nat| k < 100 ==> #[trigger] pow2(k) < LIMB,
{
    vstd::arithmetic::power2::lemma2_to64();
    vstd::arithmetic::power2::lemma2_to64_rest();
    lemma_pow2_adds(50, 50);
    assert(pow2(100) == LIMB);
    assert forall|k: nat| k < 100 implies #[trigger] pow2(k) < LIMB by {
        lemma_pow2_strictly_increases(k, 100);
    }
}

/// A significand doubled `d` times, as a high and a low part
fn split(m: u64, d: u32) -> (parts: (u128, u128))
    requires
        m < 0x200_0000,
        d <= 125,
    ensures
        parts.0 * LIMB + parts.1 == m * pow2(d as nat),
        parts.0 < 0x200_0000 * 0x200_0000,
        parts.1 < LIMB,
{
    proof {
        lemma_limb();
        vstd::arithmetic::power2::lemma2_to64();
    }
    if d >= 100 {
        let power: u128 = two_to(d - 100);
        proof {
            lemma_pow2_adds((d - 100) as nat, 100);
            if d < 125 {
                lemma_pow2_strictly_increases((d - 100) as nat, 25);
            }
            assert(m * power < 0x200_0000 * 0x200_0000) by (nonlinear_arith)
                requires
                    m < 0x200_0000,
                    0 < power <= 0x200_0000,
            ;
            assert(m * (power * LIMB) == (m * power) * LIMB) by (nonlinear_arith);
        }
        (m as u128 * power, 0)
    } else {
        let power: u128 = two_to(d);
        assert(m * power < 0x200_0000 * LIMB) by (nonlinear_arith)
            requires
                m < 0x200_0000,
                0 <= power < LIMB,
        ;
        let all: u128 = m as u128 * power;
        (all / LIMB, all % LIMB)
    }
}

/// A sum is rounded past a limit with an even significand exactly where it lies
/// more than half a step beyond it
proof fn lemma_exceeds(sum: nat, limit: Single)
    requires
        limit.doublings() > 0,
        limit.significand() % 2 == 0,
    ensures
        (nearest(sum) > limit.magnitude()) == (2 * sum > 2 * limit.magnitude() + pow2(
            limit.doublings(),
        )),
{
    let at = limit.magnitude();
    let m = limit.significand();
    let d = limit.doublings();
    let gap = pow2(d);
    limit.lemma_parts_bounded();
    lemma_pow2_pos(d);
    limit.lemma_magnitude_is_representable();
    assert((m + 1) * gap == at + gap) by (nonlinear_arith)
        requires
            at == m * gap,
    ;
    assert(representable((m + 1) * gap));
    if sum <= at {
        lemma_nearest_is_monotone(sum, at);
    } else if sum >= at + gap {
        lemma_nearest_is_monotone(at + gap, sum);
        lemma_nearest_is_closest(at + gap, at + gap);
    } else {
        assert(0x80_0000 * gap <= m * gap && (m + 1) * gap <= 0x100_0000 * gap)
            by (nonlinear_arith)
            requires
                0x80_0000 <= m < 0x100_0000,
                gap >= 1,
        ;
        lemma_step_between(sum, d);
        vstd::arithmetic::div_mod::lemma_fundamental_div_mod_converse(
            sum as int,
            gap as int,
            m as int,
            sum - at,
        );
    }
}

/// A number of at most fifteen sixteenths is doubled at most 125 times
pub proof fn lemma_below_one(x: Single)
    requires
        16 * x.magnitude() <= 15 * pow2(149),
    ensures
        x.doublings() <= 125,
{
    x.lemma_parts_bounded();
    if x.doublings() > 125 {
        let d = x.doublings();
        if d > 126 {
            lemma_pow2_strictly_increases(126, d);
        }
        lemma_pow2_adds(23, 126);
        vstd::arithmetic::power2::lemma2_to64();
        assert(0x80_0000 * pow2(126) <= x.magnitude()) by (nonlinear_arith)
            requires
                x.magnitude() == x.significand() * pow2(x.doublings()),
                x.significand() >= 0x80_0000,
                pow2(x.doublings()) >= pow2(126),
        ;
        lemma_pow2_pos(149);
    }
}

/// The doublings of a fraction can be left until after its product is rounded
pub proof fn lemma_portion_by_parts(x: Single, length: nat, rounded: nat)
    requires
        x.doublings() <= 125,
        rounded == nearest(nearest(length) * x.significand()),
    ensures
        portion_of(x.magnitude(), length) == (rounded + pow2((148 - x.doublings()) as nat)) / pow2(
            (149 - x.doublings()) as nat,
        ),
{
    let d = x.doublings();
    let m = x.significand();
    let n = nearest(length);
    let k = (149 - d) as nat;
    lemma_nearest_scales(n * m, d);
    assert(n * (m * pow2(d)) == (n * m) * pow2(d)) by (nonlinear_arith);
    lemma_pow2_adds(d, k);
    lemma_pow2_adds(d, (k - 1) as nat);
    lemma_pow2_pos(d);
    lemma_pow2_pos(k);
    let half = pow2((k - 1) as nat);
    assert(rounded * pow2(d) + pow2(d) * half == pow2(d) * (rounded + half)) by (nonlinear_arith);
    vstd::arithmetic::div_mod::lemma_div_multiples_vanish_quotient(
        pow2(d) as int,
        (rounded + half) as int,
        pow2(k) as int,
    );
}

/// A fraction below one takes fewer pixels than a length can have
proof fn lemma_portion_fits(magnitude: nat, length: u32)
    requires
        16 * magnitude <= 15 * pow2(149),
    ensures
        portion_of(magnitude, length as nat) <= u32::MAX,
{
    let one = pow2(149);
    let n = nearest(length as nat);
    let exact = n * magnitude;
    lemma_nearest_error(length as nat);
    lemma_nearest_error(exact);
    lemma_pow2_pos(149);
    lemma_pow2_unfold(149);
    assert(16 * exact <= 15 * 0x1_0000_0100 * one) by (nonlinear_arith)
        requires
            exact == n * magnitude,
            n <= 0x1_0000_0100,
            16 * magnitude <= 15 * one,
    ;
    let total = nearest(exact) + pow2(148);
    let rounded = nearest(exact);
    assert(total < 0x1_0000_0000 * one) by (nonlinear_arith)
        requires
            total == rounded + pow2(148),
            one == 2 * pow2(148),
            (rounded - exact) * 0x100_0000 <= exact,
            16 * exact <= 15 * 0x1_0000_0100 * one,
            one >= 1,
    ;
    assert(total / one < 0x1_0000_0000) by (nonlinear_arith)
        requires
            total < 0x1_0000_0000 * one,
            one >= 1,
    ;
}

/// The pixels taken are the fraction of the length, to within half a pixel and a
/// 2^24th of what is taken
pub proof fn lemma_portion_error(magnitude: nat, length: nat)
    requires
        length < SIGNIFICAND_END,
    ensures
        ({
            let exact = length * magnitude;
            let off = portion_of(magnitude, length) * pow2(149) - exact;
            -(0x80_0000 * pow2(149) + exact) <= 0x100_0000 * off <= 0x80_0000 * pow2(149) + exact
        }),
{
    let one = pow2(149);
    let half = pow2(148);
    let exact = length * magnitude;
    lemma_nearest_exact(length);
    lemma_nearest_error(exact);
    lemma_pow2_unfold(149);
    lemma_pow2_pos(148);
    let rounded = nearest(exact);
    let q = (rounded + half) / one;
    assert(q * one <= rounded + half < q * one + one) by (nonlinear_arith)
        requires
            q == (rounded + half) / one,
            one >= 1,
    ;
}

/// What `n` is rounded to is a whole multiple of the gap between the singles around it,
/// at most half that gap away, and an even multiple if it is exactly half
pub proof fn lemma_nearest_rounds_half_to_even(n: nat, k: nat)
    requires
        n < 0x100_0000 * pow2(k),
        k > 0 ==> 0x80_0000 * pow2(k) <= n,
    ensures
        ({
            let gap = pow2(k);
            let off = vstd::math::abs(nearest(n) - n);
            &&& nearest(n) % gap == 0
            &&& 2 * off <= gap
            &&& 2 * off == gap ==> (nearest(n) / gap) % 2 == 0
        }),
{
    let gap = pow2(k);
    lemma_pow2_pos(k);
    if k == 0 {
        vstd::arithmetic::power2::lemma2_to64();
    } else {
        lemma_step_between(n, k);
    }
    let q = n / gap;
    let r = n % gap;
    let m = round_half_even(n, gap);
    assert(n == q * gap + r && r < gap) by (nonlinear_arith)
        requires
            gap >= 1,
            q == n / gap,
            r == n % gap,
    ;
    assert((q + 1) * gap == q * gap + gap) by (nonlinear_arith);
    vstd::arithmetic::div_mod::lemma_fundamental_div_mod_converse(
        nearest(n) as int,
        gap as int,
        m as int,
        0,
    );
}

/// A value is rounded to the whole number closest to it, and to the larger of two that
/// are equally close
pub proof fn lemma_whole_rounds_half_up(units: nat)
    ensures
        2 * units - pow2(149) < 2 * (whole(units) * pow2(149)) <= 2 * units + pow2(149),
{
    let one = pow2(149);
    let half = pow2(148);
    lemma_pow2_unfold(149);
    lemma_pow2_pos(148);
    let q = (units + half) / one;
    assert(q * one <= units + half < q * one + one) by (nonlinear_arith)
        requires
            q == (units + half) / one,
            one >= 1,
    ;
}

/// The pixels taken are the whole number closest to the rounded product of the fraction
/// and the rounded length, and the larger of two that are equally close
pub proof fn lemma_portion_rounds_the_product(magnitude: nat, length: nat)
    ensures
        ({
            let product = nearest(nearest(length) * magnitude);
            2 * product - pow2(149) < 2 * (portion_of(magnitude, length) * pow2(149)) <= 2
                * product + pow2(149)
        }),
{
    lemma_whole_rounds_half_up(nearest(nearest(length) * magnitude));
}

/// Finite singles are equal exactly where they have the same value
pub proof fn lemma_equality_is_that_of_values(a: Single, b: Single)
    requires
        a.finite(),
        b.finite(),
    ensures
        a.equals(b) <==> a.value() == b.value(),
{
    a.lemma_parts_bounded();
    b.lemma_parts_bounded();
    let (p, q) = (unsigned(a), unsigned(b));
    lemma_unsigned(a);
    lemma_unsigned(b);
    let nothing = Single { bits: 0 };
    assert(nothing.magnitude() == 0) by (nonlinear_arith)
        requires
            nothing.magnitude() == nothing.significand() * pow2(nothing.doublings()),
            nothing.significand() == 0,
    ;
    if p.bits < q.bits {
        p.lemma_bits_order(q);
    } else if q.bits < p.bits {
        q.lemma_bits_order(p);
    }
    if p.bits > 0 {
        nothing.lemma_bits_order(p);
    }
}

/// An infinity equals only itself, and a NaN not even that
pub proof fn lemma_equality_beyond_the_numbers(a: Single, b: Single)
    requires
        !a.finite(),
    ensures
        a.fraction() == 0 ==> (a.equals(b) <==> a.bits == b.bits),
        a.fraction() != 0 ==> !a.equals(b) && !b.equals(a),
{
}

/// The bits of all zeros are zero, and one more in the bits is one more unit, or twice
/// that for every time the exponent has gone up since the first normal numbers
pub proof fn lemma_the_next_single(x: Single, next: Single)
    requires
        next.bits == x.bits + 1,
        next.bits < 0x7f80_0000,
    ensures
        x.bits == 0 ==> x.magnitude() == 0,
        ({
            let exponent = x.bits / 0x80_0000;
            next.magnitude() == x.magnitude() + (if exponent <= 1 {
                1
            } else {
                pow2((exponent - 1) as nat)
            })
        }),
{
    vstd::arithmetic::power2::lemma2_to64();
    x.lemma_parts_bounded();
    next.lemma_parts_bounded();
    let gap = pow2(x.doublings());
    assert(x.exponent() == x.bits / 0x80_0000 && next.exponent() == next.bits / 0x80_0000);
    if next.exponent() == x.exponent() {
        assert(next.magnitude() == x.magnitude() + gap) by (nonlinear_arith)
            requires
                next.significand() == x.significand() + 1,
                next.magnitude() == next.significand() * gap,
                x.magnitude() == x.significand() * gap,
        ;
    } else if x.exponent() == 0 {
        assert(next.magnitude() == next.significand());
        assert(x.magnitude() == x.significand());
    } else {
        lemma_pow2_unfold(next.doublings());
        assert(next.magnitude() == x.magnitude() + gap) by (nonlinear_arith)
            requires
                next.significand() == 0x80_0000,
                x.significand() == 0xff_ffff,
                next.magnitude() == next.significand() * (2 * gap),
                x.magnitude() == x.significand() * gap,
        ;
    }
    if x.bits == 0 {
        assert(x.magnitude() == 0) by (nonlinear_arith)
            requires
                x.magnitude() == x.significand() * gap,
                x.significand() == 0,
        ;
    }
}

/// The same bits with the sign set stand for the same distance on the other side of zero
pub proof fn lemma_the_sign_turns_a_single_round(x: Single, turned: Single)
    requires
        turned.bits == x.bits + 0x8000_0000,
    ensures
        turned.value() == -x.value(),
        x.value() >= 0,
        turned.finite() <==> x.finite(),
{
    assert(turned.exponent() == x.exponent() && turned.fraction() == x.fraction());
}

/// A single without its sign
spec fn unsigned(x: Single) -> Single {
    Single { bits: (x.bits % 0x8000_0000) as u32 }
}

proof fn lemma_unsigned(x: Single)
    ensures
        !unsigned(x).negative(),
        unsigned(x).magnitude() == x.magnitude(),
        x.negative() ==> x.bits == unsigned(x).bits + 0x8000_0000,
        !x.negative() ==> x.bits == unsigned(x).bits,
{
    let y = unsigned(x);
    assert(y.exponent() == x.exponent() && y.fraction() == x.fraction());
}

/// Of twice the length, a fraction takes twice the pixels, to within one
pub proof fn lemma_portion_of_twice_the_length(magnitude: nat, length: nat)
    ensures
        2 * portion_of(magnitude, length) - 1 <= portion_of(magnitude, 2 * length) <= 2
            * portion_of(magnitude, length) + 1,
{
    let one = pow2(149);
    let half = pow2(148);
    let exact = nearest(length) * magnitude;
    lemma_nearest_doubles(length);
    assert((2 * nearest(length)) * magnitude == 2 * exact) by (nonlinear_arith)
        requires
            exact == nearest(length) * magnitude,
    ;
    lemma_nearest_doubles(exact);
    lemma_pow2_unfold(149);
    lemma_pow2_pos(148);
    let rounded = nearest(exact);
    let q = (rounded + half) / one;
    let p = (2 * rounded + half) / one;
    assert(q * one <= rounded + half < q * one + one) by (nonlinear_arith)
        requires
            q == (rounded + half) / one,
            one >= 1,
    ;
    assert(p * one <= 2 * rounded + half < p * one + one) by (nonlinear_arith)
        requires
            p == (2 * rounded + half) / one,
            one >= 1,
    ;
    assert(2 * q - 1 <= p <= 2 * q + 1) by (nonlinear_arith)
        requires
            q * one <= rounded + half < q * one + one,
            p * one <= 2 * rounded + half < p * one + one,
            one == 2 * half,
            half >= 1,
    ;
}

/// Whether what is taken of two lengths is in proportion to them, to within half a pixel
/// of each and the rounding of singles
pub open spec fn same_share(taken: nat, length: nat, other_taken: nat, other: nat) -> bool {
    0x100_0000 * vstd::math::abs(taken * other - other_taken * length) <= 0x80_0000 * (length
        + other) + 2 * (length * other)
}

/// A fraction takes the same share of every length
pub proof fn lemma_portion_is_the_same_share(magnitude: nat, length: nat, other: nat)
    requires
        magnitude <= pow2(149),
        length < SIGNIFICAND_END,
        other < SIGNIFICAND_END,
    ensures
        same_share(
            portion_of(magnitude, length),
            length,
            portion_of(magnitude, other),
            other,
        ),
{
    let one = pow2(149) as int;
    let (p, q) = (portion_of(magnitude, length) as int, portion_of(magnitude, other) as int);
    let (a, b) = (length as int, other as int);
    let m = magnitude as int;
    lemma_portion_error(magnitude, length);
    lemma_portion_error(magnitude, other);
    lemma_pow2_pos(149);
    let (off_a, off_b) = (p * one - a * m, q * one - b * m);
    let (most_a, most_b) = (0x80_0000 * one + a * m, 0x80_0000 * one + b * m);
    assert((p * b - q * a) * one == b * off_a - a * off_b) by (nonlinear_arith)
        requires
            off_a == p * one - a * m,
            off_b == q * one - b * m,
    ;
    assert(-(b * most_a) <= 0x100_0000 * (b * off_a) <= b * most_a) by (nonlinear_arith)
        requires
            -most_a <= 0x100_0000 * off_a <= most_a,
            b >= 0,
    ;
    assert(-(a * most_b) <= 0x100_0000 * (a * off_b) <= a * most_b) by (nonlinear_arith)
        requires
            -most_b <= 0x100_0000 * off_b <= most_b,
            a >= 0,
    ;
    let bound = 0x80_0000 * (a + b) + 2 * (a * b);
    assert(b * most_a == 0x80_0000 * (b * one) + (a * b) * m) by (nonlinear_arith)
        requires
            most_a == 0x80_0000 * one + a * m,
    ;
    assert(a * most_b == 0x80_0000 * (a * one) + (a * b) * m) by (nonlinear_arith)
        requires
            most_b == 0x80_0000 * one + b * m,
    ;
    assert(a * b >= 0) by (nonlinear_arith)
        requires
            a >= 0,
            b >= 0,
    ;
    assert((a * b) * m <= (a * b) * one) by (nonlinear_arith)
        requires
            m <= one,
            a * b >= 0,
    ;
    assert(bound * one == 0x80_0000 * (a * one) + 0x80_0000 * (b * one) + 2 * ((a * b) * one))
        by (nonlinear_arith)
        requires
            bound == 0x80_0000 * (a + b) + 2 * (a * b),
    ;
    let gap = p * b - q * a;
    assert(0x100_0000 * (gap * one) == (0x100_0000 * gap) * one) by (nonlinear_arith);
    assert(-bound <= 0x100_0000 * gap <= bound) by (nonlinear_arith)
        requires
            -(bound * one) <= (0x100_0000 * gap) * one <= bound * one,
            one >= 1,
    ;
}

/// A larger fraction of a longer length never takes fewer pixels
pub proof fn lemma_portion_is_monotone(
    magnitude: nat,
    more_magnitude: nat,
    length: nat,
    more_length: nat,
)
    requires
        magnitude <= more_magnitude,
        length <= more_length,
    ensures
        portion_of(magnitude, length) <= portion_of(more_magnitude, more_length),
{
    lemma_nearest_is_monotone(length, more_length);
    let a = nearest(length) * magnitude;
    let b = nearest(more_length) * more_magnitude;
    assert(a <= b) by (nonlinear_arith)
        requires
            a == nearest(length) * magnitude,
            b == nearest(more_length) * more_magnitude,
            nearest(length) <= nearest(more_length),
            magnitude <= more_magnitude,
    ;
    lemma_nearest_is_monotone(a, b);
    lemma_pow2_pos(149);
    vstd::arithmetic::div_mod::lemma_div_is_ordered(
        (nearest(a) + pow2(148)) as int,
        (nearest(b) + pow2(148)) as int,
        pow2(149) as int,
    );
}

/// Zero takes nothing of any length
pub proof fn lemma_portion_of_zero(length: nat)
    ensures
        portion_of(0, length) == 0,
{
    assert(nearest(length) * 0 == 0);
    lemma_nearest_exact(0);
    lemma_pow2_unfold(149);
    lemma_pow2_pos(148);
    let half = pow2(148);
    assert(half / (2 * half) == 0) by (nonlinear_arith)
        requires
            half >= 1,
    ;
}

} // verus!
