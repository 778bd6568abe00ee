//! The model of IEEE 754 binary32 numbers.
//!
//! A number is held as its 32 bits. Every finite number is a whole multiple of
//! the smallest positive one, so its value is an integer count of those units,
//! and one is `pow2(149)` of them. Rounding is to the nearest number, ties to
//! the even one.
use crate::arith::{parts, power, round_shifted, with_sign};
use crate::rounding::{
    lemma_nearest_exact, lemma_nearest_quotient, lemma_nearest_ratio, lemma_nearest_scaled,
    lemma_root_scaled, lemma_units_binades, lemma_units_order,
};
use vstd::arithmetic::div_mod::{lemma_fundamental_div_mod, lemma_fundamental_div_mod_converse};
use vstd::arithmetic::power2::{
    lemma2_to64, lemma2_to64_rest, lemma_pow2_adds, lemma_pow2_pos, lemma_pow2_strictly_increases,
    lemma_pow2_unfold, pow2,
};
use vstd::prelude::*;

verus! {

/// The sign bit.
pub const SIGN_BIT: u32 = 0x8000_0000;

/// The magnitude of the infinities; the magnitudes above it are not numbers.
pub const INFINITE: u32 = 0x7f80_0000;

/// The bits of the quiet NaN that an invalid operation gives.
pub const NAN: u32 = 0x7fc0_0000;

/// An IEEE 754 binary32 number, by its bits.
#[derive(Copy, Clone, Debug, PartialEq, Eq, Structural)]
pub struct Binary32(pub u32);

impl Binary32 {
    /// Whether the sign bit is set.
    pub open spec fn negative(self) -> bool {
        self.0 >= SIGN_BIT
    }

    /// The bits without the sign.
    pub open spec fn magnitude(self) -> nat {
        if self.negative() {
            (self.0 - SIGN_BIT) as nat
        } else {
            self.0 as nat
        }
    }

    pub open spec fn nan(self) -> bool {
        self.magnitude() > INFINITE
    }

    pub open spec fn infinite(self) -> bool {
        self.magnitude() == INFINITE
    }

    pub open spec fn finite(self) -> bool {
        self.magnitude() < INFINITE
    }

    pub open spec fn zero(self) -> bool {
        self.magnitude() == 0
    }

    /// The value in units of the smallest positive number. An infinity counts
    /// as the first power of two that is out of range, which orders it after
    /// every finite number.
    pub open spec fn value(self) -> int {
        if self.negative() {
            -(units(self.magnitude()) as int)
        } else {
            units(self.magnitude()) as int
        }
    }

    pub open spec fn spec_neg(self) -> Binary32 {
        Binary32(
            if self.negative() {
                (self.0 - SIGN_BIT) as u32
            } else {
                (self.0 + SIGN_BIT) as u32
            },
        )
    }

    pub open spec fn spec_abs(self) -> Binary32 {
        Binary32(self.magnitude() as u32)
    }

    /// The sum. It is invalid for infinities of opposite signs, and an exact
    /// sum of zero is positive unless both terms are negative.
    #[verifier::opaque]
    pub open spec fn spec_add(self, other: Binary32) -> Binary32 {
        let sum = self.value() + other.value();
        if self.nan() || other.nan() {
            Binary32(NAN)
        } else if self.infinite() && other.infinite() {
            if self.negative() == other.negative() {
                self
            } else {
                Binary32(NAN)
            }
        } else if self.infinite() {
            self
        } else if other.infinite() {
            other
        } else if sum == 0 {
            signed(self.negative() && other.negative(), 0)
        } else {
            nearest(sum < 0, absolute(sum), 1)
        }
    }

    pub open spec fn spec_sub(self, other: Binary32) -> Binary32 {
        self.spec_add(other.spec_neg())
    }

    /// The product. It is invalid for zero times an infinity.
    #[verifier::opaque]
    pub open spec fn spec_mul(self, other: Binary32) -> Binary32 {
        let negative = self.negative() != other.negative();
        if self.nan() || other.nan() {
            Binary32(NAN)
        } else if self.infinite() || other.infinite() {
            if self.zero() || other.zero() {
                Binary32(NAN)
            } else {
                signed(negative, INFINITE as nat)
            }
        } else {
            nearest(negative, units(self.magnitude()) * units(other.magnitude()), unity())
        }
    }

    /// The quotient. It is invalid for zero over zero and for infinity over infinity.
    #[verifier::opaque]
    pub open spec fn spec_div(self, other: Binary32) -> Binary32 {
        let negative = self.negative() != other.negative();
        if self.nan() || other.nan() {
            Binary32(NAN)
        } else if self.infinite() && other.infinite() || self.zero() && other.zero() {
            Binary32(NAN)
        } else if self.infinite() || other.zero() {
            signed(negative, INFINITE as nat)
        } else if other.infinite() {
            signed(negative, 0)
        } else {
            nearest(negative, units(self.magnitude()) * unity(), units(other.magnitude()))
        }
    }

    /// The square root. The integer part of a root, counted in units, is long
    /// enough that any fraction behind it acts on rounding as one half does.
    #[verifier::opaque]
    pub open spec fn spec_sqrt(self) -> Binary32 {
        let square = units(self.magnitude()) * unity();
        let root = whole_root(square);
        if self.nan() || self.negative() && !self.zero() {
            Binary32(NAN)
        } else if self.zero() || self.infinite() {
            self
        } else if root * root == square {
            nearest(false, root, 1)
        } else {
            nearest(false, 2 * root + 1, 2)
        }
    }

    /// Whether the two are the same number; the two zeros are, and a NaN is not
    /// even itself.
    pub open spec fn spec_equals(self, other: Binary32) -> bool {
        !self.nan() && !other.nan() && self.value() == other.value()
    }

    pub open spec fn spec_less(self, other: Binary32) -> bool {
        !self.nan() && !other.nan() && self.value() < other.value()
    }

    pub open spec fn spec_at_most(self, other: Binary32) -> bool {
        !self.nan() && !other.nan() && self.value() <= other.value()
    }

    /// The lesser of two, or the one that is a number.
    pub open spec fn spec_min(self, other: Binary32) -> Binary32 {
        if self.nan() || other.spec_less(self) {
            other
        } else {
            self
        }
    }

    /// The greater of two, or the one that is a number.
    pub open spec fn spec_max(self, other: Binary32) -> Binary32 {
        if self.nan() || self.spec_less(other) {
            other
        } else {
            self
        }
    }

    /// Held between two bounds; a NaN stays one.
    pub open spec fn spec_clamp(self, low: Binary32, high: Binary32) -> Binary32 {
        if self.spec_less(low) {
            low
        } else if high.spec_less(self) {
            high
        } else {
            self
        }
    }

    /// The absolute value without its fraction.
    pub open spec fn whole(self) -> nat {
        units(self.magnitude()) / unity()
    }

    /// The absolute value, any fraction counted as a whole.
    pub open spec fn whole_above(self) -> nat {
        let u = units(self.magnitude());
        if u % unity() == 0 {
            u / unity()
        } else {
            u / unity() + 1
        }
    }

    /// The integer nearest to the absolute value, the larger of two.
    pub open spec fn whole_nearest(self) -> nat {
        (2 * units(self.magnitude()) + unity()) / (2 * unity())
    }

    /// The greatest integer that is not above the number. The sign stays, on a zero too.
    #[verifier::opaque]
    pub open spec fn spec_floor(self) -> Binary32 {
        if !self.finite() {
            self
        } else if self.negative() {
            integer(true, self.whole_above())
        } else {
            integer(false, self.whole())
        }
    }

    /// The least integer that is not below the number. The sign stays, on a zero too.
    #[verifier::opaque]
    pub open spec fn spec_ceil(self) -> Binary32 {
        if !self.finite() {
            self
        } else if self.negative() {
            integer(true, self.whole())
        } else {
            integer(false, self.whole_above())
        }
    }

    /// The nearest integer, the one farther from zero of two. The sign stays, on a zero too.
    #[verifier::opaque]
    pub open spec fn spec_round(self) -> Binary32 {
        if !self.finite() {
            self
        } else {
            integer(self.negative(), self.whole_nearest())
        }
    }

    /// The integer part held between two bounds that enclose zero; zero for a NaN.
    pub open spec fn truncated(self, low: int, high: int) -> int {
        let v = if self.negative() {
            -(self.whole() as int)
        } else {
            self.whole() as int
        };
        if self.nan() {
            0
        } else if v < low {
            low
        } else if v > high {
            high
        } else {
            v
        }
    }

    /// Whether the sign bit is set.
    pub fn is_negative(self) -> (r: bool)
        ensures
            r == self.negative(),
    {
        self.0 >= SIGN_BIT
    }

    /// The bits without the sign.
    fn bits_of_magnitude(self) -> (r: u32)
        ensures
            r == self.magnitude(),
            r < SIGN_BIT,
    {
        if self.0 >= SIGN_BIT {
            self.0 - SIGN_BIT
        } else {
            self.0
        }
    }

    pub fn is_nan(self) -> (r: bool)
        ensures
            r == self.nan(),
    {
        self.bits_of_magnitude() > INFINITE
    }

    pub fn is_finite(self) -> (r: bool)
        ensures
            r == self.finite(),
    {
        self.bits_of_magnitude() < INFINITE
    }

    /// The number of the opposite sign.
    #[verifier::when_used_as_spec(spec_neg)]
    pub fn neg(self) -> (r: Binary32)
        ensures
            r == self.spec_neg(),
    {
        if self.0 >= SIGN_BIT {
            Binary32(self.0 - SIGN_BIT)
        } else {
            Binary32(self.0 + SIGN_BIT)
        }
    }

    /// The absolute value.
    #[verifier::when_used_as_spec(spec_abs)]
    pub fn abs(self) -> (r: Binary32)
        ensures
            r == self.spec_abs(),
    {
        Binary32(self.bits_of_magnitude())
    }

    /// The bits as an integer that orders as the values do.
    fn key(self) -> (r: i64)
        requires
            !self.nan(),
        ensures
            r == if self.negative() {
                -(self.magnitude() as int)
            } else {
                self.magnitude() as int
            },
    {
        let m: i64 = self.bits_of_magnitude() as i64;
        if self.0 >= SIGN_BIT {
            -m
        } else {
            m
        }
    }

    /// Whether the two are the same number.
    #[verifier::when_used_as_spec(spec_equals)]
    pub fn equals(self, other: Binary32) -> (r: bool)
        ensures
            r == self.spec_equals(other),
    {
        proof {
            lemma_units_order(self.magnitude(), other.magnitude());
            lemma_units_order(0, self.magnitude());
            lemma_units_order(0, other.magnitude());
        }
        !self.is_nan() && !other.is_nan() && self.key() == other.key()
    }

    /// Whether this number is less than the other.
    #[verifier::when_used_as_spec(spec_less)]
    pub fn less(self, other: Binary32) -> (r: bool)
        ensures
            r == self.spec_less(other),
    {
        proof {
            lemma_units_order(self.magnitude(), other.magnitude());
            lemma_units_order(other.magnitude(), self.magnitude());
            lemma_units_order(0, self.magnitude());
            lemma_units_order(0, other.magnitude());
        }
        !self.is_nan() && !other.is_nan() && self.key() < other.key()
    }

    /// Whether this number is less than the other or the same.
    #[verifier::when_used_as_spec(spec_at_most)]
    pub fn at_most(self, other: Binary32) -> (r: bool)
        ensures
            r == self.spec_at_most(other),
    {
        proof {
            lemma_units_order(self.magnitude(), other.magnitude());
            lemma_units_order(other.magnitude(), self.magnitude());
            lemma_units_order(0, self.magnitude());
            lemma_units_order(0, other.magnitude());
        }
        !self.is_nan() && !other.is_nan() && self.key() <= other.key()
    }

    /// The lesser of two numbers.
    #[verifier::when_used_as_spec(spec_min)]
    pub fn min(self, other: Binary32) -> (r: Binary32)
        ensures
            r == self.spec_min(other),
    {
        if self.is_nan() || other.less(self) {
            other
        } else {
            self
        }
    }

    /// The greater of two numbers.
    #[verifier::when_used_as_spec(spec_max)]
    pub fn max(self, other: Binary32) -> (r: Binary32)
        ensures
            r == self.spec_max(other),
    {
        if self.is_nan() || self.less(other) {
            other
        } else {
            self
        }
    }

    /// The number held between two bounds.
    #[verifier::when_used_as_spec(spec_clamp)]
    pub fn clamp(self, low: Binary32, high: Binary32) -> (r: Binary32)
        ensures
            r == self.spec_clamp(low, high),
    {
        if self.less(low) {
            low
        } else if high.less(self) {
            high
        } else {
            self
        }
    }

    /// The product of two numbers.
    #[verifier::when_used_as_spec(spec_mul)]
    pub fn mul(self, other: Binary32) -> (r: Binary32)
        ensures
            r == self.spec_mul(other),
    {
        reveal(Binary32::spec_mul);
        let negative = self.is_negative() != other.is_negative();
        let a: u32 = self.bits_of_magnitude();
        let b: u32 = other.bits_of_magnitude();
        if a > INFINITE || b > INFINITE {
            return Binary32(NAN);
        }
        if a == INFINITE || b == INFINITE {
            if a == 0 || b == 0 {
                return Binary32(NAN);
            }
            return with_sign(negative, INFINITE);
        }
        let (m, e) = parts(a);
        let (n, f) = parts(b);
        assert(m * n < 0x1_0000_0000_0000) by (nonlinear_arith)
            requires
                m < 0x0100_0000,
                n < 0x0100_0000,
        ;
        let product: u128 = m as u128 * n as u128;
        proof {
            let p = pow2(e as nat);
            let q = pow2(f as nat);
            lemma_pow2_adds(e as nat, f as nat);
            assert((m * p) * (n * q) == (m * n) * (p * q)) by (nonlinear_arith);
            lemma_nearest_ratio(product as nat, (e + f) as nat, 1, 149);
        }
        with_sign(negative, round_shifted(product, e as i32 + f as i32 - 149))
    }

    /// The quotient of two numbers.
    #[verifier::when_used_as_spec(spec_div)]
    pub fn div(self, other: Binary32) -> (r: Binary32)
        ensures
            r == self.spec_div(other),
    {
        reveal(Binary32::spec_div);
        let negative = self.is_negative() != other.is_negative();
        let a: u32 = self.bits_of_magnitude();
        let b: u32 = other.bits_of_magnitude();
        if a > INFINITE || b > INFINITE {
            return Binary32(NAN);
        }
        if a == INFINITE && b == INFINITE || a == 0 && b == 0 {
            return Binary32(NAN);
        }
        if a == INFINITE || b == 0 {
            return with_sign(negative, INFINITE);
        }
        if b == INFINITE {
            return with_sign(negative, 0);
        }
        let (m, e) = parts(a);
        let (n, f) = parts(b);
        if m == 0 {
            proof {
                let d = units(b as nat);
                lemma_units_order(0, b as nat);
                assert(units(a as nat) * unity() == 0) by (nonlinear_arith)
                    requires
                        units(a as nat) == 0,
                ;
                assert(nearest_bits(0, d) == 0);
            }
            return with_sign(negative, 0);
        }
        let scaled: u128 = m as u128 * 0x1_0000_0000_0000_0000;
        let q: u128 = scaled / n as u128;
        let rest: u128 = scaled % n as u128;
        let shift: i32 = e as i32 - f as i32 + 85;
        proof {
            let p = pow2(e as nat);
            lemma2_to64();
            lemma2_to64_rest();
            lemma_pow2_adds(64, 85);
            lemma_pow2_adds(e as nat, 85);
            assert((m * p) * (pow2(64) * pow2(85)) == (m * pow2(64)) * (p * pow2(85)))
                by (nonlinear_arith);
            lemma_nearest_ratio(scaled as nat, (e + 85) as nat, n as nat, f as nat);
            lemma_fundamental_div_mod(scaled as int, n as int);
            assert(scaled == q * n + rest) by (nonlinear_arith)
                requires
                    scaled == n * q + rest,
            ;
            assert((q + 1) * n == q * n + n) by (nonlinear_arith);
            assert(q >= 0x0100_0000) by (nonlinear_arith)
                requires
                    scaled == q * n + rest,
                    scaled >= 0x1_0000_0000_0000_0000,
                    rest < n,
                    n < 0x0100_0000,
            ;
            assert(q <= scaled) by (nonlinear_arith)
                requires
                    scaled == q * n + rest,
                    n >= 1,
            ;
            lemma_nearest_quotient(scaled as nat, n as nat, q as nat, shift as int);
        }
        if rest == 0 {
            with_sign(negative, round_shifted(q, shift))
        } else {
            with_sign(negative, round_shifted(2 * q + 1, shift - 1))
        }
    }

    /// The sum of two numbers.
    #[verifier::when_used_as_spec(spec_add)]
    pub fn add(self, other: Binary32) -> (r: Binary32)
        ensures
            r == self.spec_add(other),
    {
        reveal(Binary32::spec_add);
        let a: u32 = self.bits_of_magnitude();
        let b: u32 = other.bits_of_magnitude();
        if a > INFINITE || b > INFINITE {
            return Binary32(NAN);
        }
        if a == INFINITE && b == INFINITE {
            if self.is_negative() == other.is_negative() {
                return self;
            }
            return Binary32(NAN);
        }
        if a == INFINITE {
            return self;
        }
        if b == INFINITE {
            return other;
        }
        proof {
            lemma_units_order(a as nat, b as nat);
            lemma_units_order(b as nat, a as nat);
        }
        if a >= b {
            add_ordered(self.is_negative(), a, other.is_negative(), b)
        } else {
            add_ordered(other.is_negative(), b, self.is_negative(), a)
        }
    }

    /// The square root of a number.
    #[verifier::when_used_as_spec(spec_sqrt)]
    pub fn sqrt(self) -> (r: Binary32)
        ensures
            r == self.spec_sqrt(),
    {
        reveal(Binary32::spec_sqrt);
        let a: u32 = self.bits_of_magnitude();
        if a > INFINITE || self.is_negative() && a > 0 {
            return Binary32(NAN);
        }
        if a == 0 || a == INFINITE {
            return self;
        }
        let (m, e) = parts(a);
        let odd: u32 = (e + 149) % 2;
        let x: u128 = if odd == 0 {
            m as u128 * 0x1_0000_0000_0000_0000
        } else {
            m as u128 * 0x2_0000_0000_0000_0000
        };
        let h: u32 = (e + 85 - odd) / 2;
        let s: u128 = root(x);
        proof {
            let p = pow2(h as nat);
            let square = units(a as nat) * unity();
            lemma2_to64();
            lemma2_to64_rest();
            lemma_pow2_unfold(65);
            lemma_pow2_adds(e as nat, 149);
            lemma_pow2_adds(h as nat, h as nat);
            lemma_pow2_adds((64 + odd) as nat, (h + h) as nat);
            assert(e + 149 == 64 + odd + (h + h));
            assert((m * pow2(e as nat)) * pow2(149) == m * (pow2(e as nat) * pow2(149)))
                by (nonlinear_arith);
            assert(m * (pow2((64 + odd) as nat) * (p * p)) == (m * pow2((64 + odd) as nat)) * (p
                * p)) by (nonlinear_arith);
            assert(square == x * (p * p));
            lemma_root_scaled(x as nat, s as nat, h as nat);
        }
        if s * s == x {
            with_sign(false, round_shifted(s, h as i32))
        } else {
            with_sign(false, round_shifted(2 * s + 1, h as i32 - 1))
        }
    }

    /// The greatest integer that is not above the number.
    #[verifier::when_used_as_spec(spec_floor)]
    pub fn floor(self) -> (r: Binary32)
        ensures
            r == self.spec_floor(),
    {
        reveal(Binary32::spec_floor);
        let a: u32 = self.bits_of_magnitude();
        if a >= INFINITE {
            return self;
        }
        match whole_parts(a) {
            None => self,
            Some((k, above, _nearest)) => {
                if self.is_negative() {
                    integral(true, above)
                } else {
                    integral(false, k)
                }
            },
        }
    }

    /// The least integer that is not below the number.
    #[verifier::when_used_as_spec(spec_ceil)]
    pub fn ceil(self) -> (r: Binary32)
        ensures
            r == self.spec_ceil(),
    {
        reveal(Binary32::spec_ceil);
        let a: u32 = self.bits_of_magnitude();
        if a >= INFINITE {
            return self;
        }
        match whole_parts(a) {
            None => self,
            Some((k, above, _nearest)) => {
                if self.is_negative() {
                    integral(true, k)
                } else {
                    integral(false, above)
                }
            },
        }
    }

    /// The nearest integer, the one farther from zero of two.
    #[verifier::when_used_as_spec(spec_round)]
    pub fn round(self) -> (r: Binary32)
        ensures
            r == self.spec_round(),
    {
        reveal(Binary32::spec_round);
        let a: u32 = self.bits_of_magnitude();
        if a >= INFINITE {
            return self;
        }
        match whole_parts(a) {
            None => self,
            Some((_k, _above, nearest)) => integral(self.is_negative(), nearest),
        }
    }

    /// The number nearest to an integer.
    pub fn from_integer(n: u64) -> (r: Binary32)
        ensures
            r == integer(false, n as nat),
    {
        with_sign(false, round_shifted(n as u128, 149))
    }

    /// The integer part, from zero to 255.
    pub fn to_u8(self) -> (r: u8)
        ensures
            r == self.truncated(0, 255),
    {
        if self.is_nan() || self.is_negative() {
            return 0;
        }
        let k: u64 = whole_saturated(self.bits_of_magnitude());
        if k > 255 {
            255
        } else {
            k as u8
        }
    }

    /// The integer part, held to the range of `u32`.
    pub fn to_u32(self) -> (r: u32)
        ensures
            r == self.truncated(0, u32::MAX as int),
    {
        if self.is_nan() || self.is_negative() {
            return 0;
        }
        let k: u64 = whole_saturated(self.bits_of_magnitude());
        if k > u32::MAX as u64 {
            u32::MAX
        } else {
            k as u32
        }
    }

    /// The integer part, held to the range of `usize`.
    pub fn to_usize(self) -> (r: usize)
        ensures
            r == self.truncated(0, usize::MAX as int),
    {
        if self.is_nan() || self.is_negative() {
            return 0;
        }
        let k: u64 = whole_saturated(self.bits_of_magnitude());
        if k > usize::MAX as u64 {
            usize::MAX
        } else {
            k as usize
        }
    }

    /// The integer part, held to the range of `i32`.
    pub fn to_i32(self) -> (r: i32)
        ensures
            r == self.truncated(i32::MIN as int, i32::MAX as int),
    {
        if self.is_nan() {
            return 0;
        }
        let k: u64 = whole_saturated(self.bits_of_magnitude());
        if self.is_negative() {
            if k > 0x8000_0000 {
                i32::MIN
            } else {
                (-(k as i64)) as i32
            }
        } else if k > 0x7fff_ffff {
            i32::MAX
        } else {
            k as i32
        }
    }

    /// The difference of two numbers.
    #[verifier::when_used_as_spec(spec_sub)]
    pub fn sub(self, other: Binary32) -> (r: Binary32)
        ensures
            r == self.spec_sub(other),
    {
        self.add(other.neg())
    }
}

/// The sum of two finite numbers, the larger magnitude first.
fn add_ordered(negative: bool, a: u32, negative_b: bool, b: u32) -> (r: Binary32)
    requires
        b <= a < INFINITE,
        units(b as nat) <= units(a as nat),
    ensures
        negative == negative_b ==> r == if units(a as nat) + units(b as nat) == 0 {
            signed(negative, 0)
        } else {
            nearest(negative, units(a as nat) + units(b as nat), 1)
        },
        negative != negative_b ==> r == if units(a as nat) == units(b as nat) {
            signed(false, 0)
        } else {
            nearest(negative, (units(a as nat) - units(b as nat)) as nat, 1)
        },
{
    let (m, e) = parts(a);
    let (n, f) = parts(b);
    proof {
        lemma_units_order(0, a as nat);
        lemma_units_order(0, b as nat);
        lemma2_to64();
    }
    if b == 0 {
        proof {
            lemma_nearest_exact(a as nat);
        }
        if a == 0 && negative != negative_b {
            return Binary32(0);
        }
        return with_sign(negative, a);
    }
    if f > e {
        proof {
            lemma_pow2_strictly_increases(e as nat, f as nat);
            lemma_pow2_pos(e as nat);
            lemma_pow2_adds(e as nat, (f - e) as nat);
            lemma_pow2_unfold((f - e) as nat);
            lemma_pow2_pos((f - e - 1) as nat);
            let p = pow2(e as nat);
            let g = pow2((f - e) as nat);
            assert(n * (p * g) > m * p) by (nonlinear_arith)
                requires
                    g >= 2,
                    n >= 0x0080_0000,
                    m < 0x0100_0000,
                    p > 0,
            ;
        }
    }
    assert(f <= e);
    let gap: u32 = e - f;
    let ghost p = pow2(f as nat);
    let ghost g = pow2(gap as nat);
    proof {
        lemma_pow2_adds(f as nat, gap as nat);
        lemma_pow2_pos(f as nat);
        lemma_pow2_pos(gap as nat);
        assert(m * (p * g) == (m * g) * p) by (nonlinear_arith);
    }
    if gap <= 64 {
        proof {
            lemma2_to64_rest();
            if gap < 64 {
                lemma_pow2_strictly_increases(gap as nat, 64);
            }
            assert(m * g < 0x0100_0000 * 0x1_0000_0000_0000_0000) by (nonlinear_arith)
                requires
                    m < 0x0100_0000,
                    0 < g <= 0x1_0000_0000_0000_0000,
            ;
            assert((m * g) * p + n * p == (m * g + n) * p) by (nonlinear_arith);
            assert((m * g) * p - n * p == (m * g - n) * p) by (nonlinear_arith);
            assert(m * g >= n) by (nonlinear_arith)
                requires
                    (m * g) * p >= n * p,
                    p > 0,
            ;
            assert(m * g > n ==> (m * g) * p > n * p) by (nonlinear_arith)
                requires
                    p > 0,
            ;
        }
        let shifted: u128 = m as u128 * power(gap);
        if negative == negative_b {
            let sum: u128 = shifted + n as u128;
            with_sign(negative, round_shifted(sum, f as i32))
        } else if shifted == n as u128 {
            Binary32(0)
        } else {
            let difference: u128 = shifted - n as u128;
            with_sign(negative, round_shifted(difference, f as i32))
        }
    } else {
        // At the scale of `whole` the lesser term is a fraction.
        let whole: u128 = m as u128 * 0x100_0000_0000;
        proof {
            let c = pow2((gap - 40) as nat);
            lemma2_to64_rest();
            lemma_pow2_adds(40, (gap - 40) as nat);
            lemma_pow2_strictly_increases(24, (gap - 40) as nat);
            assert(m * (0x100_0000_0000 * c) == whole * c) by (nonlinear_arith)
                requires
                    whole == m * 0x100_0000_0000,
            ;
            assert((whole + 1) * c == whole * c + c) by (nonlinear_arith);
            assert((whole - 1) * c == whole * c - c) by (nonlinear_arith);
            lemma_pow2_adds(f as nat, (gap - 40) as nat);
            assert(units(a as nat) == (whole * c) * p);
            let sum = (whole * c + n) as nat;
            let difference = (whole * c - n) as nat;
            assert((whole * c) * p + n * p == sum * p) by (nonlinear_arith)
                requires
                    sum == whole * c + n,
            ;
            assert((whole * c) * p - n * p == difference * p) by (nonlinear_arith)
                requires
                    difference == whole * c - n,
            ;
            assert(sum * (p * c) == (sum * p) * c) by (nonlinear_arith);
            assert(difference * (p * c) == (difference * p) * c) by (nonlinear_arith);
            lemma_nearest_scaled(sum * p, 1, c);
            lemma_nearest_scaled(difference * p, 1, c);
            lemma_nearest_quotient(sum, c, whole as nat, e - 40);
            lemma_nearest_quotient(difference, c, (whole - 1) as nat, e - 40);
            assert(difference * p > 0) by (nonlinear_arith)
                requires
                    difference > 0,
                    p > 0,
            ;
        }
        if negative == negative_b {
            with_sign(negative, round_shifted(2 * whole + 1, e as i32 - 41))
        } else {
            with_sign(negative, round_shifted(2 * (whole - 1) + 1, e as i32 - 41))
        }
    }
}

/// The number for an integer.
fn integral(negative: bool, k: u32) -> (r: Binary32)
    ensures
        r == integer(negative, k as nat),
{
    with_sign(negative, round_shifted(k as u128, 149))
}

/// The integer part of a finite magnitude, the integer not below it and the
/// integer nearest to it; nothing if the magnitude is an integer past the
/// precision of the format.
fn whole_parts(a: u32) -> (r: Option<(u32, u32, u32)>)
    requires
        a < INFINITE,
    ensures
        r matches Some((k, above, nearest)) ==> {
            &&& k == units(a as nat) / unity()
            &&& above == if units(a as nat) % unity() == 0 {
                k as nat
            } else {
                (k + 1) as nat
            }
            &&& nearest == (2 * units(a as nat) + unity()) / (2 * unity())
        },
        r is None <==> a >= 0x4b00_0000,
        r is None ==> {
            &&& units(a as nat) % unity() == 0
            &&& nearest_bits((units(a as nat) / unity()) * unity(), 1) == a
            &&& (2 * units(a as nat) + unity()) / (2 * unity()) == units(a as nat) / unity()
        },
{
    let (m, e) = parts(a);
    let ghost p = pow2(e as nat);
    proof {
        lemma_pow2_pos(e as nat);
        lemma_pow2_pos(149);
        lemma2_to64();
    }
    if e >= 149 {
        proof {
            let c = pow2((e - 149) as nat);
            let u = unity();
            lemma_pow2_adds((e - 149) as nat, 149);
            assert(m * (c * u) == (m * c) * u) by (nonlinear_arith);
            lemma_fundamental_div_mod_converse((m * p) as int, u as int, (m * c) as int, 0);
            assert(2 * ((m * c) * u) + u == (m * c) * (2 * u) + u) by (nonlinear_arith);
            lemma_fundamental_div_mod_converse(
                (2 * (m * p) + u) as int,
                (2 * u) as int,
                (m * c) as int,
                u as int,
            );
            lemma_nearest_exact(a as nat);
        }
        return None;
    }
    let s: u32 = 149 - e;
    let ghost t = pow2(s as nat);
    proof {
        lemma_pow2_pos(s as nat);
        lemma_pow2_adds(s as nat, e as nat);
        if s >= 25 {
            if s > 25 {
                lemma_pow2_strictly_increases(25, s as nat);
            }
        }
        lemma_fundamental_div_mod(m as int, t as int);
        lemma_fundamental_div_mod((2 * m + t) as int, (2 * t) as int);
        lemma_scaled_division(m as nat, t, p);
        lemma_scaled_division((2 * m + t) as nat, 2 * t, p);
        assert((2 * m + t) * p == 2 * (m * p) + t * p) by (nonlinear_arith);
        assert((2 * t) * p == 2 * (t * p)) by (nonlinear_arith);
    }
    if s >= 25 {
        proof {
            lemma_fundamental_div_mod_converse(m as int, t as int, 0, m as int);
            lemma_fundamental_div_mod_converse(
                (2 * m + t) as int,
                (2 * t) as int,
                0,
                (2 * m + t) as int,
            );
            lemma_scaled_remainder(m as nat, p);
        }
        return Some((0, if m == 0 { 0 } else { 1 }, 0));
    }
    let d: u32 = power(s) as u32;
    proof {
        lemma_pow2_strictly_increases(s as nat, 25);
        lemma_scaled_remainder(m as nat % t, p);
        assert(m / d <= m && (2 * m + d) / (2 * d) as int <= 2 * m + d) by (nonlinear_arith)
            requires
                d > 0,
        ;
    }
    let k: u32 = m / d;
    Some((k, if m % d == 0 { k } else { k + 1 }, (2 * m + d) / (2 * d)))
}

/// The integer part of a magnitude, held to the range of `u64`.
fn whole_saturated(a: u32) -> (k: u64)
    requires
        a <= INFINITE,
    ensures
        k == if units(a as nat) / unity() < u64::MAX {
            units(a as nat) / unity()
        } else {
            u64::MAX as nat
        },
{
    proof {
        lemma_pow2_pos(149);
        lemma2_to64();
        lemma2_to64_rest();
    }
    if a == INFINITE {
        proof {
            let u = unity();
            lemma_units_binades(0x0080_0000, 254);
            lemma_pow2_adds(64, 41);
            lemma_pow2_adds(105, 149);
            let c = pow2(41);
            assert(0x0080_0000 * ((pow2(64) * c) * u) == (0x0080_0000 * pow2(64) * c) * u)
                by (nonlinear_arith);
            lemma_fundamental_div_mod_converse(
                units(a as nat) as int,
                u as int,
                (0x0080_0000 * pow2(64) * c) as int,
                0,
            );
        }
        return u64::MAX;
    }
    match whole_parts(a) {
        Some((k, _above, _nearest)) => k as u64,
        None => {
            let (m, e) = parts(a);
            let c: u32 = e - 149;
            let ghost u = unity();
            let ghost t = pow2(c as nat);
            proof {
                lemma_pow2_adds(c as nat, 149);
                assert(m * (t * u) == (m * t) * u) by (nonlinear_arith);
                lemma_fundamental_div_mod_converse(units(a as nat) as int, u as int, (m * t) as int, 0);
                if c > 40 {
                    lemma_pow2_strictly_increases(40, c as nat);
                    lemma_pow2_unfold(c as nat);
                    if c > 41 {
                        lemma_pow2_strictly_increases(41, c as nat);
                    }
                    assert(m * t >= 0x0080_0000 * 0x200_0000_0000) by (nonlinear_arith)
                        requires
                            t >= 0x200_0000_0000,
                            m >= 0x0080_0000,
                    ;
                } else {
                    if c < 40 {
                        lemma_pow2_strictly_increases(c as nat, 40);
                    }
                    assert(m * t <= 0x00ff_ffff * 0x100_0000_0000) by (nonlinear_arith)
                        requires
                            0 < t <= 0x100_0000_0000,
                            m <= 0x00ff_ffff,
                    ;
                }
            }
            if c > 40 {
                u64::MAX
            } else {
                m as u64 * power(c) as u64
            }
        },
    }
}

/// A common factor of both terms scales the remainder and leaves the quotient.
proof fn lemma_scaled_division(n: nat, d: nat, c: nat)
    requires
        d > 0,
        c > 0,
    ensures
        (n * c) / (d * c) == n / d,
        (n * c) % (d * c) == (n % d) * c,
{
    let q = n / d;
    let r = n % d;
    lemma_fundamental_div_mod(n as int, d as int);
    assert(n * c == q * (d * c) + r * c) by (nonlinear_arith)
        requires
            n == d * q + r,
    ;
    assert(r * c < d * c) by (nonlinear_arith)
        requires
            r < d,
            c > 0,
    ;
    lemma_fundamental_div_mod_converse((n * c) as int, (d * c) as int, q as int, (r * c) as int);
}

proof fn lemma_scaled_remainder(r: nat, c: nat)
    requires
        c > 0,
    ensures
        r * c == 0 <==> r == 0,
{
    assert(r * c == 0 <==> r == 0) by (nonlinear_arith)
        requires
            c > 0,
    ;
}

/// The integer part of a square root.
fn root(x: u128) -> (s: u128)
    requires
        0x1_0000_0000_0000_0000 <= x < 0x200_0000_0000_0000_0000_0000,
    ensures
        is_whole_root(x as nat, s as nat),
        0x1_0000_0000 <= s < 0x2000_0000_0000,
{
    let mut low: u128 = 0x1_0000_0000;
    let mut high: u128 = 0x2000_0000_0000;
    while high - low > 1
        invariant
            0x1_0000_0000 <= low < high <= 0x2000_0000_0000,
            low * low <= x < high * high,
        decreases high - low,
    {
        let mid: u128 = (low + high) / 2;
        assert(mid * mid < 0x400_0000_0000_0000_0000_0000) by (nonlinear_arith)
            requires
                0 <= mid < 0x2000_0000_0000,
        ;
        if mid * mid <= x {
            low = mid;
        } else {
            high = mid;
        }
    }
    low
}

/// The number nearest to an integer.
pub open spec fn integer(negative: bool, n: nat) -> Binary32 {
    nearest(negative, n * unity(), 1)
}

/// Whether `r` is the integer part of the square root of `n`.
pub open spec fn is_whole_root(n: nat, r: nat) -> bool {
    r * r <= n < (r + 1) * (r + 1)
}

/// The integer part of the square root.
pub open spec fn whole_root(n: nat) -> nat {
    choose|r: nat| is_whole_root(n, r)
}

/// The value of the non-negative number with the given bits, in units of the
/// smallest positive number. Up to twice the first normal binade the bits count
/// the units; from there on each binade, `0x0080_0000` numbers, repeats the one
/// before at twice the scale.
pub open spec fn units(bits: nat) -> nat
    decreases bits,
{
    if bits < 0x0100_0000 {
        bits
    } else {
        2 * units((bits - 0x0080_0000) as nat)
    }
}

/// One, in units of the smallest positive number.
pub open spec fn unity() -> nat {
    pow2(149)
}

/// The integer nearest to `n / d`, the even one of two that are equally near.
pub open spec fn nearest_even(n: nat, d: nat) -> nat {
    let q = n / d;
    let r = n % d;
    if 2 * r < d || (2 * r == d && q % 2 == 0) {
        q
    } else {
        q + 1
    }
}

/// The bits of the non-negative number nearest to `n / d` units when the range
/// of exponents is not bounded.
pub open spec fn nearest_bits(n: nat, d: nat) -> nat
    decreases n - d,
{
    if d == 0 || n < d * 0x0100_0000 {
        nearest_even(n, d)
    } else {
        0x0080_0000 + nearest_bits(n, 2 * d)
    }
}

/// The number with the given sign and magnitude; a magnitude past the largest
/// finite one gives an infinity.
pub open spec fn signed(negative: bool, magnitude: nat) -> Binary32 {
    let m = if magnitude < INFINITE {
        magnitude
    } else {
        INFINITE as nat
    };
    Binary32(
        if negative {
            (SIGN_BIT + m) as u32
        } else {
            m as u32
        },
    )
}

/// The number nearest to `n / d` units with the given sign.
pub open spec fn nearest(negative: bool, n: nat, d: nat) -> Binary32 {
    signed(negative, nearest_bits(n, d))
}

/// The absolute value of an integer.
pub open spec fn absolute(v: int) -> nat {
    if v < 0 {
        (-v) as nat
    } else {
        v as nat
    }
}

} // verus!
