//! Single-precision binary floating point, computed on integer bit patterns.
//!
//! A [`Single`] is the 32-bit interchange pattern of a number: one sign bit,
//! then a 31-bit magnitude code in the sense of [`crate::rounding`] with 24
//! significant bits and a unit of 2^-149.  The code `0x7f80_0000` is
//! infinity and the codes above it are not numbers.  Sums, differences,
//! products and quotients are the exact result rounded once, to nearest with
//! ties to even, so the engine paints the same pixels on every machine.
use crate::rounding::{
    code, excess, lemma_absorbed, lemma_code_exact, lemma_code_scale, lemma_magnitude_increases,
    lemma_over_scaled, lemma_rne_exact, lemma_scale_div, lemma_short_is_exact, lemma_times_scaled,
    magnitude, round_scaled,
};
use vstd::arithmetic::div_mod::*;
use vstd::arithmetic::mul::*;
use vstd::arithmetic::power2::*;
use vstd::prelude::*;

verus! {

/// The code of infinity.
pub const INFINITY: u32 = 0x7f80_0000;

/// The pattern that every invalid operation yields.
pub const NAN: u32 = 0x7fc0_0000;

/// The sign bit.
pub const SIGN: u32 = 0x8000_0000;

/// 2^23, from which on every single is an integer.
pub const WHOLE: u32 = 0x4b00_0000;

/// The patterns of a few small numbers.
pub const HALF: u32 = 0x3f00_0000;

pub const ONE: u32 = 0x3f80_0000;

pub const TWO: u32 = 0x4000_0000;

pub const FOUR: u32 = 0x4080_0000;

pub const SIX: u32 = 0x40c0_0000;

#[derive(Clone, Copy, Debug, PartialEq, Eq, Structural)]
pub struct Single {
    pub bits: u32,
}

/// The number with the given sign and magnitude code.
pub open spec fn signed(negative: bool, c: nat) -> Single {
    Single {
        bits: if negative {
            (c + SIGN) as u32
        } else {
            c as u32
        },
    }
}

/// The code of the single nearest to `n / d` units, infinity included.
pub open spec fn nearest(n: nat, d: nat) -> nat {
    let c = code(n, d, 24);
    if c < INFINITY {
        c
    } else {
        INFINITY as nat
    }
}

/// `n` held to a range.
pub open spec fn saturate(n: int, low: int, high: int) -> int {
    if n < low {
        low
    } else if n > high {
        high
    } else {
        n
    }
}

impl Single {
    pub open spec fn negative(self) -> bool {
        self.bits >= SIGN
    }

    /// The magnitude code, without the sign.
    pub open spec fn mag(self) -> nat {
        (self.bits % SIGN) as nat
    }

    pub open spec fn nan(self) -> bool {
        self.mag() > INFINITY
    }

    pub open spec fn infinite(self) -> bool {
        self.mag() == INFINITY
    }

    pub open spec fn finite(self) -> bool {
        self.mag() < INFINITY
    }

    pub open spec fn zero(self) -> bool {
        self.mag() == 0
    }

    /// The magnitude in units of 2^-149.
    pub open spec fn units(self) -> nat {
        magnitude(self.mag(), 24)
    }

    /// The signed value in units of 2^-149.
    pub open spec fn value(self) -> int {
        if self.negative() {
            -(self.units() as int)
        } else {
            self.units() as int
        }
    }

    pub open spec fn negate_spec(self) -> Single {
        signed(!self.negative(), self.mag())
    }

    /// The exact sum, rounded.  A sum of zero is negative only when both
    /// terms are.
    #[verifier::opaque]
    pub open spec fn plus_spec(self, other: Single) -> Single {
        if self.nan() || other.nan() {
            Single { bits: NAN }
        } else if self.infinite() {
            if other.infinite() && self.negative() != other.negative() {
                Single { bits: NAN }
            } else {
                self
            }
        } else if other.infinite() {
            other
        } else {
            let v = self.value() + other.value();
            if v == 0 {
                signed(self.negative() && other.negative(), 0)
            } else if v > 0 {
                signed(false, nearest(v as nat, 1))
            } else {
                signed(true, nearest((-v) as nat, 1))
            }
        }
    }

    pub open spec fn minus_spec(self, other: Single) -> Single {
        self.plus_spec(other.negate_spec())
    }

    /// The exact product, rounded.
    #[verifier::opaque]
    pub open spec fn times_spec(self, other: Single) -> Single {
        let negative = self.negative() != other.negative();
        if self.nan() || other.nan() {
            Single { bits: NAN }
        } else if self.infinite() || other.infinite() {
            if self.zero() || other.zero() {
                Single { bits: NAN }
            } else {
                signed(negative, INFINITY as nat)
            }
        } else {
            signed(negative, nearest(self.units() * other.units(), pow2(149)))
        }
    }

    /// The exact quotient, rounded.
    #[verifier::opaque]
    pub open spec fn over_spec(self, other: Single) -> Single {
        let negative = self.negative() != other.negative();
        if self.nan() || other.nan() {
            Single { bits: NAN }
        } else if self.infinite() {
            if other.infinite() {
                Single { bits: NAN }
            } else {
                signed(negative, INFINITY as nat)
            }
        } else if other.infinite() {
            signed(negative, 0)
        } else if other.zero() {
            if self.zero() {
                Single { bits: NAN }
            } else {
                signed(negative, INFINITY as nat)
            }
        } else {
            signed(negative, nearest(self.units() * pow2(149), other.units()))
        }
    }

    pub open spec fn lt_spec(self, other: Single) -> bool {
        !self.nan() && !other.nan() && self.value() < other.value()
    }

    pub open spec fn le_spec(self, other: Single) -> bool {
        !self.nan() && !other.nan() && self.value() <= other.value()
    }

    /// Equality of numbers: both zeros are equal, nothing equals a NaN.
    pub open spec fn same_spec(self, other: Single) -> bool {
        !self.nan() && !other.nan() && self.value() == other.value()
    }

    #[verifier::when_used_as_spec(negate_spec)]
    pub fn negate(self) -> (r: Single)
        ensures
            r == self.negate_spec(),
    {
        if self.bits >= SIGN {
            Single { bits: self.bits - SIGN }
        } else {
            Single { bits: self.bits + SIGN }
        }
    }

    /// The significand and the power of two of a finite magnitude.
    pub(crate) fn split(self) -> (r: (u32, u32))
        requires
            self.finite(),
        ensures
            r.0 < 0x100_0000,
            r.1 <= 253,
            r.1 > 0 ==> r.0 >= 0x80_0000,
            self.mag() == r.1 * 0x80_0000 + r.0,
            self.units() == r.0 * pow2(r.1 as nat),
    {
        let m: u32 = self.bits % SIGN;
        let e: u32 = m / 0x80_0000;
        assert(pow2(23) == 0x80_0000 && pow2(0) == 1) by {
            lemma2_to64();
        }
        if e == 0 {
            (m, 0)
        } else {
            (m % 0x80_0000 + 0x80_0000, e - 1)
        }
    }

    /// The sum of two finite numbers, the first of at least the magnitude of
    /// the second.
    fn plus_ordered(self, other: Single) -> (r: Single)
        requires
            self.finite(),
            other.finite(),
            other.mag() <= self.mag(),
        ensures
            r == self.plus_spec(other),
    {
        let (a, ea): (u32, u32) = self.split();
        let (b, eb): (u32, u32) = other.split();
        let negative: bool = self.bits >= SIGN;
        let opposite: bool = negative != (other.bits >= SIGN);
        proof {
            reveal(Single::plus_spec);
            if other.mag() < self.mag() {
                lemma_magnitude_increases(other.mag(), self.mag(), 24);
            }
            lemma_pow2_pos(ea as nat);
            lemma_pow2_pos(eb as nat);
        }
        let d: u32 = ea - eb;
        if d > 40 {
            proof {
                let small = other.units();
                assert(4 * small < pow2(ea as nat)) by {
                    lemma_pow2_adds(26, eb as nat);
                    lemma_pow2_strictly_increases((26 + eb) as nat, ea as nat);
                    assert(pow2(26) == 0x400_0000) by {
                        lemma2_to64();
                    }
                    assert(4 * small < 0x400_0000 * pow2(eb as nat)) by (nonlinear_arith)
                        requires
                            small == b * pow2(eb as nat),
                            b < 0x100_0000,
                            pow2(eb as nat) > 0,
                    ;
                }
                assert(pow2(23) == 0x80_0000 && pow2(24) == 0x100_0000) by {
                    lemma2_to64();
                }
                lemma_absorbed(a as nat, ea as nat, small, 24);
                assert(self.units() >= pow2(ea as nat)) by (nonlinear_arith)
                    requires
                        self.units() == a * pow2(ea as nat),
                        a >= 1,
                ;
            }
            return self;
        }
        proof {
            lemma_pow2_adds(d as nat, eb as nat);
            assert(pow2(d as nat) <= pow2(40)) by {
                if d < 40 {
                    lemma_pow2_strictly_increases(d as nat, 40);
                }
            }
            assert(pow2(40) == 0x100_0000_0000) by {
                lemma2_to64_rest();
            }
            lemma_one_shl_small(d);
            assert(a * pow2(d as nat) <= 0x100_0000 * 0x100_0000_0000) by (nonlinear_arith)
                requires
                    a <= 0x100_0000,
                    pow2(d as nat) <= 0x100_0000_0000,
            ;
            assert(self.units() == (a * pow2(d as nat)) * pow2(eb as nat)) by (nonlinear_arith)
                requires
                    self.units() == a * pow2(ea as nat),
                    pow2(ea as nat) == pow2(d as nat) * pow2(eb as nat),
            ;
            assert(a * pow2(d as nat) >= b) by (nonlinear_arith)
                requires
                    (a * pow2(d as nat)) * pow2(eb as nat) >= b * pow2(eb as nat),
                    pow2(eb as nat) > 0,
            ;
        }
        let wide: u128 = (a as u128) * ((1u64 << d) as u128);
        let x: u128 = if opposite {
            wide - b as u128
        } else {
            wide + b as u128
        };
        proof {
            let w = pow2(eb as nat);
            assert(x * w == self.units() + (if opposite {
                -(other.units() as int)
            } else {
                other.units() as int
            })) by (nonlinear_arith)
                requires
                    self.units() == wide * w,
                    other.units() == b * w,
                    x == (if opposite {
                        wide - b
                    } else {
                        wide + b
                    }),
            ;
            assert(x == 0 <==> x * w == 0) by (nonlinear_arith)
                requires
                    w > 0,
            ;
            assert(x * w >= 0) by (nonlinear_arith)
                requires
                    w > 0,
                    x >= 0,
            ;
        }
        if x == 0 {
            return pack(negative && !opposite, 0);
        }
        proof {
            assert(x < pow2(126)) by {
                lemma_pow2_strictly_increases(64 + 2, 126);
                lemma_pow2_adds(64, 2);
                lemma2_to64_rest();
                lemma2_to64();
            }
        }
        pack(negative, round_scaled(x, eb as i32, 24))
    }

    pub fn is_finite(self) -> (r: bool)
        ensures
            r == self.finite(),
    {
        self.bits % SIGN < INFINITY
    }

    pub fn is_nan(self) -> (r: bool)
        ensures
            r == self.nan(),
    {
        self.bits % SIGN > INFINITY
    }

    #[verifier::when_used_as_spec(plus_spec)]
    pub fn plus(self, other: Single) -> (r: Single)
        ensures
            r == self.plus_spec(other),
    {
        let m: u32 = self.bits % SIGN;
        let n: u32 = other.bits % SIGN;
        if m < INFINITY && n < INFINITY {
            if n <= m {
                return self.plus_ordered(other);
            }
            proof {
                lemma_plus_commutes(self, other);
            }
            return other.plus_ordered(self);
        }
        proof {
            reveal(Single::plus_spec);
        }
        if m > INFINITY || n > INFINITY {
            Single { bits: NAN }
        } else if m == INFINITY {
            if n == INFINITY && (self.bits >= SIGN) != (other.bits >= SIGN) {
                Single { bits: NAN }
            } else {
                self
            }
        } else {
            other
        }
    }

    #[verifier::when_used_as_spec(minus_spec)]
    pub fn minus(self, other: Single) -> (r: Single)
        ensures
            r == self.minus_spec(other),
    {
        self.plus(other.negate())
    }

    #[verifier::when_used_as_spec(times_spec)]
    pub fn times(self, other: Single) -> (r: Single)
        ensures
            r == self.times_spec(other),
    {
        proof {
            reveal(Single::times_spec);
        }
        let m: u32 = self.bits % SIGN;
        let n: u32 = other.bits % SIGN;
        let negative: bool = (self.bits >= SIGN) != (other.bits >= SIGN);
        if m > INFINITY || n > INFINITY {
            return Single { bits: NAN };
        }
        if m == INFINITY || n == INFINITY {
            if m == 0 || n == 0 {
                return Single { bits: NAN };
            }
            return pack(negative, INFINITY as u128);
        }
        let (a, ea): (u32, u32) = self.split();
        let (b, eb): (u32, u32) = other.split();
        proof {
            lemma_times_scaled(a as nat, ea as nat, b as nat, eb as nat, 149, 24);
            assert(a * b < 0x1_0000_0000_0000) by (nonlinear_arith)
                requires
                    a < 0x100_0000,
                    b < 0x100_0000,
            ;
            lemma_126();
        }
        let x: u128 = (a as u128) * (b as u128);
        pack(negative, round_scaled(x, ea as i32 + eb as i32 - 149, 24))
    }

    #[verifier::when_used_as_spec(over_spec)]
    pub fn over(self, other: Single) -> (r: Single)
        ensures
            r == self.over_spec(other),
    {
        proof {
            reveal(Single::over_spec);
        }
        let m: u32 = self.bits % SIGN;
        let n: u32 = other.bits % SIGN;
        let negative: bool = (self.bits >= SIGN) != (other.bits >= SIGN);
        if m > INFINITY || n > INFINITY {
            return Single { bits: NAN };
        }
        if m == INFINITY {
            if n == INFINITY {
                return Single { bits: NAN };
            }
            return pack(negative, INFINITY as u128);
        }
        if n == INFINITY {
            return pack(negative, 0);
        }
        if n == 0 {
            if m == 0 {
                return Single { bits: NAN };
            }
            return pack(negative, INFINITY as u128);
        }
        let (a, ea): (u32, u32) = self.split();
        let (b, eb): (u32, u32) = other.split();
        if m == 0 {
            proof {
                lemma_magnitude_zero();
                lemma_pow2_pos(eb as nat);
                assert(b > 0);
                lemma_times_nothing(self.units(), other.units(), b as nat, eb as nat);
            }
            return pack(negative, 0);
        }
        assert(a > 0 && b > 0);
        let wide: u128 = (a as u128) * 0x1_0000_0000_0000_0000;
        let q: u128 = wide / b as u128;
        let r: u128 = wide % b as u128;
        proof {
            lemma_fundamental_div_mod(wide as int, b as int);
            assert(q * b == b * q) by (nonlinear_arith);
            assert(q <= wide) by (nonlinear_arith)
                requires
                    wide == b * q + r,
                    b >= 1,
                    r >= 0,
            ;
            lemma_quotient(a as nat, b as nat, q as nat, r as nat);
            lemma_over_scaled(
                a as nat,
                ea as nat,
                b as nat,
                eb as nat,
                64,
                q as nat,
                r as nat,
                149,
                24,
            );
            lemma_126();
        }
        let x: u128 = if r > 0 {
            2 * q + 1
        } else {
            2 * q
        };
        pack(negative, round_scaled(x, ea as i32 - eb as i32 + 84, 24))
    }

    /// An order-preserving integer: equal for both zeros.
    fn rank(self) -> (r: i64)
        ensures
            r == (if self.negative() {
                -(self.mag() as int)
            } else {
                self.mag() as int
            }),
    {
        let m: u32 = self.bits % SIGN;
        if self.bits >= SIGN {
            -(m as i64)
        } else {
            m as i64
        }
    }

    #[verifier::when_used_as_spec(lt_spec)]
    pub fn lt(self, other: Single) -> (r: bool)
        ensures
            r == self.lt_spec(other),
    {
        if self.is_nan() || other.is_nan() {
            return false;
        }
        proof {
            lemma_value_order(self, other);
        }
        self.rank() < other.rank()
    }

    #[verifier::when_used_as_spec(le_spec)]
    pub fn le(self, other: Single) -> (r: bool)
        ensures
            r == self.le_spec(other),
    {
        if self.is_nan() || other.is_nan() {
            return false;
        }
        proof {
            lemma_value_order(self, other);
        }
        self.rank() <= other.rank()
    }

    #[verifier::when_used_as_spec(same_spec)]
    pub fn same(self, other: Single) -> (r: bool)
        ensures
            r == self.same_spec(other),
    {
        if self.is_nan() || other.is_nan() {
            return false;
        }
        proof {
            lemma_value_order(self, other);
        }
        self.rank() == other.rank()
    }

    /// The number cut to an integer towards zero; zero for a NaN.
    pub open spec fn truncated(self) -> int {
        if self.nan() {
            0
        } else if self.negative() {
            -((self.units() / pow2(149)) as int)
        } else {
            (self.units() / pow2(149)) as int
        }
    }

    /// The greatest integer not above the number; zero for a NaN.
    pub open spec fn floored(self) -> int {
        if self.nan() {
            0
        } else {
            self.value() / (pow2(149) as int)
        }
    }

    /// The single nearest to an integer.
    #[verifier::opaque]
    pub open spec fn of(n: int) -> Single {
        if n >= 0 {
            signed(false, nearest((n * pow2(149)) as nat, 1))
        } else {
            signed(true, nearest((-n * pow2(149)) as nat, 1))
        }
    }

    pub open spec fn from_u32_spec(n: u32) -> Single {
        Single::of(n as int)
    }

    pub open spec fn from_i32_spec(n: i32) -> Single {
        Single::of(n as int)
    }

    pub open spec fn to_u32_spec(self) -> u32 {
        saturate(self.truncated(), 0, u32::MAX as int) as u32
    }

    pub open spec fn to_u16_spec(self) -> u16 {
        saturate(self.truncated(), 0, u16::MAX as int) as u16
    }

    pub open spec fn to_u8_spec(self) -> u8 {
        saturate(self.truncated(), 0, u8::MAX as int) as u8
    }

    pub open spec fn to_i32_spec(self) -> i32 {
        saturate(self.truncated(), i32::MIN as int, i32::MAX as int) as i32
    }

    pub open spec fn floor_i32_spec(self) -> i32 {
        saturate(self.floored(), i32::MIN as int, i32::MAX as int) as i32
    }

    /// The least integer not below the number; zero for a NaN.
    pub open spec fn ceiled(self) -> int {
        if self.nan() {
            0
        } else {
            -((-self.value()) / (pow2(149) as int))
        }
    }

    pub open spec fn ceil_i32_spec(self) -> i32 {
        saturate(self.ceiled(), i32::MIN as int, i32::MAX as int) as i32
    }

    pub open spec fn clamp_spec(self, low: Single, high: Single) -> Single {
        if self.lt_spec(low) {
            low
        } else if high.lt_spec(self) {
            high
        } else {
            self
        }
    }

    /// The larger number; the other one when one is a NaN.
    pub open spec fn max_spec(self, other: Single) -> Single {
        if self.nan() {
            other
        } else if self.lt_spec(other) {
            other
        } else {
            self
        }
    }

    /// The smaller number; the other one when one is a NaN.
    pub open spec fn min_spec(self, other: Single) -> Single {
        if self.nan() {
            other
        } else if other.lt_spec(self) {
            other
        } else {
            self
        }
    }

    pub open spec fn abs_spec(self) -> Single {
        signed(false, self.mag())
    }

    #[verifier::when_used_as_spec(clamp_spec)]
    pub fn clamp(self, low: Single, high: Single) -> (r: Single)
        ensures
            r == self.clamp_spec(low, high),
    {
        if self.lt(low) {
            low
        } else if high.lt(self) {
            high
        } else {
            self
        }
    }

    #[verifier::when_used_as_spec(max_spec)]
    pub fn max(self, other: Single) -> (r: Single)
        ensures
            r == self.max_spec(other),
    {
        if self.is_nan() || self.lt(other) {
            other
        } else {
            self
        }
    }

    #[verifier::when_used_as_spec(min_spec)]
    pub fn min(self, other: Single) -> (r: Single)
        ensures
            r == self.min_spec(other),
    {
        if self.is_nan() || other.lt(self) {
            other
        } else {
            self
        }
    }

    #[verifier::when_used_as_spec(abs_spec)]
    pub fn abs(self) -> (r: Single)
        ensures
            r == self.abs_spec(),
    {
        Single { bits: self.bits % SIGN }
    }

    #[verifier::when_used_as_spec(from_u32_spec)]
    pub fn from_u32(n: u32) -> (r: Single)
        ensures
            r == Single::from_u32_spec(n),
    {
        proof {
            reveal(Single::of);
            lemma_126();
            lemma_pow2_pos(149);
            assert(n * pow2(149) >= 0) by (nonlinear_arith)
                requires
                    n >= 0,
                    pow2(149) > 0,
            ;
        }
        pack(false, round_scaled(n as u128, 149, 24))
    }

    /// The single nearest to a large integer.
    pub fn from_u64(n: u64) -> (r: Single)
        ensures
            r == Single::of(n as int),
    {
        proof {
            reveal(Single::of);
            lemma_126();
            lemma_pow2_pos(149);
            assert(n * pow2(149) >= 0) by (nonlinear_arith)
                requires
                    n >= 0,
                    pow2(149) > 0,
            ;
        }
        pack(false, round_scaled(n as u128, 149, 24))
    }

    #[verifier::when_used_as_spec(from_i32_spec)]
    pub fn from_i32(n: i32) -> (r: Single)
        ensures
            r == Single::from_i32_spec(n),
    {
        if n >= 0 {
            return Single::from_u32(n as u32);
        }
        proof {
            reveal(Single::of);
            lemma_126();
            lemma_pow2_pos(149);
            assert(-n * pow2(149) >= 0) by (nonlinear_arith)
                requires
                    n < 0,
                    pow2(149) > 0,
            ;
        }
        pack(true, round_scaled((-(n as i64)) as u128, 149, 24))
    }

    /// The integer part of the magnitude, no more than 2^40, and whether
    /// there is no fraction.
    fn whole(self) -> (r: (u64, bool))
        requires
            !self.nan(),
        ensures
            r.0 == (if self.units() / pow2(149) < 0x100_0000_0000 {
                self.units() / pow2(149)
            } else {
                0x100_0000_0000
            }),
            r.0 < 0x100_0000_0000 ==> r.1 == (self.units() % pow2(149) == 0),
    {
        proof {
            lemma_pow2_pos(149);
        }
        if self.bits % SIGN == INFINITY {
            proof {
                lemma_infinity_units();
                assert(pow2(40) == 0x100_0000_0000) by {
                    lemma2_to64_rest();
                }
                lemma_pow2_adds(128, 149);
                lemma_div_by_multiple(pow2(128) as int, pow2(149) as int);
                lemma_pow2_strictly_increases(40, 128);
            }
            return (0x100_0000_0000, true);
        }
        let (a, e): (u32, u32) = self.split();
        if e >= 149 {
            let sh: u32 = e - 149;
            proof {
                lemma_pow2_adds(sh as nat, 149);
                assert(self.units() == (a * pow2(sh as nat)) * pow2(149)) by (nonlinear_arith)
                    requires
                        self.units() == a * pow2(e as nat),
                        pow2(e as nat) == pow2(sh as nat) * pow2(149),
                ;
                lemma_fundamental_div_mod_converse(
                    self.units() as int,
                    pow2(149) as int,
                    (a * pow2(sh as nat)) as int,
                    0,
                );
                assert(pow2(40) == 0x100_0000_0000) by {
                    lemma2_to64_rest();
                }
            }
            if sh > 40 {
                proof {
                    lemma_pow2_strictly_increases(40, sh as nat);
                    assert(a * pow2(sh as nat) >= 0x100_0000_0000) by (nonlinear_arith)
                        requires
                            a >= 1,
                            pow2(sh as nat) >= 0x100_0000_0000,
                    ;
                }
                return (0x100_0000_0000, true);
            }
            proof {
                lemma_one_shl_small(sh);
                lemma_pow2_pos(sh as nat);
                if sh < 40 {
                    lemma_pow2_strictly_increases(sh as nat, 40);
                }
                assert(a * pow2(sh as nat) < 0x100_0000 * 0x100_0000_0000) by (nonlinear_arith)
                    requires
                        a < 0x100_0000,
                        0 < pow2(sh as nat) <= 0x100_0000_0000,
                ;
            }
            let w: u64 = (a as u64) * (1u64 << sh);
            if w < 0x100_0000_0000 {
                (w, true)
            } else {
                (0x100_0000_0000, true)
            }
        } else {
            let t: u32 = 149 - e;
            proof {
                lemma_pow2_pos(e as nat);
                lemma_pow2_pos(t as nat);
                lemma_pow2_adds(t as nat, e as nat);
                lemma_scale_div(a as nat, pow2(t as nat), pow2(e as nat));
                let rest = a as nat % pow2(t as nat);
                let w = pow2(e as nat);
                assert(rest * w == 0 <==> rest == 0) by (nonlinear_arith)
                    requires
                        w > 0,
                ;
            }
            if t >= 24 {
                proof {
                    assert(pow2(24) == 0x100_0000) by {
                        lemma2_to64();
                    }
                    if t > 24 {
                        lemma_pow2_strictly_increases(24, t as nat);
                    }
                    lemma_small_mod(a as nat, pow2(t as nat));
                    lemma_basic_div(a as int, pow2(t as nat) as int);
                }
                return (0, a == 0);
            }
            proof {
                lemma_one_shl_small(t);
            }
            let d: u64 = 1u64 << t;
            let w: u64 = a as u64 / d;
            proof {
                lemma_fundamental_div_mod(a as int, d as int);
                assert(w <= a) by (nonlinear_arith)
                    requires
                        a == d * w + a as int % (d as int),
                        a as int % (d as int) >= 0,
                        d >= 1,
                ;
            }
            (w, a as u64 % d == 0)
        }
    }

    #[verifier::when_used_as_spec(to_u32_spec)]
    pub fn to_u32(self) -> (r: u32)
        ensures
            r == self.to_u32_spec(),
    {
        proof {
            lemma_pow2_pos(149);
            lemma_div_pos_is_pos(self.units() as int, pow2(149) as int);
        }
        if self.is_nan() || self.bits >= SIGN {
            return 0;
        }
        let (w, _): (u64, bool) = self.whole();
        if w < u32::MAX as u64 {
            w as u32
        } else {
            u32::MAX
        }
    }

    #[verifier::when_used_as_spec(to_u16_spec)]
    pub fn to_u16(self) -> (r: u16)
        ensures
            r == self.to_u16_spec(),
    {
        let w: u32 = self.to_u32();
        if w < 0xffff {
            w as u16
        } else {
            0xffff
        }
    }

    #[verifier::when_used_as_spec(to_u8_spec)]
    pub fn to_u8(self) -> (r: u8)
        ensures
            r == self.to_u8_spec(),
    {
        let w: u32 = self.to_u32();
        if w < 0xff {
            w as u8
        } else {
            0xff
        }
    }

    #[verifier::when_used_as_spec(to_i32_spec)]
    pub fn to_i32(self) -> (r: i32)
        ensures
            r == self.to_i32_spec(),
    {
        if self.is_nan() {
            return 0;
        }
        let (w, _): (u64, bool) = self.whole();
        if self.bits >= SIGN {
            if w < 0x8000_0000 {
                -(w as i32)
            } else {
                i32::MIN
            }
        } else if w < 0x8000_0000 {
            w as i32
        } else {
            i32::MAX
        }
    }

    #[verifier::when_used_as_spec(floor_i32_spec)]
    pub fn floor_i32(self) -> (r: i32)
        ensures
            r == self.floor_i32_spec(),
    {
        if self.is_nan() {
            return 0;
        }
        let (w, exact): (u64, bool) = self.whole();
        if self.bits >= SIGN {
            proof {
                lemma_pow2_pos(149);
                lemma_floor_of_negative(self.units(), pow2(149));
            }
            if w >= 0x8000_0000 {
                i32::MIN
            } else if exact {
                -(w as i32)
            } else {
                -(w as i32) - 1
            }
        } else if w < 0x8000_0000 {
            w as i32
        } else {
            i32::MAX
        }
    }

    /// The greatest integer not above the number, as a single.
    #[verifier::opaque]
    pub open spec fn floor_spec(self) -> Single {
        if !self.finite() || self.zero() {
            self
        } else {
            Single::of(self.floored())
        }
    }

    #[verifier::when_used_as_spec(floor_spec)]
    pub fn floor(self) -> (r: Single)
        ensures
            r == self.floor_spec(),
    {
        proof {
            reveal(Single::floor_spec);
        }
        let m: u32 = self.bits % SIGN;
        if m >= WHOLE {
            proof {
                if self.finite() {
                    lemma_whole(self);
                }
            }
            return self;
        }
        if m == 0 {
            return self;
        }
        proof {
            lemma_below_whole(self);
        }
        Single::from_i32(self.floor_i32())
    }

    /// The magnitude rounded to an integer, halves up.
    pub open spec fn rounded_mag(self) -> nat {
        ((2 * self.units() + pow2(149)) as nat) / pow2(150)
    }

    /// The nearest integer, halves away from zero, as a single.
    #[verifier::opaque]
    pub open spec fn round_spec(self) -> Single {
        if !self.finite() {
            self
        } else {
            signed(self.negative(), Single::of(self.rounded_mag() as int).mag())
        }
    }

    #[verifier::when_used_as_spec(round_spec)]
    pub fn round(self) -> (r: Single)
        ensures
            r == self.round_spec(),
    {
        proof {
            reveal(Single::round_spec);
        }
        let m: u32 = self.bits % SIGN;
        if m >= WHOLE {
            proof {
                if self.finite() {
                    lemma_whole(self);
                }
            }
            return self;
        }
        let (a, e): (u32, u32) = self.split();
        proof {
            lemma_below_whole(self);
        }
        let w: u32 = if e < 124 {
            proof {
                lemma_below_half(a as nat, e as nat);
            }
            0
        } else {
            let t: u32 = 150 - e;
            proof {
                lemma_one_shl_small(t);
                lemma_rounded_mag(a as nat, e as nat, t as nat);
            }
            let d: u64 = 1u64 << t;
            let w: u64 = (2 * a as u64 + d / 2) / d;
            w as u32
        };
        let r = Single::from_u32(w);
        proof {
            lemma_of_exact(w as nat);
        }
        if self.bits >= SIGN {
            Single { bits: r.bits + SIGN }
        } else {
            r
        }
    }

    #[verifier::when_used_as_spec(ceil_i32_spec)]
    pub fn ceil_i32(self) -> (r: i32)
        ensures
            r == self.ceil_i32_spec(),
    {
        if self.is_nan() {
            return 0;
        }
        let (w, exact): (u64, bool) = self.whole();
        if self.bits >= SIGN {
            if w < 0x8000_0000 {
                -(w as i32)
            } else {
                i32::MIN
            }
        } else {
            proof {
                lemma_pow2_pos(149);
                lemma_floor_of_negative(self.units(), pow2(149));
            }
            if w >= 0x7fff_ffff {
                i32::MAX
            } else if exact {
                w as i32
            } else {
                w as i32 + 1
            }
        }
    }

    /// What is left of the number after whole multiples of `other`, with the
    /// sign of the number.
    #[verifier::opaque]
    pub open spec fn rem_spec(self, other: Single) -> Single {
        if self.nan() || other.nan() || self.infinite() || other.zero() {
            Single { bits: NAN }
        } else if other.infinite() {
            self
        } else {
            signed(self.negative(), nearest(self.units() % other.units(), 1))
        }
    }

    /// The remainder brought to `[0, |other|]`.
    pub open spec fn rem_euclid_spec(self, other: Single) -> Single {
        let r = self.rem_spec(other);
        if r.lt_spec(Single { bits: 0 }) {
            r.plus_spec(other.abs_spec())
        } else {
            r
        }
    }

    #[verifier::when_used_as_spec(rem_spec)]
    pub fn rem(self, other: Single) -> (r: Single)
        ensures
            r == self.rem_spec(other),
    {
        proof {
            reveal(Single::rem_spec);
        }
        let m: u32 = self.bits % SIGN;
        let n: u32 = other.bits % SIGN;
        if m >= INFINITY || n > INFINITY || n == 0 {
            return Single { bits: NAN };
        }
        if n == INFINITY {
            return self;
        }
        let negative: bool = self.bits >= SIGN;
        let (a, ea): (u32, u32) = self.split();
        let (b, eb): (u32, u32) = other.split();
        proof {
            lemma_pow2_pos(ea as nat);
            lemma_pow2_pos(eb as nat);
            lemma_126();
        }
        assert(b > 0) by {
            if b == 0 {
                assert(eb == 0);
            }
        }
        if ea >= eb {
            let d: u32 = ea - eb;
            let r: u64 = doubled_rem(a as u64, b as u64, d);
            proof {
                lemma_pow2_adds(d as nat, eb as nat);
                lemma_scale_div((a * pow2(d as nat)) as nat, b as nat, pow2(eb as nat));
                assert(self.units() == (a * pow2(d as nat)) * pow2(eb as nat)) by (nonlinear_arith)
                    requires
                        self.units() == a * pow2(ea as nat),
                        pow2(ea as nat) == pow2(d as nat) * pow2(eb as nat),
                ;
            }
            pack(negative, round_scaled(r as u128, eb as i32, 24))
        } else {
            let d: u32 = eb - ea;
            proof {
                lemma_pow2_adds(d as nat, ea as nat);
                lemma_pow2_pos(d as nat);
                assert(other.units() == (b * pow2(d as nat)) * pow2(ea as nat)) by (nonlinear_arith)
                    requires
                        other.units() == b * pow2(eb as nat),
                        pow2(eb as nat) == pow2(d as nat) * pow2(ea as nat),
                ;
                assert(b * pow2(d as nat) > 0) by (nonlinear_arith)
                    requires
                        b > 0,
                        pow2(d as nat) > 0,
                ;
                lemma_scale_div(a as nat, (b * pow2(d as nat)) as nat, pow2(ea as nat));
            }
            if d > 24 {
                proof {
                    assert(pow2(24) == 0x100_0000) by {
                        lemma2_to64();
                    }
                    lemma_pow2_strictly_increases(24, d as nat);
                    assert(b * pow2(d as nat) > a) by (nonlinear_arith)
                        requires
                            b >= 1,
                            pow2(d as nat) > a,
                    ;
                    lemma_small_mod(a as nat, (b * pow2(d as nat)) as nat);
                }
                return pack(negative, round_scaled(a as u128, ea as i32, 24));
            }
            proof {
                lemma_one_shl_small(d);
                assert(pow2(40) == 0x100_0000_0000) by {
                    lemma2_to64_rest();
                }
                lemma_pow2_strictly_increases(d as nat, 40);
                assert(b * pow2(d as nat) < 0x100_0000 * 0x100_0000_0000) by (nonlinear_arith)
                    requires
                        b < 0x100_0000,
                        0 < pow2(d as nat) < 0x100_0000_0000,
                ;
            }
            let w: u64 = (b as u64) * (1u64 << d);
            let r: u64 = a as u64 % w;
            pack(negative, round_scaled(r as u128, ea as i32, 24))
        }
    }

    #[verifier::when_used_as_spec(rem_euclid_spec)]
    pub fn rem_euclid(self, other: Single) -> (r: Single)
        ensures
            r == self.rem_euclid_spec(other),
    {
        let r = self.rem(other);
        if r.lt(Single { bits: 0 }) {
            r.plus(other.abs())
        } else {
            r
        }
    }
}

/// A code with a sign, infinity where the code is too large.
fn pack(negative: bool, c: u128) -> (r: Single)
    ensures
        r == signed(
            negative,
            if c < INFINITY {
                c as nat
            } else {
                INFINITY as nat
            },
        ),
{
    let m: u32 = if c < INFINITY as u128 {
        c as u32
    } else {
        INFINITY
    };
    if negative {
        Single { bits: m + SIGN }
    } else {
        Single { bits: m }
    }
}

/// `a * 2^d` modulo `b`.
fn doubled_rem(a: u64, b: u64, d: u32) -> (r: u64)
    requires
        0 < b < 0x100_0000,
    ensures
        r == (a * pow2(d as nat)) as nat % (b as nat),
        r < b,
{
    let mut r: u64 = a % b;
    let mut i: u32 = 0;
    assert(pow2(0) == 1) by {
        lemma2_to64();
    }
    while i < d
        invariant
            i <= d,
            0 < b < 0x100_0000,
            r < b,
            r == (a * pow2(i as nat)) as nat % (b as nat),
        decreases d - i,
    {
        proof {
            lemma_pow2_unfold((i + 1) as nat);
            let x = (a * pow2(i as nat)) as int;
            assert(a * pow2((i + 1) as nat) == x * 2) by (nonlinear_arith)
                requires
                    x == a * pow2(i as nat),
                    pow2((i + 1) as nat) == 2 * pow2(i as nat),
            ;
            lemma_mul_mod_noop_left(x, 2, b as int);
            assert(r * 2 == 2 * r);
        }
        r = (2 * r) % b;
        i += 1;
    }
    r
}

/// A sum does not depend on the order of its terms.
pub proof fn lemma_plus_commutes(a: Single, b: Single)
    ensures
        a.plus_spec(b) == b.plus_spec(a),
{
    reveal(Single::plus_spec);
}

proof fn lemma_quotient(a: nat, b: nat, q: nat, r: nat)
    requires
        0 < a,
        0 < b < 0x100_0000,
        a * 0x1_0000_0000_0000_0000 == q * b + r,
        r < b,
    ensures
        q >= pow2(25),
        pow2(64) == 0x1_0000_0000_0000_0000,
{
    assert(pow2(25) == 0x200_0000 && pow2(64) == 0x1_0000_0000_0000_0000) by {
        lemma2_to64();
        lemma2_to64_rest();
    }
    assert(q >= pow2(25)) by (nonlinear_arith)
        requires
            a * 0x1_0000_0000_0000_0000 == q * b + r,
            0 < a,
            r < b,
            b < 0x100_0000,
            pow2(25) == 0x200_0000,
    ;
}

/// Values are ordered as their signed codes.
proof fn lemma_value_order(a: Single, b: Single)
    ensures
        ({
            let ra = if a.negative() {
                -(a.mag() as int)
            } else {
                a.mag() as int
            };
            let rb = if b.negative() {
                -(b.mag() as int)
            } else {
                b.mag() as int
            };
            &&& ra < rb <==> a.value() < b.value()
            &&& ra == rb <==> a.value() == b.value()
        }),
{
    lemma_magnitude_zero();
    if a.mag() > 0 {
        lemma_magnitude_increases(0, a.mag(), 24);
    }
    if b.mag() > 0 {
        lemma_magnitude_increases(0, b.mag(), 24);
    }
    if a.mag() < b.mag() {
        lemma_magnitude_increases(a.mag(), b.mag(), 24);
    }
    if b.mag() < a.mag() {
        lemma_magnitude_increases(b.mag(), a.mag(), 24);
    }
}

pub proof fn lemma_magnitude_zero()
    ensures
        magnitude(0, 24) == 0,
{
    lemma_pow2_pos(23);
    lemma_basic_div(0, pow2(23) as int);
}

/// A magnitude of at most 24 significant bits is its own nearest one.
pub proof fn lemma_nearest_exact(n: nat, d: nat, x: nat, k: nat)
    requires
        d > 0,
        x < 0x100_0000,
        k <= 253,
        n == (x * pow2(k)) * d,
    ensures
        nearest(n, d) < INFINITY,
        magnitude(nearest(n, d), 24) == x * pow2(k),
{
    let m = x * pow2(k);
    assert(pow2(24) == 0x100_0000) by {
        lemma2_to64();
    }
    lemma_short_is_exact(x, k, 24);
    assert(m * d == n && 1 * d == d);
    lemma_code_scale(m, 1, d, 24);
    let c = code(m, 1, 24);
    lemma_infinity_units();
    lemma_pow2_adds(24, k);
    lemma_pow2_pos(k);
    assert(m < pow2(24 + k)) by (nonlinear_arith)
        requires
            m == x * pow2(k),
            x < pow2(24),
            pow2(k) > 0,
            pow2(24 + k) == pow2(24) * pow2(k),
    ;
    if k < 253 {
        lemma_pow2_strictly_increases(24 + k, 277);
    }
    if c > INFINITY {
        lemma_magnitude_increases(INFINITY as nat, c, 24);
    }
}

/// An integer of at most 24 bits is a single.
pub proof fn lemma_of_exact(n: nat)
    requires
        n < 0x100_0000,
    ensures
        Single::of(n as int).finite(),
        !Single::of(n as int).negative(),
        Single::of(n as int).units() == n * pow2(149),
{
    reveal(Single::of);
    assert((n * pow2(149)) * 1 == n * pow2(149));
    lemma_nearest_exact(n * pow2(149), 1, n, 149);
}

/// The magnitude that the code of infinity would stand for.
pub proof fn lemma_infinity_units()
    ensures
        magnitude(INFINITY as nat, 24) == pow2(277),
{
    assert(pow2(23) == 0x80_0000) by {
        lemma2_to64();
    }
    lemma_pow2_adds(23, 254);
    assert(INFINITY as nat / 0x80_0000 == 255 && INFINITY as nat % 0x80_0000 == 0);
    assert(magnitude(INFINITY as nat, 24) == (0 + pow2(23)) * pow2(254));
}

proof fn lemma_floor_of_negative(u: nat, d: nat)
    requires
        d > 0,
    ensures
        (-(u as int)) / (d as int) == (if u % d == 0 {
            -((u / d) as int)
        } else {
            -((u / d) as int) - 1
        }),
{
    lemma_fundamental_div_mod(u as int, d as int);
    let q = (u / d) as int;
    let r = (u % d) as int;
    if r == 0 {
        assert(-(u as int) == (-q) * d) by (nonlinear_arith)
            requires
                u == d * q + r,
                r == 0,
        ;
        lemma_fundamental_div_mod_converse(-(u as int), d as int, -q, 0);
    } else {
        assert(-(u as int) == (-q - 1) * d + (d - r)) by (nonlinear_arith)
            requires
                u == d * q + r,
        ;
        lemma_fundamental_div_mod_converse(-(u as int), d as int, -q - 1, d - r);
    }
}

proof fn lemma_times_nothing(z: nat, u: nat, b: nat, eb: nat)
    requires
        z == 0,
        u == b * pow2(eb),
        b > 0,
    ensures
        nearest(z * pow2(149), u) == 0,
{
    lemma_pow2_pos(eb);
    assert(u > 0) by (nonlinear_arith)
        requires
            u == b * pow2(eb),
            b > 0,
            pow2(eb) > 0,
    ;
    assert(z * pow2(149) == 0) by (nonlinear_arith)
        requires
            z == 0,
    ;
    lemma_basic_div(0, u as int);
    lemma2_to64();
    assert(u * pow2(0) == u) by (nonlinear_arith)
        requires
            pow2(0) == 1,
    ;
    lemma_rne_exact(0, u);
    assert(0 * u == 0) by (nonlinear_arith);
    assert(0 * pow2(23) == 0) by (nonlinear_arith);
    assert(excess(0, 24) == 0);
    assert(code(0, u, 24) == 0);
}

proof fn lemma_126()
    ensures
        0x200_0000_0000_0000_0000_0000_0000 < pow2(126),
{
    lemma_pow2_adds(63, 63);
    lemma2_to64_rest();
    assert(0x8000_0000_0000_0000 * 0x8000_0000_0000_0000
        == 0x4000_0000_0000_0000_0000_0000_0000_0000) by (nonlinear_arith);
}

proof fn lemma_one_shl_small(d: u32)
    requires
        d <= 40,
    ensures
        1u64 << d == pow2(d as nat),
{
    vstd::bits::lemma_u64_pow2_no_overflow(d as nat);
    vstd::bits::lemma_u64_shl_is_mul(1, d as u64);
}

/// From 2^23 on, singles are integers.
proof fn lemma_whole(x: Single)
    requires
        x.finite(),
        x.mag() >= WHOLE,
    ensures
        x.units() % pow2(149) == 0,
        Single::of(x.floored()) == x,
        signed(x.negative(), Single::of(x.rounded_mag() as int).mag()) == x,
{
    let m = x.mag();
    let e = (m / 0x80_0000 - 1) as nat;
    let a = m % 0x80_0000 + 0x80_0000;
    assert(pow2(23) == 0x80_0000 && pow2(0) == 1) by {
        lemma2_to64();
    }
    let u = pow2(149);
    let k = (e - 149) as nat;
    lemma_pow2_pos(149);
    lemma_pow2_adds(k, 149);
    let n = a * pow2(k);
    assert(x.units() == n * u) by (nonlinear_arith)
        requires
            x.units() == a * pow2(e),
            pow2(e) == pow2(k) * u,
            n == a * pow2(k),
    ;
    lemma_fundamental_div_mod_converse(x.units() as int, u as int, n as int, 0);
    assert(-(n as int) * u == -(n * u)) by (nonlinear_arith);
    lemma_fundamental_div_mod_converse(-(x.units() as int), u as int, -(n as int), 0);
    lemma_code_exact(m, 24);
    reveal(Single::of);
    assert(x.units() > 0) by {
        lemma_magnitude_zero();
        lemma_magnitude_increases(0, m, 24);
    }
    assert(n > 0) by (nonlinear_arith)
        requires
            n * u > 0,
            u > 0,
    ;
    lemma_pow2_unfold(150);
    assert((2 * x.units() + u) as nat == n * pow2(150) + u) by (nonlinear_arith)
        requires
            x.units() == n * u,
            pow2(150) == 2 * u,
    ;
    lemma_fundamental_div_mod_converse(
        (2 * x.units() + u) as int,
        pow2(150) as int,
        n as int,
        u as int,
    );
}

/// Below 2^23 the integer part has fewer than 24 bits.
proof fn lemma_below_whole(x: Single)
    requires
        x.mag() < WHOLE,
    ensures
        x.finite(),
        -0x80_0000 <= x.floored() < 0x80_0000,
        x.rounded_mag() <= 0x80_0000,
{
    let u = pow2(149);
    lemma_pow2_pos(149);
    lemma_magnitude_increases(x.mag(), WHOLE as nat, 24);
    assert(pow2(23) == 0x80_0000) by {
        lemma2_to64();
    }
    assert(magnitude(WHOLE as nat, 24) == 0x80_0000 * u) by {
        assert(WHOLE as nat / 0x80_0000 == 150);
        assert(WHOLE as nat % 0x80_0000 == 0);
    }
    let v = x.value();
    assert(-(0x80_0000 * u) < v < 0x80_0000 * u);
    assert(-0x80_0000 * u == -(0x80_0000 * u)) by (nonlinear_arith);
    lemma_div_is_ordered(-0x80_0000 * u, v, u as int);
    lemma_fundamental_div_mod_converse(-0x80_0000 * u, u as int, -0x80_0000, 0);
    lemma_fundamental_div_mod(v, u as int);
    assert(v / (u as int) < 0x80_0000) by (nonlinear_arith)
        requires
            v == u * (v / (u as int)) + v % (u as int),
            v % (u as int) >= 0,
            v < 0x80_0000 * u,
            u > 0,
    ;
    lemma_pow2_unfold(150);
    let y = 2 * x.units() + u;
    lemma_fundamental_div_mod(y as int, pow2(150) as int);
    assert(x.rounded_mag() <= 0x80_0000) by (nonlinear_arith)
        requires
            y == pow2(150) * x.rounded_mag() + y as int % (pow2(150) as int),
            y as int % (pow2(150) as int) >= 0,
            y < 2 * (0x80_0000 * u) + u,
            pow2(150) == 2 * u,
            u > 0,
    ;
}

/// A magnitude below one half rounds to nothing.
proof fn lemma_below_half(a: nat, e: nat)
    requires
        a < 0x100_0000,
        e < 124,
    ensures
        ((2 * (a * pow2(e)) + pow2(149)) as nat) / pow2(150) == 0,
{
    lemma_pow2_adds(24, e);
    lemma_pow2_strictly_increases(24 + e, 148);
    lemma_pow2_unfold(149);
    lemma_pow2_unfold(150);
    lemma_pow2_pos(e);
    assert(pow2(24) == 0x100_0000) by {
        lemma2_to64();
    }
    assert(a * pow2(e) < pow2(24 + e)) by (nonlinear_arith)
        requires
            a < pow2(24),
            pow2(24 + e) == pow2(24) * pow2(e),
            pow2(e) > 0,
    ;
    lemma_basic_div((2 * (a * pow2(e)) + pow2(149)) as int, pow2(150) as int);
}

/// Rounding a significand to an integer.
proof fn lemma_rounded_mag(a: nat, e: nat, t: nat)
    requires
        a < 0x100_0000,
        e + t == 150,
        1 <= t <= 26,
    ensures
        0 < pow2(t) < 0x1000_0000,
        ((2 * (a * pow2(e)) + pow2(149)) as nat) / pow2(150) == (2 * a + pow2(t) / 2) / pow2(t),
{
    lemma_pow2_adds(t, e);
    lemma_pow2_pos(e);
    lemma_pow2_pos(t);
    lemma_pow2_unfold(t);
    lemma_pow2_adds((t - 1) as nat, e);
    let h = pow2((t - 1) as nat);
    assert(pow2(t) == 2 * h && pow2(t) / 2 == h);
    assert((t - 1) as nat + e == 149);
    assert(2 * (a * pow2(e)) + pow2(149) == (2 * a + h) * pow2(e)) by (nonlinear_arith)
        requires
            pow2(149) == h * pow2(e),
    ;
    lemma_scale_div(2 * a + h, pow2(t), pow2(e));
    assert(pow2(t) <= pow2(26)) by {
        if t < 26 {
            lemma_pow2_strictly_increases(t, 26);
        }
    }
    assert(pow2(26) == 0x400_0000) by {
        lemma2_to64();
    }
}

/// A product does not depend on the order of its factors.
pub proof fn law_times_commutes(a: Single, b: Single)
    ensures
        a.times_spec(b) == b.times_spec(a),
{
    reveal(Single::times_spec);
    assert(a.units() * b.units() == b.units() * a.units()) by (nonlinear_arith);
}

/// Adding nothing changes no number but the negative zero.
pub proof fn law_plus_nothing(a: Single)
    requires
        !a.nan(),
        a != (Single { bits: SIGN }),
    ensures
        a.plus_spec(Single { bits: 0 }) == a,
{
    reveal(Single::plus_spec);
    let zero = Single { bits: 0 };
    lemma_magnitude_zero();
    if a.finite() {
        lemma_code_exact(a.mag(), 24);
        if a.mag() > 0 {
            lemma_magnitude_increases(0, a.mag(), 24);
        }
    }
}

/// Multiplying by one changes no number.
pub proof fn law_times_one(a: Single)
    requires
        !a.nan(),
    ensures
        a.times_spec(Single { bits: ONE }) == a,
{
    reveal(Single::times_spec);
    let one = Single { bits: ONE };
    assert(pow2(23) == 0x80_0000) by {
        lemma2_to64();
    }
    lemma_pow2_pos(149);
    lemma_pow2_adds(23, 126);
    assert(ONE as nat / 0x80_0000 == 127 && ONE as nat % 0x80_0000 == 0);
    assert(one.units() == pow2(149));
    if a.finite() {
        let u = a.units();
        assert(u * pow2(149) == u * pow2(149) && 1 * pow2(149) == pow2(149));
        lemma_code_scale(u, 1, pow2(149), 24);
        lemma_code_exact(a.mag(), 24);
    }
}

/// Dividing by one changes no number.
pub proof fn law_over_one(a: Single)
    requires
        !a.nan(),
    ensures
        a.over_spec(Single { bits: ONE }) == a,
{
    reveal(Single::over_spec);
    let one = Single { bits: ONE };
    assert(pow2(23) == 0x80_0000) by {
        lemma2_to64();
    }
    lemma_pow2_pos(149);
    lemma_pow2_adds(23, 126);
    assert(ONE as nat / 0x80_0000 == 127 && ONE as nat % 0x80_0000 == 0);
    assert(one.units() == pow2(149));
    if a.finite() {
        let u = a.units();
        assert(1 * pow2(149) == pow2(149));
        lemma_code_scale(u, 1, pow2(149), 24);
        lemma_code_exact(a.mag(), 24);
    }
}

/// Zero times a finite number is zero, of either sign.
pub proof fn law_times_nothing(a: Single, b: Single)
    requires
        a.zero(),
        b.finite(),
    ensures
        a.times_spec(b).zero(),
{
    reveal(Single::times_spec);
    lemma_magnitude_zero();
    lemma_pow2_pos(149);
    assert(0 * b.units() == 0) by (nonlinear_arith);
    assert(0 * pow2(149) == 0 && 1 * pow2(149) == pow2(149));
    lemma_code_scale(0, 1, pow2(149), 24);
    lemma_code_exact(0, 24);
}

/// A finite number less itself is zero.
pub proof fn law_minus_itself(a: Single)
    requires
        a.finite(),
    ensures
        a.minus_spec(a) == (Single { bits: 0 }),
{
    reveal(Single::plus_spec);
    lemma_magnitude_zero();
}

} // verus!
