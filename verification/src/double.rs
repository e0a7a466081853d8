//! Double-precision binary floating point, computed on integer bit patterns.
//!
//! A [`Double`] is the 64-bit interchange pattern of a number: one sign bit,
//! then a 63-bit magnitude code with 53 significant bits and a unit of
//! 2^-1074.
use crate::rounding::{
    bit_length, code, lemma_absorbed, lemma_code_exact, lemma_code_scale, lemma_magnitude_increases,
    lemma_one_shl, lemma_over_scaled, lemma_times_scaled, magnitude, round_scaled,
};
use crate::single::{nearest, signed, Single, INFINITY, NAN, SIGN};
use vstd::arithmetic::div_mod::*;
use vstd::arithmetic::power2::*;
use vstd::prelude::*;

verus! {

/// The code of infinity.
pub const WIDE_INFINITY: u64 = 0x7ff0_0000_0000_0000;

/// The pattern that every invalid operation yields.
pub const WIDE_NAN: u64 = 0x7ff8_0000_0000_0000;

/// The sign bit.
pub const WIDE_SIGN: u64 = 0x8000_0000_0000_0000;

#[derive(Clone, Copy, Debug, PartialEq, Eq, Structural)]
pub struct Double {
    pub bits: u64,
}

/// The number with the given sign and magnitude code.
pub open spec fn wide_signed(negative: bool, c: nat) -> Double {
    Double {
        bits: if negative {
            (c + WIDE_SIGN) as u64
        } else {
            c as u64
        },
    }
}

/// The code of the double nearest to `n / d` units, infinity included.
pub open spec fn wide_nearest(n: nat, d: nat) -> nat {
    let c = code(n, d, 53);
    if c < WIDE_INFINITY {
        c
    } else {
        WIDE_INFINITY as nat
    }
}

proof fn lemma_wide_constants()
    ensures
        pow2(52) == 0x10_0000_0000_0000,
        pow2(53) == 0x20_0000_0000_0000,
        pow2(0) == 1,
        0x40_0000_0000_0000_0000_0000_0000_0000 < pow2(126),
{
    lemma2_to64();
    lemma2_to64_rest();
    lemma_pow2_adds(63, 63);
    assert(0x8000_0000_0000_0000 * 0x8000_0000_0000_0000
        == 0x4000_0000_0000_0000_0000_0000_0000_0000) by (nonlinear_arith);
}

impl Double {
    pub open spec fn negative(self) -> bool {
        self.bits >= WIDE_SIGN
    }

    /// The magnitude code, without the sign.
    pub open spec fn mag(self) -> nat {
        (self.bits % WIDE_SIGN) as nat
    }

    pub open spec fn nan(self) -> bool {
        self.mag() > WIDE_INFINITY
    }

    pub open spec fn infinite(self) -> bool {
        self.mag() == WIDE_INFINITY
    }

    pub open spec fn finite(self) -> bool {
        self.mag() < WIDE_INFINITY
    }

    pub open spec fn zero(self) -> bool {
        self.mag() == 0
    }

    /// The magnitude in units of 2^-1074.
    pub open spec fn units(self) -> nat {
        magnitude(self.mag(), 53)
    }

    /// The signed value in units of 2^-1074.
    pub open spec fn value(self) -> int {
        if self.negative() {
            -(self.units() as int)
        } else {
            self.units() as int
        }
    }

    pub open spec fn negate_spec(self) -> Double {
        wide_signed(!self.negative(), self.mag())
    }

    /// The exact sum, rounded.
    #[verifier::opaque]
    pub open spec fn plus_spec(self, other: Double) -> Double {
        if self.nan() || other.nan() {
            Double { bits: WIDE_NAN }
        } else if self.infinite() {
            if other.infinite() && self.negative() != other.negative() {
                Double { bits: WIDE_NAN }
            } else {
                self
            }
        } else if other.infinite() {
            other
        } else {
            let v = self.value() + other.value();
            if v == 0 {
                wide_signed(self.negative() && other.negative(), 0)
            } else if v > 0 {
                wide_signed(false, wide_nearest(v as nat, 1))
            } else {
                wide_signed(true, wide_nearest((-v) as nat, 1))
            }
        }
    }

    pub open spec fn minus_spec(self, other: Double) -> Double {
        self.plus_spec(other.negate_spec())
    }

    /// The exact product, rounded.
    #[verifier::opaque]
    pub open spec fn times_spec(self, other: Double) -> Double {
        let negative = self.negative() != other.negative();
        if self.nan() || other.nan() {
            Double { bits: WIDE_NAN }
        } else if self.infinite() || other.infinite() {
            if self.zero() || other.zero() {
                Double { bits: WIDE_NAN }
            } else {
                wide_signed(negative, WIDE_INFINITY as nat)
            }
        } else {
            wide_signed(negative, wide_nearest(self.units() * other.units(), pow2(1074)))
        }
    }

    /// The exact quotient, rounded.
    #[verifier::opaque]
    pub open spec fn over_spec(self, other: Double) -> Double {
        let negative = self.negative() != other.negative();
        if self.nan() || other.nan() {
            Double { bits: WIDE_NAN }
        } else if self.infinite() {
            if other.infinite() {
                Double { bits: WIDE_NAN }
            } else {
                wide_signed(negative, WIDE_INFINITY as nat)
            }
        } else if other.infinite() {
            wide_signed(negative, 0)
        } else if other.zero() {
            if self.zero() {
                Double { bits: WIDE_NAN }
            } else {
                wide_signed(negative, WIDE_INFINITY as nat)
            }
        } else {
            wide_signed(negative, wide_nearest(self.units() * pow2(1074), other.units()))
        }
    }

    /// The nearest single.
    #[verifier::opaque]
    pub open spec fn narrow_spec(self) -> Single {
        if self.nan() {
            Single { bits: NAN }
        } else if self.infinite() {
            signed(self.negative(), INFINITY as nat)
        } else {
            signed(self.negative(), nearest(self.units(), pow2(925)))
        }
    }

    /// A single as a double; always exact.
    #[verifier::opaque]
    pub open spec fn widen(s: Single) -> Double {
        if s.nan() {
            Double { bits: WIDE_NAN }
        } else if s.infinite() {
            wide_signed(s.negative(), WIDE_INFINITY as nat)
        } else {
            wide_signed(s.negative(), wide_nearest(s.units() * pow2(925), 1))
        }
    }

    pub open spec fn lt_spec(self, other: Double) -> bool {
        !self.nan() && !other.nan() && self.value() < other.value()
    }

    pub open spec fn le_spec(self, other: Double) -> bool {
        !self.nan() && !other.nan() && self.value() <= other.value()
    }

    #[verifier::when_used_as_spec(negate_spec)]
    pub fn negate(self) -> (r: Double)
        ensures
            r == self.negate_spec(),
    {
        if self.bits >= WIDE_SIGN {
            Double { bits: self.bits - WIDE_SIGN }
        } else {
            Double { bits: self.bits + WIDE_SIGN }
        }
    }

    /// The significand and the power of two of a finite magnitude.
    fn split(self) -> (r: (u64, u32))
        requires
            self.finite(),
        ensures
            r.0 < 0x20_0000_0000_0000,
            r.1 <= 2045,
            r.1 > 0 ==> r.0 >= 0x10_0000_0000_0000,
            self.mag() == r.1 * 0x10_0000_0000_0000 + r.0,
            self.units() == r.0 * pow2(r.1 as nat),
    {
        let m: u64 = self.bits % WIDE_SIGN;
        let e: u64 = m / 0x10_0000_0000_0000;
        proof {
            lemma_wide_constants();
        }
        if e == 0 {
            (m, 0)
        } else {
            (m % 0x10_0000_0000_0000 + 0x10_0000_0000_0000, (e - 1) as u32)
        }
    }

    /// The sum of two finite numbers, the first of at least the magnitude of
    /// the second.
    fn plus_ordered(self, other: Double) -> (r: Double)
        requires
            self.finite(),
            other.finite(),
            other.mag() <= self.mag(),
        ensures
            r == self.plus_spec(other),
    {
        let (a, ea): (u64, u32) = self.split();
        let (b, eb): (u64, u32) = other.split();
        let negative: bool = self.bits >= WIDE_SIGN;
        let opposite: bool = negative != (other.bits >= WIDE_SIGN);
        proof {
            reveal(Double::plus_spec);
            if other.mag() < self.mag() {
                lemma_magnitude_increases(other.mag(), self.mag(), 53);
            }
            lemma_pow2_pos(ea as nat);
            lemma_pow2_pos(eb as nat);
            lemma_wide_constants();
        }
        let d: u32 = ea - eb;
        if d > 62 {
            proof {
                let small = other.units();
                assert(4 * small < pow2(ea as nat)) by {
                    lemma_pow2_adds(55, eb as nat);
                    lemma_pow2_strictly_increases((55 + eb) as nat, ea as nat);
                    assert(pow2(55) == 0x80_0000_0000_0000) by {
                        lemma2_to64_rest();
                    }
                    assert(4 * small < 0x80_0000_0000_0000 * pow2(eb as nat)) by (nonlinear_arith)
                        requires
                            small == b * pow2(eb as nat),
                            b < 0x20_0000_0000_0000,
                            pow2(eb as nat) > 0,
                    ;
                }
                lemma_absorbed(a as nat, ea as nat, small, 53);
                assert(self.units() >= pow2(ea as nat)) by (nonlinear_arith)
                    requires
                        self.units() == a * pow2(ea as nat),
                        a >= 1,
                ;
            }
            return self;
        }
        proof {
            lemma_pow2_adds(d as nat, eb as nat);
            assert(pow2(d as nat) <= pow2(62)) by {
                if d < 62 {
                    lemma_pow2_strictly_increases(d as nat, 62);
                }
            }
            assert(pow2(62) == 0x4000_0000_0000_0000) by {
                lemma2_to64_rest();
            }
            vstd::bits::lemma_u64_pow2_no_overflow(d as nat);
            vstd::bits::lemma_u64_shl_is_mul(1, d as u64);
            assert(a * pow2(d as nat) <= 0x20_0000_0000_0000 * 0x4000_0000_0000_0000)
                by (nonlinear_arith)
                requires
                    a <= 0x20_0000_0000_0000,
                    pow2(d as nat) <= 0x4000_0000_0000_0000,
            ;
            assert(self.units() == (a * pow2(d as nat)) * pow2(eb as nat)) by (nonlinear_arith)
                requires
                    self.units() == a * pow2(ea as nat),
                    pow2(ea as nat) == pow2(d as nat) * pow2(eb as nat),
            ;
            assert(a * pow2(d as nat) >= b) by (nonlinear_arith)
                requires
                    (a * pow2(d as nat)) * pow2(eb as nat) >= b * pow2(eb as nat),
                    pow2(eb as nat) > 0,
            ;
        }
        let wide: u128 = (a as u128) * ((1u64 << d) as u128);
        let x: u128 = if opposite {
            wide - b as u128
        } else {
            wide + b as u128
        };
        proof {
            let w = pow2(eb as nat);
            assert(x * w == self.units() + (if opposite {
                -(other.units() as int)
            } else {
                other.units() as int
            })) by (nonlinear_arith)
                requires
                    self.units() == wide * w,
                    other.units() == b * w,
                    x == (if opposite {
                        wide - b
                    } else {
                        wide + b
                    }),
            ;
            assert(x == 0 <==> x * w == 0) by (nonlinear_arith)
                requires
                    w > 0,
            ;
            assert(x * w >= 0) by (nonlinear_arith)
                requires
                    w > 0,
                    x >= 0,
            ;
        }
        if x == 0 {
            return wide_pack(negative && !opposite, 0);
        }
        wide_pack(negative, round_scaled(x, eb as i32, 53))
    }

    #[verifier::when_used_as_spec(plus_spec)]
    pub fn plus(self, other: Double) -> (r: Double)
        ensures
            r == self.plus_spec(other),
    {
        let m: u64 = self.bits % WIDE_SIGN;
        let n: u64 = other.bits % WIDE_SIGN;
        if m < WIDE_INFINITY && n < WIDE_INFINITY {
            if n <= m {
                return self.plus_ordered(other);
            }
            proof {
                lemma_wide_plus_commutes(self, other);
            }
            return other.plus_ordered(self);
        }
        proof {
            reveal(Double::plus_spec);
        }
        if m > WIDE_INFINITY || n > WIDE_INFINITY {
            Double { bits: WIDE_NAN }
        } else if m == WIDE_INFINITY {
            if n == WIDE_INFINITY && (self.bits >= WIDE_SIGN) != (other.bits >= WIDE_SIGN) {
                Double { bits: WIDE_NAN }
            } else {
                self
            }
        } else {
            other
        }
    }

    #[verifier::when_used_as_spec(minus_spec)]
    pub fn minus(self, other: Double) -> (r: Double)
        ensures
            r == self.minus_spec(other),
    {
        self.plus(other.negate())
    }

    #[verifier::when_used_as_spec(times_spec)]
    pub fn times(self, other: Double) -> (r: Double)
        ensures
            r == self.times_spec(other),
    {
        proof {
            reveal(Double::times_spec);
        }
        let m: u64 = self.bits % WIDE_SIGN;
        let n: u64 = other.bits % WIDE_SIGN;
        let negative: bool = (self.bits >= WIDE_SIGN) != (other.bits >= WIDE_SIGN);
        if m > WIDE_INFINITY || n > WIDE_INFINITY {
            return Double { bits: WIDE_NAN };
        }
        if m == WIDE_INFINITY || n == WIDE_INFINITY {
            if m == 0 || n == 0 {
                return Double { bits: WIDE_NAN };
            }
            return wide_pack(negative, WIDE_INFINITY as u128);
        }
        let (a, ea): (u64, u32) = self.split();
        let (b, eb): (u64, u32) = other.split();
        proof {
            lemma_times_scaled(a as nat, ea as nat, b as nat, eb as nat, 1074, 53);
            assert(a * b < 0x20_0000_0000_0000 * 0x20_0000_0000_0000) by (nonlinear_arith)
                requires
                    a < 0x20_0000_0000_0000,
                    b < 0x20_0000_0000_0000,
            ;
            lemma_wide_constants();
        }
        let x: u128 = (a as u128) * (b as u128);
        wide_pack(negative, round_scaled(x, ea as i32 + eb as i32 - 1074, 53))
    }

    #[verifier::when_used_as_spec(over_spec)]
    pub fn over(self, other: Double) -> (r: Double)
        ensures
            r == self.over_spec(other),
    {
        proof {
            reveal(Double::over_spec);
        }
        let m: u64 = self.bits % WIDE_SIGN;
        let n: u64 = other.bits % WIDE_SIGN;
        let negative: bool = (self.bits >= WIDE_SIGN) != (other.bits >= WIDE_SIGN);
        if m > WIDE_INFINITY || n > WIDE_INFINITY {
            return Double { bits: WIDE_NAN };
        }
        if m == WIDE_INFINITY {
            if n == WIDE_INFINITY {
                return Double { bits: WIDE_NAN };
            }
            return wide_pack(negative, WIDE_INFINITY as u128);
        }
        if n == WIDE_INFINITY {
            return wide_pack(negative, 0);
        }
        if n == 0 {
            if m == 0 {
                return Double { bits: WIDE_NAN };
            }
            return wide_pack(negative, WIDE_INFINITY as u128);
        }
        let (a, ea): (u64, u32) = self.split();
        let (b, eb): (u64, u32) = other.split();
        if m == 0 {
            proof {
                lemma_nothing_over(b as nat, eb as nat);
                assert(self.units() == 0) by (nonlinear_arith)
                    requires
                        self.units() == a * pow2(ea as nat),
                        a == 0,
                ;
            }
            return wide_pack(negative, 0);
        }
        let l: u32 = bit_length(a as u128);
        proof {
            lemma_length(a, l);
        }
        let sh: u32 = 125 - l;
        proof {
            lemma_one_shl(sh as u128);
            lemma_shifted_up(a as nat, l as nat, sh as nat);
        }
        let wide: u128 = (a as u128) * (1u128 << (sh as u128));
        let q: u128 = wide / b as u128;
        let r: u128 = wide % b as u128;
        proof {
            lemma_quotient(wide as nat, b as nat, q as nat, r as nat);
            lemma_over_scaled(
                a as nat,
                ea as nat,
                b as nat,
                eb as nat,
                sh as nat,
                q as nat,
                r as nat,
                1074,
                53,
            );
        }
        let x: u128 = if r > 0 {
            2 * q + 1
        } else {
            2 * q
        };
        wide_pack(negative, round_scaled(x, ea as i32 - eb as i32 - sh as i32 + 1073, 53))
    }

    /// The nearest single.
    #[verifier::when_used_as_spec(narrow_spec)]
    pub fn narrow(self) -> (r: Single)
        ensures
            r == self.narrow_spec(),
    {
        proof {
            reveal(Double::narrow_spec);
        }
        let m: u64 = self.bits % WIDE_SIGN;
        let negative: bool = self.bits >= WIDE_SIGN;
        if m > WIDE_INFINITY {
            return Single { bits: NAN };
        }
        let c: u128 = if m == WIDE_INFINITY {
            INFINITY as u128
        } else {
            let (a, e): (u64, u32) = self.split();
            proof {
                lemma_times_scaled(a as nat, e as nat, 1, 0, 925, 24);
                lemma_wide_constants();
                assert((a * pow2(e as nat)) * (1 * pow2(0)) == self.units()) by (nonlinear_arith)
                    requires
                        self.units() == a * pow2(e as nat),
                        pow2(0) == 1,
                ;
                assert(a * 1 == a);
            }
            round_scaled(a as u128, e as i32 - 925, 24)
        };
        let code: u32 = if c < INFINITY as u128 {
            c as u32
        } else {
            INFINITY
        };
        if negative {
            Single { bits: code + SIGN }
        } else {
            Single { bits: code }
        }
    }

    /// A single as a double.
    #[verifier::when_used_as_spec(widen)]
    pub fn from_single(s: Single) -> (r: Double)
        ensures
            r == Double::widen(s),
    {
        proof {
            reveal(Double::widen);
        }
        let m: u32 = s.bits % SIGN;
        let negative: bool = s.bits >= SIGN;
        if m > INFINITY {
            return Double { bits: WIDE_NAN };
        }
        if m == INFINITY {
            return wide_pack(negative, WIDE_INFINITY as u128);
        }
        let (a, e): (u32, u32) = s.split();
        proof {
            lemma_pow2_adds(e as nat, 925);
            assert(s.units() * pow2(925) == a * pow2((e + 925) as nat)) by (nonlinear_arith)
                requires
                    s.units() == a * pow2(e as nat),
                    pow2((e + 925) as nat) == pow2(e as nat) * pow2(925),
            ;
            lemma_wide_constants();
        }
        wide_pack(negative, round_scaled(a as u128, e as i32 + 925, 53))
    }

    fn is_nan(self) -> (r: bool)
        ensures
            r == self.nan(),
    {
        self.bits % WIDE_SIGN > WIDE_INFINITY
    }

    /// An order-preserving integer: equal for both zeros.
    fn rank(self) -> (r: i128)
        ensures
            r == (if self.negative() {
                -(self.mag() as int)
            } else {
                self.mag() as int
            }),
    {
        let m: u64 = self.bits % WIDE_SIGN;
        if self.bits >= WIDE_SIGN {
            -(m as i128)
        } else {
            m as i128
        }
    }

    #[verifier::when_used_as_spec(lt_spec)]
    pub fn lt(self, other: Double) -> (r: bool)
        ensures
            r == self.lt_spec(other),
    {
        if self.is_nan() || other.is_nan() {
            return false;
        }
        proof {
            lemma_wide_order(self, other);
        }
        self.rank() < other.rank()
    }

    #[verifier::when_used_as_spec(le_spec)]
    pub fn le(self, other: Double) -> (r: bool)
        ensures
            r == self.le_spec(other),
    {
        if self.is_nan() || other.is_nan() {
            return false;
        }
        proof {
            lemma_wide_order(self, other);
        }
        self.rank() <= other.rank()
    }
}

/// A code with a sign, infinity where the code is too large.
fn wide_pack(negative: bool, c: u128) -> (r: Double)
    ensures
        r == wide_signed(
            negative,
            if c < WIDE_INFINITY {
                c as nat
            } else {
                WIDE_INFINITY as nat
            },
        ),
{
    let m: u64 = if c < WIDE_INFINITY as u128 {
        c as u64
    } else {
        WIDE_INFINITY
    };
    if negative {
        Double { bits: m + WIDE_SIGN }
    } else {
        Double { bits: m }
    }
}

/// A sum does not depend on the order of its terms.
pub proof fn lemma_wide_plus_commutes(a: Double, b: Double)
    ensures
        a.plus_spec(b) == b.plus_spec(a),
{
    reveal(Double::plus_spec);
}

/// Values are ordered as their signed codes.
proof fn lemma_wide_order(a: Double, b: Double)
    ensures
        ({
            let ra = if a.negative() {
                -(a.mag() as int)
            } else {
                a.mag() as int
            };
            let rb = if b.negative() {
                -(b.mag() as int)
            } else {
                b.mag() as int
            };
            &&& ra < rb <==> a.value() < b.value()
            &&& ra == rb <==> a.value() == b.value()
        }),
{
    assert(magnitude(0, 53) == 0) by {
        lemma_pow2_pos(52);
        lemma_basic_div(0, pow2(52) as int);
    }
    if a.mag() > 0 {
        lemma_magnitude_increases(0, a.mag(), 53);
    }
    if b.mag() > 0 {
        lemma_magnitude_increases(0, b.mag(), 53);
    }
    if a.mag() < b.mag() {
        lemma_magnitude_increases(a.mag(), b.mag(), 53);
    }
    if b.mag() < a.mag() {
        lemma_magnitude_increases(b.mag(), a.mag(), 53);
    }
}

/// Nothing divided by something is nothing.
proof fn lemma_nothing_over(b: nat, eb: nat)
    requires
        b > 0,
    ensures
        b * pow2(eb) > 0,
        code(0 * pow2(1074), b * pow2(eb), 53) == 0,
{
    lemma_pow2_pos(eb);
    let d = b * pow2(eb);
    assert(d > 0) by (nonlinear_arith)
        requires
            b > 0,
            pow2(eb) > 0,
            d == b * pow2(eb),
    ;
    assert(0 * pow2(1074) == 0);
    assert(0 * d == 0 && 1 * d == d);
    lemma_code_scale(0, 1, d, 53);
    assert(magnitude(0, 53) == 0) by {
        lemma_pow2_pos(52);
        lemma_basic_div(0, pow2(52) as int);
    }
    lemma_code_exact(0, 53);
}

proof fn lemma_length(a: u64, l: u32)
    requires
        0 < a < 0x20_0000_0000_0000,
        a < pow2(l as nat),
        l > 0 ==> a >= pow2((l - 1) as nat),
    ensures
        1 <= l <= 53,
{
    lemma_wide_constants();
    assert(pow2(53) == 0x20_0000_0000_0000) by {
        lemma2_to64_rest();
    }
    if l == 0 {
        assert(pow2(0) == 1) by {
            lemma2_to64();
        }
    }
    if l > 54 {
        lemma_pow2_strictly_increases(53, (l - 1) as nat);
    }
}

proof fn lemma_shifted_up(a: nat, l: nat, sh: nat)
    requires
        1 <= l,
        l + sh == 125,
        pow2((l - 1) as nat) <= a < pow2(l),
    ensures
        pow2(124) <= a * pow2(sh) < pow2(125),
        a * pow2(sh) < 0x4000_0000_0000_0000_0000_0000_0000_0000,
{
    lemma_pow2_adds((l - 1) as nat, sh);
    lemma_pow2_adds(l, sh);
    lemma_pow2_pos(sh);
    assert(pow2(124) <= a * pow2(sh) < pow2(125)) by (nonlinear_arith)
        requires
            pow2((l - 1) as nat) <= a < pow2(l),
            pow2(124) == pow2((l - 1) as nat) * pow2(sh),
            pow2(125) == pow2(l) * pow2(sh),
            pow2(sh) > 0,
    ;
    assert(pow2(125) == 0x2000_0000_0000_0000_0000_0000_0000_0000) by {
        lemma_pow2_adds(61, 64);
        lemma2_to64_rest();
    }
}

proof fn lemma_quotient(wide: nat, b: nat, q: nat, r: nat)
    requires
        pow2(124) <= wide < pow2(125),
        0 < b < 0x20_0000_0000_0000,
        q == wide / b,
        r == wide % b,
    ensures
        wide == q * b + r,
        r < b,
        q >= pow2(54),
        2 * q + 1 < pow2(126),
        2 * q + 1 < 0x4000_0000_0000_0000_0000_0000_0000_0000,
{
    lemma_fundamental_div_mod(wide as int, b as int);
    assert(q * b == b * q) by (nonlinear_arith);
    lemma_pow2_adds(54, 70);
    lemma_pow2_unfold(126);
    assert(pow2(53) == 0x20_0000_0000_0000 && pow2(54) == 0x40_0000_0000_0000) by {
        lemma2_to64_rest();
    }
    lemma_pow2_strictly_increases(53, 70);
    assert(pow2(54) <= q) by (nonlinear_arith)
        requires
            pow2(124) <= q * b + r,
            r < b,
            b < pow2(70),
            pow2(124) == pow2(54) * pow2(70),
    ;
    assert(q <= wide) by (nonlinear_arith)
        requires
            wide == q * b + r,
            b >= 1,
    ;
    assert(pow2(125) == 0x2000_0000_0000_0000_0000_0000_0000_0000) by {
        lemma_pow2_adds(61, 64);
        lemma2_to64_rest();
    }
}

} // verus!
