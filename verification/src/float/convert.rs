//! Conversions between doubles, integers and single precision numbers.

use super::round;
use super::Float;
use super::INFINITE;
use super::QUIET;
use vstd::arithmetic::div_mod::lemma_fundamental_div_mod_converse;
use vstd::arithmetic::power2::lemma_pow2_adds;
use vstd::arithmetic::power2::lemma_pow2_pos;
use vstd::arithmetic::power2::lemma_pow2_strictly_increases;
use vstd::arithmetic::power2::pow2;
use vstd::prelude::*;

verus! {

/// The sign bit of a single.
pub const SINGLE_SIGN: u32 = 0x8000_0000;

/// The magnitude of a single infinity.
pub const SINGLE_INFINITE: u32 = 0x7f80_0000;

/// The magnitude of a single that is no number.
pub const SINGLE_QUIET: u32 = 0x7fc0_0000;

/// Two to the power of 23: the number of single magnitudes with one exponent.
pub const SINGLE_STEP: u32 = 0x0080_0000;

/// A single precision number: the bits of an IEEE 754 binary32.
#[derive(Clone, Copy, PartialEq, Eq, Structural, Debug)]
pub struct Single {
    pub bits: u32,
}

impl Single {
    pub open spec fn negative(self) -> bool {
        self.bits >= SINGLE_SIGN
    }

    pub open spec fn magnitude(self) -> u32 {
        if self.bits >= SINGLE_SIGN {
            (self.bits - SINGLE_SIGN) as u32
        } else {
            self.bits
        }
    }

    pub open spec fn nan(self) -> bool {
        self.magnitude() > SINGLE_INFINITE
    }

    pub open spec fn infinite(self) -> bool {
        self.magnitude() == SINGLE_INFINITE
    }

    pub open spec fn significand(self) -> nat {
        let m = self.magnitude();
        if m < SINGLE_STEP {
            m as nat
        } else {
            (SINGLE_STEP + m % SINGLE_STEP) as nat
        }
    }

    pub open spec fn exponent(self) -> nat {
        let m = self.magnitude();
        if m < SINGLE_STEP {
            0
        } else {
            (m / SINGLE_STEP - 1) as nat
        }
    }

    /// The absolute value of a finite number, counted in units of `2^-149`.
    pub open spec fn units(self) -> nat {
        self.significand() * pow2(self.exponent())
    }

    /// The number with its sign turned.
    pub open spec fn negated(self) -> Single {
        Single {
            bits: if self.negative() {
                (self.bits - SINGLE_SIGN) as u32
            } else {
                (self.bits + SINGLE_SIGN) as u32
            },
        }
    }

    pub fn neg(self) -> (r: Single)
        ensures
            r == self.negated(),
    {
        if self.bits >= SINGLE_SIGN {
            Single { bits: self.bits - SINGLE_SIGN }
        } else {
            Single { bits: self.bits + SINGLE_SIGN }
        }
    }

    /// The number with sign `negative` and the magnitude `m`.
    pub open spec fn make(negative: bool, m: nat) -> Single {
        let mag = if m >= SINGLE_INFINITE {
            SINGLE_INFINITE
        } else {
            m as u32
        };
        Single {
            bits: if negative {
                (mag + SINGLE_SIGN) as u32
            } else {
                mag
            },
        }
    }

    /// The same number as a double.
    #[verifier::opaque]
    pub open spec fn widened(self) -> Float {
        if self.nan() {
            Float::undefined()
        } else if self.infinite() {
            Float::make(self.negative(), INFINITE as nat)
        } else {
            Float::make(self.negative(), round::nearest(self.units() * pow2(925), 1, 53))
        }
    }

    /// The number without its fraction, at the nearest end of the range where it is
    /// outside of it; nothing where it is no number.
    #[verifier::opaque]
    pub open spec fn truncated(self) -> i64 {
        let t = self.units() / pow2(149);
        if self.nan() {
            0
        } else if self.negative() {
            if self.infinite() || t > 0x7fff_ffff_ffff_ffff {
                i64::MIN
            } else {
                (-(t as int)) as i64
            }
        } else {
            if self.infinite() || t > 0x7fff_ffff_ffff_ffff {
                i64::MAX
            } else {
                t as i64
            }
        }
    }

    fn parts(self) -> (r: (u32, i32))
        ensures
            r.0 == self.significand(),
            r.1 == self.exponent(),
            r.0 < 2 * SINGLE_STEP,
            0 <= r.1 <= 254,
            r.1 > 0 ==> r.0 >= SINGLE_STEP,
    {
        let m: u32 = self.mag();
        if m < SINGLE_STEP {
            (m, 0)
        } else {
            (SINGLE_STEP + m % SINGLE_STEP, (m / SINGLE_STEP) as i32 - 1)
        }
    }

    fn mag(self) -> (r: u32)
        ensures
            r == self.magnitude(),
            r < SINGLE_SIGN,
    {
        if self.bits >= SINGLE_SIGN {
            self.bits - SINGLE_SIGN
        } else {
            self.bits
        }
    }

    /// The same number as a double.
    pub fn widen(self) -> (r: Float)
        ensures
            r == self.widened(),
    {
        reveal(Single::widened);
        let m: u32 = self.mag();
        if m > SINGLE_INFINITE {
            return Float { bits: QUIET };
        }
        let negative: bool = self.bits >= SINGLE_SIGN;
        if m == SINGLE_INFINITE {
            return Float::with_sign(negative, INFINITE);
        }
        let (q, e) = self.parts();
        proof {
            vstd::arithmetic::power2::lemma2_to64();
            lemma_pow2_strictly_increases(32, 126);
            lemma_pow2_adds(e as nat, 925);
            assert(self.units() * pow2(925) == q * pow2((e + 925) as nat)) by (nonlinear_arith)
                requires
                    self.units() == q * pow2(e as nat),
                    pow2((e + 925) as nat) == pow2(e as nat) * pow2(925),
            ;
        }
        Float::with_sign(negative, round::round_scaled(q as u128, e + 925, 53))
    }

    /// The number without its fraction.
    pub fn truncate(self) -> (r: i64)
        ensures
            r == self.truncated(),
    {
        reveal(Single::truncated);
        let m: u32 = self.mag();
        if m > SINGLE_INFINITE {
            return 0;
        }
        let negative: bool = self.bits >= SINGLE_SIGN;
        if m == SINGLE_INFINITE {
            return if negative { i64::MIN } else { i64::MAX };
        }
        let (q, e) = self.parts();
        proof {
            vstd::arithmetic::power2::lemma2_to64();
            vstd::arithmetic::power2::lemma2_to64_rest();
            lemma_pow2_pos(149);
            lemma_pow2_pos(e as nat);
        }
        let t: u64 = if e < 149 {
            let d: u32 = (149 - e) as u32;
            proof {
                lemma_pow2_adds(e as nat, d as nat);
                lemma_pow2_pos(d as nat);
                let c = pow2(e as nat) as int;
                assert(q as int * c == c * q) by (nonlinear_arith);
                lemma_cancel(q as int, pow2(d as nat) as int, c);
            }
            if d >= 32 {
                proof {
                    if d > 32 {
                        lemma_pow2_strictly_increases(32, d as nat);
                    }
                    lemma_fundamental_div_mod_converse(q as int, pow2(d as nat) as int, 0, q as int);
                }
                0
            } else {
                let f: u128 = round::power_of_two(d);
                (q as u128 / f) as u64
            }
        } else {
            let d: u32 = (e - 149) as u32;
            proof {
                lemma_pow2_adds(149, d as nat);
                let c = pow2(149) as int;
                assert(q as int * (c * pow2(d as nat)) == c * (q * pow2(d as nat))) by (nonlinear_arith);
                vstd::arithmetic::div_mod::lemma_div_by_multiple((q * pow2(d as nat)) as int, c);
                assert(c * (q * pow2(d as nat)) == (q * pow2(d as nat)) * c) by (nonlinear_arith);
            }
            if d >= 40 {
                proof {
                    if d > 40 {
                        lemma_pow2_strictly_increases(40, d as nat);
                    }
                    assert(q * pow2(d as nat) >= 0x80_0000 * 0x100_0000_0000) by (nonlinear_arith)
                        requires
                            q >= 0x80_0000,
                            pow2(d as nat) >= 0x100_0000_0000,
                    ;
                }
                return if negative { i64::MIN } else { i64::MAX };
            }
            let f: u128 = round::power_of_two(d);
            proof {
                lemma_pow2_strictly_increases(d as nat, 40);
                lemma_pow2_pos(d as nat);
                assert(q * f < 0x100_0000 * 0x100_0000_0000) by (nonlinear_arith)
                    requires
                        0 <= q < 0x100_0000,
                        0 < f < 0x100_0000_0000,
                ;
            }
            let n: u128 = q as u128 * f;
            if n > 0x7fff_ffff_ffff_ffff {
                return if negative { i64::MIN } else { i64::MAX };
            }
            n as u64
        };
        if negative {
            -(t as i64)
        } else {
            t as i64
        }
    }
}

proof fn lemma_cancel(q: int, d: int, c: int)
    requires
        c > 0,
        d > 0,
        q >= 0,
    ensures
        (q * c) / (c * d) == q / d,
{
    assert(q * c == c * q) by (nonlinear_arith);
    vstd::arithmetic::div_mod::lemma_div_denominator(c * q, c, d);
    vstd::arithmetic::div_mod::lemma_div_multiples_vanish(q, c);
}

impl Float {
    /// The double nearest to an integer.
    #[verifier::opaque]
    pub open spec fn integer(v: int) -> Float {
        if v < 0 {
            Float::make(true, round::nearest((-v) as nat * pow2(1074), 1, 53))
        } else {
            Float::make(false, round::nearest(v as nat * pow2(1074), 1, 53))
        }
    }

    /// The nearest single.
    #[verifier::opaque]
    pub open spec fn narrowed(self) -> Single {
        if self.nan() {
            Single { bits: SINGLE_QUIET }
        } else if self.infinite() {
            Single::make(self.negative(), SINGLE_INFINITE as nat)
        } else {
            Single::make(self.negative(), round::nearest(self.units(), pow2(925), 24))
        }
    }

    /// The double nearest to an integer.
    pub fn from_i64(v: i64) -> (r: Float)
        ensures
            r == Float::integer(v as int),
    {
        reveal(Float::integer);
        let n: u128 = if v < 0 {
            (-(v as i128)) as u128
        } else {
            v as u128
        };
        proof {
            vstd::arithmetic::power2::lemma2_to64();
            lemma_pow2_strictly_increases(64, 126);
        }
        Float::with_sign(v < 0, round::round_scaled(n, 1074, 53))
    }

    /// The double nearest to a length.
    pub fn from_usize(v: usize) -> (r: Float)
        ensures
            r == Float::integer(v as int),
    {
        reveal(Float::integer);
        proof {
            vstd::arithmetic::power2::lemma2_to64();
            lemma_pow2_strictly_increases(64, 126);
        }
        Float::with_sign(false, round::round_scaled(v as u128, 1074, 53))
    }

    /// The nearest single.
    pub fn narrow(self) -> (r: Single)
        ensures
            r == self.narrowed(),
    {
        reveal(Float::narrowed);
        if self.is_nan() {
            return Single { bits: SINGLE_QUIET };
        }
        let negative: bool = self.is_negative();
        let m: u64 = if self.is_infinite() {
            SINGLE_INFINITE as u64
        } else {
            let (q, e) = self.parts();
            proof {
                vstd::arithmetic::power2::lemma2_to64();
                lemma_pow2_strictly_increases(64, 126);
                round::lemma_dyadic(q as nat, e as nat, 925, 24);
            }
            round::round_scaled(q as u128, e - 925, 24)
        };
        let mag: u32 = if m >= SINGLE_INFINITE as u64 {
            SINGLE_INFINITE
        } else {
            m as u32
        };
        if negative {
            Single { bits: mag + SINGLE_SIGN }
        } else {
            Single { bits: mag }
        }
    }
}

} // verus!
