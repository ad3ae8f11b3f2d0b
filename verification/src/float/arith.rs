//! Sums, products, quotients and roots.

use super::round;
use super::Float;
use super::INFINITE;
use super::QUIET;
use super::SIGN;
use super::STEP;
use vstd::arithmetic::div_mod::lemma_fundamental_div_mod;
use vstd::arithmetic::div_mod::lemma_fundamental_div_mod_converse;
use vstd::arithmetic::power2::lemma_pow2_adds;
use vstd::arithmetic::power2::lemma_pow2_pos;
use vstd::arithmetic::power2::lemma_pow2_strictly_increases;
use vstd::arithmetic::power2::lemma_pow2_unfold;
use vstd::arithmetic::power2::pow2;
use vstd::prelude::*;

verus! {

impl Float {
    /// What an undefined operation gives.
    pub open spec fn undefined() -> Float {
        Float { bits: QUIET }
    }

    /// The sum, rounded. A sum of zero is negative only where both terms are.
    #[verifier::opaque]
    pub open spec fn plus(self, other: Float) -> Float {
        if self.nan() || other.nan() {
            Float::undefined()
        } else if self.infinite() {
            if other.infinite() && self.negative() != other.negative() {
                Float::undefined()
            } else {
                self
            }
        } else if other.infinite() {
            other
        } else {
            let v = self.value() + other.value();
            if v == 0 {
                Float::make(self.negative() && other.negative(), 0)
            } else if v > 0 {
                Float::make(false, round::nearest(v as nat, 1, 53))
            } else {
                Float::make(true, round::nearest((-v) as nat, 1, 53))
            }
        }
    }

    /// The difference, rounded.
    pub open spec fn minus(self, other: Float) -> Float {
        self.plus(other.negated())
    }

    /// The product, rounded.
    #[verifier::opaque]
    pub open spec fn times(self, other: Float) -> Float {
        let negative = self.negative() != other.negative();
        if self.nan() || other.nan() {
            Float::undefined()
        } else if self.infinite() || other.infinite() {
            if self.zero() || other.zero() {
                Float::undefined()
            } else {
                Float::make(negative, INFINITE as nat)
            }
        } else {
            Float::make(
                negative,
                round::nearest(self.units() * other.units(), pow2(1074), 53),
            )
        }
    }

    /// The quotient, rounded.
    #[verifier::opaque]
    pub open spec fn over(self, other: Float) -> Float {
        let negative = self.negative() != other.negative();
        if self.nan() || other.nan() {
            Float::undefined()
        } else if self.infinite() {
            if other.infinite() {
                Float::undefined()
            } else {
                Float::make(negative, INFINITE as nat)
            }
        } else if other.infinite() {
            Float::make(negative, 0)
        } else if other.zero() {
            if self.zero() {
                Float::undefined()
            } else {
                Float::make(negative, INFINITE as nat)
            }
        } else {
            Float::make(
                negative,
                round::nearest(self.units() * pow2(1074), other.units(), 53),
            )
        }
    }

    pub(crate) fn with_sign(negative: bool, m: u64) -> (r: Float)
        ensures
            r == Float::make(negative, m as nat),
    {
        let mag: u64 = if m >= INFINITE {
            INFINITE
        } else {
            m
        };
        if negative {
            Float { bits: mag + SIGN }
        } else {
            Float { bits: mag }
        }
    }

    /// The significand and the exponent of a finite number.
    pub(crate) fn parts(self) -> (r: (u64, i32))
        requires
            self.finite(),
        ensures
            r.0 == self.significand(),
            r.1 == self.exponent(),
            r.0 < 2 * STEP,
            0 <= r.1 <= 2045,
            self.magnitude() == r.1 * STEP + r.0,
            r.1 > 0 ==> r.0 >= STEP,
    {
        let m: u64 = self.mag();
        if m < STEP {
            (m, 0)
        } else {
            (STEP + m % STEP, (m / STEP) as i32 - 1)
        }
    }

    pub fn add(self, other: Float) -> (r: Float)
        ensures
            r == self.plus(other),
    {
        reveal(Float::plus);
        if self.is_nan() || other.is_nan() {
            return Float { bits: QUIET };
        }
        if self.is_infinite() {
            if other.is_infinite() && self.is_negative() != other.is_negative() {
                return Float { bits: QUIET };
            }
            return self;
        }
        if other.is_infinite() {
            return other;
        }
        let (_, ea) = self.parts();
        let (_, eb) = other.parts();
        if ea >= eb {
            self.add_finite(other)
        } else {
            other.add_finite(self)
        }
    }

    /// The sum of two finite numbers, the first with the larger exponent.
    fn add_finite(self, other: Float) -> (r: Float)
        requires
            self.finite(),
            other.finite(),
            self.exponent() >= other.exponent(),
        ensures
            r == self.plus(other),
    {
        reveal(Float::plus);
        let (qa, ea) = self.parts();
        let (qb, eb) = other.parts();
        let d: i32 = ea - eb;
        proof {
            vstd::arithmetic::power2::lemma2_to64();
            vstd::arithmetic::power2::lemma2_to64_rest();
        }
        if d > 64 {
            proof {
                lemma_far_sum(self, other);
            }
            return self;
        }
        let f: u128 = round::power_of_two(d as u32);
        proof {
            lemma_pow2_adds(d as nat, eb as nat);
            if d < 64 {
                lemma_pow2_strictly_increases(d as nat, 64);
            }
            lemma_pow2_adds(53, 64);
            lemma_pow2_unfold(118);
            lemma_pow2_strictly_increases(118, 126);
            assert(qa * f < 0x20_0000_0000_0000 * 0x1_0000_0000_0000_0000) by (nonlinear_arith)
                requires
                    0 <= qa < 0x20_0000_0000_0000,
                    0 < f <= 0x1_0000_0000_0000_0000,
            ;
            assert(self.units() == (qa * f) * pow2(eb as nat)) by (nonlinear_arith)
                requires
                    self.units() == qa * (f * pow2(eb as nat)),
            ;
            lemma_pow2_pos(eb as nat);
        }
        let a: u128 = qa as u128 * f;
        let b: u128 = qb as u128;
        let ghost e = pow2(eb as nat);
        if self.is_negative() == other.is_negative() {
            let n: u128 = a + b;
            proof {
                lemma_combine(a as int, b as int, e as int);
            }
            let m: u64 = round::round_scaled(n, eb, 53);
            proof {
                lemma_no_units(n as nat, e);
                if n == 0 {
                    round::lemma_scaled_zero(eb as int, 53);
                }
            }
            Float::with_sign(self.is_negative(), m)
        } else if a == b {
            proof {
                lemma_combine(a as int, b as int, e as int);
            }
            Float { bits: 0 }
        } else {
            let n: u128 = if a > b { a - b } else { b - a };
            proof {
                lemma_combine(a as int, b as int, e as int);
                lemma_no_units(n as nat, e);
            }
            let m: u64 = round::round_scaled(n, eb, 53);
            Float::with_sign(
                if a > b { self.is_negative() } else { other.is_negative() },
                m,
            )
        }
    }

    pub fn mul(self, other: Float) -> (r: Float)
        ensures
            r == self.times(other),
    {
        reveal(Float::times);
        let negative: bool = self.is_negative() != other.is_negative();
        if self.is_nan() || other.is_nan() {
            return Float { bits: QUIET };
        }
        if self.is_infinite() || other.is_infinite() {
            if self.mag() == 0 || other.mag() == 0 {
                return Float { bits: QUIET };
            }
            return Float::with_sign(negative, INFINITE);
        }
        let (qa, ea) = self.parts();
        let (qb, eb) = other.parts();
        proof {
            vstd::arithmetic::power2::lemma2_to64();
            vstd::arithmetic::power2::lemma2_to64_rest();
            lemma_pow2_adds(53, 53);
            lemma_pow2_strictly_increases(106, 126);
            assert(qa * qb < pow2(106)) by (nonlinear_arith)
                requires
                    qa < pow2(53),
                    qb < pow2(53),
                    pow2(106) == pow2(53) * pow2(53),
            ;
            assert(pow2(53) * pow2(53) <= 0x20_0000_0000_0000 * 0x20_0000_0000_0000) by (nonlinear_arith)
                requires
                    pow2(53) == 0x20_0000_0000_0000,
            ;
        }
        let n: u128 = qa as u128 * qb as u128;
        let k: i32 = ea + eb - 1074;
        proof {
            lemma_product_units(n as nat, qa as nat, ea as nat, qb as nat, eb as nat);
        }
        Float::with_sign(negative, round::round_scaled(n, k, 53))
    }

    pub fn div(self, other: Float) -> (r: Float)
        ensures
            r == self.over(other),
    {
        reveal(Float::over);
        let negative: bool = self.is_negative() != other.is_negative();
        if self.is_nan() || other.is_nan() {
            return Float { bits: QUIET };
        }
        if self.is_infinite() {
            if other.is_infinite() {
                return Float { bits: QUIET };
            }
            return Float::with_sign(negative, INFINITE);
        }
        if other.is_infinite() {
            return Float::with_sign(negative, 0);
        }
        if other.mag() == 0 {
            if self.mag() == 0 {
                return Float { bits: QUIET };
            }
            return Float::with_sign(negative, INFINITE);
        }
        let (qa, ea) = self.parts();
        let (qb, eb) = other.parts();
        proof {
            vstd::arithmetic::power2::lemma2_to64();
            vstd::arithmetic::power2::lemma2_to64_rest();
        }
        if qa == 0 {
            proof {
                lemma_pow2_pos(eb as nat);
                let d = other.units();
                assert(d > 0) by (nonlinear_arith)
                    requires
                        d == qb * pow2(eb as nat),
                        qb > 0,
                        pow2(eb as nat) > 0,
                ;
                assert(0 < d * pow2(53)) by (nonlinear_arith)
                    requires
                        d > 0,
                        pow2(53) > 0,
                ;
                assert(0 * pow2(ea as nat) == 0);
                assert(0 * pow2(1074) == 0);
                round::lemma_round_even_whole(0, d);
            }
            return Float::with_sign(negative, 0);
        }
        let la: u32 = round::bit_length(qa as u128);
        proof {
            if la > 53 {
                if la > 54 {
                    lemma_pow2_strictly_increases(53, (la - 1) as nat);
                }
            }
        }
        let s: u32 = 120 - la;
        let f: u128 = round::power_of_two(s);
        proof {
            lemma_pow2_adds(la as nat, s as nat);
            lemma_pow2_adds((la - 1) as nat, s as nat);
            lemma_pow2_adds(60, 60);
            lemma_pow2_pos(s as nat);
            assert(qa * f < pow2(120) && qa * f >= pow2(119)) by (nonlinear_arith)
                requires
                    pow2((la - 1) as nat) <= qa < pow2(la as nat),
                    f == pow2(s as nat),
                    f > 0,
                    pow2(120) == pow2(la as nat) * pow2(s as nat),
                    pow2(119) == pow2((la - 1) as nat) * pow2(s as nat),
            ;
            assert(pow2(60) * pow2(60) == 0x100_0000_0000_0000_0000_0000_0000_0000) by (nonlinear_arith)
                requires
                    pow2(60) == 0x1000_0000_0000_0000,
            ;
        }
        let x: u128 = qa as u128 * f;
        let y: u128 = qb as u128;
        let n0: u128 = x / y;
        proof {
            lemma_fundamental_div_mod(x as int, y as int);
            assert(n0 <= x) by (nonlinear_arith)
                requires
                    x as int == y as int * n0 + x as int % (y as int),
                    0 <= x as int % (y as int),
                    y >= 1,
                    n0 >= 0,
            ;
        }
        let n: u128 = 2 * n0 + (if x % y == 0 { 0u128 } else { 1u128 });
        let k: i32 = ea - eb + 1074 - s as i32;
        proof {
            lemma_pow2_unfold(121);
            lemma_pow2_unfold(122);
            lemma_pow2_strictly_increases(122, 126);
            lemma_quotient_units(x as nat, y as nat, n as nat, qa as nat, ea as nat, s as nat, eb as nat);
        }
        Float::with_sign(negative, round::round_scaled(n, k - 1, 53))
    }

    pub fn sub(self, other: Float) -> (r: Float)
        ensures
            r == self.minus(other),
    {
        self.add(other.neg())
    }
}

/// The order of the terms does not matter.
pub proof fn law_sum_commutes(a: Float, b: Float)
    ensures
        a.plus(b) == b.plus(a),
{
    reveal(Float::plus);
}

/// The order of the factors does not matter.
pub proof fn law_product_commutes(a: Float, b: Float)
    ensures
        a.times(b) == b.times(a),
{
    reveal(Float::times);
    assert(a.units() * b.units() == b.units() * a.units()) by (nonlinear_arith);
}

/// Adding zero does not change a number.
pub proof fn law_zero_adds_nothing(x: Float)
    requires
        x.finite(),
    ensures
        x.plus(Float { bits: 0 }).same(x),
{
    reveal(Float::plus);
    vstd::arithmetic::power2::lemma2_to64();
    vstd::arithmetic::power2::lemma2_to64_rest();
    let zero = Float { bits: 0 };
    let q = x.significand();
    let e = x.exponent();
    let u = pow2(e);
    lemma_pow2_pos(e);
    lemma_no_units(q, u);
    assert(0 * pow2(zero.exponent()) == 0);
    assert(zero.value() == 0);
    if q > 0 {
        let n = q * u;
        lemma_pow2_adds(53, e);
        lemma_pow2_adds(52, e);
        assert(n < pow2(53) * u) by (nonlinear_arith)
            requires
                n == q * u,
                q < pow2(53),
                u > 0,
        ;
        if e > 0 {
            assert(n >= pow2(52) * u) by (nonlinear_arith)
                requires
                    n == q * u,
                    q >= pow2(52),
                    u > 0,
            ;
        }
        round::lemma_nearest_at(n, 1, 53, e);
        assert(1 * u == u);
        round::lemma_round_even_whole(q, u);
        assert(x.magnitude() == e * STEP + q);
        assert(round::nearest(n, 1, 53) == x.magnitude());
        assert(Float::make(x.negative(), x.magnitude() as nat) == x);
    }
}

/// Equal numbers have no difference.
pub proof fn law_equal_numbers_differ_by_zero(a: Float, b: Float)
    requires
        a.finite(),
        b.finite(),
        a.same(b),
    ensures
        a.minus(b).zero(),
{
    reveal(Float::plus);
    if a.zero() {
        assert(0 * pow2(a.exponent()) == 0);
        assert(0 * pow2(b.exponent()) == 0);
        assert(b.negated().units() == b.units());
    } else {
        assert(a == b);
        assert(b.negated().units() == b.units());
    }
}

proof fn lemma_combine(a: int, b: int, e: int)
    ensures
        (a + b) * e == a * e + b * e,
        (a - b) * e == a * e - b * e,
        (b - a) * e == b * e - a * e,
{
    assert((a + b) * e == a * e + b * e) by (nonlinear_arith);
    assert((a - b) * e == a * e - b * e) by (nonlinear_arith);
    assert((b - a) * e == b * e - a * e) by (nonlinear_arith);
}

proof fn lemma_no_units(n: nat, e: nat)
    requires
        e > 0,
    ensures
        (n * e == 0) == (n == 0),
{
    if n > 0 {
        assert(n * e > 0) by (nonlinear_arith)
            requires
                n > 0,
                e > 0,
        ;
    }
}

/// A number does not change by adding one that lies far below its last digit.
proof fn lemma_far_sum(x: Float, y: Float)
    requires
        x.finite(),
        y.finite(),
        x.exponent() > y.exponent() + 64,
    ensures
        x.plus(y) == x,
{
    reveal(Float::plus);
    vstd::arithmetic::power2::lemma2_to64();
    vstd::arithmetic::power2::lemma2_to64_rest();
    let q = x.significand();
    let e = x.exponent();
    let u = pow2(e);
    let w = y.units();
    let s = pow2(y.exponent());
    lemma_pow2_pos(y.exponent());
    assert(w < pow2(53) * s) by (nonlinear_arith)
        requires
            w == y.significand() * s,
            y.significand() < pow2(53),
            s > 0,
    ;
    lemma_pow2_adds(53, y.exponent());
    lemma_pow2_strictly_increases(53 + y.exponent(), (e - 2) as nat);
    lemma_pow2_unfold(e);
    lemma_pow2_unfold((e - 1) as nat);
    let c = pow2((e - 2) as nat);
    assert(u == 4 * c && w < c);
    lemma_pow2_adds(53, e);
    lemma_pow2_adds(52, e);
    lemma_pow2_adds(52, (e - 1) as nat);
    lemma_pow2_adds(53, (e - 1) as nat);
    assert(x.magnitude() == e * STEP + q);
    assert(q * u >= STEP * u && (q + 1) * u <= 2 * STEP * u && (q + 1) * u == q * u + u) by (nonlinear_arith)
        requires
            STEP <= q < 2 * STEP,
            u >= 0,
    ;
    let n: nat = if x.negative() == y.negative() {
        q * u + w
    } else {
        (q * u - w) as nat
    };
    assert(1 * pow2(e) == u);
    if w == 0 || x.negative() == y.negative() {
        round::lemma_nearest_at(n, 1, 53, e);
        assert(n == q * u + w);
        lemma_fundamental_div_mod_converse(n as int, u as int, q as int, w as int);
        assert(round::round_even(n, u) == q);
    } else if q > STEP {
        assert((q - 1) * u >= STEP * u && (q - 1) * u == q * u - u) by (nonlinear_arith)
            requires
                q - 1 >= STEP,
                u >= 0,
        ;
        round::lemma_nearest_at(n, 1, 53, e);
        lemma_fundamental_div_mod_converse(n as int, u as int, q - 1, u - w);
        assert(round::round_even(n, u) == q);
    } else {
        let h = pow2((e - 1) as nat);
        assert(q * u == 2 * STEP * h && (2 * STEP - 1) * h == 2 * STEP * h - h && STEP * h <= (2 * STEP
            - 1) * h) by (nonlinear_arith)
            requires
                q == STEP,
                u == 2 * h,
                h >= 0,
        ;
        round::lemma_nearest_at(n, 1, 53, (e - 1) as nat);
        lemma_fundamental_div_mod_converse(n as int, h as int, 2 * STEP - 1, h - w);
        assert(1 * h == h);
        assert(round::round_even(n, h) == 2 * STEP);
    }
    assert(round::nearest(n, 1, 53) == x.magnitude());
    assert(q * u > w) by {
        assert(STEP * u >= u) by (nonlinear_arith)
            requires
                u >= 0,
        ;
    }
    let v = x.value() + y.value();
    assert(v == (if x.negative() { -(n as int) } else { n as int }));
    assert(Float::make(x.negative(), x.magnitude() as nat) == x);
}

/// The product of two numbers by their parts.
proof fn lemma_product_units(n: nat, qa: nat, ea: nat, qb: nat, eb: nat)
    requires
        n == qa * qb,
    ensures
        round::nearest((qa * pow2(ea)) * (qb * pow2(eb)), pow2(1074), 53) == round::scaled(
            n,
            ea + eb - 1074,
            53,
        ),
{
    let num = (qa * pow2(ea)) * (qb * pow2(eb));
    lemma_pow2_adds(ea, eb);
    assert(num == n * pow2(ea + eb)) by (nonlinear_arith)
        requires
            num == (qa * pow2(ea)) * (qb * pow2(eb)),
            n == qa * qb,
            pow2(ea + eb) == pow2(ea) * pow2(eb),
    ;
    round::lemma_dyadic(n, ea + eb, 1074, 53);
}

/// The quotient of two numbers by their parts: the rounded quotient follows from its
/// first binary digits and whether anything remains.
proof fn lemma_quotient_units(x: nat, y: nat, n: nat, qa: nat, ea: nat, s: nat, eb: nat)
    requires
        0 < y < pow2(53),
        x == qa * pow2(s),
        x >= pow2(119),
        s <= 120,
        n == 2 * (x / y) + (if x % y == 0 { 0nat } else { 1nat }),
    ensures
        round::nearest((qa * pow2(ea)) * pow2(1074), y * pow2(eb), 53) == round::scaled(
            n,
            ea - eb + 1074 - s - 1,
            53,
        ),
{
    let n0 = x / y;
    lemma_fundamental_div_mod(x as int, y as int);
    lemma_pow2_adds(66, 53);
    assert(n0 >= pow2(66)) by (nonlinear_arith)
        requires
            x as int == y * n0 + x as int % (y as int),
            (x as int % (y as int)) < y,
            x >= pow2(66) * pow2(53),
            0 < y < pow2(53),
    ;
    let len = round::choose_bit_length(n0);
    round::lemma_bit_length_exists(n0);
    if len <= 66 {
        if len < 66 {
            lemma_pow2_strictly_increases(len, 66);
        }
        assert(false);
    }
    lemma_pow2_unfold(len);
    lemma_pow2_unfold(len + 1);
    assert(round::has_bit_length(n, len + 1));
    let a = (ea + 1074 - s) as nat;
    let k = a - eb;
    let j: nat = if len + k > 53 { (len + k - 53) as nat } else { 0 };
    let t = (j - k) as nat;
    round::lemma_scaled_at(n, k - 1, 53, len + 1, j);
    let num = (qa * pow2(ea)) * pow2(1074);
    let den = y * pow2(eb);
    lemma_pow2_adds(ea, 1074);
    lemma_pow2_adds(s, a);
    assert(num == x * pow2(a)) by (nonlinear_arith)
        requires
            num == (qa * pow2(ea)) * pow2(1074),
            pow2(ea + 1074) == pow2(ea) * pow2(1074),
            pow2(ea + 1074) == pow2(s) * pow2(a),
            x == qa * pow2(s),
    ;
    lemma_pow2_pos(eb);
    lemma_pow2_pos(a);
    assert(den > 0) by (nonlinear_arith)
        requires
            den == y * pow2(eb),
            y > 0,
            pow2(eb) > 0,
    ;
    // The bounds that place the quotient.
    assert(x < y * pow2(len)) by (nonlinear_arith)
        requires
            x as int == y * n0 + x as int % (y as int),
            (x as int % (y as int)) < y,
            n0 < pow2(len),
    ;
    assert(y * pow2((len - 1) as nat) <= x) by (nonlinear_arith)
        requires
            x as int == y * n0 + x as int % (y as int),
            0 <= x as int % (y as int),
            pow2((len - 1) as nat) <= n0,
            y > 0,
    ;
    lemma_pow2_adds(eb, 53 + j);
    lemma_pow2_adds(len, a);
    if len + a < eb + 53 + j {
        lemma_pow2_strictly_increases(len + a, eb + 53 + j);
    }
    assert(num < den * pow2(53 + j)) by (nonlinear_arith)
        requires
            num == x * pow2(a),
            den == y * pow2(eb),
            x < y * pow2(len),
            pow2(a) > 0,
            pow2(len + a) == pow2(len) * pow2(a),
            pow2(eb + (53 + j)) == pow2(eb) * pow2(53 + j),
            pow2(len + a) <= pow2(eb + (53 + j)),
            y > 0,
    {
        assert(num < (y * pow2(len)) * pow2(a));
        assert((y * pow2(len)) * pow2(a) == y * pow2(len + a));
        assert(y * pow2(len + a) <= y * pow2(eb + (53 + j)));
        assert(y * pow2(eb + (53 + j)) == den * pow2(53 + j));
    }
    if j > 0 {
        lemma_pow2_adds(eb, (52 + j) as nat);
        lemma_pow2_adds((len - 1) as nat, a);
        assert(den * pow2((52 + j) as nat) <= num) by (nonlinear_arith)
            requires
                num == x * pow2(a),
                den == y * pow2(eb),
                y * pow2((len - 1) as nat) <= x,
                pow2(a) > 0,
                pow2((len - 1 + a) as nat) == pow2((len - 1) as nat) * pow2(a),
                pow2((eb + (52 + j)) as nat) == pow2(eb) * pow2((52 + j) as nat),
                len - 1 + a == eb + (52 + j),
        {
            assert((y * pow2((len - 1) as nat)) * pow2(a) <= num);
            assert((y * pow2((len - 1) as nat)) * pow2(a) == y * pow2((len - 1 + a) as nat));
            assert(y * pow2((eb + (52 + j)) as nat) == den * pow2((52 + j) as nat));
        }
    }
    round::lemma_nearest_at(num, den, 53, j);
    // The remaining division is that of the first digits.
    lemma_pow2_adds(eb, j);
    lemma_pow2_adds(a, t);
    assert(den * pow2(j) == pow2(a) * (y * pow2(t))) by (nonlinear_arith)
        requires
            den == y * pow2(eb),
            pow2(eb + j) == pow2(eb) * pow2(j),
            pow2(a + t) == pow2(a) * pow2(t),
            pow2(eb + j) == pow2(a + t),
    ;
    lemma_pow2_pos(t);
    assert(y * pow2(t) > 0) by (nonlinear_arith)
        requires
            y > 0,
            pow2(t) > 0,
    ;
    assert(num == pow2(a) * x) by (nonlinear_arith)
        requires
            num == x * pow2(a),
    ;
    round::lemma_round_even_scale(pow2(a), x, y * pow2(t));
    round::lemma_round_even_sticky(x, y, t, n);
}

} // verus!
