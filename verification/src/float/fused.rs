//! A product and a sum, rounded once.

use super::round;
use super::Float;
use super::INFINITE;
use super::QUIET;
use vstd::arithmetic::div_mod::lemma_fundamental_div_mod;
use vstd::arithmetic::div_mod::lemma_fundamental_div_mod_converse;
use vstd::arithmetic::power2::lemma_pow2_adds;
use vstd::arithmetic::power2::lemma_pow2_pos;
use vstd::arithmetic::power2::lemma_pow2_strictly_increases;
use vstd::arithmetic::power2::lemma_pow2_unfold;
use vstd::arithmetic::power2::pow2;
use vstd::prelude::*;

verus! {

impl Float {
    /// `self * factor + term` of numbers that are not negative, rounded once.
    pub open spec fn fused(self, factor: Float, term: Float) -> Float
        recommends
            !self.negative(),
            !factor.negative(),
            !term.negative(),
    {
        if self.nan() || factor.nan() || term.nan() {
            Float::undefined()
        } else if self.infinite() || factor.infinite() {
            if self.zero() || factor.zero() {
                Float::undefined()
            } else {
                Float::make(false, INFINITE as nat)
            }
        } else if term.infinite() {
            term
        } else {
            Float::make(
                false,
                round::nearest(
                    self.units() * factor.units() + term.units() * pow2(1074),
                    pow2(1074),
                    53,
                ),
            )
        }
    }

    pub fn mul_add(self, factor: Float, term: Float) -> (r: Float)
        requires
            !self.negative(),
            !factor.negative(),
            !term.negative(),
        ensures
            r == self.fused(factor, term),
    {
        if self.is_nan() || factor.is_nan() || term.is_nan() {
            return Float { bits: QUIET };
        }
        if self.is_infinite() || factor.is_infinite() {
            if self.mag() == 0 || factor.mag() == 0 {
                return Float { bits: QUIET };
            }
            return Float::with_sign(false, INFINITE);
        }
        if term.is_infinite() {
            return term;
        }
        let (qa, ea) = self.parts();
        let (qb, eb) = factor.parts();
        let (qc, ec) = term.parts();
        proof {
            vstd::arithmetic::power2::lemma2_to64();
            vstd::arithmetic::power2::lemma2_to64_rest();
            lemma_pow2_adds(53, 53);
            assert(qa * qb < pow2(106)) by (nonlinear_arith)
                requires
                    qa < pow2(53),
                    qb < pow2(53),
                    pow2(106) == pow2(53) * pow2(53),
            ;
            assert(pow2(53) * pow2(53) <= 0x20_0000_0000_0000 * 0x20_0000_0000_0000) by (nonlinear_arith)
                requires
                    pow2(53) == 0x20_0000_0000_0000,
            ;
            lemma_pow2_strictly_increases(53, 106);
        }
        let n: u128 = qa as u128 * qb as u128;
        let x: i32 = ea + eb;
        let y: i32 = ec + 1074;
        proof {
            lemma_pow2_adds(ea as nat, eb as nat);
            lemma_pow2_adds(ec as nat, 1074);
            assert(self.units() * factor.units() == n as nat * pow2(x as nat)) by (nonlinear_arith)
                requires
                    self.units() == qa as nat * pow2(ea as nat),
                    factor.units() == qb as nat * pow2(eb as nat),
                    n as nat == qa as nat * qb as nat,
                    pow2(x as nat) == pow2(ea as nat) * pow2(eb as nat),
            ;
            assert(term.units() * pow2(1074) == qc as nat * pow2(y as nat)) by (nonlinear_arith)
                requires
                    term.units() == qc as nat * pow2(ec as nat),
                    pow2(y as nat) == pow2(ec as nat) * pow2(1074),
            ;
        }
        let (m, k) = if x >= y {
            join(n, x, qc as u128, y)
        } else {
            join(qc as u128, y, n, x)
        };
        Float::with_sign(false, round::round_scaled(m, k, 53))
    }
}

/// Digits and an exponent that round as `a * 2^x + b * 2^y` does, counted in units of
/// `2^1074`.
fn join(a: u128, x: i32, b: u128, y: i32) -> (r: (u128, i32))
    requires
        a < pow2(106),
        b < pow2(106),
        0 <= y <= x <= 4100,
    ensures
        r.0 < pow2(126),
        -4000 <= r.1 <= 3100,
        round::nearest(a as nat * pow2(x as nat) + b as nat * pow2(y as nat), pow2(1074), 53)
            == round::scaled(r.0 as nat, r.1 as int, 53),
{
    proof {
        lemma_pow2_strictly_increases(106, 119);
        lemma_pow2_unfold(120);
        lemma_pow2_unfold(121);
        lemma_pow2_unfold(122);
        lemma_pow2_strictly_increases(122, 126);
        vstd::arithmetic::power2::lemma2_to64();
        vstd::arithmetic::power2::lemma2_to64_rest();
        lemma_pow2_adds(60, 62);
        assert(pow2(60) * pow2(62) == 0x400_0000_0000_0000_0000_0000_0000_0000) by (nonlinear_arith)
            requires
                pow2(60) == 0x1000_0000_0000_0000,
                pow2(62) == 0x4000_0000_0000_0000,
        ;
    }
    let d: u32 = (x - y) as u32;
    if a == 0 {
        proof {
            assert(0nat * pow2(x as nat) == 0) by (nonlinear_arith);
            round::lemma_dyadic(b as nat, y as nat, 1074, 53);
        }
        return (b, y - 1074);
    }
    let la: u32 = round::bit_length(a);
    proof {
        if la > 106 {
            if la > 107 {
                lemma_pow2_strictly_increases(106, (la - 1) as nat);
            }
            assert(false);
        }
    }
    let s: u32 = 120 - la;
    if d <= s {
        let f: u128 = round::power_of_two(d);
        proof {
            lemma_pow2_adds(la as nat, s as nat);
            lemma_pow2_adds(d as nat, y as nat);
            if d < s {
                lemma_pow2_strictly_increases(d as nat, s as nat);
            }
            lemma_pow2_pos(d as nat);
            assert(a * f < pow2(120)) by (nonlinear_arith)
                requires
                    a < pow2(la as nat),
                    0 < f <= pow2(s as nat),
                    pow2(120) == pow2(la as nat) * pow2(s as nat),
            ;
        }
        let n: u128 = a * f + b;
        proof {
            assert(n as nat * pow2(y as nat) == a as nat * pow2(x as nat) + b as nat * pow2(y as nat))
                by (nonlinear_arith)
                requires
                    n as nat == a as nat * f as nat + b as nat,
                    f as nat == pow2(d as nat),
                    pow2(x as nat) == pow2(d as nat) * pow2(y as nat),
            ;
            round::lemma_dyadic(n as nat, y as nat, 1074, 53);
        }
        return (n, y - 1074);
    }
    let f: u128 = round::power_of_two(s);
    proof {
        lemma_pow2_adds(la as nat, s as nat);
        lemma_pow2_adds((la - 1) as nat, s as nat);
        lemma_pow2_pos(s as nat);
        assert(a * f < pow2(120) && a * f >= pow2(119)) by (nonlinear_arith)
            requires
                pow2((la - 1) as nat) <= a < pow2(la as nat),
                f == pow2(s as nat),
                f > 0,
                pow2(120) == pow2(la as nat) * pow2(s as nat),
                pow2(119) == pow2((la - 1) as nat) * pow2(s as nat),
        ;
    }
    let high: u128 = a * f;
    let g: u32 = d - s;
    let (q, exact) = drop_digits(b, g);
    let n: u128 = 2 * (high + q) + (if exact { 0u128 } else { 1u128 });
    proof {
        lemma_joined(a as nat, x as nat, b as nat, y as nat, s as nat, g as nat, n as nat);
    }
    (n, y + g as i32 - 1 - 1074)
}

/// What is left of `b` without its last `g` binary digits, and whether those are all
/// zero.
fn drop_digits(b: u128, g: u32) -> (r: (u128, bool))
    requires
        b < pow2(106),
    ensures
        r.0 == b as nat / pow2(g as nat),
        r.0 <= b,
        r.1 == (b as nat % pow2(g as nat) == 0),
{
    proof {
        lemma_pow2_pos(g as nat);
        lemma_fundamental_div_mod(b as int, pow2(g as nat) as int);
        let q = b as nat / pow2(g as nat);
        assert(q <= b) by (nonlinear_arith)
            requires
                b as int == pow2(g as nat) as int * q as int + b as int % pow2(g as nat) as int,
                0 <= b as int % pow2(g as nat) as int,
                pow2(g as nat) >= 1,
        ;
    }
    if g >= 106 {
        proof {
            if g > 106 {
                lemma_pow2_strictly_increases(106, g as nat);
            }
            lemma_fundamental_div_mod_converse(b as int, pow2(g as nat) as int, 0, b as int);
        }
        return (0, b == 0);
    }
    let f: u128 = round::power_of_two(g);
    (b / f, b % f == 0)
}

/// The digits that `join` keeps round as the whole sum does.
proof fn lemma_joined(a: nat, x: nat, b: nat, y: nat, s: nat, g: nat, n: nat)
    requires
        x == y + s + g,
        a * pow2(s) >= pow2(119),
        n == 2 * (a * pow2(s) + b / pow2(g)) + (if b % pow2(g) == 0 { 0nat } else { 1nat }),
    ensures
        round::nearest(a * pow2(x) + b * pow2(y), pow2(1074), 53) == round::scaled(
            n,
            y + g - 1 - 1074,
            53,
        ),
{
    let num = a * pow2(x) + b * pow2(y);
    let c = y + g;
    let q = b / pow2(g);
    let r = b % pow2(g);
    let w = pow2(y);
    lemma_pow2_pos(g);
    lemma_pow2_pos(y);
    lemma_pow2_pos(c);
    lemma_pow2_adds(y, g);
    lemma_pow2_adds(c, s);
    lemma_fundamental_div_mod(b as int, pow2(g) as int);
    let n0 = a * pow2(s) + q;
    assert(num as int == n0 * pow2(c) + r * w) by (nonlinear_arith)
        requires
            num == a * pow2(x) + b * w,
            pow2(x) == pow2(c) * pow2(s),
            pow2(c) == w * pow2(g),
            b as int == pow2(g) as int * q as int + r as int,
            n0 == a * pow2(s) + q,
    ;
    assert(0 <= r * w < pow2(c) && (r * w == 0) == (r == 0)) by (nonlinear_arith)
        requires
            0 <= r < pow2(g),
            w > 0,
            pow2(c) == w * pow2(g),
    ;
    lemma_fundamental_div_mod_converse(num as int, pow2(c) as int, n0 as int, (r * w) as int);
    lemma_pow2_strictly_increases(66, 119);
    lemma_first_digits(num, c, 1074, n);
}

/// A number rounds by its first binary digits and whether anything follows them.
proof fn lemma_first_digits(num: nat, c: nat, b: nat, n: nat)
    requires
        num / pow2(c) >= pow2(66),
        n == 2 * (num / pow2(c)) + (if num % pow2(c) == 0 { 0nat } else { 1nat }),
    ensures
        round::nearest(num, pow2(b), 53) == round::scaled(n, c - b - 1, 53),
{
    let n0 = num / pow2(c);
    lemma_pow2_pos(c);
    lemma_pow2_pos(b);
    lemma_fundamental_div_mod(num as int, pow2(c) as int);
    let len = round::choose_bit_length(n0);
    round::lemma_bit_length_exists(n0);
    lemma_pow2_pos(66);
    if len <= 66 {
        if len < 66 {
            lemma_pow2_strictly_increases(len, 66);
        }
        assert(false);
    }
    lemma_pow2_unfold(len);
    lemma_pow2_unfold(len + 1);
    assert(round::has_bit_length(n, len + 1));
    let k = c - b;
    let j: nat = if len + k > 53 { (len + k - 53) as nat } else { 0 };
    let t = (j - k) as nat;
    round::lemma_scaled_at(n, k - 1, 53, len + 1, j);
    lemma_pow2_adds(c, len);
    lemma_pow2_adds(c, (len - 1) as nat);
    assert(num < pow2(c + len) && pow2((c + len - 1) as nat) <= num) by (nonlinear_arith)
        requires
            num as int == pow2(c) as int * n0 as int + num as int % pow2(c) as int,
            0 <= num as int % (pow2(c) as int) < pow2(c),
            pow2((len - 1) as nat) <= n0 < pow2(len),
            pow2(c + len) == pow2(c) * pow2(len),
            pow2((c + len - 1) as nat) == pow2(c) * pow2((len - 1) as nat),
            pow2(c) > 0,
    ;
    lemma_pow2_adds(b, 53 + j);
    if c + len < b + 53 + j {
        lemma_pow2_strictly_increases(c + len, b + 53 + j);
    }
    if j > 0 {
        lemma_pow2_adds(b, (52 + j) as nat);
        assert(b + (52 + j) == c + len - 1);
    }
    round::lemma_nearest_at(num, pow2(b), 53, j);
    lemma_pow2_adds(b, j);
    lemma_pow2_adds(c, t);
    assert(b + j == c + t);
    round::lemma_round_even_sticky(num, pow2(c), t, n);
}

} // verus!
