//! Square roots.

use super::round;
use super::Float;
use super::QUIET;
use vstd::arithmetic::div_mod::lemma_fundamental_div_mod;
use vstd::arithmetic::div_mod::lemma_fundamental_div_mod_converse;
use vstd::arithmetic::power2::lemma_pow2_adds;
use vstd::arithmetic::power2::lemma_pow2_pos;
use vstd::arithmetic::power2::lemma_pow2_strictly_increases;
use vstd::arithmetic::power2::lemma_pow2_unfold;
use vstd::arithmetic::power2::pow2;
use vstd::prelude::*;

verus! {

pub open spec fn square(x: nat) -> nat {
    x * x
}

/// Whether `q` is the integer part of the square root of `num`, divided by `den`.
pub open spec fn is_floor_root(q: nat, num: nat, den: nat) -> bool {
    square(q * den) <= num < square((q + 1) * den)
}

/// The integer nearest to the square root of `num`, divided by `den`; of two equally near
/// ones, the even one.
pub open spec fn round_root(num: nat, den: nat) -> nat {
    let q = choose|q: nat| is_floor_root(q, num, den);
    let half = square((2 * q + 1) * den);
    if 4 * num > half || (4 * num == half && q % 2 == 1) {
        q + 1
    } else {
        q
    }
}

/// The square root of `num`, divided by `den` and counted in units, rounded to a format with
/// `p` significant bits.
pub open spec fn nearest_root(num: nat, den: nat, p: nat) -> nat
    decreases num - den,
{
    if den == 0 || p == 0 || num < square(den * pow2(p)) {
        round_root(num, den)
    } else {
        proof {
            round::lemma_pow2_at_least_double(den, p);
            lemma_square_monotone(2 * den, den * pow2(p));
            assert(square(2 * den) >= 2 * den) by (nonlinear_arith)
                requires
                    square(2 * den) == (2 * den) * (2 * den),
                    den >= 1,
            ;
        }
        pow2((p - 1) as nat) + nearest_root(num, 2 * den, p)
    }
}

/// Squares keep the order.
pub proof fn lemma_square_monotone(a: nat, b: nat)
    ensures
        a <= b ==> square(a) <= square(b),
        a < b ==> square(a) < square(b),
{
    if a <= b {
        assert(a * a <= b * b) by (nonlinear_arith)
            requires
                a <= b,
        ;
        if a < b {
            assert(a * a < b * b) by (nonlinear_arith)
                requires
                    a < b,
            ;
        }
    }
}

proof fn lemma_floor_root_unique(q: nat, r: nat, num: nat, den: nat)
    requires
        is_floor_root(q, num, den),
        is_floor_root(r, num, den),
    ensures
        q == r,
{
    if q < r {
        assert((q + 1) * den <= r * den) by (nonlinear_arith)
            requires
                q + 1 <= r,
        ;
        lemma_square_monotone((q + 1) * den, r * den);
    } else if r < q {
        assert((r + 1) * den <= q * den) by (nonlinear_arith)
            requires
                r + 1 <= q,
        ;
        lemma_square_monotone((r + 1) * den, q * den);
    }
}

proof fn lemma_nearest_root_at(num: nat, den: nat, p: nat, j: nat)
    requires
        den > 0,
        p > 0,
        j == 0 || square(den * pow2((p - 1 + j) as nat)) <= num,
        num < square(den * pow2(p + j)),
    ensures
        nearest_root(num, den, p) == j * pow2((p - 1) as nat) + round_root(num, den * pow2(j)),
    decreases j,
{
    if j == 0 {
        vstd::arithmetic::power2::lemma2_to64();
        assert(den * 1 == den);
    } else {
        let m = (p - 1) as nat;
        lemma_pow2_unfold(p + j);
        lemma_pow2_unfold((p - 1 + j) as nat);
        lemma_pow2_unfold(j);
        lemma_pow2_adds(p, (j - 1) as nat);
        lemma_pow2_pos((j - 1) as nat);
        assert(pow2((p - 1 + j) as nat) >= pow2(p)) by (nonlinear_arith)
            requires
                pow2((p - 1 + j) as nat) == pow2(p) * pow2((j - 1) as nat),
                pow2((j - 1) as nat) >= 1,
        ;
        assert(den * pow2((p - 1 + j) as nat) >= den * pow2(p)) by (nonlinear_arith)
            requires
                pow2((p - 1 + j) as nat) >= pow2(p),
        ;
        lemma_square_monotone(den * pow2(p), den * pow2((p - 1 + j) as nat));
        assert((2 * den) * pow2((p - 1 + j - 1) as nat) == den * pow2((p - 1 + j) as nat)) by (nonlinear_arith)
            requires
                pow2((p - 1 + j) as nat) == 2 * pow2((p - 1 + j - 1) as nat),
        ;
        assert((2 * den) * pow2((p + (j - 1)) as nat) == den * pow2(p + j)) by (nonlinear_arith)
            requires
                pow2(p + j) == 2 * pow2((p + (j - 1)) as nat),
        ;
        assert((2 * den) * pow2((j - 1) as nat) == den * pow2(j)) by (nonlinear_arith)
            requires
                pow2(j) == 2 * pow2((j - 1) as nat),
        ;
        lemma_nearest_root_at(num, 2 * den, p, (j - 1) as nat);
        assert(j * pow2(m) == pow2(m) + (j - 1) * pow2(m)) by (nonlinear_arith);
    }
}

/// A root may be rounded from its integer part and whether anything follows it.
proof fn lemma_round_root_sticky(x: nat, r: nat, a: nat, t: nat, n: nat)
    requires
        square(r) <= x < square(r + 1),
        t > 0,
        n == 2 * r + (if square(r) == x { 0nat } else { 1nat }),
    ensures
        round_root(x * square(pow2(a)), pow2(a) * pow2(t)) == round::round_even(n, pow2(t + 1)),
{
    let c = pow2(a);
    let d = pow2(t);
    let h = pow2((t - 1) as nat);
    lemma_pow2_unfold(t);
    lemma_pow2_unfold(t + 1);
    lemma_pow2_pos(a);
    lemma_pow2_pos((t - 1) as nat);
    let num = x * square(c);
    let den = c * d;
    let s: nat = if square(r) == x { 0 } else { 1 };
    let q = r / d;
    let rest = r % d;
    lemma_fundamental_div_mod(r as int, d as int);
    assert(n == q * (2 * d) + (2 * rest + s)) by (nonlinear_arith)
        requires
            n == 2 * r + s,
            r == d * q + rest,
    ;
    lemma_fundamental_div_mod_converse(n as int, (2 * d) as int, q as int, (2 * rest + s) as int);
    // The integer part.
    assert(q * d <= r < (q + 1) * d) by (nonlinear_arith)
        requires
            r == d * q + rest,
            0 <= rest < d,
    ;
    lemma_square_monotone(q * d, r);
    lemma_square_monotone(r + 1, (q + 1) * d);
    lemma_square_scale(q * d, c, x);
    lemma_square_scale((q + 1) * d, c, x);
    assert((q * d) * c == q * den && ((q + 1) * d) * c == (q + 1) * den) by (nonlinear_arith)
        requires
            den == c * d,
    ;
    assert(is_floor_root(q, num, den));
    let q1 = choose|q: nat| is_floor_root(q, num, den);
    lemma_floor_root_unique(q, q1, num, den);
    // The half: (2 q + 1) den = 2 (q d + h) c.
    let mid = q * d + h;
    assert((2 * q + 1) * den == (2 * mid) * c) by (nonlinear_arith)
        requires
            den == c * d,
            d == 2 * h,
            mid == q * d + h,
    ;
    assert(square((2 * mid) * c) == 4 * (square(mid) * square(c))) by (nonlinear_arith)
        requires
            square((2 * mid) * c) == ((2 * mid) * c) * ((2 * mid) * c),
            square(mid) == mid * mid,
            square(c) == c * c,
    ;
    assert((4 * (x * square(c)) > 4 * (square(mid) * square(c))) == (x > square(mid)) && ((4 * (x
        * square(c)) == 4 * (square(mid) * square(c))) == (x == square(mid)))) by (nonlinear_arith)
        requires
            square(c) > 0,
    {
        assert(square(c) > 0);
    }
    assert(r == mid + (rest - h)) by (nonlinear_arith)
        requires
            r == d * q + rest,
            mid == q * d + h,
    ;
    if rest > h {
        lemma_square_monotone(mid, r);
    } else if rest == h {
        assert(r == mid);
    } else {
        lemma_square_monotone(r + 1, mid);
    }
}

proof fn lemma_square_scale(y: nat, c: nat, x: nat)
    requires
        c > 0,
    ensures
        square(c) > 0,
        square(y * c) == square(y) * square(c),
        (square(y * c) <= x * square(c)) == (square(y) <= x),
{
    assert(c * c > 0) by (nonlinear_arith)
        requires
            c > 0,
    ;
    assert((y * c) * (y * c) == (y * y) * (c * c)) by (nonlinear_arith);
    let w = square(c);
    let z = square(y);
    assert((z * w <= x * w) == (z <= x)) by (nonlinear_arith)
        requires
            w > 0,
    ;
}

/// The integer part of a square root.
fn floor_root(x: u128) -> (r: u64)
    requires
        x < pow2(124),
    ensures
        square(r as nat) <= x < square((r + 1) as nat),
        r < pow2(62),
{
    let mut r: u64 = 0;
    let mut i: u32 = 62;
    proof {
        lemma_pow2_adds(62, 62);
        vstd::arithmetic::power2::lemma2_to64();
        vstd::arithmetic::power2::lemma2_to64_rest();
    }
    while i > 0
        invariant
            i <= 62,
            square(r as nat) <= x < square((r + pow2(i as nat)) as nat),
            r + pow2(i as nat) <= pow2(62),
            pow2(62) == 0x4000_0000_0000_0000,
        decreases i,
    {
        i = i - 1;
        proof {
            lemma_pow2_unfold((i + 1) as nat);
            lemma_pow2_pos(i as nat);
        }
        let b: u64 = round::power_of_two(i) as u64;
        let c: u64 = r + b;
        proof {
            assert(c * c <= 0x4000_0000_0000_0000 * 0x4000_0000_0000_0000) by (nonlinear_arith)
                requires
                    0 <= c <= 0x4000_0000_0000_0000,
            ;
        }
        if c as u128 * c as u128 <= x {
            r = c;
        }
    }
    proof {
        vstd::arithmetic::power2::lemma2_to64();
    }
    r
}

impl Float {
    /// The square root, rounded.
    #[verifier::opaque]
    pub open spec fn root(self) -> Float {
        if self.nan() {
            Float::undefined()
        } else if self.zero() {
            self
        } else if self.negative() {
            Float::undefined()
        } else if self.infinite() {
            self
        } else {
            Float::make(false, nearest_root(self.units() * pow2(1074), 1, 53))
        }
    }

    pub fn sqrt(self) -> (r: Float)
        ensures
            r == self.root(),
    {
        reveal(Float::root);
        if self.is_nan() {
            return Float { bits: QUIET };
        }
        if self.mag() == 0 {
            return self;
        }
        if self.is_negative() {
            return Float { bits: QUIET };
        }
        if self.is_infinite() {
            return self;
        }
        let (q, e) = self.parts();
        proof {
            vstd::arithmetic::power2::lemma2_to64();
            vstd::arithmetic::power2::lemma2_to64_rest();
        }
        let len: u32 = round::bit_length(q as u128);
        proof {
            if len > 54 {
                lemma_pow2_strictly_increases(53, (len - 1) as nat);
            }
        }
        // An even exponent remains after the shift.
        let s: u32 = if (e as u32 + 122 - len) % 2 == 0 { 122 - len } else { 123 - len };
        let f: u128 = round::power_of_two(s);
        proof {
            lemma_pow2_adds(len as nat, s as nat);
            lemma_pow2_adds((len - 1) as nat, s as nat);
            lemma_pow2_pos(s as nat);
            assert(q * f < pow2((len + s) as nat) && q * f >= pow2((len - 1 + s) as nat)) by (nonlinear_arith)
                requires
                    pow2((len - 1) as nat) <= q < pow2(len as nat),
                    f == pow2(s as nat),
                    f > 0,
                    pow2((len + s) as nat) == pow2(len as nat) * pow2(s as nat),
                    pow2((len - 1 + s) as nat) == pow2((len - 1) as nat) * pow2(s as nat),
            ;
            lemma_pow2_unfold(124);
            lemma_pow2_unfold(123);
            lemma_pow2_unfold(122);
            if len + s == 122 {
                lemma_pow2_strictly_increases(122, 124);
            } else {
                lemma_pow2_strictly_increases(123, 124);
            }
            lemma_pow2_adds(62, 62);
            assert(pow2(62) * pow2(62) == 0x1000_0000_0000_0000_0000_0000_0000_0000) by (nonlinear_arith)
                requires
                    pow2(62) == 0x4000_0000_0000_0000,
            ;
        }
        let x: u128 = q as u128 * f;
        let r: u64 = floor_root(x);
        proof {
            assert(r * r <= x);
            assert(r * r < 0x1_0000_0000_0000_0000_0000_0000_0000_0000);
        }
        let n: u128 = 2 * (r as u128) + (if r as u128 * r as u128 == x { 0u128 } else { 1u128 });
        let a: i32 = (e + 1074 - s as i32) / 2;
        proof {
            lemma_pow2_unfold(63);
            lemma_pow2_unfold(64);
            lemma_pow2_strictly_increases(64, 126);
            lemma_root_units(x as nat, r as nat, n as nat, q as nat, e as nat, s as nat, a as nat);
        }
        Float::with_sign(false, round::round_scaled(n, a - 1, 53))
    }
}

proof fn lemma_root_units(x: nat, r: nat, n: nat, q: nat, e: nat, s: nat, a: nat)
    requires
        x == q * pow2(s),
        x >= pow2(121),
        square(r) <= x < square(r + 1),
        n == 2 * r + (if square(r) == x { 0nat } else { 1nat }),
        e + 1074 == s + 2 * a,
        a >= 1,
    ensures
        nearest_root((q * pow2(e)) * pow2(1074), 1, 53) == round::scaled(n, a - 1, 53),
{
    let num = (q * pow2(e)) * pow2(1074);
    let c = pow2(a);
    lemma_pow2_pos(a);
    lemma_pow2_adds(e, 1074);
    lemma_pow2_adds(s, 2 * a);
    lemma_pow2_adds(a, a);
    assert(num == x * square(c)) by (nonlinear_arith)
        requires
            num == (q * pow2(e)) * pow2(1074),
            x == q * pow2(s),
            pow2(e + 1074) == pow2(e) * pow2(1074),
            pow2(e + 1074) == pow2(s) * pow2(2 * a),
            pow2(2 * a) == c * c,
            square(c) == c * c,
    ;
    // The root has many digits.
    lemma_pow2_adds(60, 60);
    lemma_pow2_strictly_increases(120, 121);
    if r < pow2(60) {
        lemma_square_monotone(r + 1, pow2(60));
        assert(false);
    }
    let len = round::choose_bit_length(r);
    round::lemma_bit_length_exists(r);
    if len <= 60 {
        if len < 60 {
            lemma_pow2_strictly_increases(len, 60);
        }
        assert(false);
    }
    lemma_pow2_unfold(len);
    lemma_pow2_unfold(len + 1);
    assert(round::has_bit_length(n, len + 1));
    let j = (len + a - 53) as nat;
    let t = (j - a) as nat;
    round::lemma_scaled_at(n, a - 1, 53, len + 1, j);
    lemma_pow2_adds(a, len);
    lemma_pow2_adds(a, (len - 1) as nat);
    lemma_pow2_adds(a, t);
    let hi = pow2(len);
    let lo = pow2((len - 1) as nat);
    lemma_square_monotone(r + 1, hi);
    lemma_square_monotone(lo, r);
    lemma_square_scale(hi, c, x);
    lemma_square_scale(lo, c, x);
    assert(hi * c == c * hi && lo * c == c * lo) by (nonlinear_arith);
    assert(1 * pow2(53 + j) == hi * c);
    assert(1 * pow2((53 - 1 + j) as nat) == lo * c);
    assert(num < square(hi * c)) by (nonlinear_arith)
        requires
            num == x * square(c),
            x < square(hi),
            square(hi * c) == square(hi) * square(c),
            square(c) > 0,
    ;
    lemma_nearest_root_at(num, 1, 53, j);
    assert(1 * pow2(j) == c * pow2(t));
    lemma_round_root_sticky(x, r, a, t, n);
}

} // verus!
