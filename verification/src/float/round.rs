//! Rounding of exact quotients to a fixed number of significant bits.

use vstd::arithmetic::div_mod::lemma_fundamental_div_mod;
use vstd::arithmetic::div_mod::lemma_fundamental_div_mod_converse;
use vstd::arithmetic::power2::lemma_pow2_adds;
use vstd::arithmetic::power2::lemma_pow2_pos;
use vstd::arithmetic::power2::lemma_pow2_strictly_increases;
use vstd::arithmetic::power2::lemma_pow2_unfold;
use vstd::arithmetic::power2::pow2;
use vstd::prelude::*;

verus! {

/// The integer nearest to `num / den`; of two equally near ones, the even one.
pub open spec fn round_even(num: nat, den: nat) -> nat {
    let q = num / den;
    let r = num % den;
    if 2 * r > den || (2 * r == den && q % 2 == 1) {
        q + 1
    } else {
        q
    }
}

/// `num / den`, counted in units of the smallest number of a binary format with
/// `p` significant bits, rounded to that format.
///
/// The result is the number's position among the format's numbers: below
/// `2^p` units they lie one unit apart, and each doubling of the range from there on
/// holds another `2^(p - 1)` of them. An exponent of any size is allowed.
pub open spec fn nearest(num: nat, den: nat, p: nat) -> nat
    decreases num - den,
{
    if den == 0 || p == 0 || num < den * pow2(p) {
        round_even(num, den)
    } else {
        proof {
            lemma_pow2_at_least_double(den, p);
        }
        pow2((p - 1) as nat) + nearest(num, 2 * den, p)
    }
}

/// A power of two above one at least doubles.
pub proof fn lemma_pow2_at_least_double(den: nat, p: nat)
    requires
        p > 0,
    ensures
        den * pow2(p) >= 2 * den,
{
    lemma_pow2_unfold(p);
    lemma_pow2_pos((p - 1) as nat);
    assert(den * pow2(p) >= 2 * den) by (nonlinear_arith)
        requires
            pow2(p) >= 2,
    ;
}

/// Common factors of the two arguments do not change the nearest integer.
pub proof fn lemma_round_even_scale(c: nat, num: nat, den: nat)
    requires
        c > 0,
        den > 0,
    ensures
        round_even(c * num, c * den) == round_even(num, den),
{
    let q = num / den;
    let r = num % den;
    lemma_fundamental_div_mod(num as int, den as int);
    assert(c * num == q * (c * den) + c * r) by (nonlinear_arith)
        requires
            num == den * q + r,
    ;
    assert(0 <= c * r < c * den) by (nonlinear_arith)
        requires
            0 <= r < den,
            c > 0,
    ;
    lemma_fundamental_div_mod_converse((c * num) as int, (c * den) as int, q as int, (c * r) as int);
    assert((2 * (c * r) > c * den) == (2 * r > den)) by (nonlinear_arith)
        requires
            c > 0,
    ;
    assert((2 * (c * r) == c * den) == (2 * r == den)) by (nonlinear_arith)
        requires
            c > 0,
    ;
}

/// An integer is its own nearest integer.
pub proof fn lemma_round_even_whole(n: nat, den: nat)
    requires
        den > 0,
    ensures
        round_even(n * den, den) == n,
{
    lemma_fundamental_div_mod_converse((n * den) as int, den as int, n as int, 0);
}

/// Where `num / den` lies in the `j`-th doubling of the range, rounding is to the
/// nearest multiple of `2^j`.
pub proof fn lemma_nearest_at(num: nat, den: nat, p: nat, j: nat)
    requires
        den > 0,
        p > 0,
        j == 0 || den * pow2((p - 1 + j) as nat) <= num,
        num < den * pow2(p + j),
    ensures
        nearest(num, den, p) == j * pow2((p - 1) as nat) + round_even(num, den * pow2(j)),
    decreases j,
{
    if j == 0 {
        assert(pow2(0) == 1) by {
            vstd::arithmetic::power2::lemma2_to64();
        }
        assert(den * 1 == den);
    } else {
        let m = (p - 1) as nat;
        lemma_pow2_adds(m, j);
        lemma_pow2_adds(p, (j - 1) as nat);
        lemma_pow2_unfold(p);
        lemma_pow2_unfold(p + j);
        lemma_pow2_unfold((p - 1 + j) as nat);
        lemma_pow2_unfold(j);
        assert(den * pow2((p - 1 + j) as nat) >= den * pow2(p)) by {
            lemma_pow2_pos((j - 1) as nat);
            assert(pow2(p) * pow2((j - 1) as nat) >= pow2(p)) by (nonlinear_arith)
                requires
                    pow2((j - 1) as nat) >= 1,
            ;
            assert(den * pow2((p - 1 + j) as nat) >= den * pow2(p)) by (nonlinear_arith)
                requires
                    pow2((p - 1 + j) as nat) >= pow2(p),
            ;
        }
        assert((2 * den) * pow2((p - 1 + j - 1) as nat) == den * pow2((p - 1 + j) as nat)) by (nonlinear_arith)
            requires
                pow2((p - 1 + j) as nat) == 2 * pow2((p - 1 + j - 1) as nat),
        ;
        assert((2 * den) * pow2((p + (j - 1)) as nat) == den * pow2(p + j)) by (nonlinear_arith)
            requires
                pow2(p + j) == 2 * pow2((p + (j - 1)) as nat),
        ;
        assert((2 * den) * pow2((j - 1) as nat) == den * pow2(j)) by (nonlinear_arith)
            requires
                pow2(j) == 2 * pow2((j - 1) as nat),
        ;
        lemma_nearest_at(num, 2 * den, p, (j - 1) as nat);
        assert(j * pow2(m) == pow2(m) + (j - 1) * pow2(m)) by (nonlinear_arith);
    }
}

/// Common factors of numerator and denominator do not change the rounded quotient.
pub proof fn lemma_nearest_scale(c: nat, num: nat, den: nat, p: nat)
    requires
        c > 0,
        den > 0,
        p > 0,
    ensures
        nearest(c * num, c * den, p) == nearest(num, den, p),
    decreases num - den,
{
    assert(c * den > 0 && ((c * num < (c * den) * pow2(p)) == (num < den * pow2(p)))) by (nonlinear_arith)
        requires
            c > 0,
            den > 0,
    ;
    if num < den * pow2(p) {
        lemma_round_even_scale(c, num, den);
    } else {
        lemma_pow2_at_least_double(den, p);
        lemma_nearest_scale(c, num, 2 * den, p);
        assert(2 * (c * den) == c * (2 * den)) by (nonlinear_arith);
    }
}

/// `n * 2^k` units, rounded to a format with `p` significant bits.
pub open spec fn scaled(n: nat, k: int, p: nat) -> nat {
    if k >= 0 {
        nearest(n * pow2(k as nat), 1, p)
    } else {
        nearest(n, pow2((-k) as nat), p)
    }
}

/// Whether `n` has exactly `len` binary digits.
pub open spec fn has_bit_length(n: nat, len: nat) -> bool {
    if len == 0 {
        n == 0
    } else {
        pow2((len - 1) as nat) <= n < pow2(len)
    }
}

/// What rounding `n * 2^k` comes to, by the number of binary digits of `n`.
pub proof fn lemma_scaled_at(n: nat, k: int, p: nat, len: nat, j: nat)
    requires
        p > 0,
        len > 0,
        has_bit_length(n, len),
        j == (if len + k > p { len + k - p } else { 0 }),
    ensures
        j <= k ==> scaled(n, k, p) == j * pow2((p - 1) as nat) + n * pow2((k - j) as nat),
        j > k ==> scaled(n, k, p) == j * pow2((p - 1) as nat) + round_even(n, pow2((j - k) as nat)),
{
    if k >= 0 {
        let e = k as nat;
        let num = n * pow2(e);
        lemma_pow2_pos(e);
        assert(num < pow2(len) * pow2(e) && num >= pow2((len - 1) as nat) * pow2(e)) by (nonlinear_arith)
            requires
                num == n * pow2(e),
                pow2((len - 1) as nat) <= n < pow2(len),
                pow2(e) > 0,
        ;
        lemma_pow2_adds(len, e);
        lemma_pow2_adds((len - 1) as nat, e);
        if p + j > len + e {
            lemma_pow2_strictly_increases(len + e, p + j);
        }
        lemma_nearest_at(num, 1, p, j);
        lemma_pow2_pos(j);
        if j <= k {
            let d = (k - j) as nat;
            lemma_pow2_adds(d, j);
            assert(num == (n * pow2(d)) * pow2(j)) by (nonlinear_arith)
                requires
                    num == n * pow2(e),
                    pow2(e) == pow2(d) * pow2(j),
            ;
            lemma_round_even_whole(n * pow2(d), pow2(j));
        } else {
            let d = (j - k) as nat;
            lemma_pow2_adds(e, d);
            lemma_pow2_pos(d);
            lemma_round_even_scale(pow2(e), n, pow2(d));
            assert(num == pow2(e) * n) by (nonlinear_arith)
                requires
                    num == n * pow2(e),
            ;
        }
    } else {
        let e = (-k) as nat;
        let den = pow2(e);
        lemma_pow2_pos(e);
        lemma_pow2_adds(e, p + j);
        lemma_pow2_adds(e, j);
        if j > 0 {
            lemma_pow2_adds(e, (p - 1 + j) as nat);
        }
        if e + p + j > len {
            lemma_pow2_strictly_increases(len, e + p + j);
        }
        lemma_nearest_at(n, den, p, j);
    }
}

/// A quotient may be rounded from its integer part and whether anything follows it, as
/// long as at least one binary digit of the integer part is rounded away.
pub proof fn lemma_round_even_sticky(num: nat, den: nat, t: nat, n: nat)
    requires
        den > 0,
        t > 0,
        n == 2 * (num / den) + (if num % den == 0 { 0nat } else { 1nat }),
    ensures
        round_even(num, den * pow2(t)) == round_even(n, pow2(t + 1)),
{
    let d = pow2(t);
    lemma_pow2_unfold(t);
    lemma_pow2_unfold(t + 1);
    lemma_pow2_pos((t - 1) as nat);
    let h = pow2((t - 1) as nat);
    let q0 = num / den;
    let r0 = num % den;
    let s: nat = if r0 == 0 { 0 } else { 1 };
    lemma_fundamental_div_mod(num as int, den as int);
    let q = q0 / d;
    let r = q0 % d;
    lemma_fundamental_div_mod(q0 as int, d as int);
    let rest = den * r + r0;
    assert(num == q * (den * d) + rest) by (nonlinear_arith)
        requires
            num == den * q0 + r0,
            q0 == d * q + r,
            rest == den * r + r0,
    ;
    assert(0 <= rest < den * d) by (nonlinear_arith)
        requires
            rest == den * r + r0,
            0 <= r0 < den,
            0 <= r < d,
    ;
    lemma_fundamental_div_mod_converse(num as int, (den * d) as int, q as int, rest as int);
    assert(n == q * (2 * d) + (2 * r + s)) by (nonlinear_arith)
        requires
            n == 2 * q0 + s,
            q0 == d * q + r,
    ;
    lemma_fundamental_div_mod_converse(n as int, (2 * d) as int, q as int, (2 * r + s) as int);
    // Both remainders stand to the half in the same way.
    if 2 * r > d {
        assert(2 * rest > den * d) by (nonlinear_arith)
            requires
                rest == den * r + r0,
                2 * r > d,
                den > 0,
                r0 >= 0,
        ;
    } else if 2 * r == d {
        assert(2 * rest == den * d + 2 * r0) by (nonlinear_arith)
            requires
                rest == den * r + r0,
                2 * r == d,
        ;
    } else {
        assert(2 * r + 2 <= d) by {
            assert(d == 2 * h);
        }
        assert(2 * rest < den * d) by (nonlinear_arith)
            requires
                rest == den * r + r0,
                2 * r + 2 <= d,
                r0 < den,
                den > 0,
        ;
    }
}

/// The number of binary digits of `n`.
pub open spec fn choose_bit_length(n: nat) -> nat {
    choose|len: nat| has_bit_length(n, len)
}

/// Every number has a number of digits.
pub proof fn lemma_bit_length_exists(n: nat)
    ensures
        has_bit_length(n, choose_bit_length(n)),
    decreases n,
{
    if n == 0 {
        assert(has_bit_length(n, 0));
    } else {
        lemma_bit_length_exists(n / 2);
        let h = choose_bit_length(n / 2);
        lemma_pow2_unfold(h + 1);
        vstd::arithmetic::power2::lemma2_to64();
        if h > 0 {
            lemma_pow2_unfold(h);
        }
        assert(has_bit_length(n, h + 1));
    }
}

/// A quotient of powers of two times an integer by the difference of the exponents.
pub proof fn lemma_dyadic(n: nat, a: nat, b: nat, p: nat)
    requires
        p > 0,
    ensures
        nearest(n * pow2(a), pow2(b), p) == scaled(n, a - b, p),
{
    lemma_pow2_pos(a);
    lemma_pow2_pos(b);
    if a >= b {
        let k = (a - b) as nat;
        lemma_pow2_adds(b, k);
        assert(n * pow2(a) == pow2(b) * (n * pow2(k))) by (nonlinear_arith)
            requires
                pow2(a) == pow2(b) * pow2(k),
        ;
        lemma_nearest_scale(pow2(b), n * pow2(k), 1, p);
    } else {
        let k = (b - a) as nat;
        lemma_pow2_adds(a, k);
        lemma_pow2_pos(k);
        assert(n * pow2(a) == pow2(a) * n) by (nonlinear_arith);
        lemma_nearest_scale(pow2(a), n, pow2(k), p);
    }
}

proof fn lemma_one_shifted(e: u128)
    requires
        e < 128,
    ensures
        (1u128 << e) == pow2(e as nat),
    decreases e,
{
    if e == 0 {
        assert(1u128 << 0u128 == 1u128) by (bit_vector);
        vstd::arithmetic::power2::lemma2_to64();
    } else {
        let f = (e - 1) as u128;
        lemma_one_shifted(f);
        lemma_pow2_unfold(e as nat);
        assert(1u128 << e == 2 * (1u128 << f)) by (bit_vector)
            requires
                0 < e < 128,
                e == f + 1,
        ;
    }
}

/// The power of two with exponent `e`.
pub fn power_of_two(e: u32) -> (r: u128)
    requires
        e < 128,
    ensures
        r == pow2(e as nat),
{
    proof {
        lemma_one_shifted(e as u128);
    }
    1u128 << (e as u128)
}

/// The number of binary digits of `n`.
pub fn bit_length(n: u128) -> (len: u32)
    ensures
        len <= 128,
        has_bit_length(n as nat, len as nat),
{
    let mut rest: u128 = n;
    let mut len: u32 = 0;
    proof {
        vstd::arithmetic::power2::lemma2_to64();
        assert(n as nat / pow2(0) == n);
        lemma_pow2_adds(64, 64);
        assert(pow2(64) * pow2(64) == 0x1_0000_0000_0000_0000_0000_0000_0000_0000) by (nonlinear_arith)
            requires
                pow2(64) == 0x1_0000_0000_0000_0000,
        ;
    }
    while rest != 0
        invariant
            len <= 128,
            rest == n as nat / pow2(len as nat),
            rest < pow2((128 - len) as nat),
            len > 0 ==> n >= pow2((len - 1) as nat),
        decreases rest,
    {
        proof {
            lemma_pow2_pos(len as nat);
            lemma_fundamental_div_mod(n as int, pow2(len as nat) as int);
            let d = pow2(len as nat) as int;
            assert(n >= pow2(len as nat)) by (nonlinear_arith)
                requires
                    n == d * rest + (n as int % d),
                    rest >= 1,
                    0 <= n as int % d,
                    d > 0,
                    d == pow2(len as nat),
            ;
            lemma_pow2_unfold((len + 1) as nat);
            vstd::arithmetic::div_mod::lemma_div_denominator(n as int, d, 2);
            assert(pow2((len + 1) as nat) == d * 2);
            if len == 128 {
                vstd::arithmetic::power2::lemma2_to64();
            }
            lemma_pow2_unfold((128 - len) as nat);
        }
        rest = rest / 2;
        len = len + 1;
    }
    proof {
        lemma_pow2_pos(len as nat);
        lemma_fundamental_div_mod(n as int, pow2(len as nat) as int);
        let d = pow2(len as nat) as int;
        assert(n < d) by (nonlinear_arith)
            requires
                n == d * 0 + (n as int % d),
                n as int % d < d,
        ;
        if len == 0 {
            vstd::arithmetic::power2::lemma2_to64();
        }
    }
    len
}

proof fn lemma_powers()
    ensures
        pow2(52) == 0x10_0000_0000_0000,
        pow2(53) == 0x20_0000_0000_0000,
        forall|e: nat| e <= 52 ==> #[trigger] pow2(e) <= pow2(52),
{
    vstd::arithmetic::power2::lemma2_to64();
    vstd::arithmetic::power2::lemma2_to64_rest();
    assert forall|e: nat| e <= 52 implies #[trigger] pow2(e) <= pow2(52) by {
        if e < 52 {
            lemma_pow2_strictly_increases(e, 52);
        }
    }
}

/// Nothing rounds to nothing.
pub proof fn lemma_scaled_zero(k: int, p: nat)
    requires
        p > 0,
    ensures
        scaled(0, k, p) == 0,
{
    lemma_pow2_pos(p);
    if k >= 0 {
        assert(0 * pow2(k as nat) == 0);
        assert(0 < 1 * pow2(p));
        assert(round_even(0, 1) == 0);
    } else {
        let d = pow2((-k) as nat);
        lemma_pow2_pos((-k) as nat);
        assert(0 < d * pow2(p)) by (nonlinear_arith)
            requires
                d > 0,
                pow2(p) > 0,
        ;
        lemma_round_even_whole(0, d);
    }
}

proof fn lemma_position_bound(n: nat, k: int, p: nat, len: nat, j: nat)
    requires
        0 < p <= 53,
        len > 0,
        has_bit_length(n, len),
        j == (if len + k > p { len + k - p } else { 0 }),
    ensures
        j <= k ==> n * pow2((k - j) as nat) <= pow2(53),
        j > k ==> round_even(n, pow2((j - k) as nat)) <= pow2(53),
{
    if p < 53 {
        lemma_pow2_strictly_increases(p, 53);
    }
    if j <= k {
        let d = (k - j) as nat;
        lemma_pow2_adds(len, d);
        lemma_pow2_pos(d);
        assert(n * pow2(d) < pow2(len + d)) by (nonlinear_arith)
            requires
                n < pow2(len),
                pow2(d) > 0,
                pow2(len + d) == pow2(len) * pow2(d),
        ;
        if len + d < p {
            lemma_pow2_strictly_increases(len + d, p);
        }
    } else {
        let t = (j - k) as nat;
        lemma_pow2_pos(t);
        lemma_pow2_adds(p, t);
        if len < p + t {
            lemma_pow2_strictly_increases(len, p + t);
        }
        let d = pow2(t) as int;
        lemma_fundamental_div_mod(n as int, d);
        assert(n as int / d < pow2(p)) by (nonlinear_arith)
            requires
                n as int == d * (n as int / d) + n as int % d,
                0 <= n as int % d,
                n < d * pow2(p),
                d > 0,
        ;
    }
}

/// `n / 2^t`, rounded to the nearest integer, ties to even.
pub fn round_shift(n: u128, t: u32) -> (r: u128)
    requires
        n < pow2(126),
    ensures
        r == round_even(n as nat, pow2(t as nat)),
{
    if t >= 127 {
        proof {
            if t > 127 {
                lemma_pow2_strictly_increases(127, t as nat);
            }
            lemma_pow2_unfold(127);
            lemma_fundamental_div_mod_converse(n as int, pow2(t as nat) as int, 0, n as int);
        }
        return 0;
    }
    let d: u128 = power_of_two(t);
    proof {
        lemma_pow2_pos(t as nat);
        lemma_pow2_adds(64, 62);
        vstd::arithmetic::power2::lemma2_to64();
        vstd::arithmetic::power2::lemma2_to64_rest();
        assert(pow2(64) * pow2(62) == 0x4000_0000_0000_0000_0000_0000_0000_0000) by (nonlinear_arith)
            requires
                pow2(64) == 0x1_0000_0000_0000_0000,
                pow2(62) == 0x4000_0000_0000_0000,
        ;
        if t < 126 {
            lemma_pow2_strictly_increases(t as nat, 126);
        }
        lemma_fundamental_div_mod(n as int, d as int);
        assert(n / d <= n) by (nonlinear_arith)
            requires
                n as int == d * (n as int / d as int) + n as int % d as int,
                d >= 1,
                0 <= n as int % d as int,
                n as int / d as int >= 0,
        ;
    }
    let q: u128 = n / d;
    let r: u128 = n % d;
    if 2 * r > d || (2 * r == d && q % 2 == 1) {
        q + 1
    } else {
        q
    }
}

/// Rounds `n * 2^k` units to a format with `p` significant bits, and gives the number's
/// position among the format's numbers.
pub fn round_scaled(n: u128, k: i32, p: u32) -> (r: u64)
    requires
        n < pow2(126),
        0 < p <= 53,
        -4000 <= k <= 3100,
    ensures
        r == scaled(n as nat, k as int, p as nat),
        r < 3400 * pow2(52),
{
    let len: u32 = bit_length(n);
    proof {
        lemma_powers();
    }
    if len == 0 {
        proof {
            lemma_scaled_zero(k as int, p as nat);
        }
        return 0;
    }
    proof {
        if len > 126 {
            if len > 127 {
                lemma_pow2_strictly_increases(126, (len - 1) as nat);
            }
        }
    }
    let j: i32 = if len as i32 + k > p as i32 { len as i32 + k - p as i32 } else { 0 };
    proof {
        lemma_scaled_at(n as nat, k as int, p as nat, len as nat, j as nat);
        lemma_position_bound(n as nat, k as int, p as nat, len as nat, j as nat);
    }
    let m: u64 = if j <= k {
        proof {
            lemma_pow2_pos((k - j) as nat);
            assert(n <= n * pow2((k - j) as nat)) by (nonlinear_arith)
                requires
                    pow2((k - j) as nat) >= 1,
            ;
            if k - j >= 54 {
                lemma_pow2_strictly_increases(53, (k - j) as nat);
                assert(n * pow2((k - j) as nat) > pow2(53)) by (nonlinear_arith)
                    requires
                        n >= 1,
                        pow2((k - j) as nat) > pow2(53),
                ;
            }
        }
        n as u64 * power_of_two((k - j) as u32) as u64
    } else {
        round_shift(n, (j - k) as u32) as u64
    };
    proof {
        assert(j * pow2((p - 1) as nat) <= 3300 * pow2(52)) by (nonlinear_arith)
            requires
                0 <= j <= 3300,
                pow2((p - 1) as nat) <= pow2(52),
        ;
    }
    j as u64 * power_of_two(p - 1) as u64 + m
}

} // verus!
