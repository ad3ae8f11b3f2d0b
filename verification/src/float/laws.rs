//! What holds of comparison and arithmetic on numbers.

use super::arith;
use super::round;
use super::Float;
use super::ONE;
use super::STEP;
use super::TWO;
use vstd::arithmetic::power2::lemma_pow2_adds;
use vstd::arithmetic::power2::lemma_pow2_pos;
use vstd::arithmetic::power2::lemma_pow2_strictly_increases;
use vstd::arithmetic::power2::lemma_pow2_unfold;
use vstd::arithmetic::power2::pow2;
use vstd::prelude::*;

verus! {

proof fn lemma_product_rises(p: int, q: int, u: int)
    requires
        p < q,
        u > 0,
    ensures
        p * u < q * u,
{
    assert(p * u < q * u) by (nonlinear_arith)
        requires
            p < q,
            u > 0,
    ;
}

/// A larger magnitude is a larger value.
proof fn lemma_units_rise(a: Float, b: Float)
    requires
        a.finite(),
        b.finite(),
        a.magnitude() < b.magnitude(),
    ensures
        a.units() < b.units(),
{
    let p = a.significand();
    let q = b.significand();
    let d = a.exponent();
    let e = b.exponent();
    lemma_pow2_pos(d);
    lemma_pow2_pos(e);
    assert(a.magnitude() == d * STEP + p);
    assert(b.magnitude() == e * STEP + q);
    assert(p < 2 * STEP && q < 2 * STEP);
    assert(e > 0 ==> q >= STEP);
    if d == e {
        lemma_product_rises(p as int, q as int, pow2(d) as int);
    } else {
        assert(d < e);
        lemma_pow2_unfold(d + 1);
        lemma_product_rises(p as int, 2 * STEP, pow2(d) as int);
        assert(2 * STEP * pow2(d) == STEP * pow2(d + 1)) by (nonlinear_arith)
            requires
                pow2(d + 1) == 2 * pow2(d),
        ;
        if d + 1 < e {
            lemma_pow2_strictly_increases(d + 1, e);
        }
        assert(STEP * pow2(d + 1) <= q * pow2(e)) by (nonlinear_arith)
            requires
                pow2(d + 1) <= pow2(e),
                STEP <= q,
                pow2(d + 1) >= 0,
        ;
    }
}

/// Numbers are compared by their values.
pub proof fn law_order_is_that_of_values(a: Float, b: Float)
    requires
        a.finite(),
        b.finite(),
    ensures
        a.less(b) <==> a.value() < b.value(),
        a.at_most(b) <==> a.value() <= b.value(),
        a.same(b) <==> a.value() == b.value(),
{
    lemma_zero_is_nothing(a);
    lemma_zero_is_nothing(b);
    if a.magnitude() < b.magnitude() {
        lemma_units_rise(a, b);
    } else if b.magnitude() < a.magnitude() {
        lemma_units_rise(b, a);
    } else {
        assert(a.units() == b.units());
    }
}

proof fn lemma_zero_is_nothing(a: Float)
    requires
        a.finite(),
    ensures
        a.zero() <==> a.value() == 0,
        a.value() > 0 ==> !a.negative(),
        a.value() < 0 ==> a.negative(),
{
    lemma_pow2_pos(a.exponent());
    if a.significand() > 0 {
        lemma_product_rises(0, a.significand() as int, pow2(a.exponent()) as int);
    } else {
        assert(0 * pow2(a.exponent()) == 0);
    }
}

proof fn lemma_nearest_positive(n: nat)
    requires
        n > 0,
    ensures
        round::nearest(n, 1, 53) > 0,
{
    vstd::arithmetic::power2::lemma2_to64();
    vstd::arithmetic::power2::lemma2_to64_rest();
    if n < pow2(53) {
        assert(n < 1 * pow2(53));
        assert(round::round_even(n, 1) == n);
    } else {
        assert(!(n < 1 * pow2(53)));
        lemma_pow2_pos(52);
    }
}

/// Turning the sign turns the value.
pub proof fn law_negated_value(a: Float)
    ensures
        a.negated().magnitude() == a.magnitude(),
        a.negated().negative() == !a.negative(),
        a.finite() ==> a.negated().finite() && a.negated().value() == -a.value(),
{
    if a.finite() {
        assert(a.negated().units() == a.units());
    }
}

/// The difference of two numbers is positive where the second is less, negative where it is
/// greater, and zero where they are equal.
pub proof fn law_difference_tells_the_order(a: Float, b: Float)
    requires
        a.finite(),
        b.finite(),
    ensures
        !a.minus(b).nan(),
        b.less(a) <==> (Float { bits: 0 }).less(a.minus(b)),
        a.less(b) <==> a.minus(b).less(Float { bits: 0 }),
        a.same(b) <==> a.minus(b).zero(),
        b.at_most(a) <==> (Float { bits: 0 }).at_most(a.minus(b)),
{
    reveal(Float::plus);
    law_negated_value(b);
    law_order_is_that_of_values(a, b);
    law_order_is_that_of_values(b, a);
    let v = a.value() - b.value();
    if v > 0 {
        lemma_nearest_positive(v as nat);
    } else if v < 0 {
        lemma_nearest_positive((-v) as nat);
    }
}

/// The same distance lies between two numbers in both directions.
pub proof fn law_distance_is_symmetric(a: Float, b: Float)
    ensures
        a.minus(b).absolute() == b.minus(a).absolute(),
{
    reveal(Float::plus);
    law_negated_value(a);
    law_negated_value(b);
}

/// A finite number is rounded to itself.
proof fn lemma_own_magnitude(x: Float)
    requires
        x.finite(),
    ensures
        round::nearest(x.units(), 1, 53) == x.magnitude(),
{
    vstd::arithmetic::power2::lemma2_to64();
    vstd::arithmetic::power2::lemma2_to64_rest();
    let q = x.significand();
    let e = x.exponent();
    let u = pow2(e);
    let n = x.units();
    lemma_pow2_pos(e);
    if q > 0 {
        lemma_pow2_adds(53, e);
        lemma_pow2_adds(52, e);
        assert(n < pow2(53) * u) by (nonlinear_arith)
            requires
                n == q * u,
                q < pow2(53),
                u > 0,
        ;
        if e > 0 {
            assert(n >= pow2(52) * u) by (nonlinear_arith)
                requires
                    n == q * u,
                    q >= pow2(52),
                    u > 0,
            ;
        }
        round::lemma_nearest_at(n, 1, 53, e);
        assert(1 * u == u);
        round::lemma_round_even_whole(q, u);
        assert(x.magnitude() == e * STEP + q);
    } else {
        assert(0 * u == 0);
        round::lemma_scaled_zero(0, 53);
        assert(0 * pow2(0) == 0);
    }
}

proof fn lemma_double(x: Float)
    requires
        x.finite(),
        x.plus(x).finite(),
    ensures
        x.plus(x).units() == 2 * x.units(),
        x.plus(x).negative() == x.negative(),
{
    reveal(Float::plus);
    vstd::arithmetic::power2::lemma2_to64();
    vstd::arithmetic::power2::lemma2_to64_rest();
    lemma_zero_is_nothing(x);
    let q = x.significand();
    let e = x.exponent();
    let u = pow2(e);
    lemma_pow2_pos(e);
    if q == 0 {
        assert(0 * u == 0);
        let d = x.plus(x);
        assert(d.magnitude() == 0);
        assert(0 * pow2(d.exponent()) == 0);
    } else {
        lemma_product_rises(0, q as int, u as int);
        let n = 2 * x.units();
        let d = x.plus(x);
        assert(d == Float::make(x.negative(), round::nearest(n, 1, 53)));
        if q < STEP || (e == 0 && 2 * q < 2 * STEP) {
            // A small number: twice the significand still fits.
            assert(e == 0);
            assert(u == 1);
            assert(q * 1 == q);
            assert(n == 2 * q);
            assert(n < 1 * pow2(53));
            assert(round::round_even(n, 1) == n);
            assert(d.magnitude() == n);
            assert(d.significand() == n && d.exponent() == 0);
            assert(n * pow2(0) == n);
        } else {
            lemma_pow2_unfold(e + 1);
            assert(n == q * pow2(e + 1)) by (nonlinear_arith)
                requires
                    n == 2 * (q * u),
                    pow2(e + 1) == 2 * u,
            ;
            lemma_pow2_adds(53, e + 1);
            lemma_pow2_adds(52, e + 1);
            let w = pow2(e + 1);
            assert(n < pow2(53) * w && n >= pow2(52) * w) by (nonlinear_arith)
                requires
                    n == q * w,
                    pow2(52) <= q < pow2(53),
                    w > 0,
            ;
            round::lemma_nearest_at(n, 1, 53, e + 1);
            assert(1 * w == w);
            round::lemma_round_even_whole(q, w);
            assert(d.magnitude() == (e + 1) * STEP + q);
            assert(d.significand() == q && d.exponent() == e + 1);
        }
    }
}

/// Half of twice a number is the number.
pub proof fn law_half_of_double(x: Float)
    requires
        x.finite(),
        x.plus(x).finite(),
    ensures
        x.plus(x).over(Float { bits: TWO }).same(x),
{
    reveal(Float::over);
    vstd::arithmetic::power2::lemma2_to64();
    vstd::arithmetic::power2::lemma2_to64_rest();
    lemma_double(x);
    lemma_two();
    let d = x.plus(x);
    let b = pow2(1075);
    let n = x.units();
    lemma_pow2_unfold(1075);
    lemma_pow2_pos(1075);
    assert((2 * n) * pow2(1074) == b * n && b * 1 == b) by (nonlinear_arith)
        requires
            b == 2 * pow2(1074),
    ;
    round::lemma_nearest_scale(b, n, 1, 53);
    lemma_own_magnitude(x);
    assert(Float::make(x.negative(), x.magnitude() as nat) == x);
}

proof fn lemma_nearest_nothing(den: nat)
    requires
        den > 0,
    ensures
        round::nearest(0, den, 53) == 0,
{
    lemma_pow2_pos(53);
    assert(0 < den * pow2(53)) by (nonlinear_arith)
        requires
            den > 0,
            pow2(53) > 0,
    ;
    vstd::arithmetic::div_mod::lemma_small_mod(0, den);
    vstd::arithmetic::div_mod::lemma_basic_div(0, den as int);
}

proof fn lemma_two()
    ensures
        (Float { bits: TWO }).units() == pow2(1075),
{
    vstd::arithmetic::power2::lemma2_to64();
    vstd::arithmetic::power2::lemma2_to64_rest();
    let two = Float { bits: TWO };
    assert(two.significand() == STEP && two.exponent() == 1023);
    lemma_pow2_adds(52, 1023);
}

/// Halving keeps the order.
pub proof fn law_halves_keep_the_order(a: Float, b: Float)
    requires
        a.finite(),
        b.finite(),
        a.at_most(b),
    ensures
        a.over(Float { bits: TWO }).at_most(b.over(Float { bits: TWO })),
{
    reveal(Float::over);
    lemma_two();
    lemma_pow2_pos(1075);
    lemma_pow2_pos(1074);
    law_order_is_that_of_values(a, b);
    lemma_zero_is_nothing(a);
    lemma_zero_is_nothing(b);
    let c = pow2(1074);
    assert(0 * c == 0);
    lemma_nearest_nothing(pow2(1075));
    if a.units() <= b.units() {
        assert(a.units() * c <= b.units() * c) by (nonlinear_arith)
            requires
                a.units() <= b.units(),
                c > 0,
        ;
        lemma_nearest_rises(a.units() * c, b.units() * c, pow2(1075), 53);
    }
    if b.units() <= a.units() {
        assert(b.units() * c <= a.units() * c) by (nonlinear_arith)
            requires
                b.units() <= a.units(),
                c > 0,
        ;
        lemma_nearest_rises(b.units() * c, a.units() * c, pow2(1075), 53);
    }
}

/// The middle of two numbers lies between them.
pub proof fn law_middle_lies_between(a: Float, b: Float)
    requires
        a.finite(),
        b.finite(),
        a.plus(a).finite(),
        b.plus(b).finite(),
        a.at_most(b),
    ensures
        a.plus(b).finite(),
        a.at_most(a.plus(b).over(Float { bits: TWO })),
        a.plus(b).over(Float { bits: TWO }).at_most(b),
{
    law_sums_keep_the_order(a, b, a);
    law_sums_keep_the_order(a, b, b);
    arith::law_sum_commutes(a, b);
    // a + a <= b + a == a + b <= b + b.
    assert(a.plus(b).finite());
    law_halves_keep_the_order(a.plus(a), a.plus(b));
    law_halves_keep_the_order(a.plus(b), b.plus(b));
    law_half_of_double(a);
    law_half_of_double(b);
}

/// Multiplying by one does not change a number.
pub proof fn law_one_multiplies_nothing(x: Float)
    requires
        x.finite(),
    ensures
        x.times(Float { bits: ONE }) == x,
        (Float { bits: ONE }).times(x) == x,
{
    reveal(Float::times);
    arith::law_product_commutes(x, Float { bits: ONE });
    vstd::arithmetic::power2::lemma2_to64();
    vstd::arithmetic::power2::lemma2_to64_rest();
    let one = Float { bits: ONE };
    assert(one.significand() == STEP && one.exponent() == 1022);
    lemma_pow2_adds(52, 1022);
    assert(one.units() == pow2(1074));
    let d = pow2(1074);
    lemma_pow2_pos(1074);
    let n = x.units();
    assert(n * d == d * n && d * 1 == d) by (nonlinear_arith);
    round::lemma_nearest_scale(d, n, 1, 53);
    lemma_own_magnitude(x);
    assert(Float::make(x.negative(), x.magnitude() as nat) == x);
}

/// A finite number times zero is zero.
pub proof fn law_zero_multiplies_to_zero(x: Float, zero: Float)
    requires
        x.finite(),
        zero.zero(),
    ensures
        x.times(zero).zero(),
        zero.times(x).zero(),
{
    reveal(Float::times);
    arith::law_product_commutes(x, zero);
    assert(0 * pow2(zero.exponent()) == 0);
    assert(zero.units() == 0);
    assert(x.units() * 0 == 0);
    lemma_pow2_pos(1074);
    lemma_nearest_nothing(pow2(1074));
}

/// Adding zero of either sign does not change a number, in either order.
pub proof fn law_zero_is_no_term(x: Float, zero: Float)
    requires
        x.finite(),
        zero.zero(),
    ensures
        x.plus(zero).same(x),
        zero.plus(x).same(x),
        x.minus(zero).same(x),
{
    arith::law_zero_adds_nothing(x);
    law_equal_terms_give_equal_sums(x, x, zero, Float { bits: 0 });
    arith::law_sum_commutes(x, zero);
    law_negated_value(zero);
    law_equal_terms_give_equal_sums(x, x, zero.negated(), Float { bits: 0 });
}

/// Equal terms give equal sums and differences.
pub proof fn law_equal_terms_give_equal_sums(a: Float, b: Float, c: Float, d: Float)
    requires
        a.finite(),
        b.finite(),
        c.finite(),
        d.finite(),
        a.same(b),
        c.same(d),
    ensures
        a.plus(c).same(b.plus(d)),
        a.minus(c).same(b.minus(d)),
{
    reveal(Float::plus);
    law_order_is_that_of_values(a, b);
    law_order_is_that_of_values(c, d);
    law_negated_value(c);
    law_negated_value(d);
}

/// Whether two numbers are the same but for the sign of zero.
pub open spec fn alike(a: Float, b: Float) -> bool {
    a == b || (a.zero() && b.zero())
}

/// Numbers that are alike are compared alike.
pub proof fn law_alike_compare(a: Float, b: Float, c: Float)
    requires
        alike(a, b),
    ensures
        a.nan() == b.nan(),
        a.finite() == b.finite(),
        a.order() == b.order(),
        a.at_most(c) == b.at_most(c),
        c.at_most(a) == c.at_most(b),
        !a.nan() ==> a.same(b),
{
}

/// Terms that are alike give sums and differences that are alike.
pub proof fn law_alike_sums(a: Float, b: Float, c: Float, d: Float)
    requires
        alike(a, b),
        alike(c, d),
    ensures
        alike(a.plus(c), b.plus(d)),
        alike(a.minus(c), b.minus(d)),
{
    reveal(Float::plus);
    law_negated_value(c);
    law_negated_value(d);
    if a.finite() {
        law_order_is_that_of_values(a, b);
    }
    if c.finite() {
        law_order_is_that_of_values(c, d);
    }
}

/// Factors that are alike give products that are alike.
pub proof fn law_alike_products(a: Float, b: Float, c: Float, d: Float)
    requires
        alike(a, b),
        alike(c, d),
    ensures
        alike(a.times(c), b.times(d)),
{
    reveal(Float::times);
    if a.finite() && c.finite() {
        if a.zero() {
            law_zero_multiplies_to_zero(c, a);
            law_zero_multiplies_to_zero(d, b);
        } else if c.zero() {
            law_zero_multiplies_to_zero(a, c);
            law_zero_multiplies_to_zero(b, d);
        }
    }
}

/// Zero is no term: a sum with it is like the other term.
pub proof fn law_zero_leaves_alike(x: Float, zero: Float)
    requires
        !x.nan(),
        zero.zero(),
    ensures
        alike(x.plus(zero), x),
        alike(zero.plus(x), x),
        alike(x.minus(zero), x),
{
    reveal(Float::plus);
    law_negated_value(zero);
    arith::law_sum_commutes(x, zero);
    if x.finite() {
        law_zero_is_no_term(x, zero);
    }
}

proof fn lemma_round_even_rises(n: nat, m: nat, den: nat)
    requires
        den > 0,
        n <= m,
    ensures
        round::round_even(n, den) <= round::round_even(m, den),
{
    vstd::arithmetic::div_mod::lemma_fundamental_div_mod(n as int, den as int);
    vstd::arithmetic::div_mod::lemma_fundamental_div_mod(m as int, den as int);
    vstd::arithmetic::div_mod::lemma_div_is_ordered(n as int, m as int, den as int);
    let q = n / den;
    if q == m / den {
        assert(den * q == den * (m / den));
    }
}

proof fn lemma_nearest_at_least(num: nat, den: nat, p: nat)
    requires
        den > 0,
        p > 0,
        den * pow2((p - 1) as nat) <= num,
    ensures
        pow2((p - 1) as nat) <= round::nearest(num, den, p),
{
    if num < den * pow2(p) {
        let b = pow2((p - 1) as nat);
        vstd::arithmetic::div_mod::lemma_div_is_ordered((den * b) as int, num as int, den as int);
        vstd::arithmetic::div_mod::lemma_div_multiples_vanish(b as int, den as int);
    }
}

proof fn lemma_nearest_rises(n: nat, m: nat, den: nat, p: nat)
    requires
        den > 0,
        p > 0,
        n <= m,
    ensures
        round::nearest(n, den, p) <= round::nearest(m, den, p),
    decreases m - den,
{
    lemma_pow2_unfold(p);
    let b = pow2((p - 1) as nat);
    if m < den * pow2(p) {
        lemma_round_even_rises(n, m, den);
    } else {
        round::lemma_pow2_at_least_double(den, p);
        assert((2 * den) * b == den * pow2(p)) by (nonlinear_arith)
            requires
                pow2(p) == 2 * b,
        ;
        if n < den * pow2(p) {
            lemma_nearest_at_least(m, 2 * den, p);
            assert(n / den < pow2(p)) by {
                vstd::arithmetic::div_mod::lemma_fundamental_div_mod(n as int, den as int);
                if n / den >= pow2(p) {
                    assert(den * (n / den) >= den * pow2(p)) by (nonlinear_arith)
                        requires
                            n / den >= pow2(p),
                            den > 0,
                    ;
                }
            }
            assert(round::round_even(n, den) <= pow2(p));
        } else {
            lemma_nearest_rises(n, m, 2 * den, p);
        }
    }
}

/// The larger of two numbers stays the larger where the same is added to both.
pub proof fn law_sums_keep_the_order(a: Float, b: Float, c: Float)
    requires
        a.finite(),
        b.finite(),
        c.finite(),
        a.at_most(b),
    ensures
        a.plus(c).at_most(b.plus(c)),
        a.minus(c).at_most(b.minus(c)),
        c.minus(b).at_most(c.minus(a)),
{
    law_order_is_that_of_values(a, b);
    law_negated_value(a);
    law_negated_value(b);
    law_negated_value(c);
    lemma_rounded_sums(a, b, c);
    lemma_rounded_sums(a, b, c.negated());
    law_order_is_that_of_values(b.negated(), a.negated());
    lemma_rounded_sums(b.negated(), a.negated(), c);
    arith::law_sum_commutes(b.negated(), c);
    arith::law_sum_commutes(a.negated(), c);
}

proof fn lemma_rounded_sums(a: Float, b: Float, c: Float)
    requires
        a.finite(),
        b.finite(),
        c.finite(),
        a.value() <= b.value(),
    ensures
        a.plus(c).at_most(b.plus(c)),
{
    reveal(Float::plus);
    let v = a.value() + c.value();
    let w = b.value() + c.value();
    if v > 0 {
        lemma_nearest_rises(v as nat, w as nat, 1, 53);
    } else if w < 0 {
        lemma_nearest_rises((-w) as nat, (-v) as nat, 1, 53);
    }
}

/// Adding what is not negative makes no number smaller.
pub proof fn law_adding_makes_no_smaller(a: Float, b: Float)
    requires
        a.finite(),
        b.finite(),
        (Float { bits: 0 }).at_most(b),
    ensures
        a.at_most(a.plus(b)),
{
    law_sums_keep_the_order(Float { bits: 0 }, b, a);
    law_zero_is_no_term(a, Float { bits: 0 });
    arith::law_sum_commutes(a, b);
}

/// Equal factors give equal products.
pub proof fn law_equal_factors_give_equal_products(a: Float, b: Float, c: Float, d: Float)
    requires
        a.finite(),
        b.finite(),
        c.finite(),
        d.finite(),
        a.same(b),
        c.same(d),
    ensures
        a.times(c).same(b.times(d)),
{
    if a.zero() {
        law_zero_multiplies_to_zero(c, a);
        law_zero_multiplies_to_zero(d, b);
    } else if c.zero() {
        law_zero_multiplies_to_zero(a, c);
        law_zero_multiplies_to_zero(b, d);
    } else {
        assert(a == b && c == d);
        reveal(Float::times);
    }
}

} // verus!
