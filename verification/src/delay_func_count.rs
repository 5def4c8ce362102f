use vstd::prelude::*;
use vstd::arithmetic::div_mod::lemma_fundamental_div_mod;
use vstd::arithmetic::div_mod::lemma_fundamental_div_mod_converse;

verus! {

/// Delays and their derivatives are given in this many parts of a unit.
pub const SCALE: u64 = 1_000_000_000;

/// The largest flow for which the delay is computed; beyond it the delay counts as
/// unbounded.
pub const MAX_AMOUNT: u64 = 0xFFFF_FFFF;

/// The threshold is given in this many parts of the capacity.
pub const PER_MILLE: u16 = 1000;

/// `num / den` in parts of `SCALE`, rounded down and capped at `u64::MAX`.
pub open spec fn scaled(num: int, den: int) -> u64 {
    let v = (SCALE * num) / den;
    if v > u64::MAX {
        u64::MAX
    } else {
        v as u64
    }
}

/// Whether the flow `x` lies above the part `p / 1000` of the capacity `c`.
pub open spec fn above_threshold(x: int, c: int, p: int) -> bool {
    1000 * x > p * c
}

/// A thousand times the amount by which the flow `x` exceeds the threshold.
pub open spec fn excess(x: int, c: int, p: int) -> int {
    1000 * x - p * c
}

/// The denominator shared by the delay and its derivatives above the threshold.
///
/// Above the threshold `a = p * c / 1000` the delay is continued by its expansion around
/// `a`. Write `q = 1000 - p` and `t = 1000 * x - p * c`, so that `c - a = c * q / 1000` and
/// `x - a = t / 1000`. At `a` the delay is `a / (c - a) = p / q`, its first derivative is
/// `c / (c - a)^2 = 1000^2 / (c * q^2)`, and its second derivative is
/// `2c / (c - a)^3 = 2 * 1000^3 / (c^2 * q^3)`. The delay at `x` is therefore
/// `p / q + 1000 * t / (c * q^2) + 1000 * t^2 / (c^2 * q^3)`, its first derivative
/// `1000^2 / (c * q^2) + 2 * 1000^2 * t / (c^2 * q^3)`, and all of them are fractions
/// over `c^2 * q^3`.
pub open spec fn above_den(c: int, p: int) -> int {
    c * c * (1000 - p) * (1000 - p) * (1000 - p)
}

/// The numerator, over `above_den`, of the second-order expansion of the delay
/// `x / (c - x)` around the threshold.
pub open spec fn expansion_delay_num(x: int, c: int, p: int) -> int {
    p * c * c * (1000 - p) * (1000 - p) + 1000 * excess(x, c, p) * c * (1000 - p) + 1000 * excess(
        x,
        c,
        p,
    ) * excess(x, c, p)
}

/// The numerator, over `above_den`, of the first-order expansion of the first derivative
/// `c / (c - x)^2` around the threshold.
pub open spec fn expansion_first_num(x: int, c: int, p: int) -> int {
    1000000 * (2 * excess(x, c, p) + c * (1000 - p))
}

/// The numerator of the delay: `x / (c - x)` up to the threshold, and beyond it the
/// second-order expansion of that function around the threshold.
pub open spec fn delay_num(x: int, c: int, p: int) -> int {
    if above_threshold(x, c, p) {
        expansion_delay_num(x, c, p)
    } else {
        x
    }
}

/// The denominator of the delay.
pub open spec fn delay_den(x: int, c: int, p: int) -> int {
    if above_threshold(x, c, p) {
        above_den(c, p)
    } else {
        c - x
    }
}

/// The numerator of the first derivative of the delay: `c / (c - x)^2` up to the
/// threshold, growing linearly beyond it.
pub open spec fn first_num(x: int, c: int, p: int) -> int {
    if above_threshold(x, c, p) {
        expansion_first_num(x, c, p)
    } else {
        c
    }
}

/// The denominator of the first derivative of the delay.
pub open spec fn first_den(x: int, c: int, p: int) -> int {
    if above_threshold(x, c, p) {
        above_den(c, p)
    } else {
        (c - x) * (c - x)
    }
}

/// The numerator of the second derivative of the delay: `2c / (c - x)^3` up to the
/// threshold, constant beyond it.
pub open spec fn second_num(x: int, c: int, p: int) -> int {
    if above_threshold(x, c, p) {
        2000000000
    } else {
        2 * c
    }
}

/// The denominator of the second derivative of the delay.
pub open spec fn second_den(x: int, c: int, p: int) -> int {
    if above_threshold(x, c, p) {
        above_den(c, p)
    } else {
        (c - x) * (c - x) * (c - x)
    }
}

/// The delay of the flow `x` on a link of capacity `c` with the threshold `p / 1000`,
/// in parts of `SCALE`. A link without capacity delays nothing while it carries nothing,
/// and without bound otherwise.
pub open spec fn delay_value(x: int, c: int, p: int) -> u64 {
    if x > MAX_AMOUNT {
        u64::MAX
    } else if c == 0 {
        if x == 0 {
            0
        } else {
            u64::MAX
        }
    } else {
        scaled(delay_num(x, c, p), delay_den(x, c, p))
    }
}

/// The first derivative of the delay by the flow, in parts of `SCALE`.
pub open spec fn first_derivative(x: int, c: int, p: int) -> u64 {
    if x > MAX_AMOUNT {
        u64::MAX
    } else if c == 0 {
        if x == 0 {
            0
        } else {
            u64::MAX
        }
    } else {
        scaled(first_num(x, c, p), first_den(x, c, p))
    }
}

/// The second derivative of the delay by the flow, in parts of `SCALE`.
pub open spec fn second_derivative(x: int, c: int, p: int) -> u64 {
    if x > MAX_AMOUNT {
        u64::MAX
    } else if c == 0 {
        if x == 0 {
            0
        } else {
            u64::MAX
        }
    } else {
        scaled(second_num(x, c, p), second_den(x, c, p))
    }
}

/// At the threshold the expansion of the delay has the value of the delay itself, and
/// the expansion of the first derivative the value of the first derivative.
pub proof fn lemma_continuous_at_threshold(x: int, c: int, p: int)
    requires
        0 < c,
        0 < p < 1000,
        1000 * x == p * c,
    ensures
        expansion_delay_num(x, c, p) * (c - x) == x * above_den(c, p),
        expansion_first_num(x, c, p) * ((c - x) * (c - x)) == c * above_den(c, p),
{
    let q = 1000 - p;
    assert(excess(x, c, p) == 0);
    assert(expansion_delay_num(x, c, p) == p * c * c * q * q) by (nonlinear_arith)
        requires
            expansion_delay_num(x, c, p) == p * c * c * q * q + 1000 * 0 * c * q + 1000 * 0 * 0,
    ;
    assert(p * (c - x) == x * q) by (nonlinear_arith)
        requires
            1000 * x == p * c,
            q == 1000 - p,
    ;
    assert(p * c * c * q * q * (c - x) == x * (c * c * q * q * q)) by (nonlinear_arith)
        requires
            p * (c - x) == x * q,
    ;
    assert(1000 * (c - x) == c * q) by (nonlinear_arith)
        requires
            1000 * x == p * c,
            q == 1000 - p,
    ;
    assert(1000000 * ((c - x) * (c - x)) == c * q * (c * q)) by (nonlinear_arith)
        requires
            1000 * (c - x) == c * q,
    ;
    assert(expansion_first_num(x, c, p) == 1000000 * (c * q));
    assert(1000000 * (c * q) * ((c - x) * (c - x)) == c * (c * c * q * q * q)) by (nonlinear_arith)
        requires
            1000000 * ((c - x) * (c - x)) == c * q * (c * q),
    ;
}

proof fn lemma_above_den_positive(c: int, p: int)
    requires
        0 < c,
        0 < p < 1000,
    ensures
        0 < above_den(c, p),
        above_den(c, p) == c * c * (1000 - p) * (1000 - p) * (1000 - p),
{
    let q = 1000 - p;
    lemma_product_positive(c, c);
    lemma_product_positive(c * c, q);
    lemma_product_positive(c * c * q, q);
    lemma_product_positive(c * c * q * q, q);
}

/// On flows below the capacity the delay grows strictly with the flow: of two such flows
/// the larger has the larger ratio of numerator to denominator.
pub proof fn lemma_delay_increasing(x1: int, x2: int, c: int, p: int)
    requires
        0 <= x1 < x2 < c,
        0 < p < 1000,
    ensures
        0 < delay_den(x1, c, p),
        0 < delay_den(x2, c, p),
        0 <= delay_num(x1, c, p),
        0 <= delay_num(x2, c, p),
        delay_num(x1, c, p) * delay_den(x2, c, p) < delay_num(x2, c, p) * delay_den(x1, c, p),
{
    let q = 1000 - p;
    let d = above_den(c, p);
    let t1 = excess(x1, c, p);
    let t2 = excess(x2, c, p);
    lemma_above_den_positive(c, p);
    let base = p * c * c * q * q;
    lemma_product_positive(p, c);
    lemma_product_positive(p * c, c);
    lemma_product_positive(p * c * c, q);
    lemma_product_positive(p * c * c * q, q);
    if !above_threshold(x2, c, p) {
        assert(x1 * (c - x2) < x2 * (c - x1)) by (nonlinear_arith)
            requires
                0 <= x1 < x2,
                0 < c,
        ;
    } else if above_threshold(x1, c, p) {
        let n1 = expansion_delay_num(x1, c, p);
        let n2 = expansion_delay_num(x2, c, p);
        assert(0 < t1 < t2);
        assert(1000 * t1 * c * q + 1000 * t1 * t1 < 1000 * t2 * c * q + 1000 * t2 * t2
            && 0 <= 1000 * t1 * c * q + 1000 * t1 * t1) by (nonlinear_arith)
            requires
                0 < t1 < t2,
                0 < c,
                0 < q,
        ;
        assert(n1 * d < n2 * d) by (nonlinear_arith)
            requires
                n1 < n2,
                0 < d,
        ;
    } else {
        let n2 = expansion_delay_num(x2, c, p);
        assert(0 < t2);
        assert(0 < 1000 * t2 * c * q + 1000 * t2 * t2) by (nonlinear_arith)
            requires
                0 < t2,
                0 < c,
                0 < q,
        ;
        assert(base < n2);
        assert(x1 * q <= p * (c - x1)) by (nonlinear_arith)
            requires
                1000 * x1 <= p * c,
                q == 1000 - p,
        ;
        assert(x1 * d == x1 * q * (c * c * q * q)) by (nonlinear_arith)
            requires
                d == c * c * q * q * q,
        ;
        assert(base * (c - x1) == p * (c - x1) * (c * c * q * q)) by (nonlinear_arith)
            requires
                base == p * c * c * q * q,
        ;
        assert(0 < c * c * q * q) by (nonlinear_arith)
            requires
                0 < c,
                0 < q,
        ;
        assert(x1 * q * (c * c * q * q) <= p * (c - x1) * (c * c * q * q)) by (nonlinear_arith)
            requires
                x1 * q <= p * (c - x1),
                0 < c * c * q * q,
        ;
        assert(base * (c - x1) < n2 * (c - x1)) by (nonlinear_arith)
            requires
                base < n2,
                0 < c - x1,
        ;
    }
}

/// On flows below the capacity the first derivative of the delay grows strictly with the
/// flow.
pub proof fn lemma_first_derivative_increasing(x1: int, x2: int, c: int, p: int)
    requires
        0 <= x1 < x2 < c,
        0 < p < 1000,
    ensures
        0 < first_den(x1, c, p),
        0 < first_den(x2, c, p),
        0 <= first_num(x1, c, p),
        0 <= first_num(x2, c, p),
        first_num(x1, c, p) * first_den(x2, c, p) < first_num(x2, c, p) * first_den(x1, c, p),
{
    let q = 1000 - p;
    let d = above_den(c, p);
    let t1 = excess(x1, c, p);
    let t2 = excess(x2, c, p);
    lemma_above_den_positive(c, p);
    lemma_product_positive(c - x1, c - x1);
    lemma_product_positive(c - x2, c - x2);
    lemma_product_positive(c, q);
    if !above_threshold(x2, c, p) {
        assert(c * ((c - x2) * (c - x2)) < c * ((c - x1) * (c - x1))) by (nonlinear_arith)
            requires
                0 < c - x2 < c - x1,
                0 < c,
        ;
    } else if above_threshold(x1, c, p) {
        let n1 = expansion_first_num(x1, c, p);
        let n2 = expansion_first_num(x2, c, p);
        assert(0 <= n1 < n2);
        assert(n1 * d < n2 * d) by (nonlinear_arith)
            requires
                n1 < n2,
                0 < d,
        ;
    } else {
        let n2 = expansion_first_num(x2, c, p);
        let g = c - x1;
        assert(0 < t2);
        assert(1000 * g >= c * q) by (nonlinear_arith)
            requires
                1000 * x1 <= p * c,
                q == 1000 - p,
                g == c - x1,
        ;
        assert(1000000 * (g * g) >= c * q * (c * q)) by (nonlinear_arith)
            requires
                1000 * g >= c * q,
                0 < c * q,
        ;
        assert(n2 * (g * g) == (2 * t2 + c * q) * (1000000 * (g * g))) by (nonlinear_arith)
            requires
                n2 == 1000000 * (2 * t2 + c * q),
        ;
        assert((2 * t2 + c * q) * (1000000 * (g * g)) >= (2 * t2 + c * q) * (c * q * (c * q)))
            by (nonlinear_arith)
            requires
                1000000 * (g * g) >= c * q * (c * q),
                0 < 2 * t2 + c * q,
        ;
        assert((2 * t2 + c * q) * (c * q * (c * q)) > c * q * (c * q * (c * q))) by (nonlinear_arith)
            requires
                0 < t2,
                0 < c * q,
        ;
        assert(c * d == c * q * (c * q * (c * q))) by (nonlinear_arith)
            requires
                d == c * c * q * q * q,
        ;
    }
}

/// Of two ratios the one that is not larger is not larger when scaled.
pub proof fn lemma_scaled_monotone(n1: int, d1: int, n2: int, d2: int)
    requires
        0 <= n1,
        0 <= n2,
        0 < d1,
        0 < d2,
        n1 * d2 <= n2 * d1,
    ensures
        scaled(n1, d1) <= scaled(n2, d2),
{
    let s = SCALE as int;
    let k = (s * n1) / d1;
    let m = (s * n2) / d2;
    lemma_fundamental_div_mod(s * n1, d1);
    lemma_fundamental_div_mod(s * n2, d2);
    let r1 = (s * n1) % d1;
    let r2 = (s * n2) % d2;
    assert(k <= m) by (nonlinear_arith)
        requires
            s * n1 == d1 * k + r1,
            s * n2 == d2 * m + r2,
            0 <= r1 < d1,
            0 <= r2 < d2,
            0 < d1,
            0 < d2,
            0 < s,
            n1 * d2 <= n2 * d1,
    {
        assert(k * d1 * d2 <= s * n1 * d2);
        assert(s * n1 * d2 <= s * n2 * d1);
        assert(s * n2 * d1 < (m + 1) * d2 * d1);
        assert(k * (d1 * d2) < (m + 1) * (d1 * d2));
        assert(0 < d1 * d2);
    }
    assert(0 <= s * n1) by (nonlinear_arith)
        requires
            0 <= n1,
            0 < s,
    ;
    assert(0 <= k) by (nonlinear_arith)
        requires
            0 <= s * n1,
            0 < d1,
            s * n1 == d1 * k + r1,
            0 <= r1 < d1,
    ;
}

/// On flows below the capacity neither the computed delay nor its computed first
/// derivative falls when the flow grows.
pub proof fn lemma_values_nondecreasing(x1: int, x2: int, c: int, p: int)
    requires
        0 <= x1 <= x2 < c,
        c <= MAX_AMOUNT,
        0 < p < 1000,
    ensures
        delay_value(x1, c, p) <= delay_value(x2, c, p),
        first_derivative(x1, c, p) <= first_derivative(x2, c, p),
{
    if x1 < x2 {
        lemma_delay_increasing(x1, x2, c, p);
        lemma_first_derivative_increasing(x1, x2, c, p);
        lemma_scaled_monotone(
            delay_num(x1, c, p),
            delay_den(x1, c, p),
            delay_num(x2, c, p),
            delay_den(x2, c, p),
        );
        lemma_scaled_monotone(
            first_num(x1, c, p),
            first_den(x1, c, p),
            first_num(x2, c, p),
            first_den(x2, c, p),
        );
    }
}

/// A product of two numbers that are not negative is not negative, and no larger than the
/// product of their bounds.
pub proof fn lemma_product_bound(a: int, b: int, most_a: int, most_b: int)
    by (nonlinear_arith)
    requires
        0 <= a <= most_a,
        0 <= b <= most_b,
    ensures
        0 <= a * b <= most_a * most_b,
{
}

proof fn lemma_product_positive(a: int, b: int)
    by (nonlinear_arith)
    requires
        0 < a,
        0 < b,
    ensures
        0 < a * b,
{
}

fn scaled_ratio(num: u128, den: u128) -> (r: u64)
    requires
        0 < den < 0x4_0000_0000_0000_0000_0000_0000,
    ensures
        r == scaled(num as int, den as int),
{
    let s = SCALE as u128;
    let q = num / den;
    let rem = num % den;
    proof {
        lemma_fundamental_div_mod(num as int, den as int);
        lemma_product_bound(rem as int, s as int, den as int, s as int);
        let k = (s * rem) as int / den as int;
        let r2 = (s * rem) as int % den as int;
        lemma_fundamental_div_mod((s * rem) as int, den as int);
        assert(s * num == (s * q + k) * den + r2) by (nonlinear_arith)
            requires
                num == den * q + rem,
                s * rem == den * k + r2,
        ;
        lemma_fundamental_div_mod_converse(s * num, den as int, s * q + k, r2);
        assert(0 <= k) by (nonlinear_arith)
            requires
                0 <= s * rem,
                0 < den,
                k == (s * rem) as int / den as int,
        ;
    }
    if q > 18446744073 {
        proof {
            lemma_product_bound(18446744074, s as int, q as int, s as int);
        }
        return u64::MAX;
    }
    proof {
        lemma_product_bound(q as int, s as int, 18446744073, s as int);
    }
    let whole = s * q;
    let part = (s * rem) / den;
    proof {
        assert(part < s) by (nonlinear_arith)
            requires
                part == (s * rem) as int / den as int,
                0 <= rem < den,
                0 < s,
        ;
    }
    let total = whole + part;
    if total > u64::MAX as u128 {
        u64::MAX
    } else {
        total as u64
    }
}

fn above_parts(x: u64, c: u32, p: u16) -> (parts: (u128, u128))
    requires
        x <= MAX_AMOUNT,
        0 < c,
        0 < p < 1000,
        above_threshold(x as int, c as int, p as int),
    ensures
        parts.0 == excess(x as int, c as int, p as int),
        parts.1 == above_den(c as int, p as int),
        0 < parts.0 <= 4294967295000,
        0 < parts.1 <= 18391459154709709467656457975,
{
    let cc = c as u128;
    let q = 1000 - p as u128;
    let t = 1000 * (x as u128) - (p as u128) * cc;
    proof {
        lemma_product_bound(p as int, c as int, 999, 4294967295);
        lemma_product_bound(c as int, c as int, 4294967295, 4294967295);
        lemma_product_bound(c * c, q as int, 18446744065119617025int, 999);
        lemma_product_bound(c * c * q, q as int, 18428297321054497407975int, 999);
        lemma_product_bound(c * c * q * q, q as int, 18409869023733442910567025int, 999);
        lemma_product_positive(c as int, c as int);
        lemma_product_positive(c * c, q as int);
        lemma_product_positive(c * c * q, q as int);
        lemma_product_positive(c * c * q * q, q as int);
    }
    let den = cc * cc * q * q * q;
    (t, den)
}

/// The delay of the flow `x` on a link of capacity `c`, with the threshold at `p`
/// thousandths of the capacity.
pub fn count_delay_value(x: u64, c: u32, p: u16) -> (r: u64)
    requires
        0 < p < 1000,
    ensures
        r == delay_value(x as int, c as int, p as int),
{
    if x > MAX_AMOUNT {
        return u64::MAX;
    }
    if c == 0 {
        return if x == 0 {
            0
        } else {
            u64::MAX
        };
    }
    let cc = c as u128;
    let pp = p as u128;
    proof {
        lemma_product_bound(p as int, c as int, 999, 4294967295);
    }
    if 1000 * (x as u128) > pp * cc {
        let (t, den) = above_parts(x, c, p);
        let q = 1000 - pp;
        proof {
            lemma_product_bound(p as int, c as int, 999, 4294967295);
            lemma_product_bound(p * c, c as int, 4290672327705int, 4294967295);
            lemma_product_bound(p * c * c, q as int, 18428297321054497407975int, 999);
            lemma_product_bound(p * c * c * q, q as int, 18409869023733442910567025int, 999);
            lemma_product_bound(1000 * t, c as int, 4294967295000000, 4294967295);
            lemma_product_bound(1000 * t * c, q as int, 18446744065119617025000000int, 999);
            lemma_product_bound(1000 * t, t as int, 4294967295000000, 4294967295000);
        }
        let num = pp * cc * cc * q * q + 1000 * t * cc * q + 1000 * t * t;
        scaled_ratio(num, den)
    } else {
        proof {
            assert(x < c) by (nonlinear_arith)
                requires
                    1000 * x <= p * c,
                    0 < p < 1000,
                    0 < c,
                    0 <= x,
            ;
        }
        scaled_ratio(x as u128, cc - x as u128)
    }
}

/// The first derivative by the flow of the delay of the flow `x` on a link of capacity
/// `c`, with the threshold at `p` thousandths of the capacity.
pub fn count_first_derivative(x: u64, c: u32, p: u16) -> (r: u64)
    requires
        0 < p < 1000,
    ensures
        r == first_derivative(x as int, c as int, p as int),
{
    if x > MAX_AMOUNT {
        return u64::MAX;
    }
    if c == 0 {
        return if x == 0 {
            0
        } else {
            u64::MAX
        };
    }
    let cc = c as u128;
    let pp = p as u128;
    proof {
        lemma_product_bound(p as int, c as int, 999, 4294967295);
    }
    if 1000 * (x as u128) > pp * cc {
        let (t, den) = above_parts(x, c, p);
        let q = 1000 - pp;
        proof {
            lemma_product_bound(c as int, q as int, 4294967295, 999);
        }
        let num = 1000000 * (2 * t + cc * q);
        scaled_ratio(num, den)
    } else {
        proof {
            assert(x < c) by (nonlinear_arith)
                requires
                    1000 * x <= p * c,
                    0 < p < 1000,
                    0 < c,
                    0 <= x,
            ;
            lemma_product_bound(c - x, c - x, 4294967295, 4294967295);
            lemma_product_positive(c - x, c - x);
        }
        let d = cc - x as u128;
        scaled_ratio(cc, d * d)
    }
}

/// The second derivative by the flow of the delay of the flow `x` on a link of capacity
/// `c`, with the threshold at `p` thousandths of the capacity.
pub fn count_second_derivative(x: u64, c: u32, p: u16) -> (r: u64)
    requires
        0 < p < 1000,
    ensures
        r == second_derivative(x as int, c as int, p as int),
{
    if x > MAX_AMOUNT {
        return u64::MAX;
    }
    if c == 0 {
        return if x == 0 {
            0
        } else {
            u64::MAX
        };
    }
    let cc = c as u128;
    let pp = p as u128;
    proof {
        lemma_product_bound(p as int, c as int, 999, 4294967295);
    }
    if 1000 * (x as u128) > pp * cc {
        let (t, den) = above_parts(x, c, p);
        scaled_ratio(2000000000, den)
    } else {
        proof {
            assert(x < c) by (nonlinear_arith)
                requires
                    1000 * x <= p * c,
                    0 < p < 1000,
                    0 < c,
                    0 <= x,
            ;
            lemma_product_bound(c - x, c - x, 4294967295, 4294967295);
            lemma_product_positive(c - x, c - x);
            lemma_product_bound((c - x) * (c - x), c - x, 18446744065119617025int, 4294967295);
            lemma_product_positive((c - x) * (c - x), c - x);
        }
        let d = cc - x as u128;
        scaled_ratio(2 * cc, d * d * d)
    }
}

} // verus!
