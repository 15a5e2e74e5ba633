//! UCB1 in fixed point: `sqrt(2 ln(parent) / visits) + value / visits`,
//! with 1.0 written as `SCALE`, in integers only.
use vstd::arithmetic::div_mod::{
    lemma_div_is_ordered, lemma_div_is_ordered_by_denominator, lemma_div_multiples_vanish_fancy,
    lemma_fundamental_div_mod,
};
use vstd::prelude::*;

verus! {

/// The fixed-point unit: 1.0 is written `SCALE`.
pub const SCALE: u128 = 65536;

/// Reward of a won playout; a draw is worth `DRAW_REWARD`, a loss nothing.
/// A statistic's value is a sum of such rewards, so `value / (WIN_REWARD *
/// visits)` is its win rate.
pub const WIN_REWARD: u64 = 2;

pub const DRAW_REWARD: u64 = 1;

/// The natural logarithm is counted in steps of growth by a sixteenth
/// (plus one, at the working precision of 1024 to the unit); one step is
/// about `ln(17/16)`, which is `LN_STEP / SCALE`.
pub const LN_STEP: u128 = 3973;

pub const LN_UNIT: u128 = 1024;

pub open spec fn grow(x: nat) -> nat {
    x + x / 16 + 1
}

/// How many times `x` can grow, one step at a time, and stay at most `lim`.
pub open spec fn growth_steps(x: nat, lim: nat) -> nat
    decreases lim - x,
{
    if grow(x) > lim {
        0
    } else {
        1 + growth_steps(grow(x), lim)
    }
}

/// `ln(n)` in fixed point.
pub open spec fn ln_fixed(n: nat) -> nat {
    growth_steps(LN_UNIT as nat, LN_UNIT as nat * n) * (LN_STEP as nat)
}

/// The integer square root, rounded down.
pub open spec fn isqrt(v: nat) -> nat
    decreases v,
{
    if v == 0 {
        0
    } else {
        let r = isqrt((v - 1) as nat);
        if (r + 1) * (r + 1) <= v {
            r + 1
        } else {
            r
        }
    }
}

/// The exploration term `sqrt(2 ln(parent) / visits)`, in fixed point.
pub open spec fn exploration(visits: nat, parent: nat) -> nat {
    isqrt(2 * ln_fixed(parent) * (SCALE as nat) / visits)
}

/// The exploitation term, the mean reward `value / visits`, in fixed point.
pub open spec fn exploitation(value: nat, visits: nat) -> nat {
    value * (SCALE as nat) / ((WIN_REWARD as nat) * visits)
}

/// The UCB1 score of a child with total reward `value` over `visits`
/// visits, under a parent visited `parent` times.
pub open spec fn ucb_spec(value: nat, visits: nat, parent: nat) -> nat {
    exploration(visits, parent) + exploitation(value, visits)
}

proof fn lemma_isqrt(v: nat)
    ensures
        isqrt(v) * isqrt(v) <= v,
        v < (isqrt(v) + 1) * (isqrt(v) + 1),
    decreases v,
{
    if v > 0 {
        lemma_isqrt((v - 1) as nat);
        let r = isqrt((v - 1) as nat);
        if (r + 1) * (r + 1) <= v {
            let s = isqrt(v);
            assert(s == r + 1);
            assert(v < (s + 1) * (s + 1)) by (nonlinear_arith)
                requires
                    v - 1 < (r + 1) * (r + 1),
                    s == r + 1,
            ;
            assert(s * s <= v);
            assert(v < (isqrt(v) + 1) * (isqrt(v) + 1));
        } else {
            assert(isqrt(v) == r);
            assert(r * r <= v);
            assert(v < (r + 1) * (r + 1));
            assert(v < (isqrt(v) + 1) * (isqrt(v) + 1));
        }
    } else {
        let s = isqrt(v);
        assert(s == 0);
        assert(s * s <= v && v < (s + 1) * (s + 1)) by (nonlinear_arith)
            requires
                s == 0,
                v == 0,
        ;
    }
}

proof fn lemma_isqrt_unique(v: nat, r: nat)
    requires
        r * r <= v < (r + 1) * (r + 1),
    ensures
        isqrt(v) == r,
{
    lemma_isqrt(v);
    let s = isqrt(v);
    if s < r {
        assert((s + 1) * (s + 1) <= r * r) by (nonlinear_arith)
            requires
                s + 1 <= r,
        ;
    } else if s > r {
        assert((r + 1) * (r + 1) <= s * s) by (nonlinear_arith)
            requires
                r + 1 <= s,
        ;
    }
}

proof fn lemma_isqrt_mono(a: nat, b: nat)
    requires
        a <= b,
    ensures
        isqrt(a) <= isqrt(b),
{
    lemma_isqrt(a);
    lemma_isqrt(b);
    let ra = isqrt(a);
    let rb = isqrt(b);
    if ra > rb {
        assert((rb + 1) * (rb + 1) <= ra * ra) by (nonlinear_arith)
            requires
                rb + 1 <= ra,
        ;
    }
}

proof fn lemma_growth_steps_mono(x: nat, l1: nat, l2: nat)
    requires
        l1 <= l2,
    ensures
        growth_steps(x, l1) <= growth_steps(x, l2),
    decreases l2 - x,
{
    if grow(x) <= l1 {
        lemma_growth_steps_mono(grow(x), l1, l2);
    }
}

proof fn lemma_same_ratio_same_quotient(a1: int, b1: int, a2: int, b2: int)
    requires
        0 <= a1,
        0 <= a2,
        0 < b1,
        0 < b2,
        a1 * b2 == a2 * b1,
    ensures
        a1 / b1 == a2 / b2,
{
    let q = a1 / b1;
    let r = a1 % b1;
    lemma_fundamental_div_mod(a1, b1);
    let t = a2 - q * b2;
    assert(b1 * t == r * b2) by (nonlinear_arith)
        requires
            a1 == b1 * q + r,
            a1 * b2 == a2 * b1,
            t == a2 - q * b2,
    ;
    assert(0 <= t < b2) by (nonlinear_arith)
        requires
            b1 * t == r * b2,
            0 <= r < b1,
            0 < b2,
            0 < b1,
    ;
    assert(a2 == b2 * q + t);
    lemma_div_multiples_vanish_fancy(q, t, b2);
}

proof fn lemma_growth_steps_bound(x: nat, lim: nat)
    requires
        x >= LN_UNIT,
    ensures
        x + 65 * growth_steps(x, lim) <= if x > lim {
            x
        } else {
            lim
        },
    decreases lim - x,
{
    if grow(x) <= lim {
        lemma_growth_steps_bound(grow(x), lim);
    }
}

/// `ln(n)` in fixed point.
fn ln_fixed_exec(n: u64) -> (r: u128)
    requires
        n >= 1,
    ensures
        r == ln_fixed(n as nat),
        r < 0x1_0000_0000_0000_0000_0000,
{
    let lim: u128 = LN_UNIT * (n as u128);
    let mut x: u128 = LN_UNIT;
    let mut steps: u128 = 0;
    proof {
        lemma_growth_steps_bound(LN_UNIT as nat, lim as nat);
    }
    while x + x / 16 + 1 <= lim
        invariant
            LN_UNIT <= x <= lim,
            lim == LN_UNIT * n,
            steps + growth_steps(x as nat, lim as nat) == growth_steps(LN_UNIT as nat, lim as nat),
            LN_UNIT + 65 * growth_steps(LN_UNIT as nat, lim as nat) <= lim,
        decreases lim - x,
    {
        x = x + x / 16 + 1;
        steps = steps + 1;
    }
    steps * LN_STEP
}

/// The integer square root, rounded down.
fn isqrt_exec(v: u128) -> (r: u128)
    ensures
        r == isqrt(v as nat),
{
    let mut lo: u128 = 0;
    let mut hi: u128 = 0x1_0000_0000_0000_0000;
    assert(v < hi * hi) by (nonlinear_arith)
        requires
            v <= 0xffff_ffff_ffff_ffff_ffff_ffff_ffff_ffff,
            hi == 0x1_0000_0000_0000_0000,
    ;
    while hi - lo > 1
        invariant
            lo < hi <= 0x1_0000_0000_0000_0000,
            lo * lo <= v,
            v < hi * hi,
        decreases hi - lo,
    {
        let mid = lo + (hi - lo) / 2;
        assert(mid * mid < 0x1_0000_0000_0000_0000_0000_0000_0000_0000) by (nonlinear_arith)
            requires
                mid < 0x1_0000_0000_0000_0000,
        ;
        if mid * mid <= v {
            lo = mid;
        } else {
            hi = mid;
        }
    }
    proof {
        lemma_isqrt_unique(v as nat, lo as nat);
    }
    lo
}

/// The UCB1 score of a child with total reward `win_value` over
/// `number_played` visits, under a parent visited `total_played` times.
/// Both counts must be positive: the score is undefined otherwise.
pub fn ucb1(win_value: u64, number_played: u64, total_played: u64) -> (r: u128)
    requires
        number_played >= 1,
        total_played >= 1,
    ensures
        r == ucb_spec(win_value as nat, number_played as nat, total_played as nat),
        r < 0x2_0000_0000_0000_0000_0000,
{
    let ln = ln_fixed_exec(total_played);
    let spread: u128 = 2 * ln * SCALE;
    let arg: u128 = spread / (number_played as u128);
    let explore = isqrt_exec(arg);
    let exploit = (win_value as u128) * SCALE / ((WIN_REWARD as u128) * (number_played as u128));
    proof {
        lemma_isqrt(arg as nat);
        lemma_div_is_ordered_by_denominator(spread as int, 1, number_played as int);
        assert(explore * explore < 0x4_0000_0000_0000_0000_0000_0000) by (nonlinear_arith)
            requires
                explore * explore <= arg,
                arg <= spread,
                spread == 2 * ln * 65536,
                ln < 0x1_0000_0000_0000_0000_0000,
        ;
        assert(explore < 0x1_0000_0000_0000_0000) by (nonlinear_arith)
            requires
                explore * explore < 0x4_0000_0000_0000_0000_0000_0000,
        ;
        assert(exploit <= (win_value as u128) * SCALE) by {
            lemma_div_is_ordered_by_denominator(((win_value as u128) * SCALE) as int, 1, ((WIN_REWARD as u128) * (number_played as u128)) as int);
        }
    }
    explore + exploit
}

/// UCB1 does not decrease as the parent's visits grow.
pub proof fn lemma_ucb_parent_monotone(value: nat, visits: nat, fewer: nat, more: nat)
    requires
        visits >= 1,
        1 <= fewer <= more,
    ensures
        ucb_spec(value, visits, fewer) <= ucb_spec(value, visits, more),
{
    lemma_growth_steps_mono(LN_UNIT as nat, LN_UNIT as nat * fewer, LN_UNIT as nat * more);
    assert(LN_UNIT as nat * fewer <= LN_UNIT as nat * more) by (nonlinear_arith)
        requires
            fewer <= more,
    ;
    let spread_fewer: nat = 2 * ln_fixed(fewer) * (SCALE as nat);
    let spread_more: nat = 2 * ln_fixed(more) * (SCALE as nat);
    assert(spread_fewer <= spread_more) by (nonlinear_arith)
        requires
            spread_fewer == 2 * ln_fixed(fewer) * 65536,
            spread_more == 2 * ln_fixed(more) * 65536,
            ln_fixed(fewer) <= ln_fixed(more),
    ;
    lemma_div_is_ordered(spread_fewer as int, spread_more as int, visits as int);
    lemma_isqrt_mono(spread_fewer / visits, spread_more / visits);
}

/// With the mean reward `value / visits` held fixed, UCB1 does not grow as
/// the child's own visits grow.
pub proof fn lemma_ucb_visits_monotone(v1: nat, n1: nat, v2: nat, n2: nat, parent: nat)
    requires
        1 <= n1 <= n2,
        v1 * n2 == v2 * n1,
    ensures
        ucb_spec(v2, n2, parent) <= ucb_spec(v1, n1, parent),
{
    let c: nat = 2 * ln_fixed(parent) * (SCALE as nat);
    lemma_div_is_ordered_by_denominator(c as int, n1 as int, n2 as int);
    lemma_isqrt_mono(c / n2, c / n1);
    assert((v1 * 65536) * (2 * n2) == (v2 * 65536) * (2 * n1)) by (nonlinear_arith)
        requires
            v1 * n2 == v2 * n1,
    ;
    lemma_same_ratio_same_quotient(
        (v1 * 65536) as int,
        (2 * n1) as int,
        (v2 * 65536) as int,
        (2 * n2) as int,
    );
}

} // verus!
