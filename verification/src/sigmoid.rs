use vstd::prelude::*;

use crate::fixed::{tdiv, HALF, ONE};

verus! {

/// Inputs at or beyond this magnitude saturate the logistic activation:
/// at fifteen, `1 / (1 + e^x)` is already below the smallest positive
/// scalar the fixed-point line can represent.
pub const SIG_CUTOFF: i64 = 15_000_000;

/// Upper bound on the fixed-point exponential over `[0, SIG_CUTOFF)`.
pub const EXP_BOUND: i64 = 13_000_000_000_000;

/// `e^n` in fixed-point units, for integer `n` in `0..=14`.
pub open spec fn exp_table(n: int) -> int {
    if n <= 0 {
        1_000_000
    } else if n == 1 {
        2_718_281
    } else if n == 2 {
        7_389_056
    } else if n == 3 {
        20_085_536
    } else if n == 4 {
        54_598_150
    } else if n == 5 {
        148_413_159
    } else if n == 6 {
        403_428_793
    } else if n == 7 {
        1_096_633_158
    } else if n == 8 {
        2_980_957_987
    } else if n == 9 {
        8_103_083_927
    } else if n == 10 {
        22_026_465_794
    } else if n == 11 {
        59_874_141_715
    } else if n == 12 {
        162_754_791_419
    } else if n == 13 {
        442_413_392_008
    } else {
        1_202_604_284_164
    }
}

/// One Horner step of the truncated Taylor series for `e^r`: folds term
/// `k` into the accumulator, in fixed-point units.
pub open spec fn exp_frac_rec(r: int, k: int, acc: int) -> int
    decreases k,
{
    if k <= 0 {
        acc
    } else {
        exp_frac_rec(r, k - 1, ONE + tdiv(r * acc, k * ONE))
    }
}

/// `e^r` for a fractional fixed-point `r` in `[0, ONE)`: the Taylor
/// series through the ninth term, evaluated by Horner's rule.
pub open spec fn exp_frac(r: int) -> int {
    exp_frac_rec(r, 9, ONE as int)
}

/// The fixed-point exponential over `[0, SIG_CUTOFF)`: the integer part
/// looked up in a table, the fractional part by Taylor series.
pub open spec fn fx_exp(x: int) -> int
    recommends
        0 <= x < SIG_CUTOFF,
{
    tdiv(exp_table(x / (ONE as int)) * exp_frac(x % (ONE as int)), ONE as int)
}

/// The mirror-image logistic activation `1 / (1 + e^x)` on the
/// fixed-point line: it saturates to `ONE` as `x` falls and to `0` as
/// `x` grows, and maps `0` to exactly `HALF`.
pub open spec fn fx_sigmoid(x: i64) -> i64 {
    if x >= SIG_CUTOFF {
        0
    } else if x <= -SIG_CUTOFF {
        ONE
    } else if x >= 0 {
        tdiv((ONE * ONE) as int, ONE + fx_exp(x as int)) as i64
    } else {
        (ONE - tdiv((ONE * ONE) as int, ONE + fx_exp(-x as int))) as i64
    }
}

proof fn lemma_tdiv_le(a: int, b: int, c: int)
    requires
        a >= 0,
        b > 0,
        c >= 0,
        a <= b * c,
    ensures
        0 <= tdiv(a, b) <= c,
{
    assert(0 <= a / b <= c) by (nonlinear_arith)
        requires
            a >= 0,
            b > 0,
            c >= 0,
            a <= b * c,
    ;
}

proof fn lemma_tdiv_ge(a: int, b: int, c: int)
    requires
        b > 0,
        c >= 0,
        a >= b * c,
    ensures
        tdiv(a, b) >= c,
{
    assert(a / b >= c) by (nonlinear_arith)
        requires
            b > 0,
            c >= 0,
            a >= b * c,
    ;
}

/// One Horner step keeps the accumulator at least `ONE` and grows it by
/// at most `ONE`.
proof fn lemma_frac_step(r: int, k: int, acc: int)
    requires
        0 <= r < ONE,
        1 <= k,
        0 <= acc,
    ensures
        ONE <= ONE + tdiv(r * acc, k * ONE) <= ONE + acc,
{
    assert(0 <= r * acc <= (k * ONE) * acc) by (nonlinear_arith)
        requires
            0 <= r < ONE,
            1 <= k,
            0 <= acc,
    ;
    lemma_tdiv_le(r * acc, k * ONE, acc);
}

proof fn lemma_exp_frac_rec_bounds(r: int, k: int, acc: int)
    requires
        0 <= r < ONE,
        0 <= k,
        ONE <= acc,
    ensures
        ONE <= exp_frac_rec(r, k, acc) <= acc + k * ONE,
    decreases k,
{
    if k > 0 {
        lemma_frac_step(r, k, acc);
        lemma_exp_frac_rec_bounds(r, k - 1, ONE + tdiv(r * acc, k * ONE));
    }
}

/// The fixed-point exponential stays between `ONE` and `EXP_BOUND` on
/// its whole domain.
pub proof fn lemma_fx_exp_bounds(x: int)
    requires
        0 <= x < SIG_CUTOFF,
    ensures
        ONE <= fx_exp(x) <= EXP_BOUND,
{
    let n = x / (ONE as int);
    let r = x % (ONE as int);
    assert(0 <= n <= 14 && 0 <= r < ONE) by (nonlinear_arith)
        requires
            0 <= x < SIG_CUTOFF,
            n == x / (ONE as int),
            r == x % (ONE as int),
    ;
    lemma_exp_frac_rec_bounds(r, 9, ONE as int);
    let en = exp_table(n);
    let fr = exp_frac(r);
    assert(en * fr >= ONE * ONE && en * fr <= 1_202_604_284_164 * (10 * ONE))
        by (nonlinear_arith)
        requires
            1_000_000 <= en <= 1_202_604_284_164,
            ONE <= fr <= 10 * ONE,
    ;
    lemma_tdiv_ge(en * fr, ONE as int, ONE as int);
    lemma_tdiv_le(en * fr, ONE as int, EXP_BOUND as int);
}

/// The fixed-point exponential over `[0, SIG_CUTOFF)`.
fn exp_fx(x: i64) -> (r: i64)
    requires
        0 <= x < SIG_CUTOFF,
    ensures
        r == fx_exp(x as int),
        ONE <= r <= EXP_BOUND,
{
    let n: i64 = x / 1_000_000;
    let rem: i64 = x % 1_000_000;
    proof {
        assert(n == x as int / (ONE as int) && rem == x as int % (ONE as int) && 0 <= n <= 14
            && 0 <= rem < ONE) by (nonlinear_arith)
            requires
                0 <= x < SIG_CUTOFF,
                n == x / 1_000_000,
                rem == x % 1_000_000,
        ;
    }
    let en: i64 = if n <= 0 {
        1_000_000
    } else if n == 1 {
        2_718_281
    } else if n == 2 {
        7_389_056
    } else if n == 3 {
        20_085_536
    } else if n == 4 {
        54_598_150
    } else if n == 5 {
        148_413_159
    } else if n == 6 {
        403_428_793
    } else if n == 7 {
        1_096_633_158
    } else if n == 8 {
        2_980_957_987
    } else if n == 9 {
        8_103_083_927
    } else if n == 10 {
        22_026_465_794
    } else if n == 11 {
        59_874_141_715
    } else if n == 12 {
        162_754_791_419
    } else if n == 13 {
        442_413_392_008
    } else {
        1_202_604_284_164
    };
    assert(en == exp_table(n as int));

    let mut acc: i64 = ONE;
    let mut k: i64 = 9;
    while k >= 1
        invariant
            0 <= k <= 9,
            0 <= rem < ONE,
            ONE <= acc <= (10 - k) * ONE,
            exp_frac_rec(rem as int, k as int, acc as int) == exp_frac(rem as int),
        decreases k,
    {
        proof {
            lemma_frac_step(rem as int, k as int, acc as int);
            assert(0 <= rem as int * acc as int <= 10_000_000_000_000) by (nonlinear_arith)
                requires
                    0 <= rem < ONE,
                    0 <= acc <= 10 * ONE,
            ;
        }
        let t: i128 = (rem as i128 * acc as i128) / (k as i128 * 1_000_000);
        proof {
            assert(t == tdiv(rem as int * acc as int, k as int * ONE)) by (nonlinear_arith)
                requires
                    0 <= rem < ONE,
                    1 <= k <= 9,
                    0 <= acc,
                    t == (rem as i128 * acc as i128) / (k as i128 * 1_000_000),
            ;
        }
        acc = ONE + t as i64;
        k = k - 1;
    }

    proof {
        lemma_exp_frac_rec_bounds(rem as int, 9, ONE as int);
        assert(en as int * acc as int >= ONE * ONE
            && en as int * acc as int <= 1_202_604_284_164 * (10 * ONE)) by (nonlinear_arith)
            requires
                1_000_000 <= en <= 1_202_604_284_164,
                ONE <= acc <= 10 * ONE,
        ;
        lemma_tdiv_ge(en as int * acc as int, ONE as int, ONE as int);
        lemma_tdiv_le(en as int * acc as int, ONE as int, EXP_BOUND as int);
    }
    let p: i128 = en as i128 * acc as i128;
    let q: i128 = p / 1_000_000;
    proof {
        assert(q == tdiv(p as int, ONE as int));
    }
    q as i64
}

/// The mirror-image logistic activation on scalars.
pub fn sigmoid(x: i64) -> (r: i64)
    ensures
        r == fx_sigmoid(x),
        0 <= r <= ONE,
{
    if x >= SIG_CUTOFF {
        0
    } else if x <= -SIG_CUTOFF {
        ONE
    } else if x >= 0 {
        let e: i64 = exp_fx(x);
        proof {
            lemma_sig_quotient(e as int);
        }
        let d: i128 = 1_000_000 + e as i128;
        (1_000_000_000_000 / d) as i64
    } else {
        let e: i64 = exp_fx(-x);
        proof {
            lemma_sig_quotient(e as int);
        }
        let d: i128 = 1_000_000 + e as i128;
        ONE - (1_000_000_000_000 / d) as i64
    }
}

/// The quotient digit of the logistic activation lies between zero and
/// `HALF` whenever the exponential is at least `ONE`.
proof fn lemma_sig_quotient(e: int)
    requires
        ONE <= e,
    ensures
        0 <= tdiv((ONE * ONE) as int, ONE + e) <= HALF,
        tdiv((ONE * ONE) as int, ONE + e) == (ONE * ONE) as int / (ONE + e),
{
    assert((ONE + e) * (HALF as int) >= (ONE * ONE) as int) by (nonlinear_arith)
        requires
            ONE <= e,
    ;
    lemma_tdiv_le((ONE * ONE) as int, ONE + e, HALF as int);
}

/// The logistic activation always lands inside `[0, ONE]`; at or beyond
/// the cutoff it sits on the boundary, and nonnegative inputs land at or
/// below `HALF`.
pub proof fn lemma_fx_sigmoid_range(x: i64)
    ensures
        0 <= fx_sigmoid(x) <= ONE,
        x >= 0 ==> fx_sigmoid(x) <= HALF,
        x < 0 ==> fx_sigmoid(x) >= HALF,
{
    if -SIG_CUTOFF < x < SIG_CUTOFF {
        if x >= 0 {
            lemma_fx_exp_bounds(x as int);
            lemma_sig_quotient(fx_exp(x as int));
        } else {
            lemma_fx_exp_bounds(-x as int);
            lemma_sig_quotient(fx_exp(-x as int));
        }
    }
}

/// The activation of a zero pre-activation is exactly one half.
pub proof fn lemma_fx_sigmoid_zero()
    ensures
        fx_sigmoid(0) == HALF,
{
    reveal_with_fuel(exp_frac_rec, 11);
    assert(exp_frac_rec(0, 9, ONE as int) == ONE);
    assert(fx_exp(0) == ONE);
}

/// Mirror symmetry: the activations of `x` and `-x` sum to `ONE`.
pub proof fn lemma_fx_sigmoid_mirror(x: i64)
    requires
        x > i64::MIN,
    ensures
        fx_sigmoid(x) + fx_sigmoid((-x) as i64) == ONE,
{
    if x >= SIG_CUTOFF || x <= -SIG_CUTOFF {
    } else if x > 0 {
        lemma_fx_exp_bounds(x as int);
        lemma_sig_quotient(fx_exp(x as int));
    } else if x < 0 {
        lemma_fx_exp_bounds(-x as int);
        lemma_sig_quotient(fx_exp(-x as int));
    } else {
        lemma_fx_sigmoid_zero();
    }
}

} // verus!
