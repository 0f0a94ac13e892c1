use vstd::prelude::*;

verus! {

/// One unit of the fixed-point number line used throughout the library:
/// a scalar is an `i64` counted in millionths.
pub const ONE: i64 = 1_000_000;

/// The midpoint of the activation range, one half in fixed-point units.
pub const HALF: i64 = 500_000;

/// Largest scalar the fixed-point line represents.
pub const MAX_FX: i64 = 0x7fff_ffff_ffff_ffff;

/// Smallest scalar the fixed-point line represents.
pub const MIN_FX: i64 = -0x7fff_ffff_ffff_ffff - 1;

/// Clamps a mathematical integer onto the representable scalar line.
pub open spec fn sat64(x: int) -> i64 {
    if x > MAX_FX {
        MAX_FX
    } else if x < MIN_FX {
        MIN_FX
    } else {
        x as i64
    }
}

/// Division that rounds toward zero, defined for positive divisors.
pub open spec fn tdiv(a: int, b: int) -> int
    recommends
        b > 0,
{
    if a >= 0 {
        a / b
    } else {
        -((-a) / b)
    }
}

/// Saturating fixed-point addition.
pub open spec fn fx_add(a: i64, b: i64) -> i64 {
    sat64(a + b)
}

/// Saturating fixed-point multiplication: the product of two scalars,
/// rescaled by `ONE` with rounding toward zero.
pub open spec fn fx_mul(a: i64, b: i64) -> i64 {
    sat64(tdiv(a * b, ONE as int))
}

/// The leaky-rectifier activation: identity on positive scalars, halving
/// (toward zero) elsewhere.
pub open spec fn fx_relu(x: i64) -> i64 {
    if x > 0 {
        x
    } else {
        tdiv(x as int, 2) as i64
    }
}

proof fn lemma_tdiv_bounds(a: int, b: int)
    requires
        b > 0,
    ensures
        a >= 0 ==> 0 <= tdiv(a, b) <= a,
        a < 0 ==> a <= tdiv(a, b) <= 0,
{
    if a >= 0 {
        assert(0 <= a / b <= a) by (nonlinear_arith)
            requires
                a >= 0,
                b > 0,
        ;
    } else {
        assert(0 <= (-a) / b <= -a) by (nonlinear_arith)
            requires
                -a > 0,
                b > 0,
        ;
    }
}

/// Truncating division of a (bounded) product by `ONE`, used by the
/// executable fixed-point operations.
fn div_one_i128(p: i128) -> (q: i128)
    requires
        -0x4000_0000_0000_0000_0000_0000_0000_0000 <= p
            <= 0x4000_0000_0000_0000_0000_0000_0000_0000,
    ensures
        q == tdiv(p as int, ONE as int),
        p >= 0 ==> 0 <= q <= p,
        p < 0 ==> p <= q <= 0,
{
    proof {
        lemma_tdiv_bounds(p as int, ONE as int);
    }
    if p >= 0 {
        p / 1_000_000
    } else {
        -((-p) / 1_000_000)
    }
}

/// Saturating addition on scalars.
pub fn sadd(a: i64, b: i64) -> (r: i64)
    ensures
        r == fx_add(a, b),
{
    let s: i128 = a as i128 + b as i128;
    if s > MAX_FX as i128 {
        MAX_FX
    } else if s < MIN_FX as i128 {
        MIN_FX
    } else {
        s as i64
    }
}

/// Saturating fixed-point multiplication on scalars.
pub fn smul(a: i64, b: i64) -> (r: i64)
    ensures
        r == fx_mul(a, b),
{
    proof {
        assert(-0x4000_0000_0000_0000_0000_0000_0000_0000 <= (a as int) * (b as int)
            <= 0x4000_0000_0000_0000_0000_0000_0000_0000) by (nonlinear_arith)
            requires
                MIN_FX <= a <= MAX_FX,
                MIN_FX <= b <= MAX_FX,
        ;
    }
    let p: i128 = a as i128 * b as i128;
    let q: i128 = div_one_i128(p);
    if q > MAX_FX as i128 {
        MAX_FX
    } else if q < MIN_FX as i128 {
        MIN_FX
    } else {
        q as i64
    }
}

/// Saturating square of a scalar: the product of a difference with
/// itself, kept in squared fixed-point units (no rescaling by `ONE`).
pub fn ssq(d: i64) -> (r: i64)
    ensures
        r == sat64(d * d),
{
    proof {
        assert(0 <= (d as int) * (d as int)
            <= 0x4000_0000_0000_0000_0000_0000_0000_0000) by (nonlinear_arith)
            requires
                MIN_FX <= d <= MAX_FX,
        ;
    }
    let p: i128 = d as i128 * d as i128;
    if p > MAX_FX as i128 {
        MAX_FX
    } else {
        p as i64
    }
}

/// The leaky-rectifier activation on scalars.
pub fn relu(x: i64) -> (r: i64)
    ensures
        r == fx_relu(x),
{
    if x > 0 {
        x
    } else {
        let m: i128 = -(x as i128);
        proof {
            lemma_tdiv_bounds(x as int, 2);
        }
        (-(m / 2)) as i64
    }
}

} // verus!
