use vstd::prelude::*;

use crate::fixed::{fx_add, fx_mul, sadd, sat64, smul, ssq, MAX_FX, ONE};
use crate::rng::RandomSource;

verus! {

/// A rectangular matrix of fixed-point scalars, stored row-major.
pub struct Matrix {
    rows: usize,
    cols: usize,
    data: Vec<Vec<i64>>,
}

impl View for Matrix {
    type V = Seq<Seq<i64>>;

    closed spec fn view(&self) -> Seq<Seq<i64>> {
        self.data@.map_values(|r: Vec<i64>| r@)
    }
}

/// Difference of two scalars, clamped symmetrically so that swapping the
/// operands exactly negates it.
pub open spec fn sym_sub(a: i64, b: i64) -> i64 {
    if a - b > MAX_FX {
        MAX_FX
    } else if a - b < -MAX_FX {
        (-MAX_FX) as i64
    } else {
        (a - b) as i64
    }
}

/// The squared difference of two scalars, in squared fixed-point units
/// (millionths of a millionth, so one whole unit squared is `ONE * ONE`):
/// the square is not rescaled, so any two distinct scalars differ by at
/// least one squared unit.
pub open spec fn sq_diff(a: i64, b: i64) -> i64 {
    sat64(sym_sub(a, b) * sym_sub(a, b))
}

/// Sum of squared differences over the first `n` entries of two rows.
pub open spec fn row_sim(a: Seq<i64>, b: Seq<i64>, n: int) -> i64
    decreases n,
{
    if n <= 0 {
        0
    } else {
        fx_add(row_sim(a, b, n - 1), sq_diff(a[n - 1], b[n - 1]))
    }
}

/// Sum of squared differences over the first `n` rows of two matrices.
pub open spec fn mat_sim(a: Seq<Seq<i64>>, b: Seq<Seq<i64>>, cols: int, n: int) -> i64
    decreases n,
{
    if n <= 0 {
        0
    } else {
        fx_add(mat_sim(a, b, cols, n - 1), row_sim(a[n - 1], b[n - 1], cols))
    }
}

/// The dot product of a vector with column `j` of a matrix, folded over
/// the first `n` rows with saturating fixed-point operations.
pub open spec fn col_dot(v: Seq<i64>, m: Seq<Seq<i64>>, j: int, n: int) -> i64
    decreases n,
{
    if n <= 0 {
        0
    } else {
        fx_add(col_dot(v, m, j, n - 1), fx_mul(v[n - 1], m[n - 1][j]))
    }
}

/// Sum of squared differences over two whole matrices of the same shape,
/// the column count read off the first row.
pub open spec fn mat_sim_full(a: Seq<Seq<i64>>, b: Seq<Seq<i64>>) -> i64 {
    mat_sim(a, b, if a.len() > 0 { a[0].len() as int } else { 0 }, a.len() as int)
}

/// A row vector multiplied through a matrix: one dot product per column.
pub open spec fn mat_apply(v: Seq<i64>, m: Seq<Seq<i64>>, cols: int) -> Seq<i64> {
    Seq::new(cols as nat, |j: int| col_dot(v, m, j, v.len() as int))
}

impl Matrix {
    pub closed spec fn spec_rows(&self) -> usize {
        self.rows
    }

    pub closed spec fn spec_cols(&self) -> usize {
        self.cols
    }

    /// The stored shape describes the data: `rows` rows of `cols` scalars.
    pub open spec fn wf(&self) -> bool {
        &&& self@.len() == self.spec_rows()
        &&& forall|i: int| 0 <= i < self@.len() ==> (#[trigger] self@[i]).len() == self.spec_cols()
    }

    pub fn rows(&self) -> (r: usize)
        ensures
            r == self.spec_rows(),
    {
        self.rows
    }

    pub fn cols(&self) -> (r: usize)
        ensures
            r == self.spec_cols(),
    {
        self.cols
    }

    pub fn entry(&self, i: usize, j: usize) -> (r: i64)
        requires
            self.wf(),
            i < self.spec_rows(),
            j < self.spec_cols(),
        ensures
            r == self@[i as int][j as int],
    {
        proof {
            assert(self@.len() == self.data@.len());
            assert(self@[i as int] == self.data@[i as int]@);
        }
        self.data[i][j]
    }

    /// The all-zero matrix of the given shape.
    pub fn zeros(rows: usize, cols: usize) -> (m: Matrix)
        ensures
            m.wf(),
            m.spec_rows() == rows,
            m.spec_cols() == cols,
            forall|i: int, j: int| 0 <= i < rows && 0 <= j < cols ==> m@[i][j] == 0,
    {
        let mut data: Vec<Vec<i64>> = Vec::new();
        let mut i: usize = 0;
        while i < rows
            invariant
                i <= rows,
                data@.len() == i,
                forall|k: int| 0 <= k < i ==> (#[trigger] data@[k])@.len() == cols,
                forall|k: int, j: int|
                    0 <= k < i && 0 <= j < cols ==> #[trigger] data@[k]@[j] == 0,
            decreases rows - i,
        {
            let mut row: Vec<i64> = Vec::new();
            let mut j: usize = 0;
            while j < cols
                invariant
                    j <= cols,
                    row@.len() == j,
                    forall|k: int| 0 <= k < j ==> row@[k] == 0,
                decreases cols - j,
            {
                row.push(0);
                j += 1;
            }
            data.push(row);
            i += 1;
        }
        Matrix { rows, cols, data }
    }

    /// A matrix whose entries are drawn independently: with one chance in
    /// four, uniform over the fixed-point range `[-ONE, ONE]`; otherwise
    /// exactly zero.
    pub fn random(rows: usize, cols: usize, rng: &mut RandomSource) -> (m: Matrix)
        ensures
            m.wf(),
            m.spec_rows() == rows,
            m.spec_cols() == cols,
            forall|i: int, j: int|
                0 <= i < rows && 0 <= j < cols ==> -ONE <= #[trigger] m@[i][j] <= ONE,
    {
        let mut data: Vec<Vec<i64>> = Vec::new();
        let mut i: usize = 0;
        while i < rows
            invariant
                i <= rows,
                data@.len() == i,
                forall|k: int| 0 <= k < i ==> (#[trigger] data@[k])@.len() == cols,
                forall|k: int, j: int|
                    0 <= k < i && 0 <= j < cols ==> -ONE <= #[trigger] data@[k]@[j] <= ONE,
            decreases rows - i,
        {
            let mut row: Vec<i64> = Vec::new();
            let mut j: usize = 0;
            while j < cols
                invariant
                    j <= cols,
                    row@.len() == j,
                    forall|k: int| 0 <= k < j ==> -ONE <= #[trigger] row@[k] <= ONE,
                decreases cols - j,
            {
                let e: i64 = if rng.below(4) == 0 {
                    let draw = rng.below(2_000_001);
                    draw as i64 - 1_000_000
                } else {
                    0
                };
                row.push(e);
                j += 1;
            }
            data.push(row);
            i += 1;
        }
        Matrix { rows, cols, data }
    }

    /// Adds `d` (saturating) to the single entry at `(i, j)`; every other
    /// entry and the shape stay as they were.
    pub fn perturb(&mut self, i: usize, j: usize, d: i64)
        requires
            old(self).wf(),
            i < old(self).spec_rows(),
            j < old(self).spec_cols(),
        ensures
            final(self).wf(),
            final(self).spec_rows() == old(self).spec_rows(),
            final(self).spec_cols() == old(self).spec_cols(),
            final(self)@[i as int][j as int] == fx_add(old(self)@[i as int][j as int], d),
            forall|r: int, c: int|
                0 <= r < old(self)@.len() && 0 <= c < old(self)@[r].len() && !(r == i && c == j)
                    ==> final(self)@[r][c] == old(self)@[r][c],
            forall|r: int| 0 <= r < old(self)@.len() ==> (#[trigger] final(self)@[r]).len()
                == old(self)@[r].len(),
    {
        proof {
            assert(self@.len() == self.data@.len());
            assert(self@[i as int] == self.data@[i as int]@);
        }
        let v = sadd(self.data[i][j], d);
        self.data[i][j] = v;
        proof {
            assert(old(self)@.len() == old(self).data@.len());
            assert(self@.len() == self.data@.len());
            assert forall|r: int| 0 <= r < self.data@.len() implies #[trigger] self@[r]
                == self.data@[r]@ by {}
            assert forall|r: int| 0 <= r < old(self).data@.len() implies #[trigger] old(self)@[r]
                == old(self).data@[r]@ by {}
            assert(self.data@[i as int]@.len() == old(self).data@[i as int]@.len());
            assert forall|r: int| 0 <= r < self@.len() implies (#[trigger] self@[r]).len()
                == self.spec_cols() by {
                assert(self@[r] == self.data@[r]@);
                if r != i {
                    assert(self.data@[r]@ == old(self).data@[r]@);
                }
                assert(old(self)@[r].len() == old(self).spec_cols());
            }
        }
    }

    /// The sum of squared entrywise differences against a matrix of the
    /// same shape, in squared fixed-point units, saturating.
    pub fn similarity(&self, other: &Matrix) -> (r: i64)
        requires
            self.wf(),
            other.wf(),
            self.spec_rows() == other.spec_rows(),
            self.spec_cols() == other.spec_cols(),
        ensures
            r == mat_sim(self@, other@, self.spec_cols() as int, self.spec_rows() as int),
    {
        let mut acc: i64 = 0;
        let mut i: usize = 0;
        while i < self.rows
            invariant
                self.wf(),
                other.wf(),
                self.spec_rows() == other.spec_rows(),
                self.spec_cols() == other.spec_cols(),
                i <= self.spec_rows(),
                acc == mat_sim(self@, other@, self.spec_cols() as int, i as int),
            decreases self.spec_rows() - i,
        {
            let mut racc: i64 = 0;
            let mut j: usize = 0;
            while j < self.cols
                invariant
                    self.wf(),
                    other.wf(),
                    self.spec_rows() == other.spec_rows(),
                    self.spec_cols() == other.spec_cols(),
                    i < self.spec_rows(),
                    j <= self.spec_cols(),
                    racc == row_sim(self@[i as int], other@[i as int], j as int),
                decreases self.spec_cols() - j,
            {
                proof {
                    assert(self@.len() == self.data@.len());
                    assert(self@[i as int] == self.data@[i as int]@);
                    assert(other@.len() == other.data@.len());
                    assert(other@[i as int] == other.data@[i as int]@);
                }
                let a = self.data[i][j];
                let b = other.data[i][j];
                let d: i64 = if a >= b {
                    if a as i128 - b as i128 > MAX_FX as i128 {
                        MAX_FX
                    } else {
                        a - b
                    }
                } else {
                    if (a as i128 - b as i128) < -(MAX_FX as i128) {
                        -MAX_FX
                    } else {
                        a - b
                    }
                };
                racc = sadd(racc, ssq(d));
                j += 1;
            }
            acc = sadd(acc, racc);
            i += 1;
        }
        acc
    }

    /// A row vector of length `rows` pushed through the matrix, giving a
    /// row vector of length `cols`.
    pub fn apply(&self, v: &Vec<i64>) -> (out: Vec<i64>)
        requires
            self.wf(),
            v@.len() == self.spec_rows(),
        ensures
            out@ == mat_apply(v@, self@, self.spec_cols() as int),
            out@.len() == self.spec_cols(),
    {
        let mut out: Vec<i64> = Vec::new();
        let mut j: usize = 0;
        while j < self.cols
            invariant
                self.wf(),
                v@.len() == self.spec_rows(),
                j <= self.spec_cols(),
                out@.len() == j,
                forall|c: int|
                    0 <= c < j ==> #[trigger] out@[c] == col_dot(
                        v@,
                        self@,
                        c,
                        self.spec_rows() as int,
                    ),
            decreases self.spec_cols() - j,
        {
            let mut acc: i64 = 0;
            let mut i: usize = 0;
            while i < self.rows
                invariant
                    self.wf(),
                    v@.len() == self.spec_rows(),
                    j < self.spec_cols(),
                    i <= self.spec_rows(),
                    acc == col_dot(v@, self@, j as int, i as int),
                decreases self.spec_rows() - i,
            {
                proof {
                    assert(self@.len() == self.data@.len());
                    assert(self@[i as int] == self.data@[i as int]@);
                }
                acc = sadd(acc, smul(v[i], self.data[i][j]));
                i += 1;
            }
            out.push(acc);
            j += 1;
        }
        proof {
            assert(out@ =~= mat_apply(v@, self@, self.spec_cols() as int));
        }
        out
    }
}

impl Clone for Matrix {
    /// A clone carries the same shape and the same entries.
    fn clone(&self) -> (r: Self)
        ensures
            r@ == self@,
            r.spec_rows() == self.spec_rows(),
            r.spec_cols() == self.spec_cols(),
    {
        let mut data: Vec<Vec<i64>> = Vec::new();
        let mut i: usize = 0;
        while i < self.data.len()
            invariant
                data@.len() == i,
                i <= self.data@.len(),
                forall|k: int| 0 <= k < i ==> #[trigger] data@[k]@ == self.data@[k]@,
            decreases self.data@.len() - i,
        {
            let row: Vec<i64> = self.data[i].clone();
            proof {
                assert(row@ =~= self.data@[i as int]@);
            }
            data.push(row);
            i += 1;
        }
        let r = Matrix { rows: self.rows, cols: self.cols, data };
        proof {
            assert(r@ =~~= self@);
        }
        r
    }
}

/// Entrywise squared difference does not depend on operand order.
proof fn lemma_sq_diff_symmetric(a: i64, b: i64)
    ensures
        sq_diff(a, b) == sq_diff(b, a),
{
    let d = sym_sub(a, b);
    let e = sym_sub(b, a);
    assert(e == -d);
    assert((d as int) * (d as int) == (e as int) * (e as int)) by (nonlinear_arith)
        requires
            e == -d,
    ;
}

/// The squared difference of a scalar with itself is zero.
proof fn lemma_sq_diff_self(a: i64)
    ensures
        sq_diff(a, a) == 0,
{
    assert(sym_sub(a, a) == 0);
    assert(fx_mul(0, 0) == 0);
}

proof fn lemma_row_sim_symmetric(a: Seq<i64>, b: Seq<i64>, n: int)
    ensures
        row_sim(a, b, n) == row_sim(b, a, n),
    decreases n,
{
    if n > 0 {
        lemma_row_sim_symmetric(a, b, n - 1);
        lemma_sq_diff_symmetric(a[n - 1], b[n - 1]);
    }
}

proof fn lemma_row_sim_self(a: Seq<i64>, b: Seq<i64>, n: int)
    requires
        forall|i: int| 0 <= i < n ==> a[i] == b[i],
    ensures
        row_sim(a, b, n) == 0,
    decreases n,
{
    if n > 0 {
        lemma_row_sim_self(a, b, n - 1);
        lemma_sq_diff_self(a[n - 1]);
    }
}

/// Matrix similarity does not depend on operand order.
pub proof fn lemma_mat_sim_symmetric(a: Seq<Seq<i64>>, b: Seq<Seq<i64>>, cols: int, n: int)
    ensures
        mat_sim(a, b, cols, n) == mat_sim(b, a, cols, n),
    decreases n,
{
    if n > 0 {
        lemma_mat_sim_symmetric(a, b, cols, n - 1);
        lemma_row_sim_symmetric(a[n - 1], b[n - 1], cols);
    }
}

/// A matrix compared against an entrywise-equal matrix gives zero.
pub proof fn lemma_mat_sim_self(a: Seq<Seq<i64>>, b: Seq<Seq<i64>>, cols: int, n: int)
    requires
        forall|i: int, j: int| 0 <= i < n && 0 <= j < cols ==> a[i][j] == b[i][j],
    ensures
        mat_sim(a, b, cols, n) == 0,
    decreases n,
{
    if n > 0 {
        lemma_mat_sim_self(a, b, cols, n - 1);
        lemma_row_sim_self(a[n - 1], b[n - 1], cols);
    }
}


impl Matrix {
    /// Assembles a matrix from explicit rows, accepting exactly the
    /// rectangular inputs.
    pub fn from_rows(data: Vec<Vec<i64>>) -> (r: Option<Matrix>)
        ensures
            match r {
                Some(m) => {
                    &&& m.wf()
                    &&& m.spec_rows() == data@.len()
                    &&& m.spec_cols() == (if data@.len() > 0 {
                        data@[0]@.len() as int
                    } else {
                        0
                    })
                    &&& m@ == data@.map_values(|row: Vec<i64>| row@)
                },
                None => exists|i: int|
                    0 <= i < data@.len() && (#[trigger] data@[i])@.len() != data@[0]@.len(),
            },
    {
        let cols: usize = if data.len() > 0 {
            data[0].len()
        } else {
            0
        };
        let rows = data.len();
        let mut i: usize = 0;
        while i < data.len()
            invariant
                i <= data@.len(),
                cols == (if data@.len() > 0 { data@[0]@.len() as int } else { 0 }),
                forall|k: int| 0 <= k < i ==> (#[trigger] data@[k])@.len() == cols,
            decreases data@.len() - i,
        {
            if data[i].len() != cols {
                return None;
            }
            i += 1;
        }
        Some(Matrix { rows, cols, data })
    }
}


/// The squared difference is nonnegative, and at least one squared unit
/// on distinct scalars.
pub proof fn lemma_sq_diff_bounds(a: i64, b: i64)
    ensures
        0 <= sq_diff(a, b),
        a != b ==> 1 <= sq_diff(a, b),
{
    let d = sym_sub(a, b);
    assert(0 <= d * d) by (nonlinear_arith);
    if a != b {
        assert(d != 0);
        assert(1 <= d * d) by (nonlinear_arith)
            requires
                d != 0,
        ;
    }
}

/// A row similarity is nonnegative and dominates each of its terms.
pub proof fn lemma_row_sim_bounds(a: Seq<i64>, b: Seq<i64>, n: int)
    ensures
        0 <= row_sim(a, b, n),
        forall|t: int| 0 <= t < n ==> sq_diff(a[t], b[t]) <= row_sim(a, b, n),
    decreases n,
{
    if n > 0 {
        lemma_row_sim_bounds(a, b, n - 1);
        lemma_sq_diff_bounds(a[n - 1], b[n - 1]);
    }
}

/// A matrix similarity is nonnegative and dominates each row similarity.
pub proof fn lemma_mat_sim_bounds(a: Seq<Seq<i64>>, b: Seq<Seq<i64>>, cols: int, n: int)
    ensures
        0 <= mat_sim(a, b, cols, n),
        forall|t: int| 0 <= t < n ==> row_sim(a[t], b[t], cols) <= mat_sim(a, b, cols, n),
    decreases n,
{
    if n > 0 {
        lemma_mat_sim_bounds(a, b, cols, n - 1);
        lemma_row_sim_bounds(a[n - 1], b[n - 1], cols);
    }
}

/// Two nested sequences of one rectangular shape that are not equal
/// differ in some entry.
pub proof fn lemma_unequal_seqs_differ(x: Seq<Seq<i64>>, y: Seq<Seq<i64>>)
    requires
        x.len() == y.len(),
        forall|i: int| 0 <= i < x.len() ==> (#[trigger] x[i]).len() == y[i].len(),
        x != y,
    ensures
        exists|i: int, j: int|
            0 <= i < x.len() && 0 <= j < x[i].len() && #[trigger] x[i][j] != #[trigger] y[i][j],
{
    if !(exists|i: int, j: int|
        0 <= i < x.len() && 0 <= j < x[i].len() && #[trigger] x[i][j] != #[trigger] y[i][j]) {
        assert forall|i: int| 0 <= i < x.len() implies #[trigger] x[i] == y[i] by {
            assert forall|j: int| 0 <= j < x[i].len() implies #[trigger] x[i][j] == y[i][j] by {}
            assert(x[i] =~= y[i]);
        }
        assert(x =~= y);
        assert(false);
    }
}

} // verus!
