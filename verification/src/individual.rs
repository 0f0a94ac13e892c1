use vstd::prelude::*;

use crate::fixed::{fx_add, fx_relu, relu, ONE};
use crate::matrix::{mat_apply, mat_sim_full, lemma_mat_sim_self, lemma_mat_sim_symmetric, Matrix};
use crate::rng::RandomSource;
use crate::sigmoid::{fx_sigmoid, sigmoid};

verus! {

/// Half-width of the range a single mutation may add to one entry: one
/// tenth of `ONE` in fixed-point units.
pub const MUTATION_RANGE: i64 = 100_000;

/// The topology of a genome, fixed at construction: input width, number
/// of hidden layers, output width, and the shared hidden-layer width.
#[derive(Clone, Copy, Debug, PartialEq, Eq, Structural)]
pub struct Shape {
    pub inputs: usize,
    pub layers: usize,
    pub outputs: usize,
    pub sublayers: usize,
}

/// A usable topology: every matrix must have at least one cell for point
/// mutation to land in, and the slot count `layers + 2` must be
/// representable.
pub open spec fn shape_wf(s: Shape) -> bool {
    &&& s.inputs >= 1
    &&& s.outputs >= 1
    &&& s.sublayers >= 1
    &&& s.layers + 2 <= usize::MAX
}

/// The mathematical content of a genome: its three banks of weight
/// entries and the fitness accumulator.
pub ghost struct IndView {
    pub input: Seq<Seq<i64>>,
    pub hidden: Seq<Seq<Seq<i64>>>,
    pub output: Seq<Seq<i64>>,
    pub fitness: i64,
}

/// The same weight banks with the fitness accumulator overwritten.
pub open spec fn with_fitness(v: IndView, f: i64) -> IndView {
    IndView { input: v.input, hidden: v.hidden, output: v.output, fitness: f }
}

/// The two genomes hold entrywise-identical weight banks (fitness aside).
pub open spec fn banks_equal(a: IndView, b: IndView) -> bool {
    &&& a.input == b.input
    &&& a.hidden == b.hidden
    &&& a.output == b.output
}

/// One genome: a fixed-topology feed-forward network given by an input
/// projection, a stack of identically shaped hidden matrices, and an
/// output projection, plus a caller-owned fitness accumulator.
pub struct Individual {
    input_matrix: Matrix,
    hidden_matrices: Vec<Matrix>,
    output_matrix: Matrix,
    pub fitness: i64,
}

/// Elementwise leaky-rectifier activation of a vector.
pub open spec fn relu_seq(v: Seq<i64>) -> Seq<i64> {
    v.map_values(|x: i64| fx_relu(x))
}

/// Elementwise logistic activation of a vector.
pub open spec fn sigmoid_seq(v: Seq<i64>) -> Seq<i64> {
    v.map_values(|x: i64| fx_sigmoid(x))
}

/// The hidden stack applied to a vector: the first `n` hidden matrices in
/// order, a leaky-rectifier activation after each.
pub open spec fn hidden_pass(v: Seq<i64>, hs: Seq<Seq<Seq<i64>>>, subl: int, n: int) -> Seq<i64>
    decreases n,
{
    if n <= 0 {
        v
    } else {
        relu_seq(mat_apply(hidden_pass(v, hs, subl, n - 1), hs[n - 1], subl))
    }
}

/// The forward pass of a genome on an input vector: input projection and
/// leaky rectifier, the hidden stack, then the output projection under
/// the mirror-image logistic activation.
pub open spec fn spec_evaluate(g: IndView, inputs: Seq<i64>, s: Shape) -> Seq<i64> {
    let l1 = relu_seq(mat_apply(inputs, g.input, s.sublayers as int));
    let lh = hidden_pass(l1, g.hidden, s.sublayers as int, g.hidden.len() as int);
    sigmoid_seq(mat_apply(lh, g.output, s.outputs as int))
}

/// Folds the similarities of the first `n` hidden-matrix pairs onto an
/// accumulator.
pub open spec fn hidden_sim_acc(acc: i64, ah: Seq<Seq<Seq<i64>>>, bh: Seq<Seq<Seq<i64>>>, n: int) -> i64
    decreases n,
{
    if n <= 0 {
        acc
    } else {
        fx_add(hidden_sim_acc(acc, ah, bh, n - 1), mat_sim_full(ah[n - 1], bh[n - 1]))
    }
}

/// The similarity of two genomes of one shape: the sum of squared
/// entrywise differences over the input bank, each hidden bank in order,
/// and the output bank.
pub open spec fn ind_sim(a: IndView, b: IndView) -> i64 {
    fx_add(
        hidden_sim_acc(mat_sim_full(a.input, b.input), a.hidden, b.hidden, a.hidden.len() as int),
        mat_sim_full(a.output, b.output),
    )
}

/// `b` is `a` with `d` added (saturating) to the single entry `(r, c)`
/// and nothing else moved.
pub open spec fn one_entry_perturbed(a: Seq<Seq<i64>>, b: Seq<Seq<i64>>, r: int, c: int, d: i64) -> bool {
    &&& b.len() == a.len()
    &&& forall|i: int| 0 <= i < a.len() ==> (#[trigger] b[i]).len() == a[i].len()
    &&& 0 <= r < a.len()
    &&& 0 <= c < a[r].len()
    &&& b[r][c] == fx_add(a[r][c], d)
    &&& forall|i: int, j: int|
        0 <= i < a.len() && 0 <= j < a[i].len() && !(i == r && j == c) ==> b[i][j] == a[i][j]
}

/// One point mutation of magnitude `d` turned genome `a` into genome `b`:
/// exactly one scalar entry, in exactly one bank, was perturbed.
pub open spec fn ind_mutated(a: IndView, b: IndView, d: i64) -> bool {
    ||| {
        &&& exists|r: int, c: int| one_entry_perturbed(a.input, b.input, r, c, d)
        &&& b.hidden == a.hidden
        &&& b.output == a.output
    }
    ||| {
        &&& exists|k: int, r: int, c: int|
            0 <= k < a.hidden.len() && one_entry_perturbed(a.hidden[k], b.hidden[k], r, c, d)
                && (forall|m: int| 0 <= m < a.hidden.len() && m != k ==> b.hidden[m] == a.hidden[m])
        &&& b.hidden.len() == a.hidden.len()
        &&& b.input == a.input
        &&& b.output == a.output
    }
    ||| {
        &&& exists|r: int, c: int| one_entry_perturbed(a.output, b.output, r, c, d)
        &&& b.input == a.input
        &&& b.hidden == a.hidden
    }
}

/// Every entry of the matrix lies within `[-bound, bound]`.
pub open spec fn entries_within(m: Seq<Seq<i64>>, bound: i64) -> bool {
    forall|i: int, j: int|
        0 <= i < m.len() && 0 <= j < m[i].len() ==> -bound <= #[trigger] m[i][j] <= bound
}

/// Every entry of every bank of the genome lies within `[-bound, bound]`.
pub open spec fn ind_entries_within(v: IndView, bound: i64) -> bool {
    &&& entries_within(v.input, bound)
    &&& forall|k: int| 0 <= k < v.hidden.len() ==> entries_within(#[trigger] v.hidden[k], bound)
    &&& entries_within(v.output, bound)
}

impl View for Individual {
    type V = IndView;

    closed spec fn view(&self) -> IndView {
        IndView {
            input: self.input_matrix@,
            hidden: self.hidden_matrices@.map_values(|m: Matrix| m@),
            output: self.output_matrix@,
            fitness: self.fitness,
        }
    }
}

impl Individual {
    /// The caller-owned fitness accumulator, as a specification value.
    pub open spec fn spec_fitness(&self) -> i64 {
        self@.fitness
    }

    /// Reads the fitness accumulator.
    pub fn get_fitness(&self) -> (r: i64)
        ensures
            r == self.spec_fitness(),
    {
        self.fitness
    }

    /// Overwrites the fitness accumulator; the weight banks and the
    /// topology stay exactly as they were.
    pub fn set_fitness(&mut self, f: i64)
        ensures
            final(self)@ == with_fitness(old(self)@, f),
            final(self).spec_fitness() == f,
            final(self).spec_shape() == old(self).spec_shape(),
            final(self).wf() == old(self).wf(),
    {
        self.fitness = f;
    }

    /// The topology this genome was built with.
    pub closed spec fn spec_shape(&self) -> Shape {
        Shape {
            inputs: self.input_matrix.spec_rows(),
            layers: self.hidden_matrices@.len() as usize,
            outputs: self.output_matrix.spec_cols(),
            sublayers: self.input_matrix.spec_cols(),
        }
    }

    /// The banks are consistently shaped: an `inputs x sublayers` input
    /// projection, square hidden matrices of width `sublayers`, and a
    /// `sublayers x outputs` output projection, all non-degenerate.
    pub closed spec fn wf(&self) -> bool {
        &&& shape_wf(self.spec_shape())
        &&& self.input_matrix.wf()
        &&& self.output_matrix.wf()
        &&& forall|k: int|
            0 <= k < self.hidden_matrices@.len() ==> (#[trigger] self.hidden_matrices@[k]).wf()
        &&& forall|k: int|
            0 <= k < self.hidden_matrices@.len() ==> (#[trigger] self.hidden_matrices@[k]).spec_rows()
                == self.input_matrix.spec_cols()
        &&& forall|k: int|
            0 <= k < self.hidden_matrices@.len() ==> (#[trigger] self.hidden_matrices@[k]).spec_cols()
                == self.input_matrix.spec_cols()
        &&& self.output_matrix.spec_rows() == self.input_matrix.spec_cols()
        &&& self.hidden_matrices@.len() + 2 <= usize::MAX
    }

    /// The topology, as an executable value.
    pub fn shape(&self) -> (s: Shape)
        ensures
            s == self.spec_shape(),
    {
        Shape {
            inputs: self.input_matrix.rows(),
            layers: self.hidden_matrices.len(),
            outputs: self.output_matrix.cols(),
            sublayers: self.input_matrix.cols(),
        }
    }

    /// A genome whose entries are each, with one chance in four, uniform
    /// over `[-ONE, ONE]` and otherwise exactly zero; fitness starts at
    /// zero.
    pub fn new_random(shape: Shape, rng: &mut RandomSource) -> (r: Individual)
        requires
            shape_wf(shape),
        ensures
            r.wf(),
            r.spec_shape() == shape,
            r.spec_fitness() == 0,
            ind_entries_within(r@, ONE),
    {
        let input_matrix = Matrix::random(shape.inputs, shape.sublayers, rng);
        let mut hidden_matrices: Vec<Matrix> = Vec::new();
        let mut k: usize = 0;
        while k < shape.layers
            invariant
                k <= shape.layers,
                shape_wf(shape),
                hidden_matrices@.len() == k,
                forall|m: int| 0 <= m < k ==> (#[trigger] hidden_matrices@[m]).wf(),
                forall|m: int|
                    0 <= m < k ==> (#[trigger] hidden_matrices@[m]).spec_rows() == shape.sublayers,
                forall|m: int|
                    0 <= m < k ==> (#[trigger] hidden_matrices@[m]).spec_cols() == shape.sublayers,
                forall|m: int|
                    0 <= m < k ==> entries_within((#[trigger] hidden_matrices@[m])@, ONE),
            decreases shape.layers - k,
        {
            let m = Matrix::random(shape.sublayers, shape.sublayers, rng);
            hidden_matrices.push(m);
            k += 1;
        }
        let output_matrix = Matrix::random(shape.sublayers, shape.outputs, rng);
        let r = Individual { input_matrix, hidden_matrices, output_matrix, fitness: 0 };
        proof {
            assert forall|k: int| 0 <= k < r@.hidden.len() implies entries_within(
                #[trigger] r@.hidden[k],
                ONE,
            ) by {
                assert(r@.hidden[k] == r.hidden_matrices@[k]@);
            }
        }
        r
    }

    /// Assembles a genome from explicit weight banks, accepting exactly
    /// the consistently shaped, non-degenerate combinations.
    pub fn from_matrices(
        input_matrix: Matrix,
        hidden_matrices: Vec<Matrix>,
        output_matrix: Matrix,
        fitness: i64,
    ) -> (r: Option<Individual>)
        requires
            input_matrix.wf(),
            output_matrix.wf(),
            forall|k: int|
                0 <= k < hidden_matrices@.len() ==> (#[trigger] hidden_matrices@[k]).wf(),
        ensures
            match r {
                Some(ind) => {
                    &&& ind.wf()
                    &&& ind@ == (IndView {
                        input: input_matrix@,
                        hidden: hidden_matrices@.map_values(|m: Matrix| m@),
                        output: output_matrix@,
                        fitness: fitness,
                    })
                    &&& ind.spec_fitness() == fitness
                    &&& ind.spec_shape() == (Shape {
                        inputs: input_matrix.spec_rows(),
                        layers: hidden_matrices@.len() as usize,
                        outputs: output_matrix.spec_cols(),
                        sublayers: input_matrix.spec_cols(),
                    })
                },
                None => !{
                    &&& input_matrix.spec_rows() >= 1
                    &&& input_matrix.spec_cols() >= 1
                    &&& output_matrix.spec_cols() >= 1
                    &&& output_matrix.spec_rows() == input_matrix.spec_cols()
                    &&& hidden_matrices@.len() + 2 <= usize::MAX
                    &&& forall|k: int|
                        0 <= k < hidden_matrices@.len()
                            ==> (#[trigger] hidden_matrices@[k]).spec_rows()
                            == input_matrix.spec_cols()
                            && hidden_matrices@[k].spec_cols() == input_matrix.spec_cols()
                },
            },
    {
        if input_matrix.rows() < 1 || input_matrix.cols() < 1 || output_matrix.cols() < 1
            || output_matrix.rows() != input_matrix.cols()
            || hidden_matrices.len() > usize::MAX - 2 {
            proof {
                assert(!(input_matrix.spec_rows() >= 1 && input_matrix.spec_cols() >= 1
                    && output_matrix.spec_cols() >= 1 && output_matrix.spec_rows()
                    == input_matrix.spec_cols() && hidden_matrices@.len() + 2 <= usize::MAX));
            }
            return None;
        }
        let sub = input_matrix.cols();
        let mut k: usize = 0;
        while k < hidden_matrices.len()
            invariant
                k <= hidden_matrices@.len(),
                sub == input_matrix.spec_cols(),
                forall|m: int|
                    0 <= m < hidden_matrices@.len() ==> (#[trigger] hidden_matrices@[m]).wf(),
                forall|m: int|
                    0 <= m < k ==> (#[trigger] hidden_matrices@[m]).spec_rows() == sub
                        && hidden_matrices@[m].spec_cols() == sub,
            decreases hidden_matrices@.len() - k,
        {
            if hidden_matrices[k].rows() != sub || hidden_matrices[k].cols() != sub {
                proof {
                    assert(hidden_matrices@[k as int].spec_rows() != input_matrix.spec_cols()
                        || hidden_matrices@[k as int].spec_cols() != input_matrix.spec_cols());
                }
                return None;
            }
            k += 1;
        }
        Some(Individual { input_matrix, hidden_matrices, output_matrix, fitness })
    }

    /// Sets the fitness accumulator back to zero; the weight banks and
    /// the topology stay exactly as they were.
    pub fn reset_fitness(&mut self)
        ensures
            final(self)@ == with_fitness(old(self)@, 0),
            final(self).spec_fitness() == 0,
            final(self).spec_shape() == old(self).spec_shape(),
            final(self).wf() == old(self).wf(),
    {
        self.fitness = 0;
    }

    /// The deterministic forward pass: the input, hidden and output banks
    /// applied in order with their activations. Reads neither `fitness`
    /// nor any other state.
    pub fn evaluate(&self, inputs: &Vec<i64>) -> (out: Vec<i64>)
        requires
            self.wf(),
            inputs@.len() == self.spec_shape().inputs,
        ensures
            out@ == spec_evaluate(self@, inputs@, self.spec_shape()),
            out@.len() == self.spec_shape().outputs,
            forall|k: int| 0 <= k < out@.len() ==> 0 <= #[trigger] out@[k] <= ONE,
    {
        let ghost s = self.spec_shape();
        let v0 = self.input_matrix.apply(inputs);
        let mut cur = relu_vec(v0);
        proof {
            assert(cur@ == hidden_pass(
                relu_seq(mat_apply(inputs@, self@.input, s.sublayers as int)),
                self@.hidden,
                s.sublayers as int,
                0,
            ));
        }
        let ghost l1 = cur@;
        let mut k: usize = 0;
        while k < self.hidden_matrices.len()
            invariant
                self.wf(),
                s == self.spec_shape(),
                k <= self.hidden_matrices@.len(),
                cur@.len() == s.sublayers,
                cur@ == hidden_pass(l1, self@.hidden, s.sublayers as int, k as int),
            decreases self.hidden_matrices@.len() - k,
        {
            proof {
                assert(self@.hidden[k as int] == self.hidden_matrices@[k as int]@);
            }
            let vn = self.hidden_matrices[k].apply(&cur);
            cur = relu_vec(vn);
            k += 1;
        }
        let vo = self.output_matrix.apply(&cur);
        let out = sigmoid_vec(vo);
        out
    }

    /// The similarity metric: the saturating sum of squared entrywise
    /// differences over all banks in order, in squared fixed-point units
    /// (a whole unit squared is `ONE * ONE`). Zero exactly on entrywise
    /// equal genomes, and symmetric in its operands.
    pub fn similarity(&self, other: &Individual) -> (r: i64)
        requires
            self.wf(),
            other.wf(),
            self.spec_shape() == other.spec_shape(),
        ensures
            r == ind_sim(self@, other@),
    {
        let mut acc = self.input_matrix.similarity(&other.input_matrix);
        proof {
            lemma_sim_full_bridge(self.input_matrix, other.input_matrix);
        }
        let mut k: usize = 0;
        while k < self.hidden_matrices.len()
            invariant
                self.wf(),
                other.wf(),
                self.spec_shape() == other.spec_shape(),
                k <= self.hidden_matrices@.len(),
                acc == hidden_sim_acc(
                    mat_sim_full(self@.input, other@.input),
                    self@.hidden,
                    other@.hidden,
                    k as int,
                ),
            decreases self.hidden_matrices@.len() - k,
        {
            proof {
                assert(self@.hidden[k as int] == self.hidden_matrices@[k as int]@);
                assert(other@.hidden[k as int] == other.hidden_matrices@[k as int]@);
            }
            let ms = self.hidden_matrices[k].similarity(&other.hidden_matrices[k]);
            proof {
                lemma_sim_full_bridge(self.hidden_matrices@[k as int], other.hidden_matrices@[k as int]);
            }
            acc = crate::fixed::sadd(acc, ms);
            k += 1;
        }
        let mo = self.output_matrix.similarity(&other.output_matrix);
        proof {
            lemma_sim_full_bridge(self.output_matrix, other.output_matrix);
        }
        crate::fixed::sadd(acc, mo)
    }

    /// One point mutation: a uniformly chosen slot (input bank, one of
    /// the hidden banks, or output bank), a uniformly chosen cell of it,
    /// and a uniform perturbation of at most `MUTATION_RANGE` in
    /// magnitude added (saturating) to that single cell.
    pub fn mutate(&mut self, rng: &mut RandomSource)
        requires
            old(self).wf(),
        ensures
            final(self).wf(),
            final(self).spec_shape() == old(self).spec_shape(),
            final(self).spec_fitness() == old(self).spec_fitness(),
            exists|d: i64|
                -MUTATION_RANGE <= d <= MUTATION_RANGE && ind_mutated(old(self)@, final(self)@, d),
    {
        let slot = rng.below(self.hidden_matrices.len() + 2);
        if slot == 0 {
            let i = rng.below(self.input_matrix.rows());
            let j = rng.below(self.input_matrix.cols());
            let d = perturbation(rng);
            self.input_matrix.perturb(i, j, d);
            proof {
                assert(one_entry_perturbed(
                    old(self)@.input,
                    self@.input,
                    i as int,
                    j as int,
                    d,
                ));
                assert(ind_mutated(old(self)@, self@, d));
            }
        } else if slot == self.hidden_matrices.len() + 1 {
            let i = rng.below(self.output_matrix.rows());
            let j = rng.below(self.output_matrix.cols());
            let d = perturbation(rng);
            self.output_matrix.perturb(i, j, d);
            proof {
                assert(one_entry_perturbed(
                    old(self)@.output,
                    self@.output,
                    i as int,
                    j as int,
                    d,
                ));
                assert(ind_mutated(old(self)@, self@, d));
            }
        } else {
            let k = slot - 1;
            let i = rng.below(self.hidden_matrices[k].rows());
            let j = rng.below(self.hidden_matrices[k].cols());
            let d = perturbation(rng);
            let mk = &mut self.hidden_matrices[k];
            mk.perturb(i, j, d);
            proof {
                assert(self@.hidden[k as int] == self.hidden_matrices@[k as int]@);
                assert(old(self)@.hidden[k as int] == old(self).hidden_matrices@[k as int]@);
                assert(one_entry_perturbed(
                    old(self)@.hidden[k as int],
                    self@.hidden[k as int],
                    i as int,
                    j as int,
                    d,
                ));
                assert forall|m: int|
                    0 <= m < old(self)@.hidden.len() && m != k implies self@.hidden[m] == old(
                    self,
                )@.hidden[m] by {
                    assert(self@.hidden[m] == self.hidden_matrices@[m]@);
                    assert(old(self)@.hidden[m] == old(self).hidden_matrices@[m]@);
                }
                assert(ind_mutated(old(self)@, self@, d));
            }
        }
    }
}

/// A uniform perturbation of magnitude at most `MUTATION_RANGE`.
fn perturbation(rng: &mut RandomSource) -> (d: i64)
    ensures
        -MUTATION_RANGE <= d <= MUTATION_RANGE,
{
    let draw = rng.below(200_001);
    draw as i64 - 100_000
}

impl Clone for Individual {
    /// A clone carries the same weight banks, shape, fitness and
    /// well-formedness.
    fn clone(&self) -> (r: Self)
        ensures
            r@ == self@,
            r.spec_fitness() == self.spec_fitness(),
            r.spec_shape() == self.spec_shape(),
            self.wf() ==> r.wf(),
    {
        let mut hidden_matrices: Vec<Matrix> = Vec::new();
        let mut k: usize = 0;
        while k < self.hidden_matrices.len()
            invariant
                k <= self.hidden_matrices@.len(),
                hidden_matrices@.len() == k,
                forall|m: int|
                    0 <= m < k ==> (#[trigger] hidden_matrices@[m])@ == self.hidden_matrices@[m]@
                        && hidden_matrices@[m].spec_rows() == self.hidden_matrices@[m].spec_rows()
                        && hidden_matrices@[m].spec_cols() == self.hidden_matrices@[m].spec_cols(),
            decreases self.hidden_matrices@.len() - k,
        {
            let m = self.hidden_matrices[k].clone();
            hidden_matrices.push(m);
            k += 1;
        }
        let r = Individual {
            input_matrix: self.input_matrix.clone(),
            hidden_matrices,
            output_matrix: self.output_matrix.clone(),
            fitness: self.fitness,
        };
        proof {
            assert(r@.hidden =~= self@.hidden);
            assert(r@ == self@);
            assert(r.spec_shape() == self.spec_shape());
            if self.wf() {
                assert forall|m: int| 0 <= m < r.hidden_matrices@.len() implies
                    (#[trigger] r.hidden_matrices@[m]).wf() by {
                    assert(self.hidden_matrices@[m].wf());
                    assert(r.hidden_matrices@[m]@ == self.hidden_matrices@[m]@);
                }
                assert(r.wf());
            }
        }
        r
    }
}

/// Bridges a matrix similarity (with explicit shape arguments) to the
/// whole-matrix form used by the genome similarity.
proof fn lemma_sim_full_bridge(a: Matrix, b: Matrix)
    requires
        a.wf(),
        b.wf(),
        a.spec_rows() == b.spec_rows(),
        a.spec_cols() == b.spec_cols(),
    ensures
        mat_sim_full(a@, b@) == crate::matrix::mat_sim(
            a@,
            b@,
            a.spec_cols() as int,
            a.spec_rows() as int,
        ),
{
    if a@.len() > 0 {
        assert(a@[0].len() == a.spec_cols());
    }
}

/// Elementwise leaky rectifier over a vector of scalars.
fn relu_vec(v: Vec<i64>) -> (out: Vec<i64>)
    ensures
        out@ == relu_seq(v@),
{
    let mut out: Vec<i64> = Vec::new();
    let mut i: usize = 0;
    while i < v.len()
        invariant
            i <= v@.len(),
            out@.len() == i,
            forall|k: int| 0 <= k < i ==> #[trigger] out@[k] == fx_relu(v@[k]),
        decreases v@.len() - i,
    {
        let x = relu(v[i]);
        out.push(x);
        i += 1;
    }
    proof {
        assert(out@ =~= relu_seq(v@));
    }
    out
}

/// Elementwise logistic activation over a vector of scalars.
fn sigmoid_vec(v: Vec<i64>) -> (out: Vec<i64>)
    ensures
        out@ == sigmoid_seq(v@),
        out@.len() == v@.len(),
        forall|k: int| 0 <= k < out@.len() ==> 0 <= #[trigger] out@[k] <= ONE,
    {
    let mut out: Vec<i64> = Vec::new();
    let mut i: usize = 0;
    while i < v.len()
        invariant
            i <= v@.len(),
            out@.len() == i,
            forall|k: int| 0 <= k < i ==> #[trigger] out@[k] == fx_sigmoid(v@[k]),
            forall|k: int| 0 <= k < i ==> 0 <= #[trigger] out@[k] <= ONE,
        decreases v@.len() - i,
    {
        let x = sigmoid(v[i]);
        out.push(x);
        i += 1;
    }
    proof {
        assert(out@ =~= sigmoid_seq(v@));
    }
    out
}

proof fn lemma_hidden_sim_acc_self(acc: i64, ah: Seq<Seq<Seq<i64>>>, bh: Seq<Seq<Seq<i64>>>, n: int)
    requires
        forall|k: int| 0 <= k < n ==> ah[k] == bh[k],
    ensures
        hidden_sim_acc(acc, ah, bh, n) == if n > 0 {
            hidden_sim_acc(acc, ah, bh, 0)
        } else {
            acc
        },
    decreases n,
{
    if n > 0 {
        lemma_mat_sim_self(
            ah[n - 1],
            bh[n - 1],
            if ah[n - 1].len() > 0 {
                ah[n - 1][0].len() as int
            } else {
                0
            },
            ah[n - 1].len() as int,
        );
        lemma_hidden_sim_acc_self(acc, ah, bh, n - 1);
        assert(fx_add(hidden_sim_acc(acc, ah, bh, n - 1), 0) == hidden_sim_acc(acc, ah, bh, n - 1));
    }
}

/// The similarity of two genomes with entrywise-equal weight banks is
/// zero.
pub proof fn lemma_ind_sim_self(a: IndView, b: IndView)
    requires
        banks_equal(a, b),
    ensures
        ind_sim(a, b) == 0,
{
    lemma_mat_sim_self(
        a.input,
        b.input,
        if a.input.len() > 0 {
            a.input[0].len() as int
        } else {
            0
        },
        a.input.len() as int,
    );
    lemma_mat_sim_self(
        a.output,
        b.output,
        if a.output.len() > 0 {
            a.output[0].len() as int
        } else {
            0
        },
        a.output.len() as int,
    );
    lemma_hidden_sim_acc_self(0, a.hidden, b.hidden, a.hidden.len() as int);
}

proof fn lemma_hidden_sim_acc_symmetric(
    acc: i64,
    ah: Seq<Seq<Seq<i64>>>,
    bh: Seq<Seq<Seq<i64>>>,
    n: int,
)
    requires
        forall|k: int|
            0 <= k < n ==> (#[trigger] ah[k]).len() == bh[k].len() && (ah[k].len() > 0
                ==> ah[k][0].len() == bh[k][0].len()),
    ensures
        hidden_sim_acc(acc, ah, bh, n) == hidden_sim_acc(acc, bh, ah, n),
    decreases n,
{
    if n > 0 {
        lemma_hidden_sim_acc_symmetric(acc, ah, bh, n - 1);
        lemma_mat_sim_full_symmetric(ah[n - 1], bh[n - 1]);
    }
}

proof fn lemma_mat_sim_full_symmetric(a: Seq<Seq<i64>>, b: Seq<Seq<i64>>)
    requires
        a.len() == b.len(),
        a.len() > 0 ==> a[0].len() == b[0].len(),
    ensures
        mat_sim_full(a, b) == mat_sim_full(b, a),
{
    lemma_mat_sim_symmetric(
        a,
        b,
        if a.len() > 0 {
            a[0].len() as int
        } else {
            0
        },
        a.len() as int,
    );
}

/// The similarity of a genome with itself is zero.
pub proof fn lemma_similarity_self(a: &Individual)
    ensures
        ind_sim(a@, a@) == 0,
{
    lemma_ind_sim_self(a@, a@);
}

/// The similarity metric is symmetric: two genomes of one shape compare
/// equally in either order.
pub proof fn lemma_similarity_symmetric(a: &Individual, b: &Individual)
    requires
        a.wf(),
        b.wf(),
        a.spec_shape() == b.spec_shape(),
    ensures
        ind_sim(a@, b@) == ind_sim(b@, a@),
{
    lemma_mat_sim_full_symmetric(a@.input, b@.input);
    lemma_mat_sim_full_symmetric(a@.output, b@.output);
    assert(a@.hidden.len() == a.hidden_matrices@.len());
    assert(b@.hidden.len() == b.hidden_matrices@.len());
    assert(a.hidden_matrices@.len() <= usize::MAX && b.hidden_matrices@.len() <= usize::MAX);
    assert(a.spec_shape().layers == b.spec_shape().layers);
    assert(a.hidden_matrices@.len() == b.hidden_matrices@.len());
    assert forall|k: int|
        0 <= k < a@.hidden.len() implies (#[trigger] a@.hidden[k]).len() == b@.hidden[k].len()
            && (a@.hidden[k].len() > 0 ==> a@.hidden[k][0].len() == b@.hidden[k][0].len()) by {
        assert(a@.hidden[k] == a.hidden_matrices@[k]@);
        assert(b@.hidden[k] == b.hidden_matrices@[k]@);
        assert(a.hidden_matrices@[k].wf());
        assert(b.hidden_matrices@[k].wf());
        assert(a.hidden_matrices@[k].spec_rows() == a.spec_shape().sublayers);
        assert(b.hidden_matrices@[k].spec_rows() == b.spec_shape().sublayers);
        assert(a.hidden_matrices@[k].spec_cols() == a.spec_shape().sublayers);
        assert(b.hidden_matrices@[k].spec_cols() == b.spec_shape().sublayers);
    }
    lemma_hidden_sim_acc_symmetric(
        mat_sim_full(a@.input, b@.input),
        a@.hidden,
        b@.hidden,
        a@.hidden.len() as int,
    );
}


impl Individual {
    /// The input projection bank.
    pub fn get_input_matrix(&self) -> (m: &Matrix)
        ensures
            m@ == self@.input,
            self.wf() ==> m.wf() && m.spec_rows() == self.spec_shape().inputs && m.spec_cols()
                == self.spec_shape().sublayers,
    {
        &self.input_matrix
    }

    /// The `k`-th hidden bank.
    pub fn get_hidden_matrix(&self, k: usize) -> (m: &Matrix)
        requires
            k < self.spec_shape().layers,
        ensures
            m@ == self@.hidden[k as int],
            self.wf() ==> m.wf() && m.spec_rows() == self.spec_shape().sublayers && m.spec_cols()
                == self.spec_shape().sublayers,
    {
        proof {
            assert(self@.hidden[k as int] == self.hidden_matrices@[k as int]@);
        }
        &self.hidden_matrices[k]
    }

    /// The output projection bank.
    pub fn get_output_matrix(&self) -> (m: &Matrix)
        ensures
            m@ == self@.output,
            self.wf() ==> m.wf() && m.spec_rows() == self.spec_shape().sublayers && m.spec_cols()
                == self.spec_shape().outputs,
    {
        &self.output_matrix
    }
}

/// The forward pass is deterministic: equal weight banks and an equal
/// input vector give the identical output, whatever else differs.
pub proof fn lemma_evaluate_deterministic(a: &Individual, b: &Individual, inputs: Seq<i64>)
    requires
        a@ == b@,
        a.spec_shape() == b.spec_shape(),
    ensures
        spec_evaluate(a@, inputs, a.spec_shape()) == spec_evaluate(b@, inputs, b.spec_shape()),
{
}


/// The hidden-bank similarity fold is nonnegative, dominates its
/// accumulator and dominates each of its terms.
proof fn lemma_hidden_sim_acc_bounds(acc: i64, ah: Seq<Seq<Seq<i64>>>, bh: Seq<Seq<Seq<i64>>>, n: int)
    requires
        0 <= acc,
    ensures
        acc <= hidden_sim_acc(acc, ah, bh, n),
        forall|t: int|
            0 <= t < n ==> mat_sim_full(ah[t], bh[t]) <= hidden_sim_acc(acc, ah, bh, n),
    decreases n,
{
    if n > 0 {
        lemma_hidden_sim_acc_bounds(acc, ah, bh, n - 1);
        crate::matrix::lemma_mat_sim_bounds(
            ah[n - 1],
            bh[n - 1],
            if ah[n - 1].len() > 0 {
                ah[n - 1][0].len() as int
            } else {
                0
            },
            ah[n - 1].len() as int,
        );
    }
}

/// Two stacks of hidden banks of one shape that are not equal differ in
/// some bank.
proof fn lemma_unequal_stacks_differ(x: Seq<Seq<Seq<i64>>>, y: Seq<Seq<Seq<i64>>>)
    requires
        x.len() == y.len(),
        x != y,
    ensures
        exists|k: int| 0 <= k < x.len() && #[trigger] x[k] != y[k],
{
    if !(exists|k: int| 0 <= k < x.len() && #[trigger] x[k] != y[k]) {
        assert(x =~= y);
        assert(false);
    }
}

/// The similarity of two same-shape genomes is zero exactly when their
/// weight banks are entrywise identical; on any difference it is at
/// least one squared unit.
pub proof fn lemma_similarity_zero_iff(a: &Individual, b: &Individual)
    requires
        a.wf(),
        b.wf(),
        a.spec_shape() == b.spec_shape(),
    ensures
        ind_sim(a@, b@) == 0 <==> banks_equal(a@, b@),
        !banks_equal(a@, b@) ==> 1 <= ind_sim(a@, b@),
{
    let s = a.spec_shape();
    let nh = a@.hidden.len() as int;
    assert(a@.hidden.len() == a.hidden_matrices@.len());
    assert(b@.hidden.len() == b.hidden_matrices@.len());
    assert(a.hidden_matrices@.len() <= usize::MAX && b.hidden_matrices@.len() <= usize::MAX);
    assert(a@.hidden.len() == b@.hidden.len());
    assert(a@.input.len() == s.inputs && b@.input.len() == s.inputs);
    assert forall|i: int| 0 <= i < a@.input.len() implies (#[trigger] a@.input[i]).len()
        == s.sublayers && b@.input[i].len() == s.sublayers by {}
    assert(a@.output.len() == s.sublayers && b@.output.len() == s.sublayers);
    assert forall|i: int| 0 <= i < a@.output.len() implies (#[trigger] a@.output[i]).len()
        == s.outputs && b@.output[i].len() == s.outputs by {}
    assert forall|k: int| 0 <= k < nh implies (#[trigger] a@.hidden[k]).len() == s.sublayers
        && b@.hidden[k].len() == s.sublayers && (forall|i: int|
        0 <= i < a@.hidden[k].len() ==> (#[trigger] a@.hidden[k][i]).len() == s.sublayers
            && b@.hidden[k][i].len() == s.sublayers) by {
        assert(a@.hidden[k] == a.hidden_matrices@[k]@);
        assert(b@.hidden[k] == b.hidden_matrices@[k]@);
        assert(a.hidden_matrices@[k].wf() && b.hidden_matrices@[k].wf());
    }

    let in_sim = mat_sim_full(a@.input, b@.input);
    let out_sim = mat_sim_full(a@.output, b@.output);
    let acc = hidden_sim_acc(in_sim, a@.hidden, b@.hidden, nh);
    crate::matrix::lemma_mat_sim_bounds(a@.input, b@.input, s.sublayers as int, s.inputs as int);
    crate::matrix::lemma_mat_sim_bounds(a@.output, b@.output, s.outputs as int, s.sublayers as int);
    lemma_hidden_sim_acc_bounds(in_sim, a@.hidden, b@.hidden, nh);

    if banks_equal(a@, b@) {
        lemma_ind_sim_self(a@, b@);
    } else {
        if a@.input != b@.input {
            crate::matrix::lemma_unequal_seqs_differ(a@.input, b@.input);
            let (i, j) = choose|i: int, j: int|
                0 <= i < a@.input.len() && 0 <= j < a@.input[i].len() && #[trigger] a@.input[i][j]
                    != #[trigger] b@.input[i][j];
            crate::matrix::lemma_sq_diff_bounds(a@.input[i][j], b@.input[i][j]);
            crate::matrix::lemma_row_sim_bounds(a@.input[i], b@.input[i], s.sublayers as int);
            assert(1 <= in_sim);
        } else if a@.hidden != b@.hidden {
            lemma_unequal_stacks_differ(a@.hidden, b@.hidden);
            let k = choose|k: int| 0 <= k < a@.hidden.len() && #[trigger] a@.hidden[k]
                != b@.hidden[k];
            crate::matrix::lemma_unequal_seqs_differ(a@.hidden[k], b@.hidden[k]);
            let (i, j) = choose|i: int, j: int|
                0 <= i < a@.hidden[k].len() && 0 <= j < a@.hidden[k][i].len()
                    && #[trigger] a@.hidden[k][i][j] != #[trigger] b@.hidden[k][i][j];
            crate::matrix::lemma_sq_diff_bounds(a@.hidden[k][i][j], b@.hidden[k][i][j]);
            crate::matrix::lemma_row_sim_bounds(a@.hidden[k][i], b@.hidden[k][i], s.sublayers as int);
            crate::matrix::lemma_mat_sim_bounds(
                a@.hidden[k],
                b@.hidden[k],
                s.sublayers as int,
                s.sublayers as int,
            );
            assert(1 <= mat_sim_full(a@.hidden[k], b@.hidden[k]));
            assert(1 <= acc);
        } else {
            assert(a@.output != b@.output);
            crate::matrix::lemma_unequal_seqs_differ(a@.output, b@.output);
            let (i, j) = choose|i: int, j: int|
                0 <= i < a@.output.len() && 0 <= j < a@.output[i].len() && #[trigger] a@.output[i][j]
                    != #[trigger] b@.output[i][j];
            crate::matrix::lemma_sq_diff_bounds(a@.output[i][j], b@.output[i][j]);
            crate::matrix::lemma_row_sim_bounds(a@.output[i], b@.output[i], s.outputs as int);
            assert(1 <= out_sim);
        }
        assert(1 <= ind_sim(a@, b@));
    }
}

} // verus!
