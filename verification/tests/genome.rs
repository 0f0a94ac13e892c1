use evolution_rust::{Individual, Matrix, RandomSource, Shape, HALF, MUTATION_RANGE, ONE};

fn shape_4114() -> Shape {
    Shape { inputs: 4, layers: 1, outputs: 1, sublayers: 4 }
}

fn zero_genome(shape: Shape) -> Individual {
    let input = Matrix::zeros(shape.inputs, shape.sublayers);
    let mut hidden = Vec::new();
    for _ in 0..shape.layers {
        hidden.push(Matrix::zeros(shape.sublayers, shape.sublayers));
    }
    let output = Matrix::zeros(shape.sublayers, shape.outputs);
    Individual::from_matrices(input, hidden, output, 0).unwrap()
}

fn one_by_one(v: i64) -> Matrix {
    Matrix::from_rows(vec![vec![v]]).unwrap()
}

fn entries_equal(a: &Individual, b: &Individual) -> bool {
    let s = a.shape();
    if b.shape() != s {
        return false;
    }
    let (ai, bi) = (a.get_input_matrix(), b.get_input_matrix());
    for i in 0..s.inputs {
        for j in 0..s.sublayers {
            if ai.entry(i, j) != bi.entry(i, j) {
                return false;
            }
        }
    }
    for k in 0..s.layers {
        let (ah, bh) = (a.get_hidden_matrix(k), b.get_hidden_matrix(k));
        for i in 0..s.sublayers {
            for j in 0..s.sublayers {
                if ah.entry(i, j) != bh.entry(i, j) {
                    return false;
                }
            }
        }
    }
    let (ao, bo) = (a.get_output_matrix(), b.get_output_matrix());
    for i in 0..s.sublayers {
        for j in 0..s.outputs {
            if ao.entry(i, j) != bo.entry(i, j) {
                return false;
            }
        }
    }
    true
}

#[test]
fn zero_genome_evaluates_to_one_half() {
    let g = zero_genome(shape_4114());
    let out = g.evaluate(&vec![0, 0, 0, ONE]);
    assert_eq!(out, vec![HALF]);
}

#[test]
fn evaluate_is_deterministic() {
    let mut rng = RandomSource::from_seed(7);
    let g = Individual::new_random(shape_4114(), &mut rng);
    let input = vec![ONE, -ONE, HALF, 0];
    let first = g.evaluate(&input);
    let second = g.evaluate(&input);
    assert_eq!(first, second);
}

#[test]
fn evaluate_exact_logistic_values() {
    // Shape (1, 0, 1, 1) with unit input and output weights: the
    // pre-activation equals the input scalar, so the output is the
    // mirror logistic of it.
    let g = Individual::from_matrices(one_by_one(ONE), Vec::new(), one_by_one(ONE), 0).unwrap();
    assert_eq!(g.evaluate(&vec![ONE]), vec![268_941]);
    assert_eq!(g.evaluate(&vec![HALF]), vec![377_540]);
    assert_eq!(g.evaluate(&vec![0]), vec![HALF]);
}

#[test]
fn evaluate_mirror_sigmoid_saturation() {
    // A large positive pre-activation saturates toward zero, a large
    // negative one toward ONE: the mirror-image convention.
    let g = Individual::from_matrices(one_by_one(ONE), Vec::new(), one_by_one(ONE), 0).unwrap();
    let big = 40 * ONE;
    assert_eq!(g.evaluate(&vec![big]), vec![0]);
    // With a negative input weight the rectifier halves the
    // pre-activation, so -40 becomes -20, still past the cutoff.
    let gneg = Individual::from_matrices(one_by_one(-ONE), Vec::new(), one_by_one(ONE), 0).unwrap();
    assert_eq!(gneg.evaluate(&vec![big]), vec![ONE]);
}

#[test]
fn leaky_rectifier_halves_negative_preactivations() {
    // Input weight -1 and a hidden stack of one identity-free layer:
    // shape (1, 0, 1, 1) with output weight ONE; an input of ONE gives a
    // pre-activation of -ONE, the rectifier halves it to -HALF, and the
    // logistic of -HALF is ONE - 377540.
    let g = Individual::from_matrices(one_by_one(-ONE), Vec::new(), one_by_one(ONE), 0).unwrap();
    assert_eq!(g.evaluate(&vec![ONE]), vec![ONE - 377_540]);
}

#[test]
fn similarity_of_identical_genomes_is_zero() {
    let mut rng = RandomSource::from_seed(11);
    let g = Individual::new_random(shape_4114(), &mut rng);
    let h = g.clone();
    assert_eq!(g.similarity(&h), 0);
    assert_eq!(g.similarity(&g), 0);
}

#[test]
fn similarity_is_symmetric() {
    let mut rng = RandomSource::from_seed(13);
    let a = Individual::new_random(shape_4114(), &mut rng);
    let b = Individual::new_random(shape_4114(), &mut rng);
    assert_eq!(a.similarity(&b), b.similarity(&a));
}

#[test]
fn similarity_exact_value_of_unit_difference() {
    // An entrywise difference of ONE in a single cell contributes exactly
    // one whole squared unit, ONE * ONE.
    let a = Individual::from_matrices(one_by_one(ONE), Vec::new(), one_by_one(0), 0).unwrap();
    let b = Individual::from_matrices(one_by_one(0), Vec::new(), one_by_one(0), 0).unwrap();
    assert_eq!(a.similarity(&b), ONE * ONE);
    assert_eq!(b.similarity(&a), ONE * ONE);
}

#[test]
fn similarity_is_positive_on_the_smallest_difference() {
    // Genomes that differ in one entry by a single millionth are not
    // judged identical: the unscaled square keeps the difference visible.
    let a = Individual::from_matrices(one_by_one(1), Vec::new(), one_by_one(0), 0).unwrap();
    let b = Individual::from_matrices(one_by_one(0), Vec::new(), one_by_one(0), 0).unwrap();
    assert_eq!(a.similarity(&b), 1);
    assert!(a.similarity(&b) > 0);
}

#[test]
fn new_random_entries_stay_in_range() {
    let mut rng = RandomSource::from_seed(17);
    let s = shape_4114();
    let g = Individual::new_random(s, &mut rng);
    let m = g.get_input_matrix();
    for i in 0..s.inputs {
        for j in 0..s.sublayers {
            let e = m.entry(i, j);
            assert!(-ONE <= e && e <= ONE);
        }
    }
    let h = g.get_hidden_matrix(0);
    for i in 0..s.sublayers {
        for j in 0..s.sublayers {
            let e = h.entry(i, j);
            assert!(-ONE <= e && e <= ONE);
        }
    }
    let o = g.get_output_matrix();
    for i in 0..s.sublayers {
        for j in 0..s.outputs {
            let e = o.entry(i, j);
            assert!(-ONE <= e && e <= ONE);
        }
    }
    assert_eq!(g.get_fitness(), 0);
}

#[test]
fn new_random_nonzero_fraction_approaches_one_quarter() {
    let mut rng = RandomSource::from_seed(19);
    let s = Shape { inputs: 40, layers: 1, outputs: 40, sublayers: 40 };
    let g = Individual::new_random(s, &mut rng);
    let mut nonzero: usize = 0;
    let mut total: usize = 0;
    let m = g.get_input_matrix();
    for i in 0..40 {
        for j in 0..40 {
            total += 1;
            if m.entry(i, j) != 0 {
                nonzero += 1;
            }
        }
    }
    let h = g.get_hidden_matrix(0);
    for i in 0..40 {
        for j in 0..40 {
            total += 1;
            if h.entry(i, j) != 0 {
                nonzero += 1;
            }
        }
    }
    let o = g.get_output_matrix();
    for i in 0..40 {
        for j in 0..40 {
            total += 1;
            if o.entry(i, j) != 0 {
                nonzero += 1;
            }
        }
    }
    assert_eq!(total, 4800);
    let fraction_thousandths = nonzero * 1000 / total;
    assert!(
        220 <= fraction_thousandths && fraction_thousandths <= 280,
        "nonzero fraction was {nonzero}/{total}"
    );
}

fn collect_entries(g: &Individual) -> Vec<i64> {
    let s = g.shape();
    let mut out = Vec::new();
    let m = g.get_input_matrix();
    for i in 0..s.inputs {
        for j in 0..s.sublayers {
            out.push(m.entry(i, j));
        }
    }
    for k in 0..s.layers {
        let h = g.get_hidden_matrix(k);
        for i in 0..s.sublayers {
            for j in 0..s.sublayers {
                out.push(h.entry(i, j));
            }
        }
    }
    let o = g.get_output_matrix();
    for i in 0..s.sublayers {
        for j in 0..s.outputs {
            out.push(o.entry(i, j));
        }
    }
    out
}

#[test]
fn mutate_changes_exactly_one_entry_within_range() {
    let mut rng = RandomSource::from_seed(23);
    let mut total_changed: usize = 0;
    for round in 0..50u64 {
        let mut g = Individual::new_random(shape_4114(), &mut rng);
        let before = collect_entries(&g);
        g.mutate(&mut rng);
        let after = collect_entries(&g);
        assert_eq!(before.len(), after.len());
        let mut changed: usize = 0;
        for (x, y) in before.iter().zip(after.iter()) {
            if x != y {
                changed += 1;
                let delta = y - x;
                assert!(
                    -MUTATION_RANGE <= delta && delta <= MUTATION_RANGE,
                    "round {round}: delta {delta} out of range"
                );
            }
        }
        assert!(changed <= 1, "round {round}: {changed} entries changed");
        total_changed += changed;
    }
    // A drawn perturbation of exactly zero is possible but rare: almost
    // every round must have changed exactly one entry.
    assert!(total_changed >= 45, "only {total_changed} of 50 rounds changed an entry");
}

#[test]
fn mutate_leaves_fitness_and_shape_alone() {
    let mut rng = RandomSource::from_seed(29);
    let mut g = Individual::new_random(shape_4114(), &mut rng);
    g.fitness = 42;
    g.mutate(&mut rng);
    assert_eq!(g.fitness, 42);
    assert_eq!(g.shape(), shape_4114());
}

#[test]
fn clone_preserves_all_entries_and_fitness() {
    let mut rng = RandomSource::from_seed(31);
    let mut g = Individual::new_random(shape_4114(), &mut rng);
    g.fitness = 7;
    let h = g.clone();
    assert!(entries_equal(&g, &h));
    assert_eq!(h.get_fitness(), 7);
}

#[test]
fn from_matrices_rejects_inconsistent_banks() {
    // Output bank of the wrong height.
    let input = Matrix::zeros(2, 3);
    let output = Matrix::zeros(2, 1);
    assert!(Individual::from_matrices(input, Vec::new(), output, 0).is_none());
    // Hidden bank that is not square at the hidden width.
    let input = Matrix::zeros(2, 3);
    let hidden = vec![Matrix::zeros(3, 2)];
    let output = Matrix::zeros(3, 1);
    assert!(Individual::from_matrices(input, hidden, output, 0).is_none());
    // Degenerate width.
    let input = Matrix::zeros(0, 3);
    let output = Matrix::zeros(3, 1);
    assert!(Individual::from_matrices(input, Vec::new(), output, 0).is_none());
    // A consistent combination is accepted.
    let input = Matrix::zeros(2, 3);
    let hidden = vec![Matrix::zeros(3, 3)];
    let output = Matrix::zeros(3, 1);
    assert!(Individual::from_matrices(input, hidden, output, 0).is_some());
}

#[test]
fn matrix_from_rows_requires_rectangular_data() {
    assert!(Matrix::from_rows(vec![vec![1, 2], vec![3]]).is_none());
    let m = Matrix::from_rows(vec![vec![1, 2], vec![3, 4]]).unwrap();
    assert_eq!(m.rows(), 2);
    assert_eq!(m.cols(), 2);
    assert_eq!(m.entry(1, 0), 3);
}
