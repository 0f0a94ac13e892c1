use evolution_rust::{Individual, Matrix, Population, RandomSource, Shape, ONE};

fn shape_4114() -> Shape {
    Shape { inputs: 4, layers: 1, outputs: 1, sublayers: 4 }
}

fn one_by_one(v: i64) -> Individual {
    let input = Matrix::from_rows(vec![vec![v]]).unwrap();
    let output = Matrix::from_rows(vec![vec![0]]).unwrap();
    Individual::from_matrices(input, Vec::new(), output, 0).unwrap()
}

fn entries_equal(a: &Individual, b: &Individual) -> bool {
    let s = a.shape();
    if b.shape() != s {
        return false;
    }
    let (ai, bi) = (a.get_input_matrix(), b.get_input_matrix());
    for i in 0..s.inputs {
        for j in 0..s.sublayers {
            if ai.entry(i, j) != bi.entry(i, j) {
                return false;
            }
        }
    }
    for k in 0..s.layers {
        let (ah, bh) = (a.get_hidden_matrix(k), b.get_hidden_matrix(k));
        for i in 0..s.sublayers {
            for j in 0..s.sublayers {
                if ah.entry(i, j) != bh.entry(i, j) {
                    return false;
                }
            }
        }
    }
    let (ao, bo) = (a.get_output_matrix(), b.get_output_matrix());
    for i in 0..s.sublayers {
        for j in 0..s.outputs {
            if ao.entry(i, j) != bo.entry(i, j) {
                return false;
            }
        }
    }
    true
}

#[test]
fn new_population_is_full_of_zero_fitness_genomes() {
    let mut rng = RandomSource::from_seed(41);
    let pop = Population::new(shape_4114(), 10, 3, &mut rng);
    assert_eq!(pop.individuals.len(), 10);
    assert_eq!(pop.get_max_size(), 10);
    assert_eq!(pop.get_max_species(), 3);
    for g in pop.individuals.iter() {
        assert_eq!(g.get_fitness(), 0);
        assert_eq!(g.shape(), shape_4114());
    }
}

#[test]
fn new_from_individuals_takes_length_as_budget() {
    let mut rng = RandomSource::from_seed(43);
    let genomes = vec![
        Individual::new_random(shape_4114(), &mut rng),
        Individual::new_random(shape_4114(), &mut rng),
        Individual::new_random(shape_4114(), &mut rng),
    ];
    let pop = Population::new_from_individuals(5, genomes);
    assert_eq!(pop.get_max_size(), 3);
    assert_eq!(pop.get_max_species(), 5);
    assert_eq!(pop.individuals.len(), 3);
}

#[test]
fn speciation_groups_by_founder_distance() {
    // Squared distance to the zero founder: 0.25 for the near genome
    // (joins), 1.0 for the far genome (founds a new species).
    let near = one_by_one(500_000);
    let far = one_by_one(ONE);
    let zero = one_by_one(0);
    let pop = Population::new_from_individuals(4, vec![zero, near, far]);
    let species = pop.speciate();
    assert_eq!(species.len(), 2);
    assert_eq!(species[0].len(), 2);
    assert_eq!(species[1].len(), 1);
    assert_eq!(species[0][0].get_input_matrix().entry(0, 0), 0);
    assert_eq!(species[0][1].get_input_matrix().entry(0, 0), 500_000);
    assert_eq!(species[1][0].get_input_matrix().entry(0, 0), ONE);
}

#[test]
fn speciation_of_unchanged_list_is_identical() {
    let mut rng = RandomSource::from_seed(47);
    let genomes: Vec<Individual> =
        (0..6).map(|_| Individual::new_random(shape_4114(), &mut rng)).collect();
    let pop = Population::new_from_individuals(4, genomes);
    let first = pop.speciate();
    let second = pop.speciate();
    assert_eq!(first.len(), second.len());
    for (a, b) in first.iter().zip(second.iter()) {
        assert_eq!(a.len(), b.len());
        for (x, y) in a.iter().zip(b.iter()) {
            assert!(entries_equal(x, y));
        }
    }
}

#[test]
fn evolve_refills_budget_and_resets_fitness() {
    let mut rng = RandomSource::from_seed(53);
    let mut pop = Population::new(shape_4114(), 8, 3, &mut rng);
    for (i, g) in pop.individuals.iter_mut().enumerate() {
        g.fitness = (i as i64) * 100_000;
    }
    pop.evolve(&mut rng);
    assert_eq!(pop.individuals.len(), 8);
    for g in pop.individuals.iter() {
        assert_eq!(g.get_fitness(), 0);
        assert_eq!(g.shape(), shape_4114());
    }
}

#[test]
fn evolve_scenario_keeps_fittest_founder() {
    // Four genomes with fitness 3.0, 1.0, 4.0, 2.0 in construction
    // order; after one evolve step with a species bound of two, the
    // population again has four members and its first member is the
    // genome that had fitness 4.0, unchanged except the fitness reset.
    let mut rng = RandomSource::from_seed(59);
    let mut pop = Population::new(shape_4114(), 4, 2, &mut rng);
    let fitness = [3 * ONE, ONE, 4 * ONE, 2 * ONE];
    for (g, f) in pop.individuals.iter_mut().zip(fitness.iter()) {
        g.fitness = *f;
    }
    let champion = pop.individuals[2].clone();
    pop.evolve(&mut rng);
    assert_eq!(pop.individuals.len(), 4);
    assert!(entries_equal(&pop.individuals[0], &champion));
    assert_eq!(pop.individuals[0].get_fitness(), 0);
}

#[test]
fn evolve_keeps_best_across_generations() {
    let mut rng = RandomSource::from_seed(61);
    let mut pop = Population::new(shape_4114(), 6, 2, &mut rng);
    for _ in 0..3 {
        for (i, g) in pop.individuals.iter_mut().enumerate() {
            g.fitness = -(i as i64) * 50_000;
        }
        let best = pop.individuals[0].clone();
        pop.evolve(&mut rng);
        assert_eq!(pop.individuals.len(), 6);
        assert!(entries_equal(&pop.individuals[0], &best));
    }
}

#[test]
fn evolve_with_zero_species_bound_behaves_as_one() {
    let mut rng = RandomSource::from_seed(67);
    let mut pop = Population::new(shape_4114(), 5, 0, &mut rng);
    for (i, g) in pop.individuals.iter_mut().enumerate() {
        g.fitness = (i as i64) * ONE;
    }
    let best = pop.individuals[4].clone();
    pop.evolve(&mut rng);
    assert_eq!(pop.individuals.len(), 5);
    assert!(entries_equal(&pop.individuals[0], &best));
    for g in pop.individuals.iter() {
        assert_eq!(g.get_fitness(), 0);
    }
}

fn two_cell(a: i64, b: i64) -> Individual {
    let input = Matrix::from_rows(vec![vec![a], vec![b]]).unwrap();
    let output = Matrix::from_rows(vec![vec![0]]).unwrap();
    Individual::from_matrices(input, Vec::new(), output, 0).unwrap()
}

#[test]
fn speciation_threshold_is_strict() {
    // Against the zero founder, 700000^2 + 99999^2 is just below the
    // threshold (joins), while 700000^2 + 100000^2 is exactly the
    // threshold, which is not strictly below it (founds a new species).
    let zero = two_cell(0, 0);
    let joins = two_cell(700_000, 99_999);
    let founds = two_cell(700_000, 100_000);
    let pop = Population::new_from_individuals(4, vec![zero, joins, founds]);
    let species = pop.speciate();
    assert_eq!(species.len(), 2);
    assert_eq!(species[0].len(), 2);
    assert_eq!(species[1].len(), 1);
}

#[test]
fn evolve_on_a_single_genome_population() {
    let mut rng = RandomSource::from_seed(71);
    let mut pop = Population::new(shape_4114(), 1, 3, &mut rng);
    let only = pop.individuals[0].clone();
    pop.evolve(&mut rng);
    assert_eq!(pop.individuals.len(), 1);
    assert!(entries_equal(&pop.individuals[0], &only));
    assert_eq!(pop.individuals[0].get_fitness(), 0);
}

#[test]
fn speciate_single_genome_gives_one_species() {
    let mut rng = RandomSource::from_seed(73);
    let pop = Population::new(shape_4114(), 1, 3, &mut rng);
    let species = pop.speciate();
    assert_eq!(species.len(), 1);
    assert_eq!(species[0].len(), 1);
    assert!(entries_equal(&species[0][0], &pop.individuals[0]));
}

#[test]
fn evolve_refills_a_shrunken_collection() {
    // The genome collection is externally mutable; evolving a collection
    // that has fallen below the budget fills it back up exactly.
    let mut rng = RandomSource::from_seed(79);
    let mut pop = Population::new(shape_4114(), 6, 2, &mut rng);
    pop.individuals.truncate(2);
    pop.individuals[0].fitness = ONE;
    let best = pop.individuals[0].clone();
    pop.evolve(&mut rng);
    assert_eq!(pop.individuals.len(), 6);
    assert_eq!(pop.get_max_size(), 6);
    assert!(entries_equal(&pop.individuals[0], &best));
    for g in pop.individuals.iter() {
        assert_eq!(g.get_fitness(), 0);
    }
}
