use vstd::prelude::*;
use vstd::multiset::Multiset;
use vstd::seq_lib::group_to_multiset_ensures;

use crate::individual::{
    banks_equal, ind_entries_within, ind_mutated, ind_sim, shape_wf, with_fitness, IndView,
    Individual, Shape, MUTATION_RANGE,
};
use crate::fixed::ONE;
use crate::rng::RandomSource;

verus! {

broadcast use group_to_multiset_ensures;

/// The similarity threshold under which a genome joins an existing
/// species: one half, in the squared fixed-point units of the
/// similarity metric (a whole unit squared is `ONE * ONE`).
pub const SPECIES_THRESHOLD: i64 = 500_000_000_000;

/// The views of a sequence of genomes, in order.
pub open spec fn views(s: Seq<Individual>) -> Seq<IndView> {
    s.map_values(|x: Individual| x@)
}

/// A fixed-budget collection of genomes of one shape, evolved generation
/// by generation.
pub struct Population {
    /// The current generation, externally readable; `evolve` replaces it.
    pub individuals: Vec<Individual>,
    max_size: usize,
    max_species: usize,
}

impl Population {
    /// The current generation, as a specification value.
    pub closed spec fn spec_individuals(&self) -> Seq<Individual> {
        self.individuals@
    }

    /// The population budget, fixed at construction.
    pub closed spec fn spec_max_size(&self) -> usize {
        self.max_size
    }

    /// The bound on reproducing species, fixed at construction.
    pub closed spec fn spec_max_species(&self) -> usize {
        self.max_species
    }

    /// Every genome in the collection is well-formed and of the one
    /// shared shape.
    pub open spec fn members_wf(&self) -> bool {
        &&& forall|i: int|
            0 <= i < self.spec_individuals().len() ==> (#[trigger] self.spec_individuals()[i]).wf()
        &&& forall|i: int|
            0 <= i < self.spec_individuals().len()
                ==> (#[trigger] self.spec_individuals()[i]).spec_shape()
                == self.spec_individuals()[0].spec_shape()
    }

    /// The members are well-formed and the collection fills its budget
    /// exactly.
    pub open spec fn wf(&self) -> bool {
        &&& self.spec_individuals().len() == self.spec_max_size()
        &&& self.members_wf()
    }

    /// Reads the population budget.
    pub fn get_max_size(&self) -> (r: usize)
        ensures
            r == self.spec_max_size(),
    {
        self.max_size
    }

    /// Reads the species bound.
    pub fn get_max_species(&self) -> (r: usize)
        ensures
            r == self.spec_max_species(),
    {
        self.max_species
    }

    /// A population of `max_size` independently random genomes of the
    /// given shape, every fitness starting at zero.
    pub fn new(shape: Shape, max_size: usize, max_species: usize, rng: &mut RandomSource) -> (p:
        Population)
        requires
            shape_wf(shape),
        ensures
            p.wf(),
            p.spec_max_size() == max_size,
            p.spec_max_species() == max_species,
            p.spec_individuals().len() == max_size,
            forall|i: int|
                0 <= i < max_size ==> (#[trigger] p.spec_individuals()[i]).spec_fitness() == 0,
            forall|i: int|
                0 <= i < max_size ==> (#[trigger] p.spec_individuals()[i]).spec_shape() == shape,
            forall|i: int|
                0 <= i < max_size ==> ind_entries_within(
                    (#[trigger] p.spec_individuals()[i])@,
                    ONE,
                ),
    {
        let mut individuals: Vec<Individual> = Vec::new();
        let mut i: usize = 0;
        while i < max_size
            invariant
                i <= max_size,
                shape_wf(shape),
                individuals@.len() == i,
                forall|k: int| 0 <= k < i ==> (#[trigger] individuals@[k]).wf(),
                forall|k: int| 0 <= k < i ==> (#[trigger] individuals@[k]).spec_shape() == shape,
                forall|k: int| 0 <= k < i ==> (#[trigger] individuals@[k]).spec_fitness() == 0,
                forall|k: int|
                    0 <= k < i ==> ind_entries_within((#[trigger] individuals@[k])@, ONE),
            decreases max_size - i,
        {
            let ind = Individual::new_random(shape, rng);
            individuals.push(ind);
            i += 1;
        }
        Population { individuals, max_size, max_species }
    }

    /// A population over an explicit genome collection, its budget set to
    /// the collection's length (used when resuming from a stored set).
    pub fn new_from_individuals(max_species: usize, individuals: Vec<Individual>) -> (p: Population)
        requires
            forall|i: int| 0 <= i < individuals@.len() ==> (#[trigger] individuals@[i]).wf(),
            forall|i: int|
                0 <= i < individuals@.len() ==> (#[trigger] individuals@[i]).spec_shape()
                    == individuals@[0].spec_shape(),
        ensures
            p.wf(),
            p.spec_max_size() == individuals@.len(),
            p.spec_max_species() == max_species,
            p.spec_individuals() == individuals@,
    {
        let max_size = individuals.len();
        Population { individuals, max_size, max_species }
    }
}

/// Genomes in fitness-descending order: a permutation of the input whose
/// every member still comes from the input.
fn sort_by_fitness(v: Vec<Individual>) -> (r: Vec<Individual>)
    ensures
        r@.len() == v@.len(),
        r@.to_multiset() == v@.to_multiset(),
        forall|i: int, j: int|
            0 <= i <= j < r@.len() ==> (#[trigger] r@[i]).spec_fitness()
                >= (#[trigger] r@[j]).spec_fitness(),
        forall|i: int| 0 <= i < r@.len() ==> v@.contains(#[trigger] r@[i]),
{
    let mut src = v;
    let mut out: Vec<Individual> = Vec::new();
    let ghost orig = src@;
    while src.len() > 0
        invariant
            out@.len() + src@.len() == orig.len(),
            out@.to_multiset().add(src@.to_multiset()) == orig.to_multiset(),
            forall|i: int, j: int|
                0 <= i <= j < out@.len() ==> (#[trigger] out@[i]).spec_fitness() >= (
                #[trigger] out@[j]).spec_fitness(),
            forall|oi: int, si: int|
                0 <= oi < out@.len() && 0 <= si < src@.len() ==> (#[trigger] out@[oi]).spec_fitness()
                    >= (#[trigger] src@[si]).spec_fitness(),
        decreases src@.len(),
    {
        let mut best: usize = 0;
        let mut bi: usize = 1;
        while bi < src.len()
            invariant
                src@.len() > 0,
                best < src@.len(),
                bi <= src@.len(),
                forall|t: int|
                    0 <= t < bi ==> src@[best as int].spec_fitness()
                        >= (#[trigger] src@[t]).spec_fitness(),
            decreases src@.len() - bi,
        {
            if src[bi].get_fitness() > src[best].get_fitness() {
                best = bi;
            }
            bi += 1;
        }
        let ghost src_before = src@;
        let ghost out_before = out@;
        let x = src.remove(best);
        out.push(x);
        proof {
            assert(src@ == src_before.remove(best as int));
            assert(src@.to_multiset() =~= src_before.to_multiset().remove(x));
            assert(out@.to_multiset() =~= out_before.to_multiset().insert(x));
            assert(src_before.to_multiset().count(x) > 0) by {
                assert(src_before.contains(x));
            }
            assert(out@.to_multiset().add(src@.to_multiset()) =~= out_before.to_multiset().add(
                src_before.to_multiset(),
            ));
            assert forall|si: int| 0 <= si < src@.len() implies x.spec_fitness() >= (
            #[trigger] src@[si]).spec_fitness() by {
                if si < best {
                    assert(src@[si] == src_before[si]);
                } else {
                    assert(src@[si] == src_before[si + 1]);
                }
            }
        }
    }
    proof {
        assert(src@.to_multiset().len() == 0);
        assert(src@.to_multiset() =~= Multiset::empty());
        assert(out@.to_multiset() =~= orig.to_multiset());
        assert forall|i: int| 0 <= i < out@.len() implies orig.contains(#[trigger] out@[i]) by {
            assert(out@.contains(out@[i]));
            assert(out@.to_multiset().count(out@[i]) > 0);
            assert(orig.to_multiset().count(out@[i]) > 0);
        }
    }
    out
}


/// The views of a grouped sequence of genomes, species by species.
pub open spec fn species_views(s: Seq<Vec<Individual>>) -> Seq<Seq<IndView>> {
    s.map_values(|v: Vec<Individual>| views(v@))
}

/// The index of the first species whose founder is within the threshold
/// of `x`, scanning from `i`; `-1` when none matches.
pub open spec fn find_species_from(sp: Seq<Seq<IndView>>, x: IndView, i: int) -> int
    decreases sp.len() - i,
{
    if i < 0 || i >= sp.len() {
        -1
    } else if ind_sim(sp[i][0], x) < SPECIES_THRESHOLD {
        i
    } else {
        find_species_from(sp, x, i + 1)
    }
}

/// Greedy first-match insertion: `x` joins the first species whose
/// founder it is close to, or founds a new species at the end.
pub open spec fn assign_to_species(sp: Seq<Seq<IndView>>, x: IndView) -> Seq<Seq<IndView>> {
    let k = find_species_from(sp, x, 0);
    if k < 0 {
        sp.push(seq![x])
    } else {
        sp.update(k, sp[k].push(x))
    }
}

/// The grouping of the first `n` genomes: the first founds the first
/// species, and each later one is inserted greedily in order.
pub open spec fn speciate_rec(inds: Seq<IndView>, n: int) -> Seq<Seq<IndView>>
    decreases n,
{
    if n <= 1 {
        seq![seq![inds[0]]]
    } else {
        assign_to_species(speciate_rec(inds, n - 1), inds[n - 1])
    }
}

/// The single-pass, order-dependent speciation of a genome list.
pub open spec fn spec_speciate(inds: Seq<IndView>) -> Seq<Seq<IndView>> {
    speciate_rec(inds, inds.len() as int)
}

/// Speciation always yields at least one species, every species is
/// non-empty, and the first species is founded by the first genome.
pub proof fn lemma_speciate_structure(inds: Seq<IndView>, n: int)
    requires
        1 <= n,
    ensures
        speciate_rec(inds, n).len() >= 1,
        speciate_rec(inds, n).len() <= n,
        forall|k: int|
            0 <= k < speciate_rec(inds, n).len() ==> (#[trigger] speciate_rec(inds, n)[k]).len()
                >= 1,
        speciate_rec(inds, n)[0][0] == inds[0],
    decreases n,
{
    if n > 1 {
        lemma_speciate_structure(inds, n - 1);
        let sp = speciate_rec(inds, n - 1);
        let x = inds[n - 1];
        let f = find_species_from(sp, x, 0);
        lemma_find_species_range(sp, x, 0);
        let r = speciate_rec(inds, n);
        if f >= 0 {
            assert(r == sp.update(f, sp[f].push(x)));
            assert forall|k: int| 0 <= k < r.len() implies (#[trigger] r[k]).len() >= 1 by {
                if k == f {
                    assert(r[k] == sp[f].push(x));
                } else {
                    assert(r[k] == sp[k]);
                }
            }
            if f == 0 {
                assert(r[0][0] == sp[0].push(x)[0]);
            } else {
                assert(r[0] == sp[0]);
            }
        } else {
            assert(r == sp.push(seq![x]));
            assert forall|k: int| 0 <= k < r.len() implies (#[trigger] r[k]).len() >= 1 by {
                if k < sp.len() {
                    assert(r[k] == sp[k]);
                } else {
                    assert(r[k] == seq![x]);
                }
            }
            assert(r[0] == sp[0]);
        }
    }
}

/// Speciation is a pure function of the genome list: re-running it on an
/// unchanged (already sorted) list yields the identical grouping.
pub proof fn lemma_speciate_deterministic(a: Seq<IndView>, b: Seq<IndView>)
    requires
        a == b,
    ensures
        spec_speciate(a) == spec_speciate(b),
{
}

/// A non-negative scan result is an in-range species index whose founder
/// really lies within the threshold.
pub proof fn lemma_find_species_range(sp: Seq<Seq<IndView>>, x: IndView, i: int)
    ensures
        ({
            let f = find_species_from(sp, x, i);
            f == -1 || (0 <= f < sp.len() && i <= f && ind_sim(sp[f][0], x) < SPECIES_THRESHOLD)
        }),
    decreases sp.len() - i,
{
    if !(i < 0 || i >= sp.len()) {
        if !(ind_sim(sp[i][0], x) < SPECIES_THRESHOLD) {
            lemma_find_species_range(sp, x, i + 1);
        }
    }
}

/// Founders within threshold: the index the scan returns really matches.
proof fn lemma_find_species_step(sp: Seq<Seq<IndView>>, x: IndView, i: int)
    requires
        0 <= i < sp.len(),
        ind_sim(sp[i][0], x) >= SPECIES_THRESHOLD,
    ensures
        find_species_from(sp, x, i) == find_species_from(sp, x, i + 1),
{
}

/// The first species whose founder is within the threshold of `ind`, or
/// `species.len()` when no founder matches.
fn find_species(species: &Vec<Vec<Individual>>, ind: &Individual) -> (r: usize)
    requires
        ind.wf(),
        forall|k: int|
            0 <= k < species@.len() ==> (#[trigger] species@[k])@.len() >= 1,
        forall|k: int|
            0 <= k < species@.len() ==> (#[trigger] species@[k])@[0].wf()
                && species@[k]@[0].spec_shape() == ind.spec_shape(),
    ensures
        ({
            let f = find_species_from(species_views(species@), ind@, 0);
            &&& (f < 0 ==> r == species@.len())
            &&& (f >= 0 ==> r == f && ind_sim(species_views(species@)[r as int][0], ind@)
                < SPECIES_THRESHOLD)
            &&& r <= species@.len()
        }),
{
    let ghost sv = species_views(species@);
    let mut k: usize = 0;
    while k < species.len()
        invariant
            sv == species_views(species@),
            ind.wf(),
            forall|t: int|
                0 <= t < species@.len() ==> (#[trigger] species@[t])@.len() >= 1,
            forall|t: int|
                0 <= t < species@.len() ==> (#[trigger] species@[t])@[0].wf()
                    && species@[t]@[0].spec_shape() == ind.spec_shape(),
            k <= species@.len(),
            find_species_from(sv, ind@, 0) == find_species_from(sv, ind@, k as int),
        decreases species@.len() - k,
    {
        proof {
            assert(sv[k as int] == views(species@[k as int]@));
            assert(sv[k as int][0] == species@[k as int]@[0]@);
        }
        let founder = &species[k][0];
        let s = founder.similarity(ind);
        if s < SPECIES_THRESHOLD {
            return k;
        }
        proof {
            lemma_find_species_step(sv, ind@, k as int);
        }
        k += 1;
    }
    k
}

impl Population {
    /// Groups the current genome list into species by single-pass greedy
    /// clustering: each genome joins the first species whose founder lies
    /// within the similarity threshold, else founds a new one. Intended
    /// to run on a fitness-sorted list, whose order it follows.
    pub fn speciate(&self) -> (species: Vec<Vec<Individual>>)
        requires
            self.members_wf(),
            self.spec_individuals().len() >= 1,
        ensures
            species_views(species@) == spec_speciate(views(self.spec_individuals())),
            species@.len() >= 1,
            species@.len() <= self.spec_individuals().len(),
            forall|k: int|
                0 <= k < species@.len() ==> (#[trigger] species@[k])@.len() >= 1,
            forall|k: int, m: int|
                0 <= k < species@.len() && 0 <= m < species@[k]@.len()
                    ==> (#[trigger] species@[k]@[m]).wf() && species@[k]@[m].spec_shape()
                    == self.spec_individuals()[0].spec_shape(),
            species@[0]@[0]@ == self.spec_individuals()[0]@,
    {
        let ghost inds = views(self.individuals@);
        let ghost shape0 = self.individuals@[0].spec_shape();
        let mut species: Vec<Vec<Individual>> = Vec::new();
        let first = self.individuals[0].clone();
        let mut sp0: Vec<Individual> = Vec::new();
        sp0.push(first);
        species.push(sp0);
        proof {
            assert(views(species@[0]@) =~= seq![inds[0]]);
            assert(species_views(species@) =~~= speciate_rec(inds, 1));
        }
        let mut i: usize = 1;
        while i < self.individuals.len()
            invariant
                self.members_wf(),
                inds == views(self.individuals@),
                shape0 == self.individuals@[0].spec_shape(),
                self.individuals@.len() >= 1,
                1 <= i <= self.individuals@.len(),
                species_views(species@) == speciate_rec(inds, i as int),
                species@.len() >= 1,
                forall|k: int|
                    0 <= k < species@.len() ==> (#[trigger] species@[k])@.len() >= 1,
                forall|k: int, m: int|
                    0 <= k < species@.len() && 0 <= m < species@[k]@.len()
                        ==> (#[trigger] species@[k]@[m]).wf() && species@[k]@[m].spec_shape()
                        == shape0,
            decreases self.individuals@.len() - i,
        {
            let ghost sv = species_views(species@);
            let ghost specs_before = species@;
            let ind = &self.individuals[i];
            proof {
                assert(self.spec_individuals() == self.individuals@);
                assert(self.spec_individuals()[i as int].wf());
                assert(self.spec_individuals()[i as int].spec_shape()
                    == self.spec_individuals()[0].spec_shape());
                assert(ind.wf() && ind.spec_shape() == shape0);
                assert forall|k: int| 0 <= k < species@.len() implies (
                #[trigger] species@[k])@[0].wf() && species@[k]@[0].spec_shape()
                    == ind.spec_shape() by {
                    assert(species@[k]@[0].wf());
                }
            }
            let idx = find_species(&species, ind);
            let c = ind.clone();
            if idx < species.len() {
                let sp = &mut species[idx];
                sp.push(c);
                proof {
                    assert(species@ == specs_before.update(idx as int, species@[idx as int]));
                    assert(species@[idx as int]@ == specs_before[idx as int]@.push(c));
                    assert(find_species_from(sv, ind@, 0) == idx);
                    assert forall|k: int|
                        0 <= k < species@.len() implies #[trigger] species_views(species@)[k]
                        == assign_to_species(sv, ind@)[k] by {
                        assert(species_views(species@)[k] == views(species@[k]@));
                        assert(sv[k] == views(specs_before[k]@));
                        if k == idx {
                            assert(views(specs_before[k]@.push(c)) =~= views(
                                specs_before[k]@,
                            ).push(c@));
                        } else {
                            assert(species@[k] == specs_before[k]);
                        }
                    }
                    assert(species_views(species@) =~~= assign_to_species(sv, ind@));
                }
            } else {
                let mut ns: Vec<Individual> = Vec::new();
                ns.push(c);
                species.push(ns);
                proof {
                    lemma_find_species_range(sv, ind@, 0);
                    assert(find_species_from(sv, ind@, 0) < 0);
                    assert(species@ == specs_before.push(species@[specs_before.len() as int]));
                    assert(views(species@[specs_before.len() as int]@) =~= seq![ind@]);
                    assert forall|k: int|
                        0 <= k < species@.len() implies #[trigger] species_views(species@)[k]
                        == assign_to_species(sv, ind@)[k] by {
                        assert(species_views(species@)[k] == views(species@[k]@));
                        if k < specs_before.len() {
                            assert(species@[k] == specs_before[k]);
                            assert(sv[k] == views(specs_before[k]@));
                        }
                    }
                    assert(species_views(species@) =~~= assign_to_species(sv, ind@));
                }
            }
            proof {
                assert(inds[i as int] == self.individuals@[i as int]@);
                assert(speciate_rec(inds, i as int + 1) == assign_to_species(
                    speciate_rec(inds, i as int),
                    inds[i as int],
                ));
            }
            i += 1;
        }
        proof {
            lemma_speciate_structure(inds, self.individuals@.len() as int);
            assert(species@.len() == species_views(species@).len());
            assert(species_views(species@)[0][0] == inds[0]);
            assert(views(species@[0]@)[0] == species@[0]@[0]@);
        }
        species
    }
}


/// Genomes in fitness-descending order.
pub open spec fn sorted_desc(s: Seq<Individual>) -> bool {
    forall|i: int, j: int|
        0 <= i <= j < s.len() ==> (#[trigger] s[i]).spec_fitness()
            >= (#[trigger] s[j]).spec_fitness()
}

/// How many species reproduce: the species bound (zero treated as one),
/// clamped to the number of species formed and to the population budget.
pub open spec fn retained_count(max_species: usize, n_species: int, max_size: usize) -> int {
    let eff: int = if max_species == 0 {
        1
    } else {
        max_species as int
    };
    let r: int = if n_species < eff {
        n_species
    } else {
        eff
    };
    if r < max_size as int {
        r
    } else {
        max_size as int
    }
}

/// `b` arises from `a` by exactly `n` single-entry perturbations of the
/// weight banks, each of magnitude at most `MUTATION_RANGE`; the fitness
/// accumulator is unconstrained along the chain.
pub open spec fn mutated_steps(a: IndView, b: IndView, n: int) -> bool
    decreases n,
{
    if n <= 0 {
        b == a
    } else {
        exists|mid: IndView, d: i64|
            -MUTATION_RANGE <= d <= MUTATION_RANGE && #[trigger] ind_mutated(a, mid, d)
                && mutated_steps(mid, b, n - 1)
    }
}

/// A single perturbation extends a perturbation chain at its end.
proof fn lemma_mutated_steps_append(a: IndView, b: IndView, c: IndView, d: i64, n: int)
    requires
        0 <= n,
        mutated_steps(a, b, n),
        -MUTATION_RANGE <= d <= MUTATION_RANGE,
        ind_mutated(b, c, d),
    ensures
        mutated_steps(a, c, n + 1),
    decreases n,
{
    if n <= 0 {
        assert(b == a);
        assert(mutated_steps(c, c, 0));
        assert(ind_mutated(a, c, d) && mutated_steps(c, c, 0));
    } else {
        let (mid, d0): (IndView, i64) = choose|mid: IndView, d0: i64|
            -MUTATION_RANGE <= d0 <= MUTATION_RANGE && #[trigger] ind_mutated(a, mid, d0)
                && mutated_steps(mid, b, n - 1);
        lemma_mutated_steps_append(mid, b, c, d, n - 1);
        assert(ind_mutated(a, mid, d0) && mutated_steps(mid, c, n));
    }
}

/// A perturbation chain of positive length also reaches any genome whose
/// weight banks equal its endpoint's.
proof fn lemma_mutated_steps_retarget(a: IndView, x: IndView, y: IndView, n: int)
    requires
        1 <= n,
        mutated_steps(a, x, n),
        banks_equal(x, y),
    ensures
        mutated_steps(a, y, n),
    decreases n,
{
    let (mid, d0): (IndView, i64) = choose|mid: IndView, d0: i64|
        -MUTATION_RANGE <= d0 <= MUTATION_RANGE && #[trigger] ind_mutated(a, mid, d0)
            && mutated_steps(mid, x, n - 1);
    if n == 1 {
        assert(x == mid);
        assert(ind_mutated(a, y, d0));
        assert(mutated_steps(y, y, 0));
        assert(ind_mutated(a, y, d0) && mutated_steps(y, y, 0));
    } else {
        lemma_mutated_steps_retarget(mid, x, y, n - 1);
        assert(ind_mutated(a, mid, d0) && mutated_steps(mid, y, n - 1));
    }
}

/// The genome at a filled slot: some member of the round-robin-chosen
/// retained species, taken through one to nineteen single-entry
/// perturbations.
pub open spec fn filled_from(sp: Seq<Seq<IndView>>, r: int, slot: int, v: IndView) -> bool {
    exists|m: int, n: int|
        0 <= m < sp[(slot - r) % r].len() && 1 <= n <= 19 && #[trigger] mutated_steps(
            sp[(slot - r) % r][m],
            v,
            n,
        )
}

/// One generational step, related to its input through a fitness-sorted
/// permutation `sorted`: speciating `sorted` greedily, the founders of
/// the first retained species survive in order with their fitness reset,
/// and every later slot holds a member of the round-robin-chosen
/// retained species after one to nineteen single-entry perturbations.
pub open spec fn evolve_step(
    old_inds: Seq<Individual>,
    sorted: Seq<Individual>,
    new_inds: Seq<Individual>,
    max_species: usize,
    max_size: usize,
) -> bool {
    let sp = spec_speciate(views(sorted));
    let r = retained_count(max_species, sp.len() as int, max_size);
    &&& sorted.len() == old_inds.len()
    &&& sorted.to_multiset() == old_inds.to_multiset()
    &&& sorted_desc(sorted)
    &&& forall|k: int| 0 <= k < r ==> (#[trigger] new_inds[k])@ == with_fitness(sp[k][0], 0)
    &&& forall|j: int|
        r <= j < new_inds.len() ==> #[trigger] filled_from(sp, r, j, new_inds[j]@)
}

impl Population {
    /// One generational step: sort the genomes by fitness descending,
    /// speciate the sorted list, carry the founder of each of the first
    /// retained species over unchanged (elitism), fill the rest of the
    /// budget by round-robin resampling and repeated point mutation
    /// within the retained species, reset every fitness to zero, and
    /// replace the collection. A species bound of zero is treated as
    /// one, and at most a budget's worth of founders is carried over.
    pub fn evolve(&mut self, rng: &mut RandomSource)
        requires
            old(self).members_wf(),
            old(self).spec_individuals().len() >= 1,
        ensures
            final(self).wf(),
            final(self).spec_max_size() == old(self).spec_max_size(),
            final(self).spec_max_species() == old(self).spec_max_species(),
            final(self).spec_individuals().len() == old(self).spec_max_size(),
            forall|i: int|
                0 <= i < final(self).spec_individuals().len()
                    ==> (#[trigger] final(self).spec_individuals()[i]).spec_fitness() == 0,
            forall|i: int|
                0 <= i < final(self).spec_individuals().len()
                    ==> (#[trigger] final(self).spec_individuals()[i]).spec_shape()
                    == old(self).spec_individuals()[0].spec_shape(),
            old(self).spec_max_size() >= 1 ==> exists|i: int|
                0 <= i < old(self).spec_individuals().len() && (forall|j: int|
                    0 <= j < old(self).spec_individuals().len()
                        ==> (#[trigger] old(self).spec_individuals()[j]).spec_fitness()
                        <= old(self).spec_individuals()[i].spec_fitness())
                    && final(self).spec_individuals()[0]@ == with_fitness(
                    old(self).spec_individuals()[i]@,
                    0,
                ),
            exists|sorted: Seq<Individual>| #[trigger] evolve_step(
                old(self).spec_individuals(),
                sorted,
                final(self).spec_individuals(),
                old(self).spec_max_species(),
                old(self).spec_max_size(),
            ),
    {
        let ghost orig = old(self).individuals@;
        let ghost shape0 = orig[0].spec_shape();

        let mut tmp: Vec<Individual> = Vec::new();
        core::mem::swap(&mut tmp, &mut self.individuals);
        let sorted = sort_by_fitness(tmp);
        self.individuals = sorted;
        proof {
            assert forall|i: int| 0 <= i < self.individuals@.len() implies (
            #[trigger] self.individuals@[i]).wf() && self.individuals@[i].spec_shape()
                == shape0 by {
                assert(orig.contains(self.individuals@[i]));
                let j = choose|j: int| 0 <= j < orig.len() && orig[j] == self.individuals@[i];
                assert(orig[j].wf() && orig[j].spec_shape() == shape0);
            }
            assert(self.members_wf());
        }
        let ghost sorted_seq = self.individuals@;

        let species = self.speciate();
        let ghost sp = spec_speciate(views(sorted_seq));
        proof {
            assert(species@.len() == species_views(species@).len());
            assert(species@.len() == sp.len());
        }

        let eff: usize = if self.max_species == 0 {
            1
        } else {
            self.max_species
        };
        let mut retained: usize = if species.len() < eff {
            species.len()
        } else {
            eff
        };
        let ms: usize = self.max_size;
        if retained > ms {
            retained = ms;
        }
        proof {
            assert(retained as int == retained_count(self.max_species, sp.len() as int, ms));
            assert(ms >= 1 ==> retained >= 1);
        }

        let mut new_inds: Vec<Individual> = Vec::new();
        let mut k: usize = 0;
        while k < retained
            invariant
                k <= retained,
                retained <= species@.len(),
                retained <= ms,
                sp == species_views(species@),
                new_inds@.len() == k,
                forall|t: int|
                    0 <= t < species@.len() ==> (#[trigger] species@[t])@.len() >= 1,
                forall|t: int, m: int|
                    0 <= t < species@.len() && 0 <= m < species@[t]@.len()
                        ==> (#[trigger] species@[t]@[m]).wf() && species@[t]@[m].spec_shape()
                        == shape0,
                forall|t: int|
                    0 <= t < k ==> (#[trigger] new_inds@[t]).wf() && new_inds@[t].spec_shape()
                        == shape0,
                forall|t: int| 0 <= t < k ==> (#[trigger] new_inds@[t])@ == sp[t][0],
            decreases retained - k,
        {
            let f = species[k][0].clone();
            proof {
                assert(sp[k as int] == views(species@[k as int]@));
                assert(sp[k as int][0] == species@[k as int]@[0]@);
            }
            new_inds.push(f);
            k += 1;
        }

        let mut i: usize = 0;
        while new_inds.len() < ms
            invariant
                retained <= species@.len(),
                retained <= ms,
                ms >= 1 ==> retained >= 1,
                sp == species_views(species@),
                retained <= new_inds@.len(),
                new_inds@.len() <= ms,
                i + retained == new_inds@.len(),
                forall|t: int|
                    0 <= t < species@.len() ==> (#[trigger] species@[t])@.len() >= 1,
                forall|t: int, m: int|
                    0 <= t < species@.len() && 0 <= m < species@[t]@.len()
                        ==> (#[trigger] species@[t]@[m]).wf() && species@[t]@[m].spec_shape()
                        == shape0,
                forall|t: int|
                    0 <= t < new_inds@.len() ==> (#[trigger] new_inds@[t]).wf()
                        && new_inds@[t].spec_shape() == shape0,
                forall|t: int| 0 <= t < retained ==> (#[trigger] new_inds@[t])@ == sp[t][0],
                forall|j: int|
                    retained <= j < new_inds@.len() ==> #[trigger] filled_from(
                        sp,
                        retained as int,
                        j,
                        new_inds@[j]@,
                    ),
            decreases ms - new_inds@.len(),
        {
            let si: usize = i % retained;
            let ghost j = new_inds@.len() as int;
            proof {
                assert(si as int == (j - retained) % (retained as int));
                assert(sp[si as int] == views(species@[si as int]@));
            }
            let sp_ref = &species[si];
            let a = rng.below(sp_ref.len());
            let b = rng.below(sp_ref.len());
            let pick: usize = if a < b {
                a
            } else {
                b
            };
            let mut child = sp_ref[pick].clone();
            let ghost parent_view = child@;
            proof {
                assert(parent_view == species@[si as int]@[pick as int]@);
                assert(parent_view == sp[si as int][pick as int]);
                assert(mutated_steps(parent_view, child@, 0));
            }
            let times = 1 + rng.below(19);
            let mut t: usize = 0;
            while t < times
                invariant
                    t <= times,
                    1 <= times <= 19,
                    child.wf(),
                    child.spec_shape() == shape0,
                    mutated_steps(parent_view, child@, t as int),
                decreases times - t,
            {
                let ghost before = child@;
                child.mutate(rng);
                proof {
                    let d = choose|d: i64|
                        -MUTATION_RANGE <= d <= MUTATION_RANGE && ind_mutated(before, child@, d);
                    lemma_mutated_steps_append(parent_view, before, child@, d, t as int);
                }
                t += 1;
            }
            let ghost before_push = new_inds@;
            new_inds.push(child);
            proof {
                assert(new_inds@[j]@ == child@);
                assert((pick as int) < sp[(j - retained) % (retained as int)].len());
                assert(1 <= times as int <= 19);
                assert(mutated_steps(
                    sp[(j - retained) % (retained as int)][pick as int],
                    new_inds@[j]@,
                    times as int,
                ));
                assert(filled_from(sp, retained as int, j, new_inds@[j]@));
                assert forall|jj: int|
                    retained <= jj < new_inds@.len() implies #[trigger] filled_from(
                    sp,
                    retained as int,
                    jj,
                    new_inds@[jj]@,
                ) by {
                    if jj < j {
                        assert(new_inds@[jj] == before_push[jj]);
                        assert(filled_from(sp, retained as int, jj, before_push[jj]@));
                    }
                }
            }
            i += 1;
        }

        let ghost pre = new_inds@;
        let mut k2: usize = 0;
        while k2 < new_inds.len()
            invariant
                k2 <= new_inds@.len(),
                new_inds@.len() == pre.len(),
                forall|t: int| k2 <= t < pre.len() ==> new_inds@[t] == pre[t],
                forall|t: int|
                    0 <= t < k2 ==> (#[trigger] new_inds@[t])@ == with_fitness(pre[t]@, 0)
                        && new_inds@[t].spec_fitness() == 0 && new_inds@[t].wf()
                        && new_inds@[t].spec_shape() == pre[t].spec_shape(),
                forall|t: int|
                    0 <= t < pre.len() ==> (#[trigger] pre[t]).wf() && pre[t].spec_shape()
                        == shape0,
            decreases new_inds@.len() - k2,
        {
            let x = &mut new_inds[k2];
            x.reset_fitness();
            k2 += 1;
        }

        self.individuals = new_inds;
        proof {
            let fin = self.individuals@;
            assert(fin.len() == ms);
            assert(self.wf());

            // The founders of the first retained species stand first,
            // fitness reset; every filled slot keeps its perturbation
            // chain after the reset, since only the fitness moved.
            assert forall|k: int| 0 <= k < retained implies (#[trigger] fin[k])@ == with_fitness(
                sp[k][0],
                0,
            ) by {
                assert(pre[k]@ == sp[k][0]);
            }
            assert forall|j: int|
                retained <= j < fin.len() implies #[trigger] filled_from(
                sp,
                retained as int,
                j,
                fin[j]@,
            ) by {
                assert(filled_from(sp, retained as int, j, pre[j]@));
                let (m, n): (int, int) = choose|m: int, n: int|
                    0 <= m < sp[(j - retained) % (retained as int)].len() && 1 <= n <= 19
                        && #[trigger] mutated_steps(
                        sp[(j - retained) % (retained as int)][m],
                        pre[j]@,
                        n,
                    );
                assert(fin[j]@ == with_fitness(pre[j]@, 0));
                assert(banks_equal(pre[j]@, fin[j]@));
                lemma_mutated_steps_retarget(
                    sp[(j - retained) % (retained as int)][m],
                    pre[j]@,
                    fin[j]@,
                    n,
                );
                assert(mutated_steps(sp[(j - retained) % (retained as int)][m], fin[j]@, n));
            }
            assert(sorted_seq.len() == orig.len());
            assert(sorted_seq.to_multiset() == orig.to_multiset());
            assert(sorted_desc(sorted_seq));
            assert(retained as int == retained_count(self.max_species, sp.len() as int, ms));
            assert(evolve_step(
                old(self).spec_individuals(),
                sorted_seq,
                self.spec_individuals(),
                old(self).spec_max_species(),
                old(self).spec_max_size(),
            ));

            // Elitism: the first founder is the head of the sorted list,
            // a genome of maximal pre-evolve fitness.
            if ms >= 1 {
                lemma_speciate_structure(views(sorted_seq), sorted_seq.len() as int);
                assert(sp[0][0] == views(sorted_seq)[0]);
                assert(sp[0][0] == sorted_seq[0]@);
                assert(orig.contains(sorted_seq[0]));
                let w = choose|w: int| 0 <= w < orig.len() && orig[w] == sorted_seq[0];
                assert(sorted_seq.to_multiset() == orig.to_multiset());
                assert forall|j: int| 0 <= j < orig.len() implies (
                #[trigger] orig[j]).spec_fitness() <= orig[w].spec_fitness() by {
                    assert(orig.contains(orig[j]));
                    assert(orig.to_multiset().count(orig[j]) > 0);
                    assert(sorted_seq.to_multiset().count(orig[j]) > 0);
                    assert(sorted_seq.contains(orig[j]));
                    let jr = choose|jr: int|
                        0 <= jr < sorted_seq.len() && sorted_seq[jr] == orig[j];
                    assert(sorted_seq[0].spec_fitness() >= sorted_seq[jr].spec_fitness());
                }
                assert(fin[0]@ == with_fitness(orig[w]@, 0));
            }
        }
    }
}

} // verus!
