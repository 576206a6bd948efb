use vstd::prelude::*;
use crate::config::ConfigError;
use crate::genotype::{is_permutation, Genotype};
use crate::rng::{new_weighted_index, sample_index, sum_weights, weights_of, SelectionDist};
use crate::weighted_graph::{WeightedGraph, VERTEX_LIMIT, WEIGHT_LIMIT};

verus! {

/// After this many generations the run switches from swap mutation with
/// probabilistic replacement to inversion mutation with replace-worst.
pub const PHASE_THRESHOLD: usize = 5000;

/// A progress record is emitted every this many generations.
pub const PROGRESS_PERIOD: usize = 10;

/// The summed weight of the first `k` edges along the tour.
pub open spec fn path_length(g: WeightedGraph, tour: Seq<usize>, k: int) -> int
    decreases k,
{
    if k <= 0 {
        0
    } else {
        path_length(g, tour, k - 1) + g.weight(tour[k - 1] as int, tour[k] as int)
    }
}

/// The total cyclic length of the tour: all consecutive edges plus the
/// wrap-around edge from the last city back to the first.
pub open spec fn tour_length(g: WeightedGraph, tour: Seq<usize>) -> int {
    path_length(g, tour, tour.len() - 1) + (if tour.len() >= 1 {
        g.weight(tour[tour.len() - 1] as int, tour[0] as int) as int
    } else {
        0
    })
}

proof fn lemma_path_length_bound(g: WeightedGraph, tour: Seq<usize>, k: int)
    requires
        g.wf(),
        0 <= k,
    ensures
        0 <= path_length(g, tour, k) <= k * (WEIGHT_LIMIT as int),
    decreases k,
{
    if k > 0 {
        lemma_path_length_bound(g, tour, k - 1);
        assert(g.weight(tour[k - 1] as int, tour[k] as int) <= WEIGHT_LIMIT);
        assert((k - 1) * (WEIGHT_LIMIT as int) + WEIGHT_LIMIT == k * (WEIGHT_LIMIT as int))
            by (nonlinear_arith);
    }
}

/// Maps a tour over the weighted graph to its total cyclic length.
pub fn fitness(environ: &WeightedGraph, individual: &Vec<usize>) -> (r: u64)
    requires
        environ.wf(),
        individual@.len() == environ.vertices(),
        individual@.len() >= 1,
        forall|k: int| 0 <= k < individual@.len() ==> individual@[k] < environ.vertices(),
    ensures
        r as int == tour_length(*environ, individual@),
{
    let n = individual.len();
    let mut acc: u64 = 0;
    let mut i: usize = 1;
    while i < n
        invariant
            environ.wf(),
            individual@.len() == n as int,
            n as int == environ.vertices(),
            n >= 1,
            forall|k: int| 0 <= k < individual@.len() ==> individual@[k] < environ.vertices(),
            1 <= i <= n,
            acc as int == path_length(*environ, individual@, i - 1),
            acc <= (i - 1) * (WEIGHT_LIMIT as int),
        decreases n - i,
    {
        let w = environ.weight_between(individual[i - 1], individual[i]);
        proof {
            lemma_path_length_bound(*environ, individual@, i as int);
            assert((i as int) * (WEIGHT_LIMIT as int) <= (VERTEX_LIMIT as int) * (
            WEIGHT_LIMIT as int)) by (nonlinear_arith)
                requires
                    0 <= i as int <= VERTEX_LIMIT as int,
            ;
        }
        acc = acc + w;
        i += 1;
    }
    proof {
        lemma_path_length_bound(*environ, individual@, n - 1 as int);
        assert((n - 1) * (WEIGHT_LIMIT as int) <= (VERTEX_LIMIT as int) * (WEIGHT_LIMIT as int))
            by (nonlinear_arith)
            requires
                0 <= n - 1 <= VERTEX_LIMIT as int,
        ;
    }
    // The edge from the last city back to the start closes the tour.
    let wrap = environ.weight_between(individual[n - 1], individual[0]);
    acc + wrap
}

/// Linear-ranking selection weights with selective pressure two: the
/// probability of drawing rank `r` out of `pop_size` is proportional to
/// `r`, so the integer weights are the ranks themselves.  `descending`
/// lists them largest first, which hands the best (first) population index
/// the largest weight; ascending is the mirror image used to pick victims.
pub fn rank_weights(pop_size: usize, descending: bool) -> (w: Vec<u64>)
    ensures
        w@.len() == pop_size,
        descending ==> forall|i: int| 0 <= i < pop_size ==> w@[i] == (pop_size - 1 - i) as u64,
        !descending ==> forall|i: int| 0 <= i < pop_size ==> w@[i] == i as u64,
{
    let mut w: Vec<u64> = Vec::new();
    let mut i: usize = 0;
    while i < pop_size
        invariant
            i <= pop_size,
            w@.len() == i as int,
            descending ==> forall|k: int| 0 <= k < i ==> w@[k] == (pop_size - 1 - k) as u64,
            !descending ==> forall|k: int| 0 <= k < i ==> w@[k] == k as u64,
        decreases pop_size - i,
    {
        if descending {
            w.push((pop_size - 1 - i) as u64);
        } else {
            w.push(i as u64);
        }
        i += 1;
    }
    w
}

proof fn lemma_sum_weights_bound(s: Seq<u64>, m: u64)
    requires
        forall|i: int| 0 <= i < s.len() ==> s[i] <= m,
    ensures
        0 <= sum_weights(s) <= s.len() * m,
    decreases s.len(),
{
    if s.len() > 0 {
        lemma_sum_weights_bound(s.drop_last(), m);
        assert((s.len() - 1) * m + m == s.len() * m) by (nonlinear_arith);
    }
}

proof fn lemma_sum_weights_element(s: Seq<u64>, i: int)
    requires
        0 <= i < s.len(),
        forall|k: int| 0 <= k < s.len() ==> s[k] >= 0,
    ensures
        sum_weights(s) >= s[i],
    decreases s.len(),
{
    lemma_sum_weights_bound(s.drop_last(), u64::MAX);
    if i == s.len() - 1 {
    } else {
        lemma_sum_weights_element(s.drop_last(), i);
    }
}

/// Builds a rank-based sampling distribution over the population indices.
/// Descending weights favour the best (first) individuals, for parent
/// selection; ascending weights favour the worst, for survivor selection.
pub fn selection_distribution(pop_size: usize, descending: bool) -> (d: SelectionDist)
    requires
        2 <= pop_size <= VERTEX_LIMIT,
    ensures
        weights_of(d).len() == pop_size,
        descending ==> forall|i: int|
            0 <= i < pop_size ==> weights_of(d)[i] == (pop_size - 1 - i) as u64,
        !descending ==> forall|i: int| 0 <= i < pop_size ==> weights_of(d)[i] == i as u64,
{
    let weights = rank_weights(pop_size, descending);
    proof {
        lemma_sum_weights_bound(weights@, (pop_size - 1) as u64);
        assert((pop_size as int) * ((pop_size - 1) as int) < 0xFFFF_FFFF_FFFF_FFFF)
            by (nonlinear_arith)
            requires
                2 <= pop_size as int <= 0xFFFF_FFFF,
        ;
        if descending {
            lemma_sum_weights_element(weights@, 0);
        } else {
            lemma_sum_weights_element(weights@, pop_size - 1 as int);
        }
    }
    new_weighted_index(&weights)
}

/// The population is ordered by fitness, best (shortest tour) first.
pub open spec fn sorted_by_fitness(s: Seq<(Genotype, u64)>) -> bool {
    forall|i: int, j: int| 0 <= i <= j < s.len() ==> (#[trigger] s[i]).1 <= (#[trigger] s[j]).1
}

/// How many individuals have strictly better (smaller) fitness than `f`.
pub open spec fn count_below(s: Seq<(Genotype, u64)>, f: u64) -> int
    decreases s.len(),
{
    if s.len() == 0 {
        0
    } else {
        count_below(s.drop_last(), f) + (if s.last().1 < f {
            1int
        } else {
            0int
        })
    }
}

proof fn lemma_count_below_bounds(s: Seq<(Genotype, u64)>, f: u64)
    ensures
        0 <= count_below(s, f) <= s.len(),
    decreases s.len(),
{
    if s.len() > 0 {
        lemma_count_below_bounds(s.drop_last(), f);
    }
}

/// In a sorted population the individuals better than `f` form exactly the
/// prefix of length `count_below`.
proof fn lemma_count_below_sorted(s: Seq<(Genotype, u64)>, f: u64)
    requires
        sorted_by_fitness(s),
    ensures
        0 <= count_below(s, f) <= s.len(),
        forall|i: int| 0 <= i < count_below(s, f) ==> (#[trigger] s[i]).1 < f,
        forall|i: int| count_below(s, f) <= i < s.len() ==> (#[trigger] s[i]).1 >= f,
    decreases s.len(),
{
    lemma_count_below_bounds(s, f);
    if s.len() > 0 {
        let t = s.drop_last();
        assert(sorted_by_fitness(t)) by {
            assert forall|i: int, j: int| 0 <= i <= j < t.len() implies (#[trigger] t[i]).1 <= (
            #[trigger] t[j]).1 by {
                assert(s[i].1 <= s[j].1);
            }
        }
        lemma_count_below_sorted(t, f);
        let c = count_below(s, f);
        let ct = count_below(t, f);
        if s.last().1 < f {
            assert forall|i: int| 0 <= i < t.len() implies (#[trigger] t[i]).1 < f by {
                assert(s[i].1 <= s[s.len() - 1].1);
            }
            if ct < t.len() {
                assert(t[ct].1 >= f);
                assert(false);
            }
            assert(c == s.len());
        } else {
            assert forall|i: int| 0 <= i < c implies (#[trigger] s[i]).1 < f by {
                assert(t[i] == s[i]);
            }
            assert forall|i: int| c <= i < s.len() implies (#[trigger] s[i]).1 >= f by {
                if i < s.len() - 1 {
                    assert(t[i] == s[i]);
                }
            }
        }
    }
}

/// Inserting at the counted position keeps the population sorted.
proof fn lemma_insert_keeps_sorted(s: Seq<(Genotype, u64)>, item: (Genotype, u64))
    requires
        sorted_by_fitness(s),
    ensures
        sorted_by_fitness(s.insert(count_below(s, item.1), item)),
{
    let c = count_below(s, item.1);
    lemma_count_below_sorted(s, item.1);
    s.insert_ensures(c, item);
    let t = s.insert(c, item);
    assert forall|i: int, j: int| 0 <= i <= j < t.len() implies (#[trigger] t[i]).1 <= (
    #[trigger] t[j]).1 by {
        if i < c {
            assert(t[i] == s[i]);
        } else if i == c {
            assert(t[i] == item);
        } else {
            assert(t[i] == s[i - 1]);
        }
        if j < c {
            assert(t[j] == s[j]);
        } else if j == c {
            assert(t[j] == item);
        } else {
            assert(t[j] == s[j - 1]);
        }
    }
}

/// Removing any individual keeps the population sorted.
proof fn lemma_remove_keeps_sorted(s: Seq<(Genotype, u64)>, at: int)
    requires
        sorted_by_fitness(s),
        0 <= at < s.len(),
    ensures
        sorted_by_fitness(s.remove(at)),
{
    s.remove_ensures(at);
    let t = s.remove(at);
    assert forall|i: int, j: int| 0 <= i <= j < t.len() implies (#[trigger] t[i]).1 <= (
    #[trigger] t[j]).1 by {
        let si = if i < at {
            i
        } else {
            i + 1
        };
        let sj = if j < at {
            j
        } else {
            j + 1
        };
        assert(t[i] == s[si]);
        assert(t[j] == s[sj]);
    }
}

/// Inserting the child into a non-empty sorted remainder never worsens the
/// best slot: the head stays, or the child lands in front of it because it
/// is at least as good.
proof fn lemma_insert_keeps_best(rest: Seq<(Genotype, u64)>, item: (Genotype, u64))
    requires
        sorted_by_fitness(rest),
        rest.len() >= 1,
    ensures
        rest.insert(count_below(rest, item.1), item)[0].1 <= rest[0].1,
{
    let c = count_below(rest, item.1);
    lemma_count_below_sorted(rest, item.1);
    rest.insert_ensures(c, item);
    if c == 0 {
        assert(rest[0].1 >= item.1);
    }
}

/// Inserts the child at the first position that keeps the list ordered:
/// the number of individuals strictly better than it.
fn insert_by_fitness(pop_and_fitness: &mut Vec<(Genotype, u64)>, child: (Genotype, u64))
    ensures
        final(pop_and_fitness)@ == old(pop_and_fitness)@.insert(
            count_below(old(pop_and_fitness)@, child.1),
            child,
        ),
        final(pop_and_fitness)@.len() == old(pop_and_fitness)@.len() + 1,
{
    let ghost orig = pop_and_fitness@;
    let mut idx: usize = 0;
    let mut i: usize = 0;
    while i < pop_and_fitness.len()
        invariant
            pop_and_fitness@ == orig,
            i <= orig.len(),
            idx as int == count_below(orig.take(i as int), child.1),
            idx <= i,
        decreases orig.len() - i,
    {
        proof {
            assert(orig.take(i + 1).drop_last() =~= orig.take(i as int));
            assert(orig.take(i + 1).last() == orig[i as int]);
            lemma_count_below_bounds(orig.take(i as int), child.1);
        }
        if child.1 > pop_and_fitness[i].1 {
            idx += 1;
        }
        i += 1;
    }
    proof {
        assert(orig.take(orig.len() as int) =~= orig);
        lemma_count_below_bounds(orig, child.1);
    }
    pop_and_fitness.insert(idx, child);
}

/// Steady-state replacement, late phase: the current worst individual is
/// dropped unconditionally and the child is inserted at its sorted
/// position among the rest — it is kept even when it is worse than the
/// individual it displaced, so the worst slot's quality can degrade.
pub fn replace_worst(pop_and_fitness: &mut Vec<(Genotype, u64)>, child: (Genotype, u64))
    requires
        old(pop_and_fitness)@.len() >= 1,
    ensures
        final(pop_and_fitness)@ == old(pop_and_fitness)@.drop_last().insert(
            count_below(old(pop_and_fitness)@.drop_last(), child.1),
            child,
        ),
        final(pop_and_fitness)@.len() == old(pop_and_fitness)@.len(),
        sorted_by_fitness(old(pop_and_fitness)@) ==> sorted_by_fitness(final(pop_and_fitness)@),
{
    let ghost orig = pop_and_fitness@;
    let _ = pop_and_fitness.pop();
    insert_by_fitness(pop_and_fitness, child);
    proof {
        lemma_count_below_bounds(orig.drop_last(), child.1);
        if sorted_by_fitness(orig) {
            assert(sorted_by_fitness(orig.drop_last())) by {
                assert forall|i: int, j: int|
                    0 <= i <= j < orig.drop_last().len() implies (
                #[trigger] orig.drop_last()[i]).1 <= (#[trigger] orig.drop_last()[j]).1 by {
                    assert(orig[i].1 <= orig[j].1);
                }
            }
            lemma_insert_keeps_sorted(orig.drop_last(), child);
        }
    }
}

/// Steady-state replacement, early phase: one victim is drawn from the
/// survivor distribution (weighted towards poor performers), removed, and
/// the child is inserted at the position that keeps the list ordered.
/// Only an index with a positive selection weight can be evicted.
pub fn replace_with_probability(
    pop_and_fitness: &mut Vec<(Genotype, u64)>,
    child: (Genotype, u64),
    selection_dist: &SelectionDist,
    rng: &mut rand::rngs::ThreadRng,
)
    requires
        weights_of(*selection_dist).len() == old(pop_and_fitness)@.len(),
    ensures
        final(pop_and_fitness)@.len() == old(pop_and_fitness)@.len(),
        exists|j: int|
            0 <= j < old(pop_and_fitness)@.len() && weights_of(*selection_dist)[j] > 0
                && final(pop_and_fitness)@ == (#[trigger] old(pop_and_fitness)@.remove(j)).insert(
                count_below(old(pop_and_fitness)@.remove(j), child.1),
                child,
            ),
        sorted_by_fitness(old(pop_and_fitness)@) ==> sorted_by_fitness(final(pop_and_fitness)@),
{
    let ghost orig = pop_and_fitness@;
    let victim = sample_index(selection_dist, rng);
    pop_and_fitness.remove(victim);
    insert_by_fitness(pop_and_fitness, child);
    proof {
        assert(final(pop_and_fitness)@ == (orig.remove(victim as int)).insert(
            count_below(orig.remove(victim as int), child.1),
            child,
        ));
        if sorted_by_fitness(orig) {
            lemma_remove_keeps_sorted(orig, victim as int);
            lemma_insert_keeps_sorted(orig.remove(victim as int), child);
        }
    }
}

/// Every individual of a population is a tour of the graph's size, paired
/// with exactly its tour length.
pub open spec fn population_ok(s: Seq<(Genotype, u64)>, g: WeightedGraph) -> bool {
    forall|i: int|
        0 <= i < s.len() ==> (#[trigger] s[i]).0@.len() == g.vertices() && s[i].1 as int
            == tour_length(g, s[i].0@)
}

/// Builds the initial population: `pop_size` random tours, evaluated and
/// ordered by fitness.
pub fn initial_population(
    pop_size: usize,
    num_alleles: usize,
    graph: &WeightedGraph,
    rng: &mut rand::rngs::ThreadRng,
) -> (pop: Vec<(Genotype, u64)>)
    requires
        graph.wf(),
        num_alleles as int == graph.vertices(),
        num_alleles >= 1,
        pop_size >= 2,
    ensures
        pop@.len() == pop_size,
        sorted_by_fitness(pop@),
        population_ok(pop@, *graph),
{
    let mut pop: Vec<(Genotype, u64)> = Vec::new();
    let mut i: usize = 0;
    while i < pop_size
        invariant
            graph.wf(),
            num_alleles as int == graph.vertices(),
            num_alleles >= 1,
            i <= pop_size,
            pop@.len() == i as int,
            sorted_by_fitness(pop@),
            population_ok(pop@, *graph),
        decreases pop_size - i,
    {
        let genotype = Genotype::random(num_alleles, rng);
        let fit = fitness(graph, genotype.data());
        let ghost pre = pop@;
        let ghost item = (genotype, fit);
        proof {
            lemma_insert_keeps_sorted(pre, item);
            lemma_count_below_bounds(pre, fit);
            pre.insert_ensures(count_below(pre, fit), item);
        }
        insert_by_fitness(&mut pop, (genotype, fit));
        proof {
            let c = count_below(pre, fit);
            assert forall|k: int|
                0 <= k < pop@.len() implies (#[trigger] pop@[k]).0@.len() == graph.vertices()
                && pop@[k].1 as int == tour_length(*graph, pop@[k].0@) by {
                if k < c {
                    assert(pop@[k] == pre[k]);
                } else if k == c {
                    assert(pop@[k] == item);
                } else {
                    assert(pop@[k] == pre[k - 1]);
                }
            }
        }
        i += 1;
    }
    pop
}

/// What a finished run hands back: the best tour found, its length, and
/// the periodic progress records (generation number, best fitness then).
pub struct RunOutcome {
    pub best: Genotype,
    pub best_fitness: u64,
    pub progress: Vec<(usize, u64)>,
}

/// Runs the evolutionary loop: each generation draws two parents by rank,
/// crosses them, mutates the child and replaces one individual, keeping
/// the population sorted by fitness throughout.  Configuration errors are
/// reported as typed values; a run needs a population of at least two, at
/// least one generation, and at least two cities.
pub fn run(
    pop_size: usize,
    num_evals: usize,
    graph: &WeightedGraph,
    rng: &mut rand::rngs::ThreadRng,
) -> (r: Result<RunOutcome, ConfigError>)
    requires
        graph.wf(),
        pop_size <= VERTEX_LIMIT,
    ensures
        match r {
            Ok(out) => pop_size > 1 && num_evals > 0 && graph.vertices() >= 2 && out.best@.len()
                == graph.vertices() && is_permutation(out.best@) && out.best_fitness as int
                == tour_length(*graph, out.best@) && out.progress@.len() == num_evals as int
                / PROGRESS_PERIOD as int && (forall|k: int|
                0 <= k < out.progress@.len() ==> (#[trigger] out.progress@[k]).0 == PROGRESS_PERIOD
                    * (k + 1)) && (forall|k1: int, k2: int|
                0 <= k1 <= k2 < out.progress@.len() ==> (#[trigger] out.progress@[k1]).1 >= (
                #[trigger] out.progress@[k2]).1) && (forall|k: int|
                0 <= k < out.progress@.len() ==> out.best_fitness <= (
                #[trigger] out.progress@[k]).1),
            Err(e) => (pop_size <= 1 || num_evals == 0 || graph.vertices() < 2) && e == (
            if pop_size <= 1 {
                ConfigError::PopSizeTooSmall
            } else if num_evals == 0 {
                ConfigError::NoEvaluations
            } else {
                ConfigError::TooFewCities
            }),
        },
{
    if pop_size <= 1 {
        return Err(ConfigError::PopSizeTooSmall);
    }
    if num_evals == 0 {
        return Err(ConfigError::NoEvaluations);
    }
    let num_alleles = graph.num_vertices();
    if num_alleles < 2 {
        return Err(ConfigError::TooFewCities);
    }
    let mut pop_and_fitness = initial_population(pop_size, num_alleles, graph, rng);
    let parent_selection_dist = selection_distribution(pop_size, true);
    let survivor_selection_dist = selection_distribution(pop_size, false);
    let mut progress: Vec<(usize, u64)> = Vec::new();
    let mut gen: usize = 0;
    while gen < num_evals
        invariant
            graph.wf(),
            num_alleles as int == graph.vertices(),
            2 <= num_alleles,
            2 <= pop_size <= VERTEX_LIMIT,
            0 <= gen <= num_evals,
            pop_and_fitness@.len() == pop_size,
            sorted_by_fitness(pop_and_fitness@),
            population_ok(pop_and_fitness@, *graph),
            weights_of(parent_selection_dist).len() == pop_size,
            weights_of(survivor_selection_dist).len() == pop_size,
            forall|i: int|
                0 <= i < pop_size ==> weights_of(survivor_selection_dist)[i] == i as u64,
            progress@.len() == gen as int / PROGRESS_PERIOD as int,
            forall|k: int|
                0 <= k < progress@.len() ==> (#[trigger] progress@[k]).0 == PROGRESS_PERIOD * (k
                    + 1),
            forall|k1: int, k2: int|
                0 <= k1 <= k2 < progress@.len() ==> (#[trigger] progress@[k1]).1 >= (
                #[trigger] progress@[k2]).1,
            forall|k: int|
                0 <= k < progress@.len() ==> pop_and_fitness@[0].1 <= (
                #[trigger] progress@[k]).1,
        decreases num_evals - gen,
    {
        gen += 1;
        let i1 = sample_index(&parent_selection_dist, rng);
        let i2 = sample_index(&parent_selection_dist, rng);
        let child = Genotype::edge_crossover(&pop_and_fitness[i1].0, &pop_and_fitness[i2].0, rng);
        if gen > PHASE_THRESHOLD {
            let child = child.inversion_mutation(rng);
            let child_fitness = fitness(graph, child.data());
            let ghost pre = pop_and_fitness@;
            let ghost item = (child, child_fitness);
            replace_worst(&mut pop_and_fitness, (child, child_fitness));
            proof {
                let rest = pre.drop_last();
                let c = count_below(rest, child_fitness);
                lemma_count_below_bounds(rest, child_fitness);
                rest.insert_ensures(c, item);
                assert(sorted_by_fitness(rest)) by {
                    assert forall|a: int, b: int|
                        0 <= a <= b < rest.len() implies (#[trigger] rest[a]).1 <= (
                    #[trigger] rest[b]).1 by {
                        assert(pre[a].1 <= pre[b].1);
                    }
                }
                lemma_insert_keeps_best(rest, item);
                assert(pop_and_fitness@[0].1 <= pre[0].1);
                assert forall|k: int|
                    0 <= k < pop_and_fitness@.len() implies (#[trigger] pop_and_fitness@[k]).0@.len()
                    == graph.vertices() && pop_and_fitness@[k].1 as int == tour_length(
                    *graph,
                    pop_and_fitness@[k].0@,
                ) by {
                    let t = rest.insert(c, item);
                    assert(pop_and_fitness@[k] == t[k]);
                    if k < c {
                        assert(t[k] == rest[k] && rest[k] == pre[k]);
                    } else if k == c {
                        assert(t[k] == item);
                    } else {
                        assert(t[k] == rest[k - 1] && rest[k - 1] == pre[k - 1]);
                    }
                }
            }
        } else {
            let child = child.swap_mutation(rng);
            let child_fitness = fitness(graph, child.data());
            let ghost pre = pop_and_fitness@;
            let ghost item = (child, child_fitness);
            replace_with_probability(
                &mut pop_and_fitness,
                (child, child_fitness),
                &survivor_selection_dist,
                rng,
            );
            proof {
                let j = choose|j: int|
                    0 <= j < pre.len() && weights_of(survivor_selection_dist)[j] > 0
                        && pop_and_fitness@ == (#[trigger] pre.remove(j)).insert(
                        count_below(pre.remove(j), child_fitness),
                        item,
                    );
                let rest = pre.remove(j);
                pre.remove_ensures(j);
                let c = count_below(rest, child_fitness);
                lemma_count_below_bounds(rest, child_fitness);
                rest.insert_ensures(c, item);
                // The best individual has survivor weight zero, so it is
                // never the victim and the best slot cannot worsen.
                assert(weights_of(survivor_selection_dist)[j] == j as u64);
                assert(j >= 1);
                assert(rest[0] == pre[0]);
                lemma_remove_keeps_sorted(pre, j);
                lemma_insert_keeps_best(rest, item);
                assert(pop_and_fitness@[0].1 <= pre[0].1);
                assert forall|k: int|
                    0 <= k < pop_and_fitness@.len() implies (#[trigger] pop_and_fitness@[k]).0@.len()
                    == graph.vertices() && pop_and_fitness@[k].1 as int == tour_length(
                    *graph,
                    pop_and_fitness@[k].0@,
                ) by {
                    let t = rest.insert(c, item);
                    assert(pop_and_fitness@[k] == t[k]);
                    if k < c {
                        assert(t[k] == rest[k]);
                    } else if k == c {
                        assert(t[k] == item);
                    } else {
                        assert(t[k] == rest[k - 1]);
                    }
                }
            }
        }
        if gen % PROGRESS_PERIOD == 0 {
            let best_now = pop_and_fitness[0].1;
            let ghost prog_pre = progress@;
            progress.push((gen, best_now));
            proof {
                assert(gen as int == PROGRESS_PERIOD * ((gen as int) / (PROGRESS_PERIOD as int)));
                assert(progress@.len() == gen as int / PROGRESS_PERIOD as int);
                assert forall|k1: int, k2: int|
                    0 <= k1 <= k2 < progress@.len() implies (#[trigger] progress@[k1]).1 >= (
                #[trigger] progress@[k2]).1 by {
                    if k2 < prog_pre.len() {
                        assert(progress@[k1] == prog_pre[k1] && progress@[k2] == prog_pre[k2]);
                    } else {
                        assert(progress@[k2].1 == best_now);
                        if k1 < prog_pre.len() {
                            assert(progress@[k1] == prog_pre[k1]);
                            assert(pop_and_fitness@[0].1 <= prog_pre[k1].1);
                        }
                    }
                }
                assert forall|k: int|
                    0 <= k < progress@.len() implies pop_and_fitness@[0].1 <= (
                #[trigger] progress@[k]).1 by {
                    if k < prog_pre.len() {
                        assert(progress@[k] == prog_pre[k]);
                    } else {
                        assert(progress@[k].1 == best_now);
                    }
                }
            }
        } else {
            proof {
                assert(gen as int / PROGRESS_PERIOD as int == (gen - 1) as int
                    / PROGRESS_PERIOD as int);
            }
        }
    }
    let (best, best_fitness) = pop_and_fitness.swap_remove(0);
    proof {
        use_type_invariant(&best);
    }
    Ok(RunOutcome { best, best_fitness, progress })
}

} // verus!
