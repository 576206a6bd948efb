use tsp::config::ConfigError;
use tsp::evolution::{
    fitness, initial_population, rank_weights, replace_with_probability, replace_worst, run,
    selection_distribution,
};
use tsp::genotype::Genotype;
use tsp::weighted_graph::WeightedGraph;

fn assert_sorted(pop: &Vec<(Genotype, u64)>) {
    for i in 1..pop.len() {
        assert!(pop[i - 1].1 <= pop[i].1);
    }
}

#[test]
fn fitness_is_computed_correctly() {
    let genotype = vec![0, 1, 2];
    let point_vec = vec![(0, 0), (3, 4), (6, 8)];
    let graph = WeightedGraph::from_points(point_vec);

    assert_eq!(20, fitness(&graph, &genotype));
}

#[test]
fn fitness_counts_the_wrap_around_edge() {
    let graph = WeightedGraph::from_weights(2, vec![0, 7, 7, 0]).unwrap();
    assert_eq!(14, fitness(&graph, &vec![0, 1]));
}

#[test]
fn rank_weights_follow_linear_ranking() {
    assert_eq!(vec![3, 2, 1, 0], rank_weights(4, true));
    assert_eq!(vec![0, 1, 2, 3], rank_weights(4, false));
}

#[test]
fn initial_population_is_sorted_and_sized() {
    let mut rng = rand::thread_rng();
    let points = vec![(0, 0), (10, 0), (10, 10), (0, 10), (5, 5)];
    let graph = WeightedGraph::from_points(points);
    let pop = initial_population(8, 5, &graph, &mut rng);
    assert_eq!(8, pop.len());
    assert_sorted(&pop);
    for (genotype, fit) in &pop {
        assert_eq!(5, genotype.num_alleles());
        assert_eq!(*fit, fitness(&graph, genotype.data()));
    }
}

#[test]
fn replace_worst_keeps_population_sorted() {
    let mut rng = rand::thread_rng();
    let points = vec![(0, 0), (10, 0), (10, 10), (0, 10)];
    let graph = WeightedGraph::from_points(points);
    let mut pop = initial_population(6, 4, &graph, &mut rng);
    for _ in 0..20 {
        let child = Genotype::random(4, &mut rng);
        let child_fitness = fitness(&graph, child.data());
        replace_worst(&mut pop, (child, child_fitness));
        assert_eq!(6, pop.len());
        assert_sorted(&pop);
    }
}

fn tour_of_three() -> Genotype {
    Genotype::random(3, &mut rand::thread_rng())
}

#[test]
fn replace_worst_drops_the_worst_and_keeps_the_child() {
    // A child worse than everyone still enters: the old worst leaves.
    let mut pop = vec![(tour_of_three(), 10), (tour_of_three(), 20), (tour_of_three(), 30)];
    replace_worst(&mut pop, (tour_of_three(), 99));
    let fitnesses: Vec<u64> = pop.iter().map(|p| p.1).collect();
    assert_eq!(vec![10, 20, 99], fitnesses);
    // A middling child lands at its sorted position.
    let mut pop = vec![(tour_of_three(), 10), (tour_of_three(), 20), (tour_of_three(), 30)];
    replace_worst(&mut pop, (tour_of_three(), 15));
    let fitnesses: Vec<u64> = pop.iter().map(|p| p.1).collect();
    assert_eq!(vec![10, 15, 20], fitnesses);
}

#[test]
fn replace_with_probability_keeps_population_sorted() {
    let mut rng = rand::thread_rng();
    let points = vec![(0, 0), (10, 0), (10, 10), (0, 10)];
    let graph = WeightedGraph::from_points(points);
    let mut pop = initial_population(6, 4, &graph, &mut rng);
    let survivor_dist = selection_distribution(6, false);
    for _ in 0..20 {
        let child = Genotype::random(4, &mut rng);
        let child_fitness = fitness(&graph, child.data());
        replace_with_probability(&mut pop, (child, child_fitness), &survivor_dist, &mut rng);
        assert_eq!(6, pop.len());
        assert_sorted(&pop);
    }
}

#[test]
fn run_returns_best_tour_and_progress() {
    let mut rng = rand::thread_rng();
    let points = vec![(0, 0), (100, 0), (100, 100), (0, 100), (50, 50), (25, 75)];
    let graph = WeightedGraph::from_points(points);
    let outcome = run(6, 35, &graph, &mut rng).unwrap();
    assert_eq!(3, outcome.progress.len());
    assert_eq!(10, outcome.progress[0].0);
    assert_eq!(20, outcome.progress[1].0);
    assert_eq!(30, outcome.progress[2].0);
    // The reported best never worsens, and the final best caps them all.
    assert!(outcome.progress[0].1 >= outcome.progress[1].1);
    assert!(outcome.progress[1].1 >= outcome.progress[2].1);
    assert!(outcome.best_fitness <= outcome.progress[2].1);
    let mut tour = outcome.best.data().clone();
    assert_eq!(outcome.best_fitness, fitness(&graph, outcome.best.data()));
    tour.sort();
    assert_eq!(vec![0, 1, 2, 3, 4, 5], tour);
}

#[test]
fn run_rejects_bad_configuration() {
    let mut rng = rand::thread_rng();
    let points = vec![(0, 0), (1, 0), (0, 1)];
    let graph = WeightedGraph::from_points(points);
    assert!(matches!(run(1, 10, &graph, &mut rng), Err(ConfigError::PopSizeTooSmall)));
    assert!(matches!(run(5, 0, &graph, &mut rng), Err(ConfigError::NoEvaluations)));
    let tiny = WeightedGraph::from_points(vec![(0, 0)]);
    assert!(matches!(run(5, 10, &tiny, &mut rng), Err(ConfigError::TooFewCities)));
}
