use tsp::genotype::Genotype;

fn assert_is_permutation(data: &[usize], n: usize) {
    assert_eq!(n, data.len());
    let mut sorted = data.to_vec();
    sorted.sort();
    let expected: Vec<usize> = (0..n).collect();
    assert_eq!(expected, sorted);
}

#[test]
fn random_genotype_is_a_permutation() {
    let mut rng = rand::thread_rng();
    for n in [1, 2, 3, 8, 30] {
        let genotype = Genotype::random(n, &mut rng);
        assert_eq!(n, genotype.num_alleles());
        assert_is_permutation(genotype.data(), n);
    }
}

#[test]
fn allele_reads_single_positions() {
    let mut rng = rand::thread_rng();
    let genotype = Genotype::random(6, &mut rng);
    for pos in 0..6 {
        assert_eq!(genotype.data()[pos], genotype.allele(pos));
    }
}

#[test]
fn crossover_produces_a_permutation() {
    let mut rng = rand::thread_rng();
    for n in [1, 2, 3, 5, 12, 40] {
        for _ in 0..20 {
            let parent1 = Genotype::random(n, &mut rng);
            let parent2 = Genotype::random(n, &mut rng);
            let child = Genotype::edge_crossover(&parent1, &parent2, &mut rng);
            assert_is_permutation(child.data(), n);
        }
    }
}

#[test]
fn crossover_of_identical_parents_is_a_permutation() {
    let mut rng = rand::thread_rng();
    let parent1 = Genotype::random(9, &mut rng);
    let parent2 = Genotype::edge_crossover(&parent1, &parent1, &mut rng);
    let child = Genotype::edge_crossover(&parent1, &parent2, &mut rng);
    assert_is_permutation(child.data(), 9);
}

#[test]
fn inversion_with_equal_bounds_changes_nothing() {
    let mut rng = rand::thread_rng();
    let genotype = Genotype::random(8, &mut rng);
    let before = genotype.data().clone();
    let after = genotype.inversion_at(3, 3);
    assert_eq!(before, *after.data());
}

#[test]
fn inversion_reverses_the_closed_range() {
    let mut rng = rand::thread_rng();
    let genotype = Genotype::random(6, &mut rng);
    let before = genotype.data().clone();
    let after = genotype.inversion_at(1, 4);
    assert_eq!(before[0], after.data()[0]);
    assert_eq!(before[4], after.data()[1]);
    assert_eq!(before[3], after.data()[2]);
    assert_eq!(before[2], after.data()[3]);
    assert_eq!(before[1], after.data()[4]);
    assert_eq!(before[5], after.data()[5]);
}

#[test]
fn inversion_mutation_keeps_the_permutation() {
    let mut rng = rand::thread_rng();
    for _ in 0..20 {
        let genotype = Genotype::random(10, &mut rng);
        let mutated = genotype.inversion_mutation(&mut rng);
        assert_is_permutation(mutated.data(), 10);
    }
}

#[test]
fn swap_exchanges_two_alleles() {
    let mut rng = rand::thread_rng();
    let genotype = Genotype::random(5, &mut rng);
    let before = genotype.data().clone();
    let after = genotype.swap_at(0, 4);
    assert_eq!(before[4], after.data()[0]);
    assert_eq!(before[0], after.data()[4]);
    assert_eq!(before[1..4], after.data()[1..4]);
}

#[test]
fn swap_mutation_keeps_the_permutation() {
    let mut rng = rand::thread_rng();
    for _ in 0..20 {
        let genotype = Genotype::random(7, &mut rng);
        let mutated = genotype.swap_mutation(&mut rng);
        assert_is_permutation(mutated.data(), 7);
    }
}
