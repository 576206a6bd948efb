use tsp::genotype::utils::{construct_edge_table, remove_edge, select_random, try_select_adjacent};

#[test]
fn edge_table_is_correctly_constructed() {
    // All edges in permutations of size three are adjacent to each other.
    let parent1 = vec![0, 1, 2];
    let parent2 = vec![2, 1, 0];

    let edge_table = construct_edge_table(&parent1, &parent2);

    assert_eq!(2, edge_table.row_len(0));
    assert_eq!(2, edge_table.multiplicity(0, 1));
    assert_eq!(2, edge_table.multiplicity(0, 2));

    // Here, 0 is adjacent to all four other vertices, once each.
    let parent1 = vec![0, 1, 2, 3, 4];
    let parent2 = vec![0, 2, 4, 1, 3];

    let edge_table = construct_edge_table(&parent1, &parent2);
    assert_eq!(4, edge_table.row_len(0));
    assert_eq!(1, edge_table.multiplicity(0, 1));
    assert_eq!(1, edge_table.multiplicity(0, 2));
    assert_eq!(1, edge_table.multiplicity(0, 3));
    assert_eq!(1, edge_table.multiplicity(0, 4));
}

#[test]
fn removing_a_vertex_strips_it_from_every_list() {
    let parent1 = vec![0, 1, 2, 3];
    let parent2 = vec![0, 1, 3, 2];
    let mut edge_table = construct_edge_table(&parent1, &parent2);

    assert!(edge_table.multiplicity(0, 1) > 0);
    assert!(edge_table.multiplicity(2, 1) > 0);
    assert_eq!(3, edge_table.row_len(0));
    remove_edge(&mut edge_table, 1);
    assert_eq!(0, edge_table.multiplicity(0, 1));
    assert_eq!(0, edge_table.multiplicity(2, 1));
    assert_eq!(0, edge_table.multiplicity(3, 1));
    // The adjacency lists shrink by exactly the removed neighbour.
    assert_eq!(2, edge_table.row_len(0));
    // Vertex 1 itself can still be consulted for its own neighbours.
    assert!(edge_table.row_len(1) > 0);
}

#[test]
fn removing_a_vertex_twice_changes_nothing_more() {
    let parent1 = vec![0, 1, 2, 3];
    let parent2 = vec![0, 1, 3, 2];
    let mut edge_table = construct_edge_table(&parent1, &parent2);
    remove_edge(&mut edge_table, 1);
    let lens: Vec<usize> = (0..4).map(|v| edge_table.row_len(v)).collect();
    let mut mults: Vec<usize> = Vec::new();
    for v in 0..4 {
        for u in 0..4 {
            mults.push(edge_table.multiplicity(v, u));
        }
    }
    remove_edge(&mut edge_table, 1);
    for v in 0..4 {
        assert_eq!(lens[v], edge_table.row_len(v));
        for u in 0..4 {
            assert_eq!(mults[v * 4 + u], edge_table.multiplicity(v, u));
        }
        assert_eq!(0, edge_table.multiplicity(v, 1));
    }
}

#[test]
fn common_edges_are_preferred() {
    let mut rng = rand::thread_rng();
    // In a three-cycle every edge is common to both parents.
    let parent1 = vec![0, 1, 2];
    let parent2 = vec![2, 1, 0];
    let edge_table = construct_edge_table(&parent1, &parent2);

    let picked = try_select_adjacent(&edge_table, 0, &mut rng).unwrap();
    assert_eq!(2, edge_table.multiplicity(0, picked));
}

#[test]
fn empty_lists_yield_no_adjacent_vertex() {
    let mut rng = rand::thread_rng();
    let parent1 = vec![0, 1];
    let parent2 = vec![0, 1];
    let mut edge_table = construct_edge_table(&parent1, &parent2);
    remove_edge(&mut edge_table, 0);
    remove_edge(&mut edge_table, 1);
    assert_eq!(None, try_select_adjacent(&edge_table, 0, &mut rng));
}

#[test]
fn select_random_returns_a_candidate() {
    let mut rng = rand::thread_rng();
    let candidates = vec![5];
    assert_eq!(5, select_random(&candidates, &mut rng));
    let candidates = vec![2, 9, 4];
    let picked = select_random(&candidates, &mut rng);
    assert!(candidates.contains(&picked));
}
