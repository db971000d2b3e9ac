use markov::sample::{choose_from_top, top_count, top_indices};
use markov::WeightedGraph;

#[test]
fn from_vertices_is_zero() {
    let g = WeightedGraph::from_vertices(&['a', 'b']);
    assert_eq!(g.n_vertices(), 2);
    assert_eq!(g.get_vertices(), vec!['a', 'b']);
    assert_eq!(g.get_all_weights(), &vec![0u64; 4]);
}

#[test]
fn set_and_get_weight() {
    let mut g = WeightedGraph::from_vertices(&['a', 'b', 'c']);
    g.set_weight(&'b', &'c', 7);
    g.set_weight(&'c', &'a', 2);
    assert_eq!(g.get_weight(&'b', &'c'), 7);
    assert_eq!(g.get_weight(&'c', &'b'), 0);
    assert_eq!(g.get_all_weights(), &vec![0, 0, 0, 0, 0, 7, 2, 0, 0]);
}

#[test]
fn incr_adds_one() {
    let mut g = WeightedGraph::from_vertices(&['a', 'b']);
    g.incr(&'a', &'b');
    g.incr(&'a', &'b');
    g.incr(&'b', &'b');
    assert_eq!(g.get_weight(&'a', &'b'), 2);
    assert_eq!(g.get_weight(&'b', &'b'), 1);
    assert_eq!(g.get_weight(&'a', &'a'), 0);
}

#[test]
fn rows_follow_vertex_order() {
    let mut g = WeightedGraph::from_vertices(&['a', 'b', 'c']);
    g.set_all_weights(vec![1, 2, 3, 4, 5, 6, 7, 8, 9]);
    assert_eq!(g.get_weights_for('b'), &[4, 5, 6]);
    assert_eq!(g.get_weights_for('c'), &[7, 8, 9]);
    assert_eq!(g.row_at(0), &[1, 2, 3]);
}

#[test]
fn top_count_keeps_a_share() {
    assert_eq!(top_count(1), 1);
    assert_eq!(top_count(2), 1);
    assert_eq!(top_count(6), 2);
    assert_eq!(top_count(20), 7);
    assert_eq!(top_count(100), 35);
}

#[test]
fn top_indices_takes_heaviest() {
    assert_eq!(top_indices(&[5, 1, 9, 3], 2), vec![2, 0]);
    assert_eq!(top_indices(&[4, 4, 1, 4], 2), vec![0, 1]);
    assert_eq!(top_indices(&[1, 2], 0), Vec::<usize>::new());
}

#[test]
fn choose_from_top_draws_a_heavy_positive_index() {
    assert_eq!(choose_from_top(&[0, 0, 7, 0], 1), 2);
    for _ in 0..100 {
        let r = choose_from_top(&[1, 0, 8, 6, 0], 2);
        assert!(r == 2 || r == 3);
        let r = choose_from_top(&[0, 5, 0, 0], 3);
        assert_eq!(r, 1);
    }
}

#[test]
fn choose_from_top_falls_back_on_zero_rows() {
    for _ in 0..50 {
        let r = choose_from_top(&[0, 0, 0], 2);
        assert!(r < 2);
    }
}

#[test]
fn choose_from_top_handles_huge_weights() {
    let r = choose_from_top(&[u64::MAX, 1, u64::MAX - 1], 3);
    assert_eq!(r, 0);
}
