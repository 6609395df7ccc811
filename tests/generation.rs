use barabasi_albert::{barabasi_albert_graph, Graph};
use barabasi_albert::generator::attach_new_node;
use rand::rngs::StdRng;
use rand::SeedableRng;

fn check_barabasi_albert(n: usize, m: usize) {
    let mut rng = rand::thread_rng();
    let g = barabasi_albert_graph(&mut rng, n, m);
    assert_eq!(n, g.node_count());
    assert_eq!((n - m) * m, g.edge_count());
}

#[test]
fn test_barabasi_albert() {
    check_barabasi_albert(100, 2);
    check_barabasi_albert(100, 3);
    check_barabasi_albert(200, 5);
}

#[test]
fn sizes_match_the_formula() {
    let mut rng = StdRng::seed_from_u64(7);
    let g = barabasi_albert_graph(&mut rng, 100, 2);
    assert_eq!(g.node_count(), 100);
    assert_eq!(g.edge_count(), 196);
    let g = barabasi_albert_graph(&mut rng, 100, 3);
    assert_eq!(g.edge_count(), 291);
    let g = barabasi_albert_graph(&mut rng, 200, 5);
    assert_eq!(g.node_count(), 200);
    assert_eq!(g.edge_count(), 975);
}

#[test]
fn nodes_are_numbered_densely() {
    let mut rng = StdRng::seed_from_u64(1);
    let g = barabasi_albert_graph(&mut rng, 30, 4);
    let expected: Vec<usize> = (0..30).collect();
    assert_eq!(g.nodes, expected);
}

#[test]
fn edges_join_existing_nodes_and_point_backwards() {
    let mut rng = StdRng::seed_from_u64(11);
    let (n, m) = (60, 3);
    let g = barabasi_albert_graph(&mut rng, n, m);
    for (i, &(src, dst)) in g.edges.iter().enumerate() {
        assert!(src < n && dst < n);
        assert_eq!(src, m + i / m);
        assert!(dst < src);
    }
}

#[test]
fn initial_nodes_have_no_edges_among_themselves() {
    let mut rng = StdRng::seed_from_u64(5);
    let m = 4;
    let g = barabasi_albert_graph(&mut rng, 20, m);
    assert!(g.edges.iter().all(|&(src, dst)| !(src < m && dst < m)));
    assert!(g.edges.iter().all(|&(src, dst)| src != dst));
}

#[test]
fn first_new_node_links_to_every_initial_node() {
    let mut rng = StdRng::seed_from_u64(3);
    let g = barabasi_albert_graph(&mut rng, 50, 5);
    assert_eq!(&g.edges[..5], &[(5, 0), (5, 1), (5, 2), (5, 3), (5, 4)]);
}

#[test]
fn same_seed_gives_same_graph() {
    let mut a = StdRng::seed_from_u64(42);
    let mut b = StdRng::seed_from_u64(42);
    let g1 = barabasi_albert_graph(&mut a, 80, 3);
    let g2 = barabasi_albert_graph(&mut b, 80, 3);
    assert_eq!(g1.nodes, g2.nodes);
    assert_eq!(g1.edges, g2.edges);
}

#[test]
fn minimum_case_three_two() {
    let mut rng = rand::thread_rng();
    let g = barabasi_albert_graph(&mut rng, 3, 2);
    assert_eq!(g.node_count(), 3);
    assert_eq!(g.edge_count(), 2);
    assert_eq!(g.edges, vec![(2, 0), (2, 1)]);
}

#[test]
fn minimum_case_single_link() {
    let mut rng = rand::thread_rng();
    let g = barabasi_albert_graph(&mut rng, 2, 1);
    assert_eq!(g.node_count(), 2);
    assert_eq!(g.edges, vec![(1, 0)]);
}

#[test]
fn attach_records_both_endpoints() {
    let mut g = Graph::new();
    g.add_node();
    g.add_node();
    let mut pool: Vec<usize> = Vec::new();
    let node = attach_new_node(&mut g, &mut pool, &vec![0, 1]);
    assert_eq!(node, 2);
    assert_eq!(g.edges, vec![(2, 0), (2, 1)]);
    assert_eq!(pool, vec![0, 2, 1, 2]);
}

#[test]
fn attach_keeps_earlier_edges() {
    let mut g = Graph::new();
    g.add_node();
    g.add_node();
    let mut pool: Vec<usize> = Vec::new();
    attach_new_node(&mut g, &mut pool, &vec![0, 1]);
    let before = g.edges.clone();
    let node = attach_new_node(&mut g, &mut pool, &vec![2, 2]);
    assert_eq!(node, 3);
    assert_eq!(&g.edges[..before.len()], &before[..]);
    assert_eq!(&g.edges[before.len()..], &[(3, 2), (3, 2)]);
    assert_eq!(pool, vec![0, 2, 1, 2, 2, 3, 2, 3]);
    assert_eq!(g.node_count(), 4);
}

#[test]
fn attach_with_no_targets_adds_a_lone_node() {
    let mut g = Graph::new();
    let mut pool: Vec<usize> = vec![9];
    let node = attach_new_node(&mut g, &mut pool, &Vec::new());
    assert_eq!(node, 0);
    assert_eq!(g.node_count(), 1);
    assert_eq!(g.edge_count(), 0);
    assert_eq!(pool, vec![9]);
}
