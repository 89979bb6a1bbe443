use graph_coloring::color_greedy_by_degree;
use graph_coloring::color_greedy_dsatur;
use graph_coloring::color_greedy_naive;
use graph_coloring::color_rlf;
use graph_coloring::count_colors;
use graph_coloring::validate_coloring;
use graph_coloring::ColorableGraph;
use graph_coloring::CsrGraph;
use graph_coloring::VecVecGraph;

fn sample(n: usize, edges: &[(usize, usize)]) -> VecVecGraph {
    let mut g = VecVecGraph::new(n);
    for &(w, v) in edges {
        g.add_edge(w, v);
    }
    g
}

fn petersen_like() -> VecVecGraph {
    sample(
        8,
        &[
            (0, 1),
            (1, 2),
            (2, 3),
            (3, 0),
            (4, 5),
            (5, 6),
            (6, 7),
            (7, 4),
            (0, 4),
            (1, 5),
            (2, 6),
            (3, 7),
            (0, 2),
        ],
    )
}

#[test]
fn output_length_matches_vertex_count() {
    let g = petersen_like();
    assert_eq!(color_greedy_naive(&g).len(), 8);
    assert_eq!(color_greedy_by_degree(&g).len(), 8);
    assert_eq!(color_greedy_dsatur(&g).len(), 8);
    assert_eq!(color_rlf(&g).len(), 8);
}

#[test]
fn colors_stay_in_vertex_range() {
    let g = petersen_like();
    let n = (&g).num_vertices();
    for coloring in [
        color_greedy_naive(&g),
        color_greedy_by_degree(&g),
        color_greedy_dsatur(&g),
        color_rlf(&g),
    ] {
        for &c in &coloring {
            assert!(c < n);
        }
    }
}

#[test]
fn no_monochromatic_edge() {
    let g = petersen_like();
    for coloring in [
        color_greedy_naive(&g),
        color_greedy_by_degree(&g),
        color_greedy_dsatur(&g),
        color_rlf(&g),
    ] {
        assert!(validate_coloring(&g, &coloring));
        for v in 0..(&g).num_vertices() {
            for &u in (&g).neighbors(v) {
                assert_ne!(coloring[v], coloring[u]);
            }
        }
    }
}

#[test]
fn color_count_within_max_degree_bound() {
    let g = petersen_like();
    let bound = (&g).max_degree() + 1;
    for coloring in [
        color_greedy_naive(&g),
        color_greedy_by_degree(&g),
        color_greedy_dsatur(&g),
        color_rlf(&g),
    ] {
        assert!(count_colors(&coloring) <= bound);
    }
}

#[test]
fn repeated_runs_are_identical() {
    let g = petersen_like();
    assert_eq!(color_greedy_naive(&g), color_greedy_naive(&g));
    assert_eq!(color_greedy_by_degree(&g), color_greedy_by_degree(&g));
    assert_eq!(color_greedy_dsatur(&g), color_greedy_dsatur(&g));
    assert_eq!(color_rlf(&g), color_rlf(&g));
}

#[test]
fn csr_and_adjacency_list_agree() {
    let g = petersen_like();
    let csr = CsrGraph::from(&g);
    assert_eq!(color_greedy_naive(&g), color_greedy_naive(&csr));
    assert_eq!(color_greedy_by_degree(&g), color_greedy_by_degree(&csr));
    assert_eq!(color_greedy_dsatur(&g), color_greedy_dsatur(&csr));
    assert_eq!(color_rlf(&g), color_rlf(&csr));
}

#[test]
fn csr_preserves_neighbor_lists() {
    let g = sample(5, &[(0, 1), (1, 2), (2, 3), (3, 4), (4, 0), (1, 3)]);
    let csr = CsrGraph::from(&g);
    assert_eq!((&csr).num_vertices(), (&g).num_vertices());
    for v in 0..(&g).num_vertices() {
        let mut a: Vec<usize> = (&g).neighbors(v).to_vec();
        let mut b: Vec<usize> = (&csr).neighbors(v).to_vec();
        a.sort();
        b.sort();
        assert_eq!(a, b);
        assert_eq!((&g).degree(v), (&csr).degree(v));
    }
    assert_eq!((&g).max_degree(), (&csr).max_degree());
}

#[test]
fn rlf_first_class_is_maximal_independent() {
    let g = petersen_like();
    let coloring = color_rlf(&g);
    let n = (&g).num_vertices();
    // independence of the class that the first round built
    for v in 0..n {
        if coloring[v] == 0 {
            for &u in (&g).neighbors(v) {
                assert_ne!(coloring[u], 0);
            }
        }
    }
    // maximality: every vertex outside the class has a neighbor inside it
    for v in 0..n {
        if coloring[v] != 0 {
            assert!((&g).neighbors(v).iter().any(|&u| coloring[u] == 0));
        }
    }
}

#[test]
fn rlf_classes_are_independent() {
    let g = petersen_like();
    let coloring = color_rlf(&g);
    for v in 0..(&g).num_vertices() {
        for &u in (&g).neighbors(v) {
            assert_ne!(coloring[v], coloring[u]);
        }
    }
}

#[test]
fn validate_rejects_uncolored_vertex() {
    let g = sample(3, &[(0, 1), (1, 2)]);
    let coloring = vec![0, usize::MAX, 0];
    assert!(!validate_coloring(&g, &coloring));
}

#[test]
fn validate_rejects_monochromatic_edge() {
    let g = sample(3, &[(0, 1), (1, 2)]);
    let coloring = vec![0, 0, 1];
    assert!(!validate_coloring(&g, &coloring));
}

#[test]
fn validate_accepts_proper_coloring() {
    let g = sample(3, &[(0, 1), (1, 2)]);
    let coloring = vec![1, 0, 2];
    assert!(validate_coloring(&g, &coloring));
}

#[test]
fn count_colors_exact_values() {
    assert_eq!(count_colors(&Vec::new()), 0);
    assert_eq!(count_colors(&vec![0, 0, 0]), 1);
    assert_eq!(count_colors(&vec![2, 0, 1]), 3);
    assert_eq!(count_colors(&vec![5]), 6);
}

#[test]
fn builder_grows_symmetric_lists() {
    let mut g = VecVecGraph::new(3);
    assert_eq!((&g).num_vertices(), 3);
    assert_eq!((&g).degree(0), 0);
    g.add_edge(0, 2);
    assert_eq!((&g).neighbors(0), &[2]);
    assert_eq!((&g).neighbors(2), &[0]);
    assert_eq!((&g).degree(1), 0);
    assert_eq!((&g).max_degree(), 1);
}
