use graph_coloring::color_greedy_by_degree;
use graph_coloring::color_greedy_by_order;
use graph_coloring::color_greedy_dsatur;
use graph_coloring::color_greedy_naive;
use graph_coloring::color_rlf;
use graph_coloring::count_colors;
use graph_coloring::validate_coloring;
use graph_coloring::VecVecGraph;

fn build(n: usize, edges: &[(usize, usize)]) -> VecVecGraph {
    let mut g = VecVecGraph::new(n);
    for &(w, v) in edges {
        g.add_edge(w, v);
    }
    g
}

fn all_colorings(g: &VecVecGraph) -> Vec<Vec<usize>> {
    vec![
        color_greedy_naive(g),
        color_greedy_by_degree(g),
        color_greedy_dsatur(g),
        color_rlf(g),
    ]
}

#[test]
fn empty_graph_all_algorithms() {
    let g = build(0, &[]);
    for coloring in all_colorings(&g) {
        assert_eq!(coloring, Vec::<usize>::new());
        assert_eq!(count_colors(&coloring), 0);
    }
}

#[test]
fn isolated_vertices_only() {
    let g = build(4, &[]);
    for coloring in all_colorings(&g) {
        assert_eq!(coloring, vec![0, 0, 0, 0]);
        assert_eq!(count_colors(&coloring), 1);
        assert!(validate_coloring(&g, &coloring));
    }
}

#[test]
fn triangle_naive_exact() {
    let g = build(3, &[(0, 1), (0, 2), (1, 2)]);
    let coloring = color_greedy_naive(&g);
    assert_eq!(coloring, vec![0, 1, 2]);
}

#[test]
fn triangle_needs_three_colors() {
    let g = build(3, &[(0, 1), (0, 2), (1, 2)]);
    for coloring in all_colorings(&g) {
        assert_eq!(count_colors(&coloring), 3);
        assert!(validate_coloring(&g, &coloring));
    }
}

#[test]
fn path_naive_exact() {
    let g = build(4, &[(0, 1), (1, 2), (2, 3)]);
    let coloring = color_greedy_naive(&g);
    assert_eq!(coloring, vec![0, 1, 0, 1]);
    assert_eq!(count_colors(&coloring), 2);
}

#[test]
fn star_by_degree_center_first() {
    let g = build(5, &[(0, 1), (0, 2), (0, 3), (0, 4)]);
    let coloring = color_greedy_by_degree(&g);
    assert_eq!(coloring[0], 0);
    assert_eq!(coloring[1], 1);
    assert_eq!(coloring[2], 1);
    assert_eq!(coloring[3], 1);
    assert_eq!(coloring[4], 1);
    assert_eq!(count_colors(&coloring), 2);
}

#[test]
fn five_cycle_naive_exact() {
    let g = build(5, &[(0, 1), (1, 2), (2, 3), (3, 4), (4, 0)]);
    let coloring = color_greedy_naive(&g);
    assert_eq!(coloring, vec![0, 1, 0, 1, 2]);
    assert_eq!(count_colors(&coloring), 3);
}

#[test]
fn five_cycle_dsatur_three_colors() {
    let g = build(5, &[(0, 1), (1, 2), (2, 3), (3, 4), (4, 0)]);
    let coloring = color_greedy_dsatur(&g);
    assert_eq!(count_colors(&coloring), 3);
    assert!(validate_coloring(&g, &coloring));
}

#[test]
fn complete_graph_k4_permutation() {
    let g = build(4, &[(0, 1), (0, 2), (0, 3), (1, 2), (1, 3), (2, 3)]);
    for coloring in all_colorings(&g) {
        let mut sorted = coloring.clone();
        sorted.sort();
        assert_eq!(sorted, vec![0, 1, 2, 3]);
        assert_eq!(count_colors(&coloring), 4);
        assert!(validate_coloring(&g, &coloring));
    }
}

#[test]
fn two_disconnected_triangles() {
    let g = build(6, &[(0, 1), (0, 2), (1, 2), (3, 4), (3, 5), (4, 5)]);
    for coloring in all_colorings(&g) {
        assert_eq!(count_colors(&coloring), 3);
        assert!(validate_coloring(&g, &coloring));
    }
}

#[test]
fn naive_vertex_zero_gets_color_zero() {
    let g = build(6, &[(1, 5), (0, 5), (2, 4), (0, 3)]);
    let coloring = color_greedy_naive(&g);
    assert_eq!(coloring[0], 0);
}

#[test]
fn by_degree_first_max_degree_vertex_gets_zero() {
    // vertex 2 is the first vertex of maximum degree 3
    let g = build(5, &[(2, 0), (2, 1), (2, 3), (0, 1), (3, 4)]);
    let coloring = color_greedy_by_degree(&g);
    assert_eq!(coloring[2], 0);
}

#[test]
fn dsatur_no_edges_all_zero() {
    let g = build(7, &[]);
    let coloring = color_greedy_dsatur(&g);
    assert_eq!(coloring, vec![0, 0, 0, 0, 0, 0, 0]);
}

#[test]
fn by_order_reversed_order() {
    // coloring in reverse id order colors vertex 3 first
    let g = build(4, &[(0, 1), (1, 2), (2, 3)]);
    let order = vec![3, 2, 1, 0];
    let coloring = color_greedy_by_order(&g, &order);
    assert_eq!(coloring, vec![1, 0, 1, 0]);
}
