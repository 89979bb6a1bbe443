//! The mathematical model shared by all coloring algorithms: the adjacency
//! view of a graph, well-formedness of simple undirected graphs, degrees,
//! partial colorings, and the "least free color" function.

use vstd::prelude::*;

verus! {

/// Sentinel color of a vertex that has not received a final color yet.
pub const UNCOLORED: usize = usize::MAX;

/// Every stored neighbor id is a vertex of the graph.
pub open spec fn graph_in_range(adj: Seq<Seq<usize>>) -> bool {
    forall|v: int, j: int|
        0 <= v < adj.len() && 0 <= j < adj[v].len() ==> (#[trigger] adj[v][j]) < adj.len()
}

/// No vertex lists itself as a neighbor.
pub open spec fn graph_no_self_loops(adj: Seq<Seq<usize>>) -> bool {
    forall|v: int, j: int|
        0 <= v < adj.len() && 0 <= j < adj[v].len() ==> (#[trigger] adj[v][j]) as int != v
}

/// No neighbor list mentions the same vertex twice.
pub open spec fn graph_no_dups(adj: Seq<Seq<usize>>) -> bool {
    forall|v: int| 0 <= v < adj.len() ==> (#[trigger] adj[v]).no_duplicates()
}

/// `v` occurs in the neighbor list of `u`.
pub open spec fn edge(adj: Seq<Seq<usize>>, u: int, v: int) -> bool {
    adj[u].contains(v as usize)
}

/// The graph is undirected: neighbor lists are pairwise consistent.
pub open spec fn graph_symmetric(adj: Seq<Seq<usize>>) -> bool {
    forall|u: int, v: int|
        0 <= u < adj.len() && 0 <= v < adj.len() ==> (#[trigger] edge(adj, u, v) <==> #[trigger] edge(
            adj,
            v,
            u,
        ))
}

/// A well-formed simple undirected graph, as the coloring contract assumes.
pub open spec fn graph_ok(adj: Seq<Seq<usize>>) -> bool {
    &&& graph_in_range(adj)
    &&& graph_no_self_loops(adj)
    &&& graph_no_dups(adj)
    &&& graph_symmetric(adj)
}

/// Largest neighbor-list length among the first `k` vertices (0 if `k <= 0`).
pub open spec fn max_degree_to(adj: Seq<Seq<usize>>, k: int) -> nat
    decreases k,
{
    if k <= 0 {
        0
    } else {
        let rest = max_degree_to(adj, k - 1);
        if adj[k - 1].len() > rest {
            adj[k - 1].len()
        } else {
            rest
        }
    }
}

/// The maximum degree of the graph, 0 for the empty graph.
pub open spec fn max_degree_of(adj: Seq<Seq<usize>>) -> nat {
    max_degree_to(adj, adj.len() as int)
}

/// Each vertex's degree is at most the running maximum that covers it.
pub proof fn lemma_degree_le_max(adj: Seq<Seq<usize>>, k: int, v: int)
    requires
        0 <= v < k,
    ensures
        adj[v].len() <= max_degree_to(adj, k),
    decreases k,
{
    if v < k - 1 {
        lemma_degree_le_max(adj, k - 1, v);
    }
}

/// No color is used by any entry of `nbrs` under the coloring `col`.
/// An uncolored entry carries `UNCOLORED`, which also counts as "used",
/// so a free color is in particular distinct from the sentinel whenever
/// an uncolored neighbor exists.
pub open spec fn color_free(nbrs: Seq<usize>, col: Seq<usize>, c: usize) -> bool {
    forall|j: int| 0 <= j < nbrs.len() ==> col[(#[trigger] nbrs[j]) as int] != c
}

/// `c` is the smallest color not used by any entry of `nbrs`.
pub open spec fn is_least_free(nbrs: Seq<usize>, col: Seq<usize>, c: usize) -> bool {
    &&& color_free(nbrs, col, c)
    &&& forall|d: usize| d < c ==> !(#[trigger] color_free(nbrs, col, d))
}

/// The smallest free color, the value every greedy step assigns.
pub open spec fn least_free(nbrs: Seq<usize>, col: Seq<usize>) -> usize {
    choose|c: usize| is_least_free(nbrs, col, c)
}

/// There is at most one smallest free color.
pub proof fn lemma_least_free_unique(nbrs: Seq<usize>, col: Seq<usize>, c1: usize, c2: usize)
    requires
        is_least_free(nbrs, col, c1),
        is_least_free(nbrs, col, c2),
    ensures
        c1 == c2,
{
    if c1 < c2 {
        assert(!color_free(nbrs, col, c1));
    }
    if c2 < c1 {
        assert(!color_free(nbrs, col, c2));
    }
}

/// Any witness of `is_least_free` is the value of `least_free`.
pub proof fn lemma_least_free_witness(nbrs: Seq<usize>, col: Seq<usize>, c: usize)
    requires
        is_least_free(nbrs, col, c),
    ensures
        least_free(nbrs, col) == c,
{
    let w = choose|c2: usize| is_least_free(nbrs, col, c2);
    assert(is_least_free(nbrs, col, w));
    lemma_least_free_unique(nbrs, col, w, c);
}

/// Pigeonhole bound: if every color below `c` occurs among the entries of
/// `nbrs`, then `c` distinct colors need `c` distinct entries.
pub proof fn lemma_used_colors_bound(nbrs: Seq<usize>, col: Seq<usize>, c: usize)
    requires
        forall|d: usize| d < c ==> !(#[trigger] color_free(nbrs, col, d)),
    ensures
        c as int <= nbrs.len(),
{
    broadcast use vstd::set_lib::group_set_lib_default, vstd::set::group_set_axioms;

    if c as int > nbrs.len() {
        let f = |u: usize| col[u as int] as int;
        let dom = nbrs.to_set();
        let img = dom.map(f);
        assert forall|d: int| 0 <= d < c implies img.contains(d) by {
            let du = d as usize;
            assert(!color_free(nbrs, col, du));
            let j = choose|j: int| 0 <= j < nbrs.len() && col[nbrs[j] as int] == du;
            assert(dom.contains(nbrs[j]));
            assert(f(nbrs[j]) == d);
        }
        nbrs.lemma_cardinality_of_set();
        vstd::set_lib::lemma_map_size_bound(dom, img, f);
        vstd::set_lib::lemma_int_range(0, c as int);
        vstd::set_lib::lemma_len_subset(vstd::set_lib::set_int_range(0, c as int), img);
    }
}

/// The least free color is at most the number of neighbors.
pub proof fn lemma_least_free_le(nbrs: Seq<usize>, col: Seq<usize>, c: usize)
    requires
        is_least_free(nbrs, col, c),
    ensures
        c as int <= nbrs.len(),
{
    lemma_used_colors_bound(nbrs, col, c);
}

/// A sequence of pairwise distinct vertex ids below `n`, none equal to `v`,
/// has fewer than `n` entries.
pub proof fn lemma_distinct_ids_bound(nbrs: Seq<usize>, n: int, v: int)
    requires
        nbrs.no_duplicates(),
        forall|j: int| 0 <= j < nbrs.len() ==> ((#[trigger] nbrs[j]) as int) < n,
        forall|j: int| 0 <= j < nbrs.len() ==> (#[trigger] nbrs[j]) as int != v,
        0 <= v < n,
    ensures
        nbrs.len() < n,
{
    broadcast use vstd::set_lib::group_set_lib_default, vstd::set::group_set_axioms;

    let f = |u: usize| u as int;
    let dom = nbrs.to_set();
    let img = dom.map(f);
    nbrs.unique_seq_to_set();
    assert(vstd::relations::injective_on(f, dom));
    vstd::set_lib::lemma_map_size(dom, img, f);
    let bound = vstd::set_lib::set_int_range(0, n).remove(v);
    vstd::set_lib::lemma_int_range(0, n);
    assert forall|d: int| img.contains(d) implies bound.contains(d) by {
        let u = choose|u: usize| dom.contains(u) && f(u) == d;
        assert(nbrs.contains(u));
        let j = choose|j: int| 0 <= j < nbrs.len() && nbrs[j] == u;
        assert(nbrs[j] as int == d);
    }
    vstd::set_lib::lemma_len_subset(img, bound);
}

/// `max_degree` of a well-formed nonempty graph is below the vertex count.
pub proof fn lemma_max_degree_lt(adj: Seq<Seq<usize>>, k: int)
    requires
        graph_ok(adj),
        adj.len() >= 1,
        k <= adj.len(),
    ensures
        max_degree_to(adj, k) < adj.len(),
    decreases k,
{
    if k <= 0 {
    } else {
        lemma_max_degree_lt(adj, k - 1);
        lemma_distinct_ids_bound(adj[k - 1], adj.len() as int, k - 1);
    }
}

/// Existence and bounds of the least free color: with fewer neighbors than
/// vertices, some color among `0..=nbrs.len()` is unused.
pub proof fn lemma_least_free_exists(nbrs: Seq<usize>, col: Seq<usize>, v: int)
    requires
        nbrs.no_duplicates(),
        forall|j: int| 0 <= j < nbrs.len() ==> ((#[trigger] nbrs[j]) as int) < col.len(),
        forall|j: int| 0 <= j < nbrs.len() ==> (#[trigger] nbrs[j]) as int != v,
        0 <= v < col.len(),
        col.len() <= usize::MAX,
    ensures
        is_least_free(nbrs, col, least_free(nbrs, col)),
        least_free(nbrs, col) as int <= nbrs.len(),
        (least_free(nbrs, col) as int) < col.len(),
{
    broadcast use vstd::set_lib::group_set_lib_default, vstd::set::group_set_axioms;

    lemma_distinct_ids_bound(nbrs, col.len() as int, v);
    let k = nbrs.len() as int;
    // Some color in 0..=k is free.
    assert(exists|d: usize| d as int <= k && color_free(nbrs, col, d)) by {
        if forall|d: usize| d as int <= k ==> !(#[trigger] color_free(nbrs, col, d)) {
            let f = |u: usize| col[u as int] as int;
            let dom = nbrs.to_set();
            let img = dom.map(f);
            assert forall|d: int| 0 <= d < k + 1 implies img.contains(d) by {
                let du = d as usize;
                assert(!color_free(nbrs, col, du));
                let j = choose|j: int| 0 <= j < nbrs.len() && col[nbrs[j] as int] == du;
                assert(dom.contains(nbrs[j]));
                assert(f(nbrs[j]) == d);
            }
            nbrs.lemma_cardinality_of_set();
            vstd::set_lib::lemma_map_size_bound(dom, img, f);
            vstd::set_lib::lemma_int_range(0, k + 1);
            vstd::set_lib::lemma_len_subset(vstd::set_lib::set_int_range(0, k + 1), img);
            assert(false);
        }
    }
    let d = choose|d: usize| d as int <= k && color_free(nbrs, col, d);
    lemma_least_free_below(nbrs, col, d);
    let w = choose|w: usize| is_least_free(nbrs, col, w) && w <= d;
    lemma_least_free_witness(nbrs, col, w);
    lemma_least_free_le(nbrs, col, w);
}

proof fn lemma_least_free_below(nbrs: Seq<usize>, col: Seq<usize>, c: usize)
    requires
        color_free(nbrs, col, c),
    ensures
        exists|w: usize| is_least_free(nbrs, col, w) && w <= c,
    decreases c,
{
    if forall|d: usize| d < c ==> !(#[trigger] color_free(nbrs, col, d)) {
        assert(is_least_free(nbrs, col, c));
    } else {
        let d = choose|d: usize| d < c && color_free(nbrs, col, d);
        lemma_least_free_below(nbrs, col, d);
    }
}

/// A partial coloring that the greedy algorithms maintain: correct length,
/// every assigned color within both bounds, and no monochromatic edge
/// between two assigned vertices.
pub open spec fn partial_ok(adj: Seq<Seq<usize>>, col: Seq<usize>) -> bool {
    &&& col.len() == adj.len()
    &&& forall|v: int|
        0 <= v < col.len() && col[v] != UNCOLORED ==> (#[trigger] col[v]) as int <= max_degree_of(
            adj,
        ) && (col[v] as int) < col.len()
    &&& forall|v: int, j: int|
        0 <= v < adj.len() && 0 <= j < adj[v].len() && col[v] != UNCOLORED ==> col[(#[trigger] adj[v][j]) as int]
            != col[v]
}

/// The output contract every algorithm meets: a complete proper coloring
/// using colors in `[0, n)`, each at most the maximum degree.
pub open spec fn valid_coloring(adj: Seq<Seq<usize>>, col: Seq<usize>) -> bool {
    &&& col.len() == adj.len()
    &&& forall|v: int|
        0 <= v < col.len() ==> (#[trigger] col[v]) as int <= max_degree_of(adj) && (col[v] as int)
            < col.len()
    &&& forall|v: int, j: int|
        0 <= v < adj.len() && 0 <= j < adj[v].len() ==> col[(#[trigger] adj[v][j]) as int] != col[v]
}

pub proof fn lemma_complete_valid(adj: Seq<Seq<usize>>, col: Seq<usize>)
    requires
        partial_ok(adj, col),
        forall|v: int| 0 <= v < col.len() ==> (#[trigger] col[v]) != UNCOLORED,
    ensures
        valid_coloring(adj, col),
{
}

/// Assigning the least free color to any vertex preserves `partial_ok`.
pub proof fn lemma_color_step_ok(adj: Seq<Seq<usize>>, col: Seq<usize>, v: int, c: usize)
    requires
        graph_ok(adj),
        partial_ok(adj, col),
        0 <= v < col.len(),
        col.len() <= usize::MAX,
        c == least_free(adj[v], col),
    ensures
        partial_ok(adj, col.update(v, c)),
        c != UNCOLORED,
        c as int <= adj[v].len(),
        color_free(adj[v], col, c),
{
    lemma_least_free_exists(adj[v], col, v);
    lemma_degree_le_max(adj, adj.len() as int, v);
    let col2 = col.update(v, c);
    assert forall|w: int, j: int|
        0 <= w < adj.len() && 0 <= j < adj[w].len() && col2[w] != UNCOLORED implies col2[(
    #[trigger] adj[w][j]) as int] != col2[w] by {
        let u = adj[w][j] as int;
        if w == v {
            // neighbors of v keep their old color, none of which equals c
            assert(col2[u] == col[u]);
        } else if u == v {
            // w is a neighbor of v by symmetry, so c avoids col[w]
            assert(edge(adj, w, v));
            assert(edge(adj, v, w));
            let j2 = choose|j2: int| 0 <= j2 < adj[v].len() && adj[v][j2] == w as usize;
            assert(col[adj[v][j2] as int] != c);
        }
    }
}

/// The set of vertices still uncolored, the measure every algorithm shrinks.
pub open spec fn uncolored_set(col: Seq<usize>) -> Set<int> {
    Set::new(|v: int| 0 <= v < col.len() && col[v] == UNCOLORED)
}

pub open spec fn count_uncolored(col: Seq<usize>) -> nat {
    uncolored_set(col).len()
}

pub proof fn lemma_uncolored_finite(col: Seq<usize>)
    ensures
        uncolored_set(col).finite(),
        count_uncolored(col) <= col.len(),
{
    broadcast use vstd::set::group_set_axioms;

    vstd::set_lib::lemma_int_range(0, col.len() as int);
    vstd::set_lib::lemma_len_subset(
        uncolored_set(col),
        vstd::set_lib::set_int_range(0, col.len() as int),
    );
}

pub proof fn lemma_count_uncolored_dec(col: Seq<usize>, v: int, c: usize)
    requires
        0 <= v < col.len(),
        col[v] == UNCOLORED,
        c != UNCOLORED,
    ensures
        count_uncolored(col.update(v, c)) < count_uncolored(col),
{
    broadcast use vstd::set::group_set_axioms;

    lemma_uncolored_finite(col);
    lemma_uncolored_finite(col.update(v, c));
    assert(uncolored_set(col.update(v, c)) =~= uncolored_set(col).remove(v));
}

/// The all-uncolored starting state.
pub open spec fn all_uncolored(n: nat) -> Seq<usize> {
    Seq::new(n, |i: int| UNCOLORED)
}

/// A duplicate-free sequence of `n` vertex ids below `n` mentions every one.
pub proof fn lemma_permutation_contains(order: Seq<usize>, n: int, v: int)
    requires
        order.no_duplicates(),
        order.len() == n,
        forall|k: int| 0 <= k < order.len() ==> ((#[trigger] order[k]) as int) < n,
        0 <= v < n,
        n <= usize::MAX,
    ensures
        exists|k: int| 0 <= k < order.len() && (#[trigger] order[k]) as int == v,
{
    broadcast use vstd::set_lib::group_set_lib_default, vstd::set::group_set_axioms;

    let f = |u: usize| u as int;
    let dom = order.to_set();
    let img = dom.map(f);
    order.unique_seq_to_set();
    assert(vstd::relations::injective_on(f, dom));
    vstd::set_lib::lemma_map_size(dom, img, f);
    let range = vstd::set_lib::set_int_range(0, n);
    vstd::set_lib::lemma_int_range(0, n);
    assert forall|d: int| img.contains(d) implies range.contains(d) by {
        let u = choose|u: usize| dom.contains(u) && f(u) == d;
        assert(order.contains(u));
        let k = choose|k: int| 0 <= k < order.len() && order[k] == u;
        assert(order[k] as int == d);
    }
    vstd::set_lib::lemma_len_subset(img, range);
    vstd::set_lib::lemma_subset_equality(img, range);
    assert(img.contains(v));
    let u = choose|u: usize| dom.contains(u) && f(u) == v;
    assert(order.contains(u));
    let k = choose|k: int| 0 <= k < order.len() && order[k] == u;
    assert(order[k] as int == v);
}

} // verus!
