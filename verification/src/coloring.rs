//! Coloring utilities: counting the colors of a finished coloring,
//! validating a coloring against a graph, and the laws that tie the four
//! algorithms together across runs and representations.

use vstd::prelude::*;

use crate::dsatur::dsatur_coloring;
use crate::graph::ColorableGraph;
use crate::graph::CsrGraph;
use crate::greedy::bydeg_coloring;
use crate::greedy::naive_coloring;
use crate::model::graph_ok;
use crate::model::max_degree_of;
use crate::model::valid_coloring;
use crate::model::UNCOLORED;
use crate::rlf::rlf_coloring;

verus! {

/// One more than the largest color among the first `k` entries, 0 if none.
pub open spec fn count_colors_to(col: Seq<usize>, k: int) -> nat
    decreases k,
{
    if k <= 0 {
        0
    } else {
        let rest = count_colors_to(col, k - 1);
        if col[k - 1] as nat + 1 > rest {
            col[k - 1] as nat + 1
        } else {
            rest
        }
    }
}

/// The number of colors a complete coloring uses: its maximum entry plus
/// one, or 0 for the empty coloring.
pub open spec fn count_colors_spec(col: Seq<usize>) -> nat {
    count_colors_to(col, col.len() as int)
}

/// Counts the colors in `coloring` as the maximum color plus one.
///
/// Every entry must be an actual color (not the `UNCOLORED` sentinel), as
/// produced by the coloring algorithms.
pub fn count_colors(coloring: &Vec<usize>) -> (k: usize)
    requires
        forall|i: int| 0 <= i < coloring@.len() ==> (#[trigger] coloring@[i]) < usize::MAX,
    ensures
        k == count_colors_spec(coloring@),
{
    let n = coloring.len();
    let mut k: usize = 0;
    for i in 0..n
        invariant
            n == coloring@.len(),
            forall|m: int| 0 <= m < coloring@.len() ==> (#[trigger] coloring@[m]) < usize::MAX,
            k == count_colors_to(coloring@, i as int),
    {
        let c = coloring[i];
        if c + 1 > k {
            k = c + 1;
        }
    }
    k
}

/// A complete proper coloring: no sentinel entries, no monochromatic edge.
pub open spec fn proper_complete(adj: Seq<Seq<usize>>, col: Seq<usize>) -> bool {
    &&& forall|v: int| 0 <= v < col.len() ==> (#[trigger] col[v]) != UNCOLORED
    &&& forall|v: int, j: int|
        0 <= v < adj.len() && 0 <= j < adj[v].len() ==> col[(#[trigger] adj[v][j]) as int] != col[v]
}

/// Checks that `coloring` is a complete proper coloring of `graph`: every
/// vertex carries a color, and no edge is monochromatic.
pub fn validate_coloring<G: ColorableGraph>(graph: &G, coloring: &Vec<usize>) -> (ok: bool)
    requires
        graph_ok(graph.adj()),
        coloring@.len() == graph.adj().len(),
    ensures
        ok <==> proper_complete(graph.adj(), coloring@),
{
    let ghost adj = graph.adj();
    let n = graph.num_vertices();
    for i in 0..n
        invariant
            adj == graph.adj(),
            graph_ok(adj),
            n == adj.len(),
            coloring@.len() == n,
            forall|v: int| 0 <= v < i ==> (#[trigger] coloring@[v]) != UNCOLORED,
            forall|v: int, j: int|
                0 <= v < i && 0 <= j < adj[v].len() ==> coloring@[(#[trigger] adj[v][j]) as int]
                    != coloring@[v],
    {
        let ci = coloring[i];
        if ci == UNCOLORED {
            return false;
        }
        let nbrs = graph.neighbors(i);
        let deg = nbrs.len();
        for j in 0..deg
            invariant
                adj == graph.adj(),
                n == adj.len(),
                coloring@.len() == n,
                deg == nbrs@.len(),
                nbrs@ == adj[i as int],
                (i as int) < n,
                ci == coloring@[i as int],
                forall|jj: int|
                    0 <= jj < nbrs@.len() ==> ((#[trigger] nbrs@[jj]) as int) < coloring@.len(),
                forall|jj: int|
                    0 <= jj < j ==> coloring@[(#[trigger] nbrs@[jj]) as int] != coloring@[i as int],
        {
            let u = *vstd::slice::slice_index_get(nbrs, j);
            if coloring[u] == ci {
                return false;
            }
        }
    }
    true
}

/// A valid coloring stays within the textbook bound: it uses at most
/// `max_degree + 1` colors.
pub proof fn lemma_count_colors_bound(adj: Seq<Seq<usize>>, col: Seq<usize>)
    requires
        valid_coloring(adj, col),
    ensures
        count_colors_spec(col) <= max_degree_of(adj) + 1,
{
    lemma_count_colors_to_bound(col, col.len() as int, max_degree_of(adj));
}

proof fn lemma_count_colors_to_bound(col: Seq<usize>, k: int, d: nat)
    requires
        k <= col.len(),
        forall|v: int| 0 <= v < col.len() ==> (#[trigger] col[v]) as nat <= d,
    ensures
        count_colors_to(col, k) <= d + 1,
    decreases k,
{
    if k > 0 {
        lemma_count_colors_to_bound(col, k - 1, d);
    }
}

/// Determinism: each algorithm's output is a function of the adjacency
/// view alone, so repeated runs on the same graph return identical vectors.
pub proof fn lemma_coloring_deterministic(adj1: Seq<Seq<usize>>, adj2: Seq<Seq<usize>>)
    requires
        adj1 == adj2,
    ensures
        naive_coloring(adj1) == naive_coloring(adj2),
        bydeg_coloring(adj1) == bydeg_coloring(adj2),
        dsatur_coloring(adj1) == dsatur_coloring(adj2),
        rlf_coloring(adj1) == rlf_coloring(adj2),
{
}

/// Representation invariance: a CSR copy of a graph has the same adjacency
/// view, so every algorithm colors both representations identically.
pub proof fn lemma_representation_invariance<G: ColorableGraph>(graph: &G, csr: &CsrGraph)
    requires
        csr.adj() == graph.adj(),
    ensures
        naive_coloring(csr.adj()) == naive_coloring(graph.adj()),
        bydeg_coloring(csr.adj()) == bydeg_coloring(graph.adj()),
        dsatur_coloring(csr.adj()) == dsatur_coloring(graph.adj()),
        rlf_coloring(csr.adj()) == rlf_coloring(graph.adj()),
{
}

} // verus!
