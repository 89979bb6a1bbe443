//! DSATUR: dynamic-priority greedy coloring. Each step colors the uncolored
//! vertex whose priority record `(saturation, uncolored degree, inverted id)`
//! is lexicographically greatest, using the smallest free color.

use vstd::prelude::*;

use crate::graph::ColorableGraph;
use crate::greedy::greedy_step;
use crate::greedy::smallest_free_color;
use crate::model::all_uncolored;
use crate::model::color_free;
use crate::model::count_uncolored;
use crate::model::graph_ok;
use crate::model::is_least_free;
use crate::model::least_free;
use crate::model::lemma_color_step_ok;
use crate::model::lemma_complete_valid;
use crate::model::lemma_count_uncolored_dec;
use crate::model::lemma_least_free_exists;
use crate::model::lemma_least_free_witness;
use crate::model::partial_ok;
use crate::model::valid_coloring;
use crate::model::UNCOLORED;

verus! {

/// Saturation: the number of distinct colors among the already-colored
/// entries of `nbrs` (each color counted once).
pub open spec fn sat_count(nbrs: Seq<usize>, col: Seq<usize>) -> nat
    decreases nbrs.len(),
{
    if nbrs.len() == 0 {
        0
    } else {
        let rest = nbrs.drop_last();
        let cv = col[nbrs.last() as int];
        sat_count(rest, col) + if cv != UNCOLORED && color_free(rest, col, cv) {
            1nat
        } else {
            0nat
        }
    }
}

/// The number of still-uncolored entries of `nbrs`.
pub open spec fn uncolored_nbrs(nbrs: Seq<usize>, col: Seq<usize>) -> nat
    decreases nbrs.len(),
{
    if nbrs.len() == 0 {
        0
    } else {
        uncolored_nbrs(nbrs.drop_last(), col) + if col[nbrs.last() as int] == UNCOLORED {
            1nat
        } else {
            0nat
        }
    }
}

/// Vertex `a`'s priority record is at least vertex `b`'s, ignoring ids:
/// higher saturation first, then higher uncolored degree.
pub open spec fn dsatur_key_ge(adj: Seq<Seq<usize>>, col: Seq<usize>, a: int, b: int) -> bool {
    let sa = sat_count(adj[a], col);
    let sb = sat_count(adj[b], col);
    sa > sb || (sa == sb && uncolored_nbrs(adj[a], col) >= uncolored_nbrs(adj[b], col))
}

/// The uncolored vertex of greatest priority among ids `i..`, smallest id
/// winning ties.
pub open spec fn dsatur_pick_from(adj: Seq<Seq<usize>>, col: Seq<usize>, i: int) -> Option<usize>
    decreases adj.len() - i,
{
    if i < 0 || i >= adj.len() {
        None
    } else {
        let rest = dsatur_pick_from(adj, col, i + 1);
        if col[i] != UNCOLORED {
            rest
        } else {
            match rest {
                None => Some(i as usize),
                Some(w) => if dsatur_key_ge(adj, col, i, w as int) {
                    Some(i as usize)
                } else {
                    Some(w)
                },
            }
        }
    }
}

pub proof fn lemma_dsatur_pick(adj: Seq<Seq<usize>>, col: Seq<usize>, i: int)
    requires
        0 <= i <= adj.len(),
        adj.len() <= usize::MAX,
    ensures
        match dsatur_pick_from(adj, col, i) {
            None => forall|u: int| i <= u < adj.len() ==> (#[trigger] col[u]) != UNCOLORED,
            Some(v) => {
                &&& i <= v as int
                &&& (v as int) < adj.len()
                &&& col[v as int] == UNCOLORED
            },
        },
    decreases adj.len() - i,
{
    if i < adj.len() {
        lemma_dsatur_pick(adj, col, i + 1);
    }
}

/// The full DSATUR run continued from the partial coloring `col`.
pub open spec fn dsatur_rec(adj: Seq<Seq<usize>>, col: Seq<usize>) -> Seq<usize>
    decreases count_uncolored(col),
        when graph_ok(adj) && col.len() == adj.len() && adj.len() <= usize::MAX
        via dsatur_rec_dec
{
    match dsatur_pick_from(adj, col, 0) {
        None => col,
        Some(v) => dsatur_rec(adj, greedy_step(adj, col, v)),
    }
}

#[via_fn]
proof fn dsatur_rec_dec(adj: Seq<Seq<usize>>, col: Seq<usize>) {
    lemma_dsatur_pick(adj, col, 0);
    match dsatur_pick_from(adj, col, 0) {
        None => {},
        Some(v) => {
            lemma_least_free_exists(adj[v as int], col, v as int);
            lemma_count_uncolored_dec(col, v as int, least_free(adj[v as int], col));
        },
    }
}

/// The coloring DSATUR produces on a well-formed graph.
pub open spec fn dsatur_coloring(adj: Seq<Seq<usize>>) -> Seq<usize> {
    dsatur_rec(adj, all_uncolored(adj.len()))
}

/// Saturation of vertex `v` under the current partial coloring, counted
/// with a scratch bitmap of neighbor colors.
fn saturation_of<G: ColorableGraph>(graph: &G, v: usize, coloring: &Vec<usize>) -> (s: usize)
    requires
        graph_ok(graph.adj()),
        coloring@.len() == graph.adj().len(),
        (v as int) < graph.adj().len(),
        forall|i: int|
            0 <= i < coloring@.len() ==> (#[trigger] coloring@[i]) == UNCOLORED || (
            coloring@[i] as int) < coloring@.len(),
    ensures
        s == sat_count(graph.adj()[v as int], coloring@),
{
    let nbrs = graph.neighbors(v);
    let deg = nbrs.len();
    let ncol = coloring.len();
    let mut seen: Vec<bool> = Vec::new();
    let mut count: usize = 0;
    for k in 0..deg
        invariant
            deg == nbrs@.len(),
            coloring@.len() <= usize::MAX,
            forall|j: int| 0 <= j < nbrs@.len() ==> ((#[trigger] nbrs@[j]) as int)
                < coloring@.len(),
            forall|i: int|
                0 <= i < coloring@.len() ==> (#[trigger] coloring@[i]) == UNCOLORED || (
                coloring@[i] as int) < coloring@.len(),
            seen@.len() <= coloring@.len(),
            count <= k,
            count == sat_count(nbrs@.take(k as int), coloring@),
            forall|cc: int|
                0 <= cc < seen@.len() ==> ((#[trigger] seen@[cc]) <==> exists|j: int|
                    0 <= j < k && coloring@[(#[trigger] nbrs@[j]) as int] as int == cc),
            forall|j: int|
                0 <= j < k && coloring@[(#[trigger] nbrs@[j]) as int] != UNCOLORED ==> (
                coloring@[nbrs@[j] as int] as int) < seen@.len(),
    {
        let u = *vstd::slice::slice_index_get(nbrs, k);
        let nc = coloring[u];
        let ghost prefix = nbrs@.take(k as int);
        let ghost prefix2 = nbrs@.take(k as int + 1);
        proof {
            assert(prefix2.drop_last() =~= prefix);
            assert(prefix2.last() == nbrs@[k as int]);
        }
        if nc != UNCOLORED {
            while seen.len() <= nc
                invariant
                    (nc as int) < coloring@.len(),
                    coloring@.len() <= usize::MAX,
                    nc != UNCOLORED,
                    seen@.len() <= coloring@.len(),
                    forall|cc: int|
                        0 <= cc < seen@.len() ==> ((#[trigger] seen@[cc]) <==> exists|j: int|
                            0 <= j < k && coloring@[(#[trigger] nbrs@[j]) as int] as int == cc),
                    forall|j: int|
                        0 <= j < k && coloring@[(#[trigger] nbrs@[j]) as int] != UNCOLORED ==> (
                        coloring@[nbrs@[j] as int] as int) < seen@.len(),
                decreases nc + 1 - seen@.len(),
            {
                proof {
                    let fresh = seen@.len() as int;
                    assert forall|j: int| 0 <= j < k implies coloring@[(#[trigger] nbrs@[j]) as int]
                        as int != fresh by {
                        if coloring@[nbrs@[j] as int] == UNCOLORED {
                            assert(fresh <= nc < UNCOLORED);
                        }
                    }
                }
                seen.push(false);
            }
            proof {
                // the bitmap test decides whether this color is new
                assert(seen@[nc as int] <==> !color_free(prefix, coloring@, nc)) by {
                    if color_free(prefix, coloring@, nc) {
                        if seen@[nc as int] {
                            let j = choose|j: int|
                                0 <= j < k && coloring@[(#[trigger] nbrs@[j]) as int] as int
                                    == nc as int;
                            assert(prefix[j] == nbrs@[j]);
                            assert(coloring@[prefix[j] as int] != nc);
                        }
                    } else {
                        let j = choose|j: int|
                            0 <= j < prefix.len() && coloring@[(#[trigger] prefix[j]) as int] == nc;
                        assert(coloring@[(nbrs@[j]) as int] as int == nc as int);
                    }
                }
                assert(coloring@[prefix2.last() as int] == nc);
            }
            let ghost seen0 = seen@;
            if !seen[nc] {
                seen[nc] = true;
                count = count + 1;
                proof {
                    assert(sat_count(prefix2, coloring@) == sat_count(prefix, coloring@) + 1);
                }
            } else {
                proof {
                    assert(sat_count(prefix2, coloring@) == sat_count(prefix, coloring@));
                }
            }
            proof {
                // the bitmap invariant moves from prefix `k` to `k + 1`
                assert forall|cc: int|
                    0 <= cc < seen@.len() implies ((#[trigger] seen@[cc]) <==> exists|j: int|
                    0 <= j < k + 1 && coloring@[(#[trigger] nbrs@[j]) as int] as int == cc) by {
                    if cc == nc as int {
                        assert(coloring@[(nbrs@[k as int]) as int] as int == cc);
                        assert(seen@[cc]);
                    } else {
                        assert(cc < UNCOLORED as int);
                        if exists|j: int|
                            0 <= j < k + 1 && coloring@[(#[trigger] nbrs@[j]) as int] as int
                                == cc {
                            let j = choose|j: int|
                                0 <= j < k + 1 && coloring@[(#[trigger] nbrs@[j]) as int] as int
                                    == cc;
                            assert(j < k);
                        }
                        assert(seen@[cc] == seen0[cc]);
                    }
                }
            }
        } else {
            proof {
                assert(coloring@[prefix2.last() as int] == UNCOLORED);
                assert(sat_count(prefix2, coloring@) == sat_count(prefix, coloring@));
                assert forall|cc: int|
                    0 <= cc < seen@.len() implies ((#[trigger] seen@[cc]) <==> exists|j: int|
                    0 <= j < k + 1 && coloring@[(#[trigger] nbrs@[j]) as int] as int == cc) by {
                    assert(cc < UNCOLORED as int);
                    if exists|j: int|
                        0 <= j < k + 1 && coloring@[(#[trigger] nbrs@[j]) as int] as int == cc {
                        let j = choose|j: int|
                            0 <= j < k + 1 && coloring@[(#[trigger] nbrs@[j]) as int] as int == cc;
                        assert(j < k);
                    }
                }
            }
        }
    }
    proof {
        assert(nbrs@.take(deg as int) =~= nbrs@);
    }
    count
}

/// Number of uncolored neighbors of `v` under the current partial coloring.
pub(crate) fn uncolored_degree_of<G: ColorableGraph>(graph: &G, v: usize, coloring: &Vec<usize>) -> (d: usize)
    requires
        graph_ok(graph.adj()),
        coloring@.len() == graph.adj().len(),
        (v as int) < graph.adj().len(),
    ensures
        d == uncolored_nbrs(graph.adj()[v as int], coloring@),
{
    let nbrs = graph.neighbors(v);
    let deg = nbrs.len();
    let mut count: usize = 0;
    for k in 0..deg
        invariant
            deg == nbrs@.len(),
            forall|j: int| 0 <= j < nbrs@.len() ==> ((#[trigger] nbrs@[j]) as int)
                < coloring@.len(),
            count <= k,
            count == uncolored_nbrs(nbrs@.take(k as int), coloring@),
    {
        let u = *vstd::slice::slice_index_get(nbrs, k);
        let ghost prefix = nbrs@.take(k as int);
        let ghost prefix2 = nbrs@.take(k as int + 1);
        if coloring[u] == UNCOLORED {
            count = count + 1;
        }
        proof {
            assert(prefix2.drop_last() =~= prefix);
            assert(prefix2.last() == nbrs@[k as int]);
        }
    }
    proof {
        assert(nbrs@.take(deg as int) =~= nbrs@);
    }
    count
}

/// DSATUR: repeatedly color the most saturated uncolored vertex (ties by
/// uncolored degree, then by smallest id) with its smallest free color.
pub fn color_greedy_dsatur<G: ColorableGraph>(graph: &G) -> (coloring: Vec<usize>)
    requires
        graph_ok(graph.adj()),
    ensures
        coloring@ == dsatur_coloring(graph.adj()),
        valid_coloring(graph.adj(), coloring@),
{
    let ghost adj = graph.adj();
    let n = graph.num_vertices();
    let mut coloring: Vec<usize> = Vec::new();
    for i in 0..n
        invariant
            coloring@.len() == i,
            forall|m: int| 0 <= m < i ==> (#[trigger] coloring@[m]) == UNCOLORED,
    {
        coloring.push(UNCOLORED);
    }
    proof {
        assert(coloring@ =~= all_uncolored(adj.len()));
    }
    loop
        invariant
            adj == graph.adj(),
            graph_ok(adj),
            n == adj.len(),
            coloring@.len() == n,
            partial_ok(adj, coloring@),
            dsatur_rec(adj, coloring@) == dsatur_coloring(adj),
        ensures
            dsatur_pick_from(adj, coloring@, 0) == Option::<usize>::None,
        decreases count_uncolored(coloring@),
    {
        let mut best: usize = n;
        let mut bs: usize = 0;
        let mut bd: usize = 0;
        let mut vi: usize = n;
        while vi > 0
            invariant
                adj == graph.adj(),
                graph_ok(adj),
                n == adj.len(),
                coloring@.len() == n,
                partial_ok(adj, coloring@),
                vi <= n,
                best == n ==> dsatur_pick_from(adj, coloring@, vi as int) == Option::<usize>::None,
                best != n ==> best < n && dsatur_pick_from(adj, coloring@, vi as int) == Some(best)
                    && bs == sat_count(adj[best as int], coloring@) && bd == uncolored_nbrs(
                    adj[best as int],
                    coloring@,
                ),
            decreases vi,
        {
            vi = vi - 1;
            if coloring[vi] == UNCOLORED {
                let sv = saturation_of(graph, vi, &coloring);
                let dv = uncolored_degree_of(graph, vi, &coloring);
                if best == n {
                    best = vi;
                    bs = sv;
                    bd = dv;
                } else if sv > bs || (sv == bs && dv >= bd) {
                    best = vi;
                    bs = sv;
                    bd = dv;
                }
            }
        }
        if best == n {
            break;
        }
        let v = best;
        let ghost col0 = coloring@;
        let nbrs = graph.neighbors(v);
        let c = smallest_free_color(nbrs, &coloring, Ghost(v as int));
        coloring[v] = c;
        proof {
            lemma_color_step_ok(adj, col0, v as int, c);
            assert(coloring@ == greedy_step(adj, col0, v));
            assert(dsatur_rec(adj, col0) == dsatur_rec(adj, coloring@));
            lemma_dsatur_pick(adj, col0, 0);
            lemma_count_uncolored_dec(col0, v as int, c);
        }
    }
    proof {
        lemma_dsatur_pick(adj, coloring@, 0);
        assert(dsatur_rec(adj, coloring@) == coloring@);
        lemma_complete_valid(adj, coloring@);
    }
    coloring
}

/// On a graph with no edges every vertex is isolated, so DSATUR gives every
/// vertex the color 0.
pub proof fn lemma_dsatur_no_edges(adj: Seq<Seq<usize>>)
    requires
        graph_ok(adj),
        adj.len() <= usize::MAX,
        forall|v: int| 0 <= v < adj.len() ==> (#[trigger] adj[v]).len() == 0,
    ensures
        dsatur_coloring(adj).len() == adj.len(),
        forall|v: int| 0 <= v < adj.len() ==> (#[trigger] dsatur_coloring(adj)[v]) == 0,
{
    lemma_dsatur_rec_zeros(adj, all_uncolored(adj.len()));
}

proof fn lemma_dsatur_rec_zeros(adj: Seq<Seq<usize>>, col: Seq<usize>)
    requires
        graph_ok(adj),
        adj.len() <= usize::MAX,
        col.len() == adj.len(),
        forall|v: int| 0 <= v < adj.len() ==> (#[trigger] adj[v]).len() == 0,
        forall|v: int| 0 <= v < col.len() ==> (#[trigger] col[v]) == 0 || col[v] == UNCOLORED,
    ensures
        dsatur_rec(adj, col).len() == col.len(),
        forall|v: int| 0 <= v < col.len() ==> (#[trigger] dsatur_rec(adj, col)[v]) == 0,
    decreases count_uncolored(col),
{
    lemma_dsatur_pick(adj, col, 0);
    match dsatur_pick_from(adj, col, 0) {
        None => {
            assert forall|v: int| 0 <= v < col.len() implies (#[trigger] dsatur_rec(adj, col)[v])
                == 0 by {
                assert(col[v] != UNCOLORED);
            }
        },
        Some(v) => {
            let c = least_free(adj[v as int], col);
            assert(is_least_free(adj[v as int], col, 0)) by {
                assert(color_free(adj[v as int], col, 0));
            }
            lemma_least_free_witness(adj[v as int], col, 0);
            assert(c == 0);
            lemma_count_uncolored_dec(col, v as int, c);
            lemma_dsatur_rec_zeros(adj, greedy_step(adj, col, v));
        },
    }
}

} // verus!
