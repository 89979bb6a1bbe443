//! RLF (Recursive Largest First): builds one color class per outer round as
//! a maximal independent set. Within a round, vertices adjacent to the class
//! are barred from it; candidates are ranked by how many barred neighbors
//! they have (descending), then by how many candidates they neighbor
//! (ascending), then by id.

use vstd::prelude::*;

use crate::dsatur::uncolored_nbrs;
use crate::graph::ColorableGraph;
use crate::model::all_uncolored;
use crate::model::color_free;
use crate::model::count_uncolored;
use crate::model::edge;
use crate::model::graph_ok;
use crate::model::lemma_degree_le_max;
use crate::model::lemma_max_degree_lt;
use crate::model::lemma_uncolored_finite;
use crate::model::lemma_used_colors_bound;
use crate::model::uncolored_set;
use crate::model::valid_coloring;
use crate::model::UNCOLORED;

verus! {

/// Number of entries of `nbrs` barred in the current round.
pub open spec fn barred_nbrs(nbrs: Seq<usize>, barred: Seq<bool>) -> nat
    decreases nbrs.len(),
{
    if nbrs.len() == 0 {
        0
    } else {
        barred_nbrs(nbrs.drop_last(), barred) + if barred[nbrs.last() as int] {
            1nat
        } else {
            0nat
        }
    }
}

/// Number of entries of `nbrs` still in the candidate pool: uncolored and
/// not barred.
pub open spec fn pool_nbrs(nbrs: Seq<usize>, col: Seq<usize>, barred: Seq<bool>) -> nat
    decreases nbrs.len(),
{
    if nbrs.len() == 0 {
        0
    } else {
        pool_nbrs(nbrs.drop_last(), col, barred) + if col[nbrs.last() as int] == UNCOLORED
            && !barred[nbrs.last() as int] {
            1nat
        } else {
            0nat
        }
    }
}

/// The seed of a round: the uncolored vertex with the most uncolored
/// neighbors, smallest id on ties.
pub open spec fn rlf_seed_from(adj: Seq<Seq<usize>>, col: Seq<usize>, i: int) -> Option<usize>
    decreases adj.len() - i,
{
    if i < 0 || i >= adj.len() {
        None
    } else {
        let rest = rlf_seed_from(adj, col, i + 1);
        if col[i] != UNCOLORED {
            rest
        } else {
            match rest {
                None => Some(i as usize),
                Some(w) => if uncolored_nbrs(adj[i], col) >= uncolored_nbrs(adj[w as int], col) {
                    Some(i as usize)
                } else {
                    Some(w)
                },
            }
        }
    }
}

/// Candidate `a` ranks at least as high as `b` for extending the class:
/// more barred neighbors first, then fewer pool neighbors.
pub open spec fn rlf_key_ge(
    adj: Seq<Seq<usize>>,
    col: Seq<usize>,
    barred: Seq<bool>,
    a: int,
    b: int,
) -> bool {
    let ba = barred_nbrs(adj[a], barred);
    let bb = barred_nbrs(adj[b], barred);
    ba > bb || (ba == bb && pool_nbrs(adj[a], col, barred) <= pool_nbrs(adj[b], col, barred))
}

/// The next vertex to join the class: the highest-ranked pool vertex,
/// smallest id on ties.
pub open spec fn rlf_pick_from(
    adj: Seq<Seq<usize>>,
    col: Seq<usize>,
    barred: Seq<bool>,
    i: int,
) -> Option<usize>
    decreases adj.len() - i,
{
    if i < 0 || i >= adj.len() {
        None
    } else {
        let rest = rlf_pick_from(adj, col, barred, i + 1);
        if col[i] != UNCOLORED || barred[i] {
            rest
        } else {
            match rest {
                None => Some(i as usize),
                Some(w) => if rlf_key_ge(adj, col, barred, i, w as int) {
                    Some(i as usize)
                } else {
                    Some(w)
                },
            }
        }
    }
}

pub proof fn lemma_rlf_seed(adj: Seq<Seq<usize>>, col: Seq<usize>, i: int)
    requires
        0 <= i <= adj.len(),
        adj.len() <= usize::MAX,
    ensures
        match rlf_seed_from(adj, col, i) {
            None => forall|u: int| i <= u < adj.len() ==> (#[trigger] col[u]) != UNCOLORED,
            Some(v) => {
                &&& i <= v as int
                &&& (v as int) < adj.len()
                &&& col[v as int] == UNCOLORED
            },
        },
    decreases adj.len() - i,
{
    if i < adj.len() {
        lemma_rlf_seed(adj, col, i + 1);
    }
}

pub proof fn lemma_rlf_pick(adj: Seq<Seq<usize>>, col: Seq<usize>, barred: Seq<bool>, i: int)
    requires
        0 <= i <= adj.len(),
        adj.len() <= usize::MAX,
    ensures
        match rlf_pick_from(adj, col, barred, i) {
            None => forall|u: int|
                i <= u < adj.len() ==> ((#[trigger] col[u]) != UNCOLORED || barred[u]),
            Some(v) => {
                &&& i <= v as int
                &&& (v as int) < adj.len()
                &&& col[v as int] == UNCOLORED
                &&& !barred[v as int]
            },
        },
    decreases adj.len() - i,
{
    if i < adj.len() {
        lemma_rlf_pick(adj, col, barred, i + 1);
    }
}

/// Mark every still-uncolored neighbor of `v` as barred from the class.
pub open spec fn bar_neighbors(
    adj: Seq<Seq<usize>>,
    col: Seq<usize>,
    barred: Seq<bool>,
    v: int,
) -> Seq<bool> {
    Seq::new(barred.len(), |u: int| barred[u] || (col[u] == UNCOLORED && adj[v].contains(u as usize)))
}

/// The candidate pool: uncolored, not barred.
pub open spec fn pool_set(col: Seq<usize>, barred: Seq<bool>) -> Set<int> {
    Set::new(|v: int| 0 <= v < col.len() && col[v] == UNCOLORED && !barred[v])
}

pub open spec fn pool_count(col: Seq<usize>, barred: Seq<bool>) -> nat {
    pool_set(col, barred).len()
}

pub proof fn lemma_pool_finite(col: Seq<usize>, barred: Seq<bool>)
    ensures
        pool_set(col, barred).finite(),
        pool_count(col, barred) <= col.len(),
{
    broadcast use vstd::set::group_set_axioms;

    vstd::set_lib::lemma_int_range(0, col.len() as int);
    vstd::set_lib::lemma_len_subset(
        pool_set(col, barred),
        vstd::set_lib::set_int_range(0, col.len() as int),
    );
}

pub proof fn lemma_pool_dec(
    adj: Seq<Seq<usize>>,
    col: Seq<usize>,
    barred: Seq<bool>,
    v: int,
    c: usize,
)
    requires
        0 <= v < col.len(),
        col[v] == UNCOLORED,
        !barred[v],
        barred.len() == col.len(),
        c != UNCOLORED,
    ensures
        pool_count(col.update(v, c), bar_neighbors(adj, col.update(v, c), barred, v)) < pool_count(
            col,
            barred,
        ),
{
    broadcast use vstd::set::group_set_axioms;

    let col2 = col.update(v, c);
    let barred2 = bar_neighbors(adj, col2, barred, v);
    lemma_pool_finite(col, barred);
    lemma_pool_finite(col2, barred2);
    assert(pool_set(col, barred).contains(v));
    assert(pool_set(col, barred).remove(v).len() == pool_set(col, barred).len() - 1);
    assert(pool_set(col2, barred2).subset_of(pool_set(col, barred).remove(v)));
    vstd::set_lib::lemma_len_subset(pool_set(col2, barred2), pool_set(col, barred).remove(v));
}

/// One round continued: repeatedly add the best pool vertex to the class
/// colored `c`, barring its uncolored neighbors.
pub open spec fn rlf_extend(
    adj: Seq<Seq<usize>>,
    col: Seq<usize>,
    barred: Seq<bool>,
    c: usize,
) -> Seq<usize>
    decreases pool_count(col, barred),
        when col.len() == adj.len() && barred.len() == col.len() && adj.len() <= usize::MAX && c
            != UNCOLORED
        via rlf_extend_dec
{
    match rlf_pick_from(adj, col, barred, 0) {
        None => col,
        Some(v) => {
            let col2 = col.update(v as int, c);
            let barred2 = bar_neighbors(adj, col2, barred, v as int);
            rlf_extend(adj, col2, barred2, c)
        },
    }
}

#[via_fn]
proof fn rlf_extend_dec(adj: Seq<Seq<usize>>, col: Seq<usize>, barred: Seq<bool>, c: usize) {
    lemma_rlf_pick(adj, col, barred, 0);
    match rlf_pick_from(adj, col, barred, 0) {
        None => {},
        Some(v) => {
            lemma_pool_dec(adj, col, barred, v as int, c);
        },
    }
}

/// The round-opening state: nothing barred yet.
pub open spec fn all_unbarred(n: nat) -> Seq<bool> {
    Seq::new(n, |i: int| false)
}

/// One full outer round with color `c`: seed the class with the uncolored
/// vertex of highest uncolored degree, then extend it maximally.
pub open spec fn rlf_round(adj: Seq<Seq<usize>>, col: Seq<usize>, c: usize) -> Seq<usize> {
    match rlf_seed_from(adj, col, 0) {
        None => col,
        Some(s) => {
            let col2 = col.update(s as int, c);
            let barred2 = bar_neighbors(adj, col2, all_unbarred(col.len()), s as int);
            rlf_extend(adj, col2, barred2, c)
        },
    }
}

/// Every entry the extension touches was a pool vertex and now carries `c`.
proof fn lemma_rlf_extend_frame(adj: Seq<Seq<usize>>, col: Seq<usize>, barred: Seq<bool>, c: usize)
    requires
        col.len() == adj.len(),
        barred.len() == col.len(),
        adj.len() <= usize::MAX,
        c != UNCOLORED,
    ensures
        rlf_extend(adj, col, barred, c).len() == col.len(),
        forall|u: int|
            0 <= u < col.len() && col[u] != UNCOLORED ==> #[trigger] rlf_extend(
                adj,
                col,
                barred,
                c,
            )[u] == col[u],
        forall|u: int|
            0 <= u < col.len() && col[u] == UNCOLORED ==> (#[trigger] rlf_extend(
                adj,
                col,
                barred,
                c,
            )[u] == UNCOLORED || rlf_extend(adj, col, barred, c)[u] == c),
        forall|u: int|
            0 <= u < col.len() && col[u] == UNCOLORED && barred[u] ==> #[trigger] rlf_extend(
                adj,
                col,
                barred,
                c,
            )[u] == UNCOLORED,
    decreases pool_count(col, barred),
{
    lemma_rlf_pick(adj, col, barred, 0);
    match rlf_pick_from(adj, col, barred, 0) {
        None => {},
        Some(v) => {
            lemma_pool_dec(adj, col, barred, v as int, c);
            let col2 = col.update(v as int, c);
            let barred2 = bar_neighbors(adj, col2, barred, v as int);
            lemma_rlf_extend_frame(adj, col2, barred2, c);
        },
    }
}

/// The class invariant carried through one round's extension: class members
/// are pairwise nonadjacent, pool vertices have no class neighbor, and
/// barred vertices do.
proof fn lemma_rlf_extend_class(adj: Seq<Seq<usize>>, col: Seq<usize>, barred: Seq<bool>, c: usize)
    requires
        graph_ok(adj),
        col.len() == adj.len(),
        barred.len() == col.len(),
        adj.len() <= usize::MAX,
        c != UNCOLORED,
        // pool vertices have no neighbor colored c
        forall|v: int|
            0 <= v < col.len() && col[v] == UNCOLORED && !barred[v] ==> color_free(
                #[trigger] adj[v],
                col,
                c,
            ),
        // barred vertices are uncolored and already have a neighbor in the class
        forall|u: int|
            0 <= u < col.len() && barred[u] ==> (#[trigger] col[u]) == UNCOLORED && !color_free(
                adj[u],
                col,
                c,
            ),
    ensures
        ({
            let r = rlf_extend(adj, col, barred, c);
            // every vertex left uncolored by the round has a class neighbor
            // unless it still had none and the pick loop kept running; at the
            // fixed point the pool is empty, so all of them are barred
            &&& forall|u: int|
                0 <= u < col.len() && col[u] == UNCOLORED && #[trigger] r[u] == UNCOLORED
                    ==> !color_free(adj[u], r, c)
            // class members keep no neighbor colored c: independence
            &&& forall|v: int|
                0 <= v < col.len() && #[trigger] r[v] == c && col[v] == UNCOLORED ==> color_free(
                    adj[v],
                    r,
                    c,
                )
        }),
    decreases pool_count(col, barred),
{
    lemma_rlf_pick(adj, col, barred, 0);
    let r = rlf_extend(adj, col, barred, c);
    match rlf_pick_from(adj, col, barred, 0) {
        None => {
            // pool empty: every uncolored vertex is barred, hence not free
            assert forall|u: int|
                0 <= u < col.len() && col[u] == UNCOLORED && #[trigger] r[u]
                    == UNCOLORED implies !color_free(adj[u], r, c) by {
                assert(barred[u]);
                assert(r == col);
            }
        },
        Some(v) => {
            lemma_pool_dec(adj, col, barred, v as int, c);
            let col2 = col.update(v as int, c);
            let barred2 = bar_neighbors(adj, col2, barred, v as int);
            assert forall|w: int|
                0 <= w < col2.len() && col2[w] == UNCOLORED && !barred2[w] implies color_free(
                #[trigger] adj[w],
                col2,
                c,
            ) by {
                assert forall|j: int| 0 <= j < adj[w].len() implies col2[(#[trigger] adj[w][j]) as int]
                    != c by {
                    let x = adj[w][j] as int;
                    if x == v as int {
                        // w would have been barred as a neighbor of v
                        assert(edge(adj, w, v as int));
                        assert(edge(adj, v as int, w));
                        assert(barred2[w]);
                    } else {
                        assert(col2[x] == col[x]);
                    }
                }
            }
            assert forall|u: int|
                0 <= u < col2.len() && barred2[u] implies (#[trigger] col2[u]) == UNCOLORED
                && !color_free(adj[u], col2, c) by {
                if barred[u] {
                    assert(col[u] == UNCOLORED);
                    assert(u != v as int);
                    let j = choose|j: int| 0 <= j < adj[u].len() && col[adj[u][j] as int] == c;
                    assert(col2[adj[u][j] as int] == c);
                } else {
                    // newly barred: uncolored neighbor of v, and v now has color c
                    assert(col2[u] == UNCOLORED && adj[v as int].contains(u as usize));
                    assert(u != v as int);
                    assert(edge(adj, v as int, u));
                    assert(edge(adj, u, v as int));
                    let j = choose|j: int| 0 <= j < adj[u].len() && adj[u][j] == v as usize;
                    assert(col2[adj[u][j] as int] == c);
                }
            }
            lemma_rlf_extend_class(adj, col2, barred2, c);
            lemma_rlf_extend_frame(adj, col2, barred2, c);
            // transfer the conclusions from the recursive call back to `col`
            assert forall|u: int|
                0 <= u < col.len() && col[u] == UNCOLORED && #[trigger] r[u]
                    == UNCOLORED implies !color_free(adj[u], r, c) by {
                assert(u != v as int);
                assert(col2[u] == UNCOLORED);
            }
            assert forall|w: int|
                0 <= w < col.len() && #[trigger] r[w] == c && col[w] == UNCOLORED implies color_free(
                adj[w],
                r,
                c,
            ) by {
                if w == v as int {
                    // v's neighbors were barred, and barred vertices stay out
                    assert forall|j: int| 0 <= j < adj[w].len() implies r[(#[trigger] adj[w][j]) as int]
                        != c by {
                        let x = adj[w][j] as int;
                        assert(x != v as int);
                        if col[x] == UNCOLORED {
                            assert(edge(adj, v as int, x));
                            assert(barred2[x]);
                            assert(r[x] == UNCOLORED);
                        } else {
                            assert(color_free(adj[v as int], col, c));
                            assert(r[x] == col[x]);
                        }
                    }
                } else {
                    assert(col2[w] == UNCOLORED);
                }
            }
        },
    }
}

/// One round keeps all earlier colors, assigns only `c`, and the class it
/// builds is an independent set, maximal among the vertices that were still
/// uncolored when the round began.
pub proof fn lemma_rlf_round_class(adj: Seq<Seq<usize>>, col: Seq<usize>, c: usize)
    requires
        graph_ok(adj),
        col.len() == adj.len(),
        adj.len() <= usize::MAX,
        c != UNCOLORED,
        forall|v: int| 0 <= v < col.len() && (#[trigger] col[v]) != UNCOLORED ==> col[v] != c,
    ensures
        ({
            let r = rlf_round(adj, col, c);
            &&& r.len() == col.len()
            &&& forall|v: int|
                0 <= v < col.len() && (#[trigger] col[v]) != UNCOLORED ==> r[v] == col[v]
            &&& forall|v: int|
                0 <= v < col.len() && #[trigger] r[v] != col[v] ==> col[v] == UNCOLORED && r[v] == c
            &&& forall|v: int, j: int|
                0 <= v < col.len() && 0 <= j < adj[v].len() && r[v] == c && col[v] == UNCOLORED
                    ==> r[(#[trigger] adj[v][j]) as int] != c
            &&& forall|v: int|
                0 <= v < col.len() && (#[trigger] col[v]) == UNCOLORED && r[v] == UNCOLORED
                    ==> !color_free(adj[v], r, c)
            &&& match rlf_seed_from(adj, col, 0) {
                None => r == col,
                Some(s) => r[s as int] == c,
            }
        }),
{
    lemma_rlf_seed(adj, col, 0);
    let r = rlf_round(adj, col, c);
    match rlf_seed_from(adj, col, 0) {
        None => {},
        Some(s) => {
            let col2 = col.update(s as int, c);
            let barred2 = bar_neighbors(adj, col2, all_unbarred(col.len()), s as int);
            // pool vertices of the seeded state have no class neighbor
            assert forall|w: int|
                0 <= w < col2.len() && col2[w] == UNCOLORED && !barred2[w] implies color_free(
                #[trigger] adj[w],
                col2,
                c,
            ) by {
                assert forall|j: int| 0 <= j < adj[w].len() implies col2[(#[trigger] adj[w][j]) as int]
                    != c by {
                    let x = adj[w][j] as int;
                    if x == s as int {
                        assert(edge(adj, w, s as int));
                        assert(edge(adj, s as int, w));
                        assert(barred2[w]);
                    } else {
                        assert(col2[x] == col[x]);
                    }
                }
            }
            assert forall|u: int|
                0 <= u < col2.len() && barred2[u] implies (#[trigger] col2[u]) == UNCOLORED
                && !color_free(adj[u], col2, c) by {
                assert(col2[u] == UNCOLORED && adj[s as int].contains(u as usize));
                assert(u != s as int);
                assert(edge(adj, s as int, u));
                assert(edge(adj, u, s as int));
                let j = choose|j: int| 0 <= j < adj[u].len() && adj[u][j] == s as usize;
                assert(col2[adj[u][j] as int] == c);
            }
            lemma_rlf_extend_class(adj, col2, barred2, c);
            lemma_rlf_extend_frame(adj, col2, barred2, c);
            assert(r[s as int] == c);
            // independence also holds for the seed itself
            assert forall|v: int, j: int|
                0 <= v < col.len() && 0 <= j < adj[v].len() && r[v] == c && col[v]
                    == UNCOLORED implies r[(#[trigger] adj[v][j]) as int] != c by {
                let x = adj[v][j] as int;
                if v == s as int {
                    assert(x != s as int);
                    if col[x] == UNCOLORED {
                        assert(edge(adj, s as int, x));
                        assert(barred2[x]);
                        assert(r[x] == UNCOLORED);
                    } else {
                        assert(r[x] == col[x]);
                    }
                } else {
                    assert(col2[v] == UNCOLORED);
                    assert(color_free(adj[v], r, c));
                }
            }
            assert forall|v: int|
                0 <= v < col.len() && (#[trigger] col[v]) == UNCOLORED && r[v]
                    == UNCOLORED implies !color_free(adj[v], r, c) by {
                assert(v != s as int);
                assert(col2[v] == UNCOLORED);
            }
        },
    }
}

/// The invariant between rounds: all colors assigned so far are below the
/// round counter and at most the owner's degree, no edge is monochromatic,
/// and every still-uncolored vertex has seen every earlier color on some
/// neighbor (it was barred in each earlier round).
pub open spec fn rlf_state_ok(adj: Seq<Seq<usize>>, col: Seq<usize>, c: usize) -> bool {
    &&& col.len() == adj.len()
    &&& forall|v: int| 0 <= v < col.len() && (#[trigger] col[v]) != UNCOLORED ==> col[v] < c
    &&& forall|v: int|
        0 <= v < col.len() && (#[trigger] col[v]) != UNCOLORED ==> (col[v] as int) <= adj[v].len()
    &&& forall|v: int, j: int|
        0 <= v < adj.len() && 0 <= j < adj[v].len() && col[v] != UNCOLORED ==> col[(#[trigger] adj[v][j]) as int]
            != col[v]
    &&& forall|v: int, d: usize|
        0 <= v < col.len() && col[v] == UNCOLORED && d < c ==> !(#[trigger] color_free(
            adj[v],
            col,
            d,
        ))
}

proof fn lemma_rlf_round_ok(adj: Seq<Seq<usize>>, col: Seq<usize>, c: usize)
    requires
        graph_ok(adj),
        adj.len() <= usize::MAX,
        rlf_state_ok(adj, col, c),
        c != UNCOLORED,
    ensures
        rlf_state_ok(adj, rlf_round(adj, col, c), (c + 1) as usize),
        rlf_round(adj, col, c).len() == col.len(),
        forall|v: int|
            0 <= v < col.len() && (#[trigger] col[v]) != UNCOLORED ==> rlf_round(adj, col, c)[v]
                == col[v],
{
    lemma_rlf_round_class(adj, col, c);
    let r = rlf_round(adj, col, c);
    assert forall|v: int|
        0 <= v < r.len() && (#[trigger] r[v]) != UNCOLORED implies (r[v] as int)
        <= adj[v].len() by {
        if col[v] == UNCOLORED {
            assert(r[v] == c);
            lemma_used_colors_bound(adj[v], col, c);
        }
    }
    assert forall|v: int, j: int|
        0 <= v < adj.len() && 0 <= j < adj[v].len() && r[v] != UNCOLORED implies r[(
    #[trigger] adj[v][j]) as int] != r[v] by {
        let x = adj[v][j] as int;
        if col[v] != UNCOLORED {
            // an old color: old neighbors changed only by gaining color c
            assert(r[v] == col[v]);
            if r[x] != col[x] {
                assert(r[x] == c);
            }
        }
    }
    assert forall|v: int, d: usize|
        0 <= v < r.len() && r[v] == UNCOLORED && d < (c + 1) as usize implies !(
    #[trigger] color_free(adj[v], r, d)) by {
        assert(col[v] == UNCOLORED);
        if d < c {
            assert(!color_free(adj[v], col, d));
            let j = choose|j: int| 0 <= j < adj[v].len() && col[adj[v][j] as int] == d;
            assert(col[adj[v][j] as int] != UNCOLORED);
            assert(r[adj[v][j] as int] == d);
        } else {
            assert(d == c);
            assert(!color_free(adj[v], r, c));
        }
    }
}

/// The full RLF run continued from `col` with the next class color `c`.
pub open spec fn rlf_rec(adj: Seq<Seq<usize>>, col: Seq<usize>, c: usize) -> Seq<usize>
    decreases count_uncolored(col),
        when col.len() == adj.len() && adj.len() <= usize::MAX && c as int + count_uncolored(col)
            <= col.len()
        via rlf_rec_dec
{
    match rlf_seed_from(adj, col, 0) {
        None => col,
        Some(s) => rlf_rec(adj, rlf_round(adj, col, c), (c + 1) as usize),
    }
}

/// The round strictly shrinks the uncolored set and keeps the budget
/// `c + count_uncolored <= n` of the outer recursion.
proof fn lemma_rlf_round_progress(adj: Seq<Seq<usize>>, col: Seq<usize>, c: usize, s: usize)
    requires
        col.len() == adj.len(),
        adj.len() <= usize::MAX,
        c as int + count_uncolored(col) <= col.len(),
        rlf_seed_from(adj, col, 0) == Some(s),
    ensures
        c != UNCOLORED,
        count_uncolored(rlf_round(adj, col, c)) < count_uncolored(col),
        (c + 1) as int + count_uncolored(rlf_round(adj, col, c)) <= col.len(),
        rlf_round(adj, col, c).len() == col.len(),
{
    broadcast use vstd::set::group_set_axioms;

    lemma_rlf_seed(adj, col, 0);
    lemma_uncolored_finite(col);
    assert(uncolored_set(col).contains(s as int));
    assert(uncolored_set(col).remove(s as int).len() == uncolored_set(col).len() - 1);
    assert(count_uncolored(col) >= 1);
    assert(c as int <= col.len() - 1);
    assert(c != UNCOLORED);
    let col2 = col.update(s as int, c);
    let barred2 = bar_neighbors(adj, col2, all_unbarred(col.len()), s as int);
    lemma_rlf_extend_frame(adj, col2, barred2, c);
    let r = rlf_round(adj, col, c);
    assert(uncolored_set(r).subset_of(uncolored_set(col).remove(s as int)));
    vstd::set_lib::lemma_len_subset(uncolored_set(r), uncolored_set(col).remove(s as int));
    lemma_uncolored_finite(r);
}

#[via_fn]
proof fn rlf_rec_dec(adj: Seq<Seq<usize>>, col: Seq<usize>, c: usize) {
    match rlf_seed_from(adj, col, 0) {
        None => {},
        Some(s) => {
            lemma_rlf_round_progress(adj, col, c, s);
        },
    }
}

/// The coloring RLF produces on a well-formed graph.
pub open spec fn rlf_coloring(adj: Seq<Seq<usize>>) -> Seq<usize> {
    rlf_rec(adj, all_uncolored(adj.len()), 0)
}

proof fn lemma_rlf_rec_valid(adj: Seq<Seq<usize>>, col: Seq<usize>, c: usize)
    requires
        graph_ok(adj),
        adj.len() <= usize::MAX,
        rlf_state_ok(adj, col, c),
        c as int + count_uncolored(col) <= col.len(),
    ensures
        ({
            let r = rlf_rec(adj, col, c);
            &&& r.len() == col.len()
            &&& forall|v: int| 0 <= v < r.len() ==> (#[trigger] r[v]) != UNCOLORED
            &&& forall|v: int| 0 <= v < r.len() ==> ((#[trigger] r[v]) as int) <= adj[v].len()
            &&& forall|v: int, j: int|
                0 <= v < adj.len() && 0 <= j < adj[v].len() ==> r[(#[trigger] adj[v][j]) as int]
                    != r[v]
        }),
    decreases count_uncolored(col),
{
    lemma_rlf_seed(adj, col, 0);
    match rlf_seed_from(adj, col, 0) {
        None => {},
        Some(s) => {
            lemma_rlf_round_progress(adj, col, c, s);
            lemma_rlf_round_ok(adj, col, c);
            lemma_rlf_rec_valid(adj, rlf_round(adj, col, c), (c + 1) as usize);
        },
    }
}

/// RLF's output is a complete proper coloring within both color bounds.
pub proof fn lemma_rlf_valid(adj: Seq<Seq<usize>>)
    requires
        graph_ok(adj),
        adj.len() <= usize::MAX,
    ensures
        rlf_coloring(adj).len() == adj.len(),
        valid_coloring(adj, rlf_coloring(adj)),
{
    let col = all_uncolored(adj.len());
    lemma_uncolored_finite(col);
    lemma_rlf_rec_valid(adj, col, 0);
    let r = rlf_coloring(adj);
    assert forall|v: int| 0 <= v < r.len() implies ((#[trigger] r[v]) as int) <= crate::model::max_degree_of(
        adj,
    ) && ((r[v] as int) < r.len()) by {
        lemma_degree_le_max(adj, adj.len() as int, v);
        lemma_max_degree_lt(adj, adj.len() as int);
    }
}

/// Number of barred entries among the neighbors of `v`.
fn barred_degree_of<G: ColorableGraph>(graph: &G, v: usize, barred: &Vec<bool>) -> (d: usize)
    requires
        graph_ok(graph.adj()),
        barred@.len() == graph.adj().len(),
        (v as int) < graph.adj().len(),
    ensures
        d == barred_nbrs(graph.adj()[v as int], barred@),
{
    let nbrs = graph.neighbors(v);
    let deg = nbrs.len();
    let mut count: usize = 0;
    for k in 0..deg
        invariant
            deg == nbrs@.len(),
            forall|j: int| 0 <= j < nbrs@.len() ==> ((#[trigger] nbrs@[j]) as int) < barred@.len(),
            count <= k,
            count == barred_nbrs(nbrs@.take(k as int), barred@),
    {
        let u = *vstd::slice::slice_index_get(nbrs, k);
        let ghost prefix = nbrs@.take(k as int);
        let ghost prefix2 = nbrs@.take(k as int + 1);
        if barred[u] {
            count = count + 1;
        }
        proof {
            assert(prefix2.drop_last() =~= prefix);
            assert(prefix2.last() == nbrs@[k as int]);
        }
    }
    proof {
        assert(nbrs@.take(deg as int) =~= nbrs@);
    }
    count
}

/// Number of pool entries (uncolored, unbarred) among the neighbors of `v`.
fn pool_degree_of<G: ColorableGraph>(
    graph: &G,
    v: usize,
    coloring: &Vec<usize>,
    barred: &Vec<bool>,
) -> (d: usize)
    requires
        graph_ok(graph.adj()),
        coloring@.len() == graph.adj().len(),
        barred@.len() == graph.adj().len(),
        (v as int) < graph.adj().len(),
    ensures
        d == pool_nbrs(graph.adj()[v as int], coloring@, barred@),
{
    let nbrs = graph.neighbors(v);
    let deg = nbrs.len();
    let mut count: usize = 0;
    for k in 0..deg
        invariant
            deg == nbrs@.len(),
            forall|j: int| 0 <= j < nbrs@.len() ==> ((#[trigger] nbrs@[j]) as int)
                < coloring@.len(),
            coloring@.len() == barred@.len(),
            count <= k,
            count == pool_nbrs(nbrs@.take(k as int), coloring@, barred@),
    {
        let u = *vstd::slice::slice_index_get(nbrs, k);
        let ghost prefix = nbrs@.take(k as int);
        let ghost prefix2 = nbrs@.take(k as int + 1);
        if coloring[u] == UNCOLORED && !barred[u] {
            count = count + 1;
        }
        proof {
            assert(prefix2.drop_last() =~= prefix);
            assert(prefix2.last() == nbrs@[k as int]);
        }
    }
    proof {
        assert(nbrs@.take(deg as int) =~= nbrs@);
    }
    count
}

/// Mark every still-uncolored neighbor of `v` as barred.
fn bar_neighbors_of<G: ColorableGraph>(
    graph: &G,
    v: usize,
    coloring: &Vec<usize>,
    barred: &mut Vec<bool>,
)
    requires
        graph_ok(graph.adj()),
        coloring@.len() == graph.adj().len(),
        old(barred)@.len() == graph.adj().len(),
        (v as int) < graph.adj().len(),
    ensures
        final(barred)@ == bar_neighbors(graph.adj(), coloring@, old(barred)@, v as int),
{
    let ghost adj = graph.adj();
    let ghost barred0 = barred@;
    let nv = graph.num_vertices();
    let nbrs = graph.neighbors(v);
    let deg = nbrs.len();
    proof {
        assert(adj.len() == nv);
    }
    for k in 0..deg
        invariant
            adj == graph.adj(),
            deg == nbrs@.len(),
            nbrs@ == adj[v as int],
            (v as int) < adj.len(),
            coloring@.len() == adj.len(),
            barred@.len() == adj.len(),
            barred0.len() == adj.len(),
            forall|j: int| 0 <= j < nbrs@.len() ==> ((#[trigger] nbrs@[j]) as int)
                < coloring@.len(),
            forall|u: int|
                0 <= u < barred@.len() ==> ((#[trigger] barred@[u]) <==> (barred0[u] || (
                coloring@[u] == UNCOLORED && exists|j: int|
                    0 <= j < k && (#[trigger] nbrs@[j]) as int == u))),
    {
        let u = *vstd::slice::slice_index_get(nbrs, k);
        let ghost barred1 = barred@;
        if coloring[u] == UNCOLORED {
            barred[u] = true;
        }
        proof {
            assert forall|x: int|
                0 <= x < barred@.len() implies ((#[trigger] barred@[x]) <==> (barred0[x] || (
            coloring@[x] == UNCOLORED && exists|j: int|
                0 <= j < k + 1 && (#[trigger] nbrs@[j]) as int == x))) by {
                if x == u as int {
                    if coloring@[x] == UNCOLORED {
                        assert((nbrs@[k as int]) as int == x);
                        assert(barred@[x]);
                    } else {
                        assert(barred@[x] == barred1[x]);
                        if exists|j: int| 0 <= j < k + 1 && (#[trigger] nbrs@[j]) as int == x {
                        }
                    }
                } else {
                    assert(barred@[x] == barred1[x]);
                    if exists|j: int| 0 <= j < k + 1 && (#[trigger] nbrs@[j]) as int == x {
                        let j = choose|j: int| 0 <= j < k + 1 && (#[trigger] nbrs@[j]) as int == x;
                        assert(j < k);
                    }
                }
            }
        }
    }
    proof {
        assert forall|u: int|
            0 <= u < barred@.len() implies (#[trigger] barred@[u]) == (barred0[u] || (coloring@[u]
            == UNCOLORED && adj[v as int].contains(u as usize))) by {
            if coloring@[u] == UNCOLORED {
                if adj[v as int].contains(u as usize) {
                    let j = choose|j: int|
                        0 <= j < nbrs@.len() && (#[trigger] nbrs@[j]) == u as usize;
                    assert((nbrs@[j]) as int == u);
                }
                if exists|j: int| 0 <= j < deg && (#[trigger] nbrs@[j]) as int == u {
                    let j = choose|j: int| 0 <= j < deg && (#[trigger] nbrs@[j]) as int == u;
                    assert(nbrs@[j] == u as usize);
                    assert(adj[v as int].contains(u as usize));
                }
            }
        }
        assert(barred@ =~= bar_neighbors(adj, coloring@, barred0, v as int));
    }
}

/// RLF: color one class per round as a maximal independent set, choosing
/// the seed by uncolored degree and extensions by the two-tier counters.
pub fn color_rlf<G: ColorableGraph>(graph: &G) -> (coloring: Vec<usize>)
    requires
        graph_ok(graph.adj()),
    ensures
        coloring@ == rlf_coloring(graph.adj()),
        valid_coloring(graph.adj(), coloring@),
{
    let ghost adj = graph.adj();
    let n = graph.num_vertices();
    let mut coloring: Vec<usize> = Vec::new();
    for i in 0..n
        invariant
            coloring@.len() == i,
            forall|m: int| 0 <= m < i ==> (#[trigger] coloring@[m]) == UNCOLORED,
    {
        coloring.push(UNCOLORED);
    }
    let mut c: usize = 0;
    proof {
        assert(coloring@ =~= all_uncolored(adj.len()));
        lemma_uncolored_finite(coloring@);
    }
    loop
        invariant
            adj == graph.adj(),
            graph_ok(adj),
            n == adj.len(),
            coloring@.len() == n,
            c as int + count_uncolored(coloring@) <= n,
            rlf_rec(adj, coloring@, c) == rlf_coloring(adj),
        ensures
            rlf_seed_from(adj, coloring@, 0) == Option::<usize>::None,
            coloring@.len() == n,
            rlf_rec(adj, coloring@, c) == rlf_coloring(adj),
        decreases count_uncolored(coloring@),
    {
        // seed selection: highest uncolored degree, smallest id on ties
        let mut best: usize = n;
        let mut bd: usize = 0;
        let mut vi: usize = n;
        while vi > 0
            invariant
                adj == graph.adj(),
                graph_ok(adj),
                n == adj.len(),
                coloring@.len() == n,
                vi <= n,
                best == n ==> rlf_seed_from(adj, coloring@, vi as int) == Option::<usize>::None,
                best != n ==> best < n && rlf_seed_from(adj, coloring@, vi as int) == Some(best)
                    && bd == uncolored_nbrs(adj[best as int], coloring@),
            decreases vi,
        {
            vi = vi - 1;
            if coloring[vi] == UNCOLORED {
                let dv = crate::dsatur::uncolored_degree_of(graph, vi, &coloring);
                if best == n || dv >= bd {
                    best = vi;
                    bd = dv;
                }
            }
        }
        if best == n {
            break;
        }
        let s = best;
        let ghost col0 = coloring@;
        proof {
            lemma_rlf_round_progress(adj, col0, c, s);
        }
        coloring[s] = c;
        let mut barred: Vec<bool> = Vec::new();
        for i in 0..n
            invariant
                barred@.len() == i,
                forall|m: int| 0 <= m < i ==> !(#[trigger] barred@[m]),
        {
            barred.push(false);
        }
        proof {
            assert(barred@ =~= all_unbarred(n as nat));
        }
        bar_neighbors_of(graph, s, &coloring, &mut barred);
        proof {
            assert(coloring@ == col0.update(s as int, c));
            assert(rlf_round(adj, col0, c) == rlf_extend(adj, coloring@, barred@, c));
        }
        // extend the class until no candidate remains
        loop
            invariant
                adj == graph.adj(),
                graph_ok(adj),
                n == adj.len(),
                coloring@.len() == n,
                barred@.len() == n,
                c != UNCOLORED,
                rlf_extend(adj, coloring@, barred@, c) == rlf_round(adj, col0, c),
            ensures
                rlf_pick_from(adj, coloring@, barred@, 0) == Option::<usize>::None,
                rlf_extend(adj, coloring@, barred@, c) == rlf_round(adj, col0, c),
                coloring@.len() == n,
            decreases pool_count(coloring@, barred@),
        {
            let mut pick: usize = n;
            let mut pb: usize = 0;
            let mut pp: usize = 0;
            let mut vi2: usize = n;
            while vi2 > 0
                invariant
                    adj == graph.adj(),
                    graph_ok(adj),
                    n == adj.len(),
                    coloring@.len() == n,
                    barred@.len() == n,
                    vi2 <= n,
                    pick == n ==> rlf_pick_from(adj, coloring@, barred@, vi2 as int)
                        == Option::<usize>::None,
                    pick != n ==> pick < n && rlf_pick_from(adj, coloring@, barred@, vi2 as int)
                        == Some(pick) && pb == barred_nbrs(adj[pick as int], barred@) && pp
                        == pool_nbrs(adj[pick as int], coloring@, barred@),
                decreases vi2,
            {
                vi2 = vi2 - 1;
                if coloring[vi2] == UNCOLORED && !barred[vi2] {
                    let bv = barred_degree_of(graph, vi2, &barred);
                    let pv = pool_degree_of(graph, vi2, &coloring, &barred);
                    if pick == n || bv > pb || (bv == pb && pv <= pp) {
                        pick = vi2;
                        pb = bv;
                        pp = pv;
                    }
                }
            }
            if pick == n {
                break;
            }
            let v = pick;
            let ghost colp = coloring@;
            let ghost barredp = barred@;
            proof {
                lemma_rlf_pick(adj, colp, barredp, 0);
                lemma_pool_dec(adj, colp, barredp, v as int, c);
            }
            coloring[v] = c;
            bar_neighbors_of(graph, v, &coloring, &mut barred);
            proof {
                assert(coloring@ == colp.update(v as int, c));
                assert(rlf_extend(adj, colp, barredp, c) == rlf_extend(adj, coloring@, barred@, c));
            }
        }
        proof {
            lemma_rlf_pick(adj, coloring@, barred@, 0);
            assert(rlf_extend(adj, coloring@, barred@, c) == coloring@);
            assert(coloring@ == rlf_round(adj, col0, c));
            assert(rlf_rec(adj, col0, c) == rlf_rec(adj, coloring@, (c + 1) as usize));
        }
        c = c + 1;
    }
    proof {
        assert(rlf_rec(adj, coloring@, c) == coloring@);
        lemma_rlf_valid(adj);
    }
    coloring
}

} // verus!
