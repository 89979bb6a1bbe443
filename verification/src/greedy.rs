//! The "smallest free color" kernel and fixed-order greedy coloring, with
//! the id-order (naive) and degree-order front ends.

use vstd::prelude::*;

use crate::graph::ColorableGraph;
use crate::model::all_uncolored;
use crate::model::color_free;
use crate::model::graph_ok;
use crate::model::is_least_free;
use crate::model::least_free;
use crate::model::lemma_color_step_ok;
use crate::model::lemma_complete_valid;
use crate::model::lemma_least_free_exists;
use crate::model::lemma_least_free_witness;
use crate::model::lemma_permutation_contains;
use crate::model::partial_ok;
use crate::model::valid_coloring;
use crate::model::UNCOLORED;

verus! {

/// One greedy step: vertex `v` takes the smallest color no entry of its
/// neighbor list carries.
pub open spec fn greedy_step(adj: Seq<Seq<usize>>, col: Seq<usize>, v: usize) -> Seq<usize> {
    col.update(v as int, least_free(adj[v as int], col))
}

/// Greedy coloring continued from `col` over the remaining `order`.
pub open spec fn greedy_rec(adj: Seq<Seq<usize>>, order: Seq<usize>, col: Seq<usize>) -> Seq<usize>
    decreases order.len(),
{
    if order.len() == 0 {
        col
    } else {
        greedy_rec(adj, order.drop_first(), greedy_step(adj, col, order[0]))
    }
}

/// The coloring produced by fixed-order greedy over `order`.
pub open spec fn greedy_coloring(adj: Seq<Seq<usize>>, order: Seq<usize>) -> Seq<usize> {
    greedy_rec(adj, order, all_uncolored(adj.len()))
}

/// The identity order `0, 1, ..., n - 1`.
pub open spec fn id_order(n: nat) -> Seq<usize> {
    Seq::new(n, |i: int| i as usize)
}

/// The coloring of the naive algorithm: greedy in id order.
pub open spec fn naive_coloring(adj: Seq<Seq<usize>>) -> Seq<usize> {
    greedy_coloring(adj, id_order(adj.len()))
}

/// Smallest color not used by any entry of `nbrs` under `coloring`.
///
/// Builds a scratch bitmap of colors seen among the neighbors, then returns
/// the first index that is off the bitmap or past its end.
pub(crate) fn smallest_free_color(nbrs: &[usize], coloring: &Vec<usize>, Ghost(v): Ghost<int>) -> (c: usize)
    requires
        nbrs@.no_duplicates(),
        forall|j: int| 0 <= j < nbrs@.len() ==> ((#[trigger] nbrs@[j]) as int) < coloring@.len(),
        forall|j: int| 0 <= j < nbrs@.len() ==> (#[trigger] nbrs@[j]) as int != v,
        0 <= v < coloring@.len(),
        forall|i: int|
            0 <= i < coloring@.len() ==> (#[trigger] coloring@[i]) == UNCOLORED || (
            coloring@[i] as int) < coloring@.len(),
    ensures
        c == least_free(nbrs@, coloring@),
        is_least_free(nbrs@, coloring@, c),
        c as int <= nbrs@.len(),
        (c as int) < coloring@.len(),
{
    let deg = nbrs.len();
    let ncol = coloring.len();
    let mut used: Vec<bool> = Vec::new();
    for k in 0..deg
        invariant
            deg == nbrs@.len(),
            coloring@.len() <= usize::MAX,
            forall|j: int| 0 <= j < nbrs@.len() ==> ((#[trigger] nbrs@[j]) as int)
                < coloring@.len(),
            forall|i: int|
                0 <= i < coloring@.len() ==> (#[trigger] coloring@[i]) == UNCOLORED || (
                coloring@[i] as int) < coloring@.len(),
            used@.len() <= coloring@.len(),
            forall|cc: int|
                0 <= cc < used@.len() ==> ((#[trigger] used@[cc]) <==> exists|j: int|
                    0 <= j < k && coloring@[(#[trigger] nbrs@[j]) as int] as int == cc),
            forall|j: int|
                0 <= j < k && coloring@[(#[trigger] nbrs@[j]) as int] != UNCOLORED ==> (coloring@[nbrs@[j] as int] as int) < used@.len(),
    {
        let u = *vstd::slice::slice_index_get(nbrs, k);
        let nc = coloring[u];
        if nc != UNCOLORED {
            while used.len() <= nc
                invariant
                    (nc as int) < coloring@.len(),
                    coloring@.len() <= usize::MAX,
                    nc != UNCOLORED,
                    used@.len() <= coloring@.len(),
                    forall|cc: int|
                        0 <= cc < used@.len() ==> ((#[trigger] used@[cc]) <==> exists|j: int|
                            0 <= j < k && coloring@[(#[trigger] nbrs@[j]) as int] as int == cc),
                    forall|j: int|
                        0 <= j < k && coloring@[(#[trigger] nbrs@[j]) as int] != UNCOLORED ==> (
                        coloring@[nbrs@[j] as int] as int) < used@.len(),
                decreases nc + 1 - used@.len(),
            {
                proof {
                    let fresh = used@.len() as int;
                    assert forall|j: int| 0 <= j < k implies coloring@[(#[trigger] nbrs@[j]) as int]
                        as int != fresh by {
                        if coloring@[nbrs@[j] as int] == UNCOLORED {
                            assert(fresh <= nc < UNCOLORED);
                        }
                    }
                }
                used.push(false);
            }
            used[nc] = true;
        }
        proof {
            assert forall|cc: int|
                0 <= cc < used@.len() implies ((#[trigger] used@[cc]) <==> exists|j: int|
                0 <= j < k + 1 && coloring@[(#[trigger] nbrs@[j]) as int] as int == cc) by {
                let here = coloring@[nbrs@[k as int] as int];
                if here != UNCOLORED && here as int == cc {
                    assert(coloring@[(nbrs@[k as int]) as int] as int == cc);
                    assert(exists|j: int|
                        0 <= j < k + 1 && coloring@[(#[trigger] nbrs@[j]) as int] as int == cc);
                    assert(used@[cc]);
                } else {
                    assert(cc < UNCOLORED as int);
                    assert(used@[cc] <==> exists|j: int|
                        0 <= j < k && coloring@[(#[trigger] nbrs@[j]) as int] as int == cc);
                    if exists|j: int|
                        0 <= j < k + 1 && coloring@[(#[trigger] nbrs@[j]) as int] as int == cc {
                        let j = choose|j: int|
                            0 <= j < k + 1 && coloring@[(#[trigger] nbrs@[j]) as int] as int == cc;
                        assert(j < k);
                    }
                }
            }
        }
    }
    let mut c: usize = 0;
    while c < used.len() && used[c]
        invariant
            used@.len() <= coloring@.len(),
            c <= used@.len(),
            forall|cc: int|
                0 <= cc < used@.len() ==> ((#[trigger] used@[cc]) <==> exists|j: int|
                    0 <= j < nbrs@.len() && coloring@[(#[trigger] nbrs@[j]) as int] as int == cc),
            forall|j: int|
                0 <= j < nbrs@.len() && coloring@[(#[trigger] nbrs@[j]) as int] != UNCOLORED ==> (
                coloring@[nbrs@[j] as int] as int) < used@.len(),
            forall|d: usize| d < c ==> !(#[trigger] color_free(nbrs@, coloring@, d)),
        decreases used@.len() - c,
    {
        proof {
            let j = choose|j: int|
                0 <= j < nbrs@.len() && coloring@[(#[trigger] nbrs@[j]) as int] as int == c;
            assert(coloring@[nbrs@[j] as int] == c);
            assert(!color_free(nbrs@, coloring@, c));
        }
        c = c + 1;
    }
    proof {
        assert(coloring@.len() == ncol);
        lemma_least_free_exists(nbrs@, coloring@, v);
        let w = least_free(nbrs@, coloring@);
        // every color below c is used, so the least free color is at least c
        assert(w >= c);
        // c itself is free: colored neighbors sit below used.len() and are
        // off the bitmap at c; uncolored neighbors carry the sentinel
        assert((c as int) < coloring@.len());
        assert forall|j: int| 0 <= j < nbrs@.len() implies coloring@[(#[trigger] nbrs@[j]) as int]
            != c by {
            if coloring@[nbrs@[j] as int] == UNCOLORED {
            } else {
                if coloring@[nbrs@[j] as int] as int == c as int {
                    assert(used@[c as int]);
                }
            }
        }
        assert(color_free(nbrs@, coloring@, c));
        lemma_least_free_witness(nbrs@, coloring@, c);
    }
    c
}

/// Fixed-order greedy: color the vertices drawn from `order`, each with the
/// smallest color not used by its neighbors at that moment.
///
/// `order` must list every vertex exactly once; the result is pinned to
/// [`greedy_coloring`] and is a complete proper coloring with every color
/// at most the maximum degree.
pub fn color_greedy_by_order<G: ColorableGraph>(graph: &G, order: &Vec<usize>) -> (coloring: Vec<
    usize,
>)
    requires
        graph_ok(graph.adj()),
        order@.len() == graph.adj().len(),
        order@.no_duplicates(),
        forall|k: int| 0 <= k < order@.len() ==> ((#[trigger] order@[k]) as int) < graph.adj().len(),
    ensures
        coloring@ == greedy_coloring(graph.adj(), order@),
        valid_coloring(graph.adj(), coloring@),
{
    let ghost adj = graph.adj();
    let n = graph.num_vertices();
    let mut coloring: Vec<usize> = Vec::new();
    for i in 0..n
        invariant
            coloring@.len() == i,
            forall|m: int| 0 <= m < i ==> (#[trigger] coloring@[m]) == UNCOLORED,
    {
        coloring.push(UNCOLORED);
    }
    proof {
        assert(coloring@ =~= all_uncolored(adj.len()));
        assert(order@.skip(0) =~= order@);
    }
    for k in 0..n
        invariant
            graph_ok(adj),
            adj == graph.adj(),
            n == adj.len(),
            order@.len() == n,
            order@.no_duplicates(),
            forall|m: int| 0 <= m < order@.len() ==> ((#[trigger] order@[m]) as int) < n,
            coloring@.len() == n,
            partial_ok(adj, coloring@),
            greedy_rec(adj, order@.skip(k as int), coloring@) == greedy_coloring(adj, order@),
            forall|m: int| 0 <= m < k ==> coloring@[(#[trigger] order@[m]) as int] != UNCOLORED,
    {
        let ghost col0 = coloring@;
        let v = order[k];
        let nbrs = graph.neighbors(v);
        let c = smallest_free_color(nbrs, &coloring, Ghost(v as int));
        coloring[v] = c;
        proof {
            lemma_color_step_ok(adj, col0, v as int, c);
            assert(coloring@ == greedy_step(adj, col0, v));
            let rest = order@.skip(k as int);
            assert(rest[0] == order@[k as int]);
            assert(rest.drop_first() =~= order@.skip(k as int + 1));
            assert(greedy_rec(adj, rest, col0) == greedy_rec(
                adj,
                order@.skip(k as int + 1),
                coloring@,
            ));
        }
    }
    proof {
        assert(order@.skip(n as int) =~= Seq::<usize>::empty());
        assert(coloring@ == greedy_coloring(adj, order@));
        assert forall|v: int| 0 <= v < n implies (#[trigger] coloring@[v]) != UNCOLORED by {
            lemma_permutation_contains(order@, n as int, v);
        }
        lemma_complete_valid(adj, coloring@);
    }
    coloring
}

/// The simplest greedy algorithm: vertices in id order, first possible color.
pub fn color_greedy_naive<G: ColorableGraph>(graph: &G) -> (coloring: Vec<usize>)
    requires
        graph_ok(graph.adj()),
    ensures
        coloring@ == naive_coloring(graph.adj()),
        valid_coloring(graph.adj(), coloring@),
{
    let n = graph.num_vertices();
    let mut order: Vec<usize> = Vec::new();
    for i in 0..n
        invariant
            order@.len() == i,
            forall|m: int| 0 <= m < i ==> (#[trigger] order@[m]) as int == m,
    {
        order.push(i);
    }
    proof {
        assert(order@ =~= id_order(graph.adj().len()));
    }
    color_greedy_by_order(graph, &order)
}

/// Best remaining vertex among ids `i..`: highest degree, smallest id on
/// ties. `None` once every vertex in that range is marked used.
pub open spec fn bydeg_pick_from(adj: Seq<Seq<usize>>, used: Seq<bool>, i: int) -> Option<usize>
    decreases adj.len() - i,
{
    if i < 0 || i >= adj.len() {
        None
    } else {
        let rest = bydeg_pick_from(adj, used, i + 1);
        if used[i] {
            rest
        } else {
            match rest {
                None => Some(i as usize),
                Some(w) => if adj[i].len() >= adj[w as int].len() {
                    Some(i as usize)
                } else {
                    Some(w)
                },
            }
        }
    }
}

pub proof fn lemma_bydeg_pick(adj: Seq<Seq<usize>>, used: Seq<bool>, i: int)
    requires
        0 <= i <= adj.len(),
        adj.len() <= usize::MAX,
    ensures
        match bydeg_pick_from(adj, used, i) {
            None => forall|u: int| i <= u < adj.len() ==> used[u],
            Some(v) => {
                &&& i <= v as int
                &&& (v as int) < adj.len()
                &&& !used[v as int]
                &&& forall|u: int|
                    i <= u < adj.len() && !used[u] ==> (#[trigger] adj[u]).len() <= adj[v as int].len()
                &&& forall|u: int|
                    i <= u < v as int && !used[u] ==> (#[trigger] adj[u]).len() < adj[v as int].len()
            },
        },
    decreases adj.len() - i,
{
    if i < adj.len() {
        lemma_bydeg_pick(adj, used, i + 1);
        let rest = bydeg_pick_from(adj, used, i + 1);
        let cur = bydeg_pick_from(adj, used, i);
        if used[i] {
            assert(cur == rest);
            match rest {
                None => {},
                Some(w) => {
                    assert(i + 1 <= w as int);
                },
            }
        } else {
            match rest {
                None => {
                    assert(cur == Some(i as usize));
                },
                Some(w) => {
                    if adj[i].len() >= adj[w as int].len() {
                        assert(cur == Some(i as usize));
                        assert forall|u: int| i <= u < adj.len() && !used[u] implies (
                        #[trigger] adj[u]).len() <= adj[i].len() by {
                            if u > i {
                                assert(adj[u].len() <= adj[w as int].len());
                            }
                        }
                    } else {
                        assert(cur == Some(w));
                        assert forall|u: int| i <= u < adj.len() && !used[u] implies (
                        #[trigger] adj[u]).len() <= adj[w as int].len() by {
                            if u > i {
                                assert(adj[u].len() <= adj[w as int].len());
                            }
                        }
                        assert forall|u: int| i <= u < w as int && !used[u] implies (
                        #[trigger] adj[u]).len() < adj[w as int].len() by {
                            if u > i {
                                assert(adj[u].len() < adj[w as int].len());
                            }
                        }
                    }
                },
            }
        }
    }
}

/// Vertices still to be placed in the degree order.
pub open spec fn unused_set(used: Seq<bool>) -> Set<int> {
    Set::new(|v: int| 0 <= v < used.len() && !used[v])
}

pub open spec fn count_unused(used: Seq<bool>) -> nat {
    unused_set(used).len()
}

pub proof fn lemma_unused_finite(used: Seq<bool>)
    ensures
        unused_set(used).finite(),
        count_unused(used) <= used.len(),
{
    broadcast use vstd::set::group_set_axioms;

    vstd::set_lib::lemma_int_range(0, used.len() as int);
    vstd::set_lib::lemma_len_subset(
        unused_set(used),
        vstd::set_lib::set_int_range(0, used.len() as int),
    );
}

pub proof fn lemma_count_unused_dec(used: Seq<bool>, v: int)
    requires
        0 <= v < used.len(),
        !used[v],
    ensures
        count_unused(used.update(v, true)) == count_unused(used) - 1,
{
    broadcast use vstd::set::group_set_axioms;

    lemma_unused_finite(used);
    lemma_unused_finite(used.update(v, true));
    assert(unused_set(used).contains(v));
    assert(unused_set(used.update(v, true)) =~= unused_set(used).remove(v));
    assert(unused_set(used).remove(v).len() == unused_set(used).len() - 1);
}

/// The degree order: repeatedly take the unused vertex of highest degree,
/// smallest id first on ties. This is the stable sort of the vertex ids by
/// non-increasing degree.
pub open spec fn bydeg_order_rec(adj: Seq<Seq<usize>>, used: Seq<bool>) -> Seq<usize>
    decreases count_unused(used),
        when used.len() == adj.len() && adj.len() <= usize::MAX
        via bydeg_order_rec_dec
{
    match bydeg_pick_from(adj, used, 0) {
        None => Seq::empty(),
        Some(v) => seq![v] + bydeg_order_rec(adj, used.update(v as int, true)),
    }
}

#[via_fn]
proof fn bydeg_order_rec_dec(adj: Seq<Seq<usize>>, used: Seq<bool>) {
    lemma_bydeg_pick(adj, used, 0);
    match bydeg_pick_from(adj, used, 0) {
        None => {},
        Some(v) => {
            lemma_count_unused_dec(used, v as int);
        },
    }
}

pub open spec fn bydeg_order(adj: Seq<Seq<usize>>) -> Seq<usize> {
    bydeg_order_rec(adj, Seq::new(adj.len(), |i: int| false))
}

/// The coloring of the degree-ordered algorithm.
pub open spec fn bydeg_coloring(adj: Seq<Seq<usize>>) -> Seq<usize> {
    greedy_coloring(adj, bydeg_order(adj))
}

/// Greedy never revisits a vertex that the remaining order does not name.
proof fn lemma_greedy_preserves(adj: Seq<Seq<usize>>, order: Seq<usize>, col: Seq<usize>, v: int)
    requires
        forall|k: int| 0 <= k < order.len() ==> (#[trigger] order[k]) as int != v,
        forall|k: int| 0 <= k < order.len() ==> ((#[trigger] order[k]) as int) < col.len(),
        0 <= v < col.len(),
    ensures
        greedy_rec(adj, order, col).len() == col.len(),
        greedy_rec(adj, order, col)[v] == col[v],
    decreases order.len(),
{
    if order.len() > 0 {
        let col2 = greedy_step(adj, col, order[0]);
        assert(col2[v] == col[v]);
        lemma_greedy_preserves(adj, order.drop_first(), col2, v);
    }
}

/// The first vertex drawn from the order is colored 0: when everything is
/// still uncolored, 0 is the smallest free color.
proof fn lemma_greedy_first_zero(adj: Seq<Seq<usize>>, order: Seq<usize>, h: usize)
    requires
        graph_ok(adj),
        order.len() >= 1,
        order[0] == h,
        (h as int) < adj.len(),
        forall|k: int| 0 <= k < order.len() ==> ((#[trigger] order[k]) as int) < adj.len(),
        forall|k: int| 1 <= k < order.len() ==> (#[trigger] order[k]) != h,
    ensures
        greedy_coloring(adj, order)[h as int] == 0,
{
    let init = all_uncolored(adj.len());
    assert(color_free(adj[h as int], init, 0)) by {
        assert forall|j: int| 0 <= j < adj[h as int].len() implies init[(
        #[trigger] adj[h as int][j]) as int] != 0usize by {
            assert(init[adj[h as int][j] as int] == UNCOLORED);
        }
    }
    assert(is_least_free(adj[h as int], init, 0));
    lemma_least_free_witness(adj[h as int], init, 0);
    let col1 = greedy_step(adj, init, h);
    assert(col1[h as int] == 0usize);
    assert forall|k: int| 0 <= k < order.drop_first().len() implies (
    #[trigger] order.drop_first()[k]) as int != h as int by {
        assert(order.drop_first()[k] == order[k + 1]);
    }
    lemma_greedy_preserves(adj, order.drop_first(), col1, h as int);
}

/// Naive greedy colors the vertices in id order, so vertex 0 is colored
/// first and always receives color 0.
pub proof fn lemma_naive_vertex_zero(adj: Seq<Seq<usize>>)
    requires
        graph_ok(adj),
        1 <= adj.len() <= usize::MAX,
    ensures
        naive_coloring(adj)[0] == 0,
{
    let ord = id_order(adj.len());
    assert(ord[0] == 0usize);
    lemma_greedy_first_zero(adj, ord, 0usize);
}

/// A pointwise degree bound carries over to the maximum degree.
proof fn lemma_max_degree_from_bound(adj: Seq<Seq<usize>>, k: int, d: nat)
    requires
        k <= adj.len(),
        forall|u: int| 0 <= u < adj.len() ==> (#[trigger] adj[u]).len() <= d,
    ensures
        crate::model::max_degree_to(adj, k) <= d,
    decreases k,
{
    if k > 0 {
        lemma_max_degree_from_bound(adj, k - 1, d);
    }
}

/// Every entry of the degree order refers to a vertex unused at that point;
/// in particular the order never repeats a vertex.
proof fn lemma_bydeg_order_entries(adj: Seq<Seq<usize>>, used: Seq<bool>)
    requires
        used.len() == adj.len(),
        adj.len() <= usize::MAX,
    ensures
        forall|k: int|
            0 <= k < bydeg_order_rec(adj, used).len() ==> ((#[trigger] bydeg_order_rec(
                adj,
                used,
            )[k]) as int) < adj.len() && !used[bydeg_order_rec(adj, used)[k] as int],
    decreases count_unused(used),
{
    lemma_bydeg_pick(adj, used, 0);
    match bydeg_pick_from(adj, used, 0) {
        None => {},
        Some(v) => {
            lemma_count_unused_dec(used, v as int);
            let used2 = used.update(v as int, true);
            lemma_bydeg_order_entries(adj, used2);
            let tail = bydeg_order_rec(adj, used2);
            let whole = bydeg_order_rec(adj, used);
            assert(whole == seq![v] + tail);
            assert forall|k: int| 0 <= k < whole.len() implies ((#[trigger] whole[k]) as int)
                < adj.len() && !used[whole[k] as int] by {
                if k == 0 {
                    assert(whole[0] == v);
                } else {
                    assert(whole[k] == tail[k - 1]);
                    assert(!used2[tail[k - 1] as int]);
                }
            }
        },
    }
}

/// The degree order is indeed sorted: degrees never increase along it, and
/// vertices of equal degree keep their id order.
pub proof fn lemma_bydeg_order_sorted(adj: Seq<Seq<usize>>)
    requires
        adj.len() <= usize::MAX,
    ensures
        forall|k1: int, k2: int|
            #![trigger bydeg_order(adj)[k1], bydeg_order(adj)[k2]]
            0 <= k1 < k2 < bydeg_order(adj).len() ==> ({
                let a = bydeg_order(adj)[k1];
                let b = bydeg_order(adj)[k2];
                adj[a as int].len() > adj[b as int].len() || (adj[a as int].len() == adj[b as int].len()
                    && a < b)
            }),
{
    lemma_bydeg_order_rec_sorted(adj, Seq::new(adj.len(), |i: int| false));
}

proof fn lemma_bydeg_order_rec_sorted(adj: Seq<Seq<usize>>, used: Seq<bool>)
    requires
        used.len() == adj.len(),
        adj.len() <= usize::MAX,
    ensures
        forall|k1: int, k2: int|
            #![trigger bydeg_order_rec(adj, used)[k1], bydeg_order_rec(adj, used)[k2]]
            0 <= k1 < k2 < bydeg_order_rec(adj, used).len() ==> ({
                let a = bydeg_order_rec(adj, used)[k1];
                let b = bydeg_order_rec(adj, used)[k2];
                adj[a as int].len() > adj[b as int].len() || (adj[a as int].len() == adj[b as int].len()
                    && a < b)
            }),
    decreases count_unused(used),
{
    lemma_bydeg_pick(adj, used, 0);
    match bydeg_pick_from(adj, used, 0) {
        None => {},
        Some(v) => {
            lemma_count_unused_dec(used, v as int);
            let used2 = used.update(v as int, true);
            lemma_bydeg_order_rec_sorted(adj, used2);
            lemma_bydeg_order_entries(adj, used2);
            let tail = bydeg_order_rec(adj, used2);
            let whole = bydeg_order_rec(adj, used);
            assert(whole == seq![v] + tail);
            assert forall|k1: int, k2: int|
                #![trigger whole[k1], whole[k2]]
                0 <= k1 < k2 < whole.len() implies ({
                let a = whole[k1];
                let b = whole[k2];
                adj[a as int].len() > adj[b as int].len() || (adj[a as int].len() == adj[b as int].len()
                    && a < b)
            }) by {
                if k1 == 0 {
                    let b = tail[k2 - 1];
                    assert(whole[k2] == b);
                    assert(!used2[b as int]);
                    assert(!used[b as int] && b != v);
                    assert(adj[b as int].len() <= adj[v as int].len());
                    if adj[b as int].len() == adj[v as int].len() {
                        // a later entry of equal degree cannot sit left of
                        // the pick: everything left of it has smaller degree
                        assert(!(b < v));
                    }
                } else {
                    assert(whole[k1] == tail[k1 - 1]);
                    assert(whole[k2] == tail[k2 - 1]);
                }
            }
        },
    }
}

/// The degree order opens with the first vertex of maximum degree: that
/// vertex receives color 0.
pub proof fn lemma_bydeg_first_max(adj: Seq<Seq<usize>>)
    requires
        graph_ok(adj),
        1 <= adj.len() <= usize::MAX,
    ensures
        exists|h: int|
            {
                &&& 0 <= h < adj.len()
                &&& (#[trigger] adj[h]).len() == crate::model::max_degree_of(adj)
                &&& forall|u: int|
                    0 <= u < h ==> ((#[trigger] adj[u]).len() as int) < crate::model::max_degree_of(
                        adj,
                    ) as int
                &&& bydeg_coloring(adj)[h] == 0
            },
{
    let used0 = Seq::new(adj.len(), |i: int| false);
    lemma_bydeg_pick(adj, used0, 0);
    match bydeg_pick_from(adj, used0, 0) {
        None => {
            assert(!used0[0]);
            assert(false);
        },
        Some(hv) => {
            let h = hv as int;
            // h carries the maximum degree
            assert(adj[h].len() == crate::model::max_degree_of(adj)) by {
                lemma_max_degree_from_bound(adj, adj.len() as int, adj[h].len());
                crate::model::lemma_degree_le_max(adj, adj.len() as int, h);
            }
            // and it heads the order, so it is colored first
            let ord = bydeg_order(adj);
            let used2 = used0.update(h, true);
            lemma_count_unused_dec(used0, h);
            lemma_bydeg_order_entries(adj, used2);
            let tail = bydeg_order_rec(adj, used2);
            assert(ord == seq![hv] + tail);
            assert(ord[0] == hv);
            assert forall|k: int| 1 <= k < ord.len() implies (#[trigger] ord[k]) != hv by {
                assert(ord[k] == tail[k - 1]);
                assert(!used2[tail[k - 1] as int]);
            }
            lemma_greedy_first_zero(adj, ord, hv);
            assert(0 <= h < adj.len() && adj[h].len() == crate::model::max_degree_of(adj) && (
            forall|u: int|
                0 <= u < h ==> ((#[trigger] adj[u]).len() as int) < crate::model::max_degree_of(
                    adj,
                ) as int) && bydeg_coloring(adj)[h] == 0);
        },
    }
}

/// Greedy coloring from highest degree to lowest, ties broken by ascending
/// vertex id.
pub fn color_greedy_by_degree<G: ColorableGraph>(graph: &G) -> (coloring: Vec<usize>)
    requires
        graph_ok(graph.adj()),
    ensures
        coloring@ == bydeg_coloring(graph.adj()),
        valid_coloring(graph.adj(), coloring@),
{
    let ghost adj = graph.adj();
    let n = graph.num_vertices();
    let mut used: Vec<bool> = Vec::new();
    for i in 0..n
        invariant
            used@.len() == i,
            forall|m: int| 0 <= m < i ==> !(#[trigger] used@[m]),
    {
        used.push(false);
    }
    let mut order: Vec<usize> = Vec::new();
    proof {
        broadcast use vstd::set::group_set_axioms;

        vstd::set_lib::lemma_int_range(0, n as int);
        assert(unused_set(used@) =~= vstd::set_lib::set_int_range(0, n as int));
        assert(used@ =~= Seq::new(adj.len(), |i: int| false));
    }
    for k in 0..n
        invariant
            adj == graph.adj(),
            graph_ok(adj),
            n == adj.len(),
            used@.len() == n,
            order@.len() == k,
            count_unused(used@) == n - k,
            forall|m: int| 0 <= m < k ==> ((#[trigger] order@[m]) as int) < n,
            order@.no_duplicates(),
            forall|v: int| 0 <= v < n ==> ((#[trigger] used@[v]) <==> order@.contains(v as usize)),
            bydeg_order(adj) == order@ + bydeg_order_rec(adj, used@),
    {
        let mut best: usize = n;
        let mut vi: usize = n;
        while vi > 0
            invariant
                adj == graph.adj(),
                n == adj.len(),
                used@.len() == n,
                vi <= n,
                best == n ==> bydeg_pick_from(adj, used@, vi as int) == Option::<usize>::None,
                best != n ==> best < n && bydeg_pick_from(adj, used@, vi as int) == Some(best),
            decreases vi,
        {
            vi = vi - 1;
            if !used[vi] {
                if best == n {
                    best = vi;
                } else {
                    let dv = graph.degree(vi);
                    let db = graph.degree(best);
                    if dv >= db {
                        best = vi;
                    }
                }
            }
        }
        proof {
            broadcast use vstd::set::group_set_axioms;

            if best == n {
                lemma_bydeg_pick(adj, used@, 0);
                assert(unused_set(used@) =~= Set::<int>::empty());
                assert(false);
            }
        }
        let v = best;
        let ghost used0 = used@;
        let ghost order0 = order@;
        order.push(v);
        used[v] = true;
        proof {
            lemma_bydeg_pick(adj, used0, 0);
            lemma_count_unused_dec(used0, v as int);
            broadcast use vstd::set::group_set_axioms;

            assert(unused_set(used@) =~= unused_set(used0).remove(v as int));
            assert(count_unused(used@) == n - (k + 1));
            // order stays duplicate-free: v was unused, so not yet placed
            assert forall|a: int, b: int| 0 <= a < b < order@.len() implies order@[a] != order@[b] by {
                if b == order@.len() - 1 {
                    if order@[a] == v {
                        assert(order0.contains(v));
                    }
                }
            }
            assert forall|u: int| 0 <= u < n implies ((#[trigger] used@[u]) <==> order@.contains(
                u as usize,
            )) by {
                if u == v as int {
                    assert(order@[order@.len() - 1] == v);
                } else {
                    if order@.contains(u as usize) {
                        let m = choose|m: int| 0 <= m < order@.len() && order@[m] == u as usize;
                        assert(m < order@.len() - 1);
                        assert(order0.contains(u as usize));
                    }
                    if order0.contains(u as usize) {
                        let m = choose|m: int| 0 <= m < order0.len() && order0[m] == u as usize;
                        assert(order@[m] == u as usize);
                    }
                }
            }
            // peel one selection step off the specification order
            assert(bydeg_order_rec(adj, used0) == seq![v] + bydeg_order_rec(adj, used@));
            assert(order0 + bydeg_order_rec(adj, used0) =~= order@ + bydeg_order_rec(adj, used@));
        }
    }
    proof {
        broadcast use vstd::set::group_set_axioms;

        lemma_bydeg_pick(adj, used@, 0);
        lemma_unused_finite(used@);
        match bydeg_pick_from(adj, used@, 0) {
            None => {},
            Some(w) => {
                assert(unused_set(used@).contains(w as int));
                assert(unused_set(used@).len() >= 1) by {
                    assert(unused_set(used@).remove(w as int).len() == unused_set(used@).len() - 1);
                }
                assert(false);
            },
        }
        assert(bydeg_order_rec(adj, used@) == Seq::<usize>::empty());
        assert(order@ + Seq::<usize>::empty() =~= order@);
        assert(order@ == bydeg_order(adj));
    }
    color_greedy_by_order(graph, &order)
}

} // verus!
