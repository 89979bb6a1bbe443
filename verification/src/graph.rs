//! Graph storage: the read-only access contract shared by all algorithms,
//! an adjacency-list builder, and a compressed-sparse-row copy.

use vstd::prelude::*;

use crate::model::graph_ok;
use crate::model::max_degree_of;
use crate::model::max_degree_to;

verus! {

/// Read-only access contract for graphs the coloring algorithms work with.
///
/// `adj()` is the mathematical view: one neighbor sequence per vertex. All
/// exec operations are specified against it, so an algorithm verified over
/// `adj()` behaves identically on every representation with the same view.
pub trait ColorableGraph {
    /// The adjacency view: `adj()[v]` lists the neighbors of vertex `v`.
    spec fn adj(&self) -> Seq<Seq<usize>>;

    /// Total number of vertices in the graph.
    fn num_vertices(&self) -> (n: usize)
        ensures
            n == self.adj().len(),
    ;

    /// All neighbors of vertex `vi`.
    fn neighbors(&self, vi: usize) -> (r: &[usize])
        requires
            vi < self.adj().len(),
        ensures
            r@ == self.adj()[vi as int],
    ;

    /// Degree of vertex `vi`.
    fn degree(&self, vi: usize) -> (d: usize)
        requires
            vi < self.adj().len(),
        ensures
            d == self.adj()[vi as int].len(),
    ;

    /// Maximum degree over all vertices, 0 for the empty graph.
    fn max_degree(&self) -> (d: usize)
        ensures
            d == max_degree_of(self.adj()),
    ;
}

/// Graph represented as one growable neighbor list per vertex.
///
/// Built once through [`VecVecGraph::new`] and [`VecVecGraph::add_edge`],
/// then read-only during coloring. The builder maintains the simple-graph
/// invariant [`graph_ok`]: callers may only add a fresh edge between two
/// distinct existing vertices.
pub struct VecVecGraph {
    edges: Vec<Vec<usize>>,
}

impl ColorableGraph for VecVecGraph {
    closed spec fn adj(&self) -> Seq<Seq<usize>> {
        Seq::new(self.edges@.len(), |i: int| self.edges@[i]@)
    }

    fn num_vertices(&self) -> usize {
        self.edges.len()
    }

    fn neighbors(&self, vi: usize) -> &[usize] {
        self.edges[vi].as_slice()
    }

    fn degree(&self, vi: usize) -> usize {
        self.edges[vi].len()
    }

    fn max_degree(&self) -> (d: usize) {
        let n = self.edges.len();
        let mut m: usize = 0;
        for i in 0..n
            invariant
                n == self.adj().len(),
                m == max_degree_to(self.adj(), i as int),
        {
            let d = self.edges[i].len();
            if d > m {
                m = d;
            }
        }
        m
    }
}

impl VecVecGraph {
    /// Create a graph with `num_vertices` vertices and no edges.
    pub fn new(num_vertices: usize) -> (g: Self)
        ensures
            g.adj().len() == num_vertices,
            forall|v: int| 0 <= v < num_vertices ==> #[trigger] g.adj()[v] == Seq::<usize>::empty(),
            graph_ok(g.adj()),
    {
        let mut edges: Vec<Vec<usize>> = Vec::new();
        for i in 0..num_vertices
            invariant
                edges@.len() == i,
                forall|v: int| 0 <= v < i ==> (#[trigger] edges@[v])@ == Seq::<usize>::empty(),
        {
            edges.push(Vec::new());
        }
        let g = VecVecGraph { edges };
        proof {
            assert(forall|v: int|
                0 <= v < num_vertices ==> #[trigger] g.adj()[v] =~= Seq::<usize>::empty());
        }
        g
    }

    /// Add an edge between the distinct vertices `w` and `v`, appending each
    /// endpoint to the other's neighbor list.
    ///
    /// The caller must not add a self-loop or a duplicate edge; both would
    /// break the simple-graph assumption the coloring contracts rest on.
    pub fn add_edge(&mut self, w: usize, v: usize)
        requires
            graph_ok(old(self).adj()),
            w < old(self).adj().len(),
            v < old(self).adj().len(),
            w != v,
            !old(self).adj()[w as int].contains(v),
        ensures
            graph_ok(final(self).adj()),
            final(self).adj().len() == old(self).adj().len(),
            final(self).adj()[w as int] == old(self).adj()[w as int].push(v),
            final(self).adj()[v as int] == old(self).adj()[v as int].push(w),
            forall|u: int|
                0 <= u < final(self).adj().len() && u != w && u != v
                    ==> #[trigger] final(self).adj()[u] == old(self).adj()[u],
    {
        let ghost adj0 = self.adj();
        let n_verts = self.edges.len();
        assert(n_verts == adj0.len());
        self.edges[w].push(v);
        self.edges[v].push(w);
        proof {
            let adj2 = self.adj();
            assert(adj2[w as int] =~= adj0[w as int].push(v));
            assert(adj2[v as int] =~= adj0[v as int].push(w));
            assert forall|u: int| 0 <= u < adj2.len() && u != w && u != v implies #[trigger] adj2[u]
                == adj0[u] by {
                assert(adj2[u] =~= adj0[u]);
            }
            assert(crate::model::edge(adj0, v as int, w as int) == crate::model::edge(
                adj0,
                w as int,
                v as int,
            ));
            assert(!adj0[v as int].contains(w));
            lemma_add_edge_ok(adj0, adj2, w as int, v as int);
        }
    }
}

proof fn lemma_add_edge_ok(adj0: Seq<Seq<usize>>, adj2: Seq<Seq<usize>>, w: int, v: int)
    requires
        graph_ok(adj0),
        0 <= w < adj0.len(),
        0 <= v < adj0.len(),
        w != v,
        adj0.len() <= usize::MAX,
        !adj0[w].contains(v as usize),
        !adj0[v].contains(w as usize),
        adj2.len() == adj0.len(),
        adj2[w] == adj0[w].push(v as usize),
        adj2[v] == adj0[v].push(w as usize),
        forall|u: int| 0 <= u < adj2.len() && u != w && u != v ==> #[trigger] adj2[u] == adj0[u],
    ensures
        graph_ok(adj2),
{
    let n = adj0.len() as int;
    assert forall|a: int, j: int|
        0 <= a < n && 0 <= j < adj2[a].len() implies ((#[trigger] adj2[a][j]) < n && adj2[a][j] as int
        != a) by {
        if a == w && j == adj2[a].len() - 1 {
            assert(adj2[a][j] == v as usize);
        } else if a == v && j == adj2[a].len() - 1 {
            assert(adj2[a][j] == w as usize);
        } else {
            assert(adj2[a][j] == adj0[a][j]);
        }
    }
    assert forall|a: int| 0 <= a < n implies (#[trigger] adj2[a]).no_duplicates() by {
        if a == w {
            assert(adj0[w].push(v as usize).no_duplicates());
        } else if a == v {
            assert(adj0[v].push(w as usize).no_duplicates());
        }
    }
    assert forall|a: int, b: int|
        0 <= a < n && 0 <= b < n implies (#[trigger] crate::model::edge(adj2, a, b)
        <==> #[trigger] crate::model::edge(adj2, b, a)) by {
        lemma_push_contains(adj0, adj2, w, v, a, b);
        lemma_push_contains(adj0, adj2, w, v, b, a);
    }
}

/// Containment in a list after `add_edge` in terms of the old list.
proof fn lemma_push_contains(adj0: Seq<Seq<usize>>, adj2: Seq<Seq<usize>>, w: int, v: int, a: int, b: int)
    requires
        graph_ok(adj0),
        0 <= w < adj0.len(),
        0 <= v < adj0.len(),
        w != v,
        adj0.len() <= usize::MAX,
        adj2.len() == adj0.len(),
        adj2[w] == adj0[w].push(v as usize),
        adj2[v] == adj0[v].push(w as usize),
        forall|u: int| 0 <= u < adj2.len() && u != w && u != v ==> #[trigger] adj2[u] == adj0[u],
        0 <= a < adj0.len(),
        0 <= b < adj0.len(),
    ensures
        crate::model::edge(adj2, a, b) <==> (crate::model::edge(adj0, a, b) || (a == w && b == v) || (
        a == v && b == w)),
{
    if a == w {
        assert(adj2[a] == adj0[w].push(v as usize));
        lemma_seq_push_contains(adj0[w], v as usize, b as usize);
    } else if a == v {
        assert(adj2[a] == adj0[v].push(w as usize));
        lemma_seq_push_contains(adj0[v], w as usize, b as usize);
    } else {
        assert(adj2[a] == adj0[a]);
    }
}

proof fn lemma_seq_push_contains(s: Seq<usize>, x: usize, y: usize)
    ensures
        s.push(x).contains(y) <==> (s.contains(y) || y == x),
{
    let s2 = s.push(x);
    if s.contains(y) {
        let j = choose|j: int| 0 <= j < s.len() && s[j] == y;
        assert(s2[j] == y);
    }
    if y == x {
        assert(s2[s.len() as int] == y);
    }
    if s2.contains(y) && y != x {
        let j = choose|j: int| 0 <= j < s2.len() && s2[j] == y;
        assert(s[j] == y);
    }
}

/// A graph in compressed format with all neighbor lists in one array.
///
/// `offsets[v]` is the exclusive end of vertex `v`'s slice of `flat_edges`;
/// its start is 0 for vertex 0, else `offsets[v - 1]`. Built once from any
/// [`ColorableGraph`] by [`CsrGraph::from`]; immutable thereafter.
pub struct CsrGraph {
    offsets: Vec<usize>,
    flat_edges: Vec<usize>,
}

/// Start of vertex `i`'s range in the flat edge array.
pub open spec fn csr_start(offsets: Seq<usize>, i: int) -> int {
    if i <= 0 {
        0
    } else {
        offsets[i - 1] as int
    }
}

impl CsrGraph {
    #[verifier::type_invariant]
    spec fn csr_wf(self) -> bool {
        forall|i: int|
            0 <= i < self.offsets@.len() ==> csr_start(self.offsets@, i) <= (
            #[trigger] self.offsets@[i]) as int <= self.flat_edges@.len()
    }

    /// Copy any graph into compressed sparse row form. The adjacency view,
    /// and therefore every coloring result, is unchanged.
    pub fn from<G: ColorableGraph>(graph: &G) -> (c: CsrGraph)
        ensures
            c.adj() == graph.adj(),
    {
        let n = graph.num_vertices();
        let mut offsets: Vec<usize> = Vec::new();
        let mut flat_edges: Vec<usize> = Vec::new();
        for i in 0..n
            invariant
                n == graph.adj().len(),
                offsets@.len() == i,
                forall|k: int|
                    0 <= k < i ==> csr_start(offsets@, k) <= (#[trigger] offsets@[k]) as int
                        <= flat_edges@.len(),
                flat_edges@.len() == csr_start(offsets@, i as int),
                forall|k: int|
                    0 <= k < i ==> flat_edges@.subrange(
                        csr_start(offsets@, k),
                        (#[trigger] offsets@[k]) as int,
                    ) == graph.adj()[k],
        {
            let ghost offsets0 = offsets@;
            let ghost flat0 = flat_edges@;
            let nbrs = graph.neighbors(i);
            flat_edges.extend_from_slice(nbrs);
            offsets.push(flat_edges.len());
            proof {
                assert forall|k: int| 0 <= k < i implies csr_start(offsets@, k) <= (
                #[trigger] offsets@[k]) as int <= flat_edges@.len() by {
                    assert(offsets@[k] == offsets0[k]);
                    assert(csr_start(offsets@, k) == csr_start(offsets0, k));
                }
                assert forall|k: int|
                    0 <= k < i + 1 implies flat_edges@.subrange(
                    csr_start(offsets@, k),
                    (#[trigger] offsets@[k]) as int,
                ) == graph.adj()[k] by {
                    if k < i {
                        assert(offsets@[k] == offsets0[k]);
                        assert(csr_start(offsets@, k) == csr_start(offsets0, k));
                        assert(flat_edges@.subrange(csr_start(offsets0, k), offsets0[k] as int)
                            =~= flat0.subrange(csr_start(offsets0, k), offsets0[k] as int));
                    } else {
                        assert(csr_start(offsets@, k) == flat0.len());
                        assert(flat_edges@.subrange(flat0.len() as int, flat_edges@.len() as int)
                            =~= nbrs@);
                    }
                }
            }
        }
        let c = CsrGraph { offsets, flat_edges };
        proof {
            assert(c.adj() =~~= graph.adj());
        }
        c
    }
}

impl ColorableGraph for CsrGraph {
    closed spec fn adj(&self) -> Seq<Seq<usize>> {
        Seq::new(
            self.offsets@.len(),
            |i: int| self.flat_edges@.subrange(csr_start(self.offsets@, i), self.offsets@[i] as int),
        )
    }

    fn num_vertices(&self) -> usize {
        self.offsets.len()
    }

    fn neighbors(&self, vi: usize) -> &[usize] {
        proof {
            use_type_invariant(self);
        }
        let start: usize = if vi == 0 {
            0
        } else {
            self.offsets[vi - 1]
        };
        let end: usize = self.offsets[vi];
        vstd::slice::slice_subrange(self.flat_edges.as_slice(), start, end)
    }

    fn degree(&self, vi: usize) -> usize {
        self.neighbors(vi).len()
    }

    fn max_degree(&self) -> (d: usize) {
        let n = self.offsets.len();
        let mut m: usize = 0;
        for i in 0..n
            invariant
                n == self.adj().len(),
                m == max_degree_to(self.adj(), i as int),
        {
            let d = self.degree(i);
            if d > m {
                m = d;
            }
        }
        m
    }
}

} // verus!
