//! A small generic graph with a value per vertex: dense zero-based vertex
//! ids, an edge-property map realized as a matrix of optional entries, and
//! an adjacency matrix.

use vstd::prelude::*;

use crate::flow::VertexId;

verus! {

/// A vertex's own value together with its outgoing adjacency list.
#[derive(Debug)]
pub struct Vertex<V: Copy> {
    pub value: V,
    pub neighbors: Vec<VertexId>,
}

/// Represent a graph structure with a value on every vertex and a property
/// on every edge.  Vertex ids must be the dense range `0 .. n-1`.
#[derive(Debug)]
pub struct Graph<V: Copy, E: Copy> {
    pub vertexes: Vec<Vertex<V>>,
    pub edges: Vec<Vec<Option<E>>>,
    pub adjacency_matrix: Vec<Vec<bool>>,
    pub n_edges: usize,
}

/// Whether `es` holds an edge from `a` to `b`.
pub open spec fn has_edge_pair<E>(es: Seq<(VertexId, VertexId, E)>, a: VertexId, b: VertexId) -> bool {
    exists|k: int| 0 <= k < es.len() && #[trigger] es[k].0 == a && es[k].1 == b
}

/// The property of the edge `a -> b` after inserting `es` in order: the
/// last pair wins; a pair never inserted stays `None`.
pub open spec fn edge_opt<E>(es: Seq<(VertexId, VertexId, E)>, a: int, b: int) -> Option<E>
    decreases es.len(),
{
    if es.len() == 0 {
        Option::None
    } else if es.last().0 as int == a && es.last().1 as int == b {
        Option::Some(es.last().2)
    } else {
        edge_opt(es.drop_last(), a, b)
    }
}

/// The destinations of the edges of `es` leaving `u`, in input order
/// (duplicates included).
pub open spec fn dest_list<E>(es: Seq<(VertexId, VertexId, E)>, u: int) -> Seq<VertexId>
    decreases es.len(),
{
    if es.len() == 0 {
        Seq::empty()
    } else if es.last().0 as int == u {
        dest_list(es.drop_last(), u).push(es.last().1)
    } else {
        dest_list(es.drop_last(), u)
    }
}

/// How many distinct `(source, destination)` pairs `es` names.
pub open spec fn pair_count<E>(es: Seq<(VertexId, VertexId, E)>) -> int
    decreases es.len(),
{
    if es.len() == 0 {
        0
    } else if has_edge_pair(es.drop_last(), es.last().0, es.last().1) {
        pair_count(es.drop_last())
    } else {
        pair_count(es.drop_last()) + 1
    }
}

impl<V: Copy, E: Copy> Graph<V, E> {
    /// The number of vertices.
    pub open spec fn spec_nv(self) -> int {
        self.vertexes@.len() as int
    }

    /// Build the graph from `(id, value)` pairs (the ids must be exactly
    /// `0, 1, ..., n-1` in order) and `(source, destination, property)`
    /// triples; a repeated pair overwrites the earlier property while both
    /// occurrences stay in the source's adjacency list.
    pub fn new(vertex_list: &Vec<(VertexId, V)>, edge_list: &Vec<(VertexId, VertexId, E)>) -> (g:
        Graph<V, E>)
        requires
            forall|i: int| 0 <= i < vertex_list@.len() ==> (#[trigger] vertex_list@[i]).0 as int == i,
            forall|k: int|
                0 <= k < edge_list@.len() ==> (#[trigger] edge_list@[k]).0 < vertex_list@.len()
                    && edge_list@[k].1 < vertex_list@.len(),
        ensures
            g.spec_nv() == vertex_list@.len(),
            g.n_edges as int == pair_count(edge_list@),
            g.edges@.len() == vertex_list@.len(),
            g.adjacency_matrix@.len() == vertex_list@.len(),
            forall|u: int| 0 <= u < g.spec_nv() ==> (#[trigger] g.edges@[u])@.len() == g.spec_nv(),
            forall|u: int|
                0 <= u < g.spec_nv() ==> (#[trigger] g.adjacency_matrix@[u])@.len() == g.spec_nv(),
            forall|i: int|
                0 <= i < g.spec_nv() ==> (#[trigger] g.vertexes@[i]).value == vertex_list@[i].1
                    && g.vertexes@[i].neighbors@ == dest_list(edge_list@, i),
            forall|u: int, v: int|
                0 <= u < g.spec_nv() && 0 <= v < g.spec_nv() ==> (#[trigger] g.edges@[u]@[v])
                    == edge_opt(edge_list@, u, v),
            forall|u: int, v: int|
                0 <= u < g.spec_nv() && 0 <= v < g.spec_nv() ==> (#[trigger] g.adjacency_matrix@[u]@[v])
                    == edge_opt(edge_list@, u, v) is Some,
    {
        let n = vertex_list.len();
        let mut vertexes: Vec<Vertex<V>> = Vec::new();
        let mut i: usize = 0;
        while i < n
            invariant
                i <= n,
                n == vertex_list@.len(),
                vertexes@.len() == i,
                forall|j: int|
                    0 <= j < i ==> (#[trigger] vertexes@[j]).value == vertex_list@[j].1
                        && vertexes@[j].neighbors@.len() == 0,
            decreases n - i,
        {
            vertexes.push(Vertex { value: vertex_list[i].1, neighbors: Vec::new() });
            i = i + 1;
        }

        let mut edges: Vec<Vec<Option<E>>> = Vec::new();
        let mut adjacency_matrix: Vec<Vec<bool>> = Vec::new();
        let mut u: usize = 0;
        while u < n
            invariant
                u <= n,
                edges@.len() == u,
                adjacency_matrix@.len() == u,
                forall|a: int| 0 <= a < u ==> (#[trigger] edges@[a])@.len() == n,
                forall|a: int| 0 <= a < u ==> (#[trigger] adjacency_matrix@[a])@.len() == n,
                forall|a: int, b: int|
                    0 <= a < u && 0 <= b < n ==> (#[trigger] edges@[a]@[b]) is None,
                forall|a: int, b: int|
                    0 <= a < u && 0 <= b < n ==> !(#[trigger] adjacency_matrix@[a]@[b]),
            decreases n - u,
        {
            let mut row: Vec<Option<E>> = Vec::new();
            let mut arow: Vec<bool> = Vec::new();
            let mut v: usize = 0;
            while v < n
                invariant
                    v <= n,
                    row@.len() == v,
                    arow@.len() == v,
                    forall|b: int| 0 <= b < v ==> (#[trigger] row@[b]) is None,
                    forall|b: int| 0 <= b < v ==> !(#[trigger] arow@[b]),
                decreases n - v,
            {
                row.push(None);
                arow.push(false);
                v = v + 1;
            }
            edges.push(row);
            adjacency_matrix.push(arow);
            u = u + 1;
        }

        let mut n_edges: usize = 0;
        let mut k: usize = 0;
        while k < edge_list.len()
            invariant
                k <= edge_list@.len(),
                n == vertex_list@.len(),
                n_edges <= k,
                n_edges as int == pair_count(edge_list@.subrange(0, k as int)),
                forall|m: int|
                    0 <= m < edge_list@.len() ==> (#[trigger] edge_list@[m]).0 < n
                        && edge_list@[m].1 < n,
                vertexes@.len() == n,
                edges@.len() == n,
                adjacency_matrix@.len() == n,
                forall|a: int| 0 <= a < n ==> (#[trigger] edges@[a])@.len() == n,
                forall|a: int| 0 <= a < n ==> (#[trigger] adjacency_matrix@[a])@.len() == n,
                forall|j: int|
                    0 <= j < n ==> (#[trigger] vertexes@[j]).value == vertex_list@[j].1
                        && vertexes@[j].neighbors@ == dest_list(
                        edge_list@.subrange(0, k as int),
                        j,
                    ),
                forall|a: int, b: int|
                    0 <= a < n && 0 <= b < n ==> (#[trigger] edges@[a]@[b]) == edge_opt(
                        edge_list@.subrange(0, k as int),
                        a,
                        b,
                    ),
                forall|a: int, b: int|
                    0 <= a < n && 0 <= b < n ==> (#[trigger] adjacency_matrix@[a]@[b]) == edge_opt(
                        edge_list@.subrange(0, k as int),
                        a,
                        b,
                    ) is Some,
            decreases edge_list@.len() - k,
        {
            let e = edge_list[k];
            proof {
                assert(edge_list@.subrange(0, k + 1 as int).drop_last() =~= edge_list@.subrange(
                    0,
                    k as int,
                ));
                assert(edge_list@.subrange(0, k + 1 as int).last() == edge_list@[k as int]);
            }
            let ghost old_vertexes = vertexes@;
            let ghost old_edges = edges@;
            let ghost old_adj = adjacency_matrix@;
            let ghost pre = edge_list@.subrange(0, k as int);
            if edges[e.0][e.1].is_none() {
                proof {
                    assert(!has_edge_pair(pre, e.0, e.1)) by {
                        if has_edge_pair(pre, e.0, e.1) {
                            let m = choose|m: int|
                                0 <= m < pre.len() && #[trigger] pre[m].0 == e.0 && pre[m].1
                                    == e.1;
                            assert(edge_opt(pre, e.0 as int, e.1 as int) is Some) by {
                                lemma_edge_opt_some(pre, e.0, e.1);
                            }
                        }
                    }
                }
                n_edges = n_edges + 1;
            } else {
                proof {
                    assert(has_edge_pair(pre, e.0, e.1)) by {
                        lemma_edge_opt_none(pre, e.0, e.1);
                    }
                }
            }
            adjacency_matrix[e.0][e.1] = true;
            vertexes[e.0].neighbors.push(e.1);
            edges[e.0][e.1] = Some(e.2);
            proof {
                let post = edge_list@.subrange(0, k + 1 as int);
                assert forall|j: int|
                    0 <= j < n implies (#[trigger] vertexes@[j]).value == vertex_list@[j].1
                    && vertexes@[j].neighbors@ == dest_list(post, j) by {
                    if j == e.0 as int {
                        assert(vertexes@[j].neighbors@ =~= old_vertexes[j].neighbors@.push(e.1));
                        assert(vertexes@[j].value == old_vertexes[j].value);
                    } else {
                        assert(vertexes@[j] == old_vertexes[j]);
                    }
                }
                assert forall|a: int, b: int|
                    0 <= a < n && 0 <= b < n implies (#[trigger] edges@[a]@[b]) == edge_opt(
                    post,
                    a,
                    b,
                ) by {
                    if !(a == e.0 as int && b == e.1 as int) {
                        assert(edges@[a]@[b] == old_edges[a]@[b]);
                    }
                }
                assert forall|a: int, b: int|
                    0 <= a < n && 0 <= b < n implies (#[trigger] adjacency_matrix@[a]@[b])
                    == edge_opt(post, a, b) is Some by {
                    if !(a == e.0 as int && b == e.1 as int) {
                        assert(adjacency_matrix@[a]@[b] == old_adj[a]@[b]);
                    }
                }
            }
            k = k + 1;
        }
        proof {
            assert(edge_list@.subrange(0, edge_list@.len() as int) =~= edge_list@);
        }
        Graph { vertexes, edges, adjacency_matrix, n_edges }
    }

    /// The pair `(number of vertices, number of distinct edges)`.
    pub fn size(&self) -> (r: (usize, usize))
        ensures
            r.0 as int == self.spec_nv(),
            r.1 == self.n_edges,
    {
        (self.number_of_vertexes(), self.number_of_edges())
    }

    /// The number of vertices.
    pub fn number_of_vertexes(&self) -> (r: usize)
        ensures
            r as int == self.spec_nv(),
    {
        self.vertexes.len()
    }

    /// The number of distinct `(source, destination)` pairs inserted.
    pub fn number_of_edges(&self) -> (r: usize)
        ensures
            r == self.n_edges,
    {
        self.n_edges
    }
}

/// A pair present in `es` yields a `Some` entry.
proof fn lemma_edge_opt_some<E>(es: Seq<(VertexId, VertexId, E)>, a: VertexId, b: VertexId)
    requires
        has_edge_pair(es, a, b),
    ensures
        edge_opt(es, a as int, b as int) is Some,
    decreases es.len(),
{
    if es.len() > 0 {
        assert(es.last() == es[es.len() - 1]);
        if !(es.last().0 == a && es.last().1 == b) {
            assert(has_edge_pair(es.drop_last(), a, b)) by {
                let m = choose|m: int|
                    0 <= m < es.len() && #[trigger] es[m].0 == a && es[m].1 == b;
                assert(es.drop_last()[m] == es[m]);
            }
            lemma_edge_opt_some(es.drop_last(), a, b);
        }
    }
}

/// A `Some` entry comes from a pair present in `es`.
proof fn lemma_edge_opt_none<E>(es: Seq<(VertexId, VertexId, E)>, a: VertexId, b: VertexId)
    requires
        edge_opt(es, a as int, b as int) is Some,
    ensures
        has_edge_pair(es, a, b),
    decreases es.len(),
{
    if es.len() > 0 {
        assert(es.last() == es[es.len() - 1]);
        if es.last().0 as int == a as int && es.last().1 as int == b as int {
        } else {
            lemma_edge_opt_none(es.drop_last(), a, b);
            let m = choose|m: int|
                0 <= m < es.drop_last().len() && #[trigger] es.drop_last()[m].0 == a
                    && es.drop_last()[m].1 == b;
            assert(es[m] == es.drop_last()[m]);
        }
    }
}

} // verus!
