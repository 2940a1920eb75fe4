//! Core data model: edge properties, the dense-matrix graph, and the
//! flow-specific edge type.

use vstd::prelude::*;

verus! {

/// Dense, zero-based integer index of a vertex.  Vertices are always
/// numbered contiguously from `0` to `n - 1`.
pub type VertexId = usize;

/// An edge annotated with a property, as produced by the max-flow loop:
/// `(source, property, destination)`.
#[derive(Debug)]
pub struct Triplet<T: Property>(pub VertexId, pub T, pub VertexId);

/// A bare directed edge `(source, destination)`.
#[derive(Debug)]
pub struct Edge(pub VertexId, pub VertexId);

/// Valid type to be used for an edge property.
///
/// A property type designates one of its values as "absent": the matrix
/// holds that value wherever no edge was inserted, and an edge carrying
/// exactly the absent value is indistinguishable from no edge at all.
pub trait Property: Copy + Sized {
    /// The value that stands for "no edge here".
    spec fn absent() -> Self;

    /// Produce the absent value at run time.
    fn absent_value() -> (r: Self)
        ensures
            r == Self::absent(),
    ;
}

impl Property for i32 {
    open spec fn absent() -> i32 {
        0
    }

    fn absent_value() -> (r: i32)
        ensures
            r == Self::absent(),
    {
        0
    }
}

impl Property for i64 {
    open spec fn absent() -> i64 {
        0
    }

    fn absent_value() -> (r: i64)
        ensures
            r == Self::absent(),
    {
        0
    }
}

impl Property for u32 {
    open spec fn absent() -> u32 {
        0
    }

    fn absent_value() -> (r: u32)
        ensures
            r == Self::absent(),
    {
        0
    }
}

impl Property for u64 {
    open spec fn absent() -> u64 {
        0
    }

    fn absent_value() -> (r: u64)
        ensures
            r == Self::absent(),
    {
        0
    }
}

impl Property for usize {
    open spec fn absent() -> usize {
        0
    }

    fn absent_value() -> (r: usize)
        ensures
            r == Self::absent(),
    {
        0
    }
}

/// Edge property that provides fields for a flow graph.
///
/// The invariant maintained by the max-flow algorithm is
/// `flow <= capacity` for every edge slot together with the pairing
/// `flow(u, v) == -flow(v, u)`; for a forward edge whose paired reverse
/// slot has capacity `0` this yields `0 <= flow <= capacity`.
#[derive(Debug, Copy, Clone, PartialEq, Eq, Structural)]
pub struct FlowEdge {
    pub capacity: i32,
    pub flow: i32,
}

impl Property for FlowEdge {
    open spec fn absent() -> FlowEdge {
        FlowEdge { capacity: 0, flow: 0 }
    }

    fn absent_value() -> (r: FlowEdge)
        ensures
            r == Self::absent(),
    {
        FlowEdge { capacity: 0, flow: 0 }
    }
}

/// Which discipline the traversal engine uses for its frontier: a FIFO
/// queue (breadth-first) or a LIFO stack (depth-first).
#[derive(Copy, Clone)]
pub enum Search {
    Bfs,
    Dfs,
}

pub const BFS: Search = Search::Bfs;

pub const DFS: Search = Search::Dfs;

/// The property of the edge `u -> v` after inserting `es` in order into an
/// all-absent matrix: the last triple `(u, v, _)` wins, and a pair that was
/// never inserted holds the absent value.
pub open spec fn edge_value<E: Property>(es: Seq<(VertexId, VertexId, E)>, u: int, v: int) -> E
    decreases es.len(),
{
    if es.len() == 0 {
        E::absent()
    } else if es.last().0 as int == u && es.last().1 as int == v {
        es.last().2
    } else {
        edge_value(es.drop_last(), u, v)
    }
}

/// The destinations of the edges in `es` whose source is `u`, in input
/// order (duplicates included).
pub open spec fn dests_of<E: Property>(es: Seq<(VertexId, VertexId, E)>, u: int) -> Seq<VertexId>
    decreases es.len(),
{
    if es.len() == 0 {
        Seq::empty()
    } else if es.last().0 as int == u {
        dests_of(es.drop_last(), u).push(es.last().1)
    } else {
        dests_of(es.drop_last(), u)
    }
}

/// Represent a graph structure: a fixed vertex set `0 .. n-1`, an `n x n`
/// edge-property matrix, and per-vertex adjacency lists built once at
/// construction.
#[derive(Debug)]
pub struct Graph<E: Property> {
    pub edges: Vec<Vec<E>>,
    pub neighbors: Vec<Vec<VertexId>>,
    pub n_edges: usize,
    pub n_vertexes: usize,
}

impl<E: Property> Graph<E> {
    /// The number of vertices.
    pub open spec fn spec_n(self) -> int {
        self.n_vertexes as int
    }

    /// The number of edges handed to the constructor (for reporting only).
    pub open spec fn spec_n_edges(self) -> int {
        self.n_edges as int
    }

    /// The edge matrix as a mathematical sequence of rows.
    pub open spec fn mat(self) -> Seq<Seq<E>> {
        self.edges@.map_values(|r: Vec<E>| r@)
    }

    /// The adjacency lists as mathematical sequences.
    pub open spec fn nbs(self) -> Seq<Seq<VertexId>> {
        self.neighbors@.map_values(|r: Vec<VertexId>| r@)
    }

    /// Shape well-formedness: the matrix is `n x n`, there are `n`
    /// adjacency lists, and every listed neighbor is in range.
    pub open spec fn wf(self) -> bool {
        &&& self.mat().len() == self.spec_n()
        &&& forall|u: int|
            0 <= u < self.spec_n() ==> (#[trigger] self.mat()[u]).len() == self.spec_n()
        &&& self.nbs().len() == self.spec_n()
        &&& forall|u: int, k: int|
            #![trigger self.nbs()[u][k]]
            0 <= u < self.spec_n() && 0 <= k < self.nbs()[u].len() ==> (self.nbs()[u][k] as int)
                < self.spec_n()
    }

    /// Build a graph from the vertex list `0, 1, ..., n-1` (in that exact
    /// order: anything else is a caller contract violation) and a list of
    /// `(source, destination, property)` triples.  A duplicate
    /// `(source, destination)` pair overwrites the earlier property (last
    /// write wins) while both occurrences stay in the adjacency list.
    pub fn new(vertex_list: &[VertexId], edge_list: &[(VertexId, VertexId, E)]) -> (g: Graph<E>)
        requires
            forall|i: int| 0 <= i < vertex_list@.len() ==> vertex_list@[i] as int == i,
            forall|k: int|
                0 <= k < edge_list@.len() ==> (#[trigger] edge_list@[k]).0 < vertex_list@.len()
                    && edge_list@[k].1 < vertex_list@.len(),
        ensures
            g.wf(),
            g.spec_n() == vertex_list@.len(),
            g.spec_n_edges() == edge_list@.len(),
            forall|u: int, v: int|
                0 <= u < g.spec_n() && 0 <= v < g.spec_n() ==> #[trigger] g.mat()[u][v]
                    == edge_value(edge_list@, u, v),
            forall|u: int| 0 <= u < g.spec_n() ==> #[trigger] g.nbs()[u] == dests_of(edge_list@, u),
    {
        let v_len: usize = vertex_list.len();
        let mut neighbors: Vec<Vec<VertexId>> = Vec::new();
        let mut i: usize = 0;
        while i < v_len
            invariant
                i <= v_len,
                neighbors@.len() == i,
                forall|j: int| 0 <= j < i ==> (#[trigger] neighbors@[j])@.len() == 0,
            decreases v_len - i,
        {
            neighbors.push(Vec::new());
            i = i + 1;
        }

        let mut edges: Vec<Vec<E>> = Vec::new();
        let mut u: usize = 0;
        while u < v_len
            invariant
                u <= v_len,
                edges@.len() == u,
                forall|a: int|
                    0 <= a < u ==> (#[trigger] edges@[a])@.len() == v_len,
                forall|a: int, b: int|
                    0 <= a < u && 0 <= b < v_len ==> (#[trigger] edges@[a]@[b]) == E::absent(),
            decreases v_len - u,
        {
            let mut row: Vec<E> = Vec::new();
            let mut v: usize = 0;
            while v < v_len
                invariant
                    v <= v_len,
                    row@.len() == v,
                    forall|b: int| 0 <= b < v ==> (#[trigger] row@[b]) == E::absent(),
                decreases v_len - v,
            {
                row.push(E::absent_value());
                v = v + 1;
            }
            edges.push(row);
            u = u + 1;
        }

        let mut n_edges: usize = 0;
        let mut k: usize = 0;
        while k < edge_list.len()
            invariant
                k <= edge_list@.len(),
                n_edges == k,
                forall|m: int|
                    0 <= m < edge_list@.len() ==> (#[trigger] edge_list@[m]).0 < v_len
                        && edge_list@[m].1 < v_len,
                edges@.len() == v_len,
                forall|a: int| 0 <= a < v_len ==> (#[trigger] edges@[a])@.len() == v_len,
                neighbors@.len() == v_len,
                forall|a: int, b: int|
                    0 <= a < v_len && 0 <= b < v_len ==> (#[trigger] edges@[a]@[b]) == edge_value(
                        edge_list@.subrange(0, k as int),
                        a,
                        b,
                    ),
                forall|a: int|
                    0 <= a < v_len ==> (#[trigger] neighbors@[a])@ == dests_of(
                        edge_list@.subrange(0, k as int),
                        a,
                    ),
            decreases edge_list@.len() - k,
        {
            let e = edge_list[k];
            proof {
                assert(edge_list@.subrange(0, k + 1 as int).drop_last() =~= edge_list@.subrange(
                    0,
                    k as int,
                ));
                assert(edge_list@.subrange(0, k + 1 as int).last() == edge_list@[k as int]);
            }
            let ghost old_neighbors = neighbors@;
            let ghost old_edges = edges@;
            neighbors[e.0].push(e.1);
            edges[e.0][e.1] = e.2;
            proof {
                let pre = edge_list@.subrange(0, k as int);
                let post = edge_list@.subrange(0, k + 1 as int);
                assert forall|a: int|
                    0 <= a < v_len implies (#[trigger] neighbors@[a])@ == dests_of(post, a) by {
                    if a == e.0 as int {
                        assert(neighbors@[a]@ =~= old_neighbors[a]@.push(e.1));
                    } else {
                        assert(neighbors@[a] == old_neighbors[a]);
                    }
                }
                assert forall|a: int, b: int|
                    0 <= a < v_len && 0 <= b < v_len implies (#[trigger] edges@[a]@[b])
                    == edge_value(post, a, b) by {
                    if a == e.0 as int && b == e.1 as int {
                        assert(edges@[a]@[b] == e.2);
                    } else {
                        assert(edges@[a]@[b] == old_edges[a]@[b]);
                    }
                }
            }
            n_edges = n_edges + 1;
            k = k + 1;
        }
        proof {
            assert(edge_list@.subrange(0, edge_list@.len() as int) =~= edge_list@);
        }

        let g = Graph { edges, neighbors, n_edges, n_vertexes: v_len };
        proof {
            assert(g.mat().len() == v_len);
            assert forall|a: int| 0 <= a < v_len implies (#[trigger] g.mat()[a]).len() == v_len by {
                assert(g.mat()[a] == g.edges@[a]@);
            }
            assert forall|a: int| 0 <= a < v_len implies (#[trigger] g.nbs()[a]) == dests_of(
                edge_list@,
                a,
            ) by {
                assert(g.nbs()[a] == g.neighbors@[a]@);
            }
            lemma_dests_in_range::<E>(edge_list@, v_len as int);
        }
        g
    }

    /// The pair `(number of vertices, number of edges)`.
    pub fn size(&self) -> (r: (usize, usize))
        ensures
            r.0 as int == self.spec_n(),
            r.1 as int == self.spec_n_edges(),
    {
        (self.n_vertexes(), self.n_edges())
    }

    /// The number of vertices.
    pub fn n_vertexes(&self) -> (r: usize)
        ensures
            r as int == self.spec_n(),
    {
        self.n_vertexes
    }

    /// The number of edges handed to the constructor.
    pub fn n_edges(&self) -> (r: usize)
        ensures
            r as int == self.spec_n_edges(),
    {
        self.n_edges
    }
}

/// Whether `es` holds an edge from `a` to `b`.
pub open spec fn contains_pair<E: Property>(
    es: Seq<(VertexId, VertexId, E)>,
    a: VertexId,
    b: VertexId,
) -> bool {
    exists|k: int| 0 <= k < es.len() && #[trigger] es[k].0 == a && es[k].1 == b
}

/// No two triples of `es` name the same `(source, destination)` pair.
pub open spec fn distinct_pairs<E: Property>(es: Seq<(VertexId, VertexId, E)>) -> bool {
    forall|i: int, j: int|
        0 <= i < j < es.len() ==> !((#[trigger] es[i]).0 == (#[trigger] es[j]).0 && es[i].1
            == es[j].1)
}

/// The zero-capacity reverse edges that `create_residual_edges` appends for
/// the suffix of `all` starting at `i`: one per forward edge, in input
/// order, except where the reverse direction is already an explicit edge
/// of `all`.
pub open spec fn residuals_of(
    all: Seq<(VertexId, VertexId, FlowEdge)>,
    i: int,
) -> Seq<(VertexId, VertexId, FlowEdge)>
    decreases all.len() - i,
{
    if i < 0 || i >= all.len() {
        Seq::empty()
    } else {
        let rest = residuals_of(all, i + 1);
        if contains_pair(all, all[i].1, all[i].0) {
            rest
        } else {
            seq![(all[i].1, all[i].0, FlowEdge { capacity: 0, flow: 0 })] + rest
        }
    }
}

/// Whether `es` holds an edge from `a` to `b` (run-time check).
fn has_pair(es: &Vec<(VertexId, VertexId, FlowEdge)>, a: VertexId, b: VertexId) -> (r: bool)
    ensures
        r == contains_pair(es@, a, b),
{
    let mut k: usize = 0;
    while k < es.len()
        invariant
            k <= es@.len(),
            forall|m: int| 0 <= m < k ==> !((#[trigger] es@[m]).0 == a && es@[m].1 == b),
        decreases es@.len() - k,
    {
        let e = es[k];
        if e.0 == a && e.1 == b {
            return true;
        }
        k = k + 1;
    }
    false
}

/// For every forward edge `(u, v, c)` in the list, append the reverse edge
/// `(v, u)` with capacity `0`, so that flow pushed on `u -> v` can later be
/// returned along `v -> u`.  When the reverse direction is already an
/// explicit edge of the input, the explicit edge wins and no residual is
/// synthesized for it, which keeps a later `Graph::new` from overwriting a
/// real capacity with zero.
pub fn create_residual_edges(edge_list: &mut Vec<(VertexId, VertexId, FlowEdge)>)
    ensures
        final(edge_list)@ == old(edge_list)@ + residuals_of(old(edge_list)@, 0),
{
    let ghost all = edge_list@;
    let mut residuals: Vec<(VertexId, VertexId, FlowEdge)> = Vec::new();
    let n = edge_list.len();
    let mut i: usize = 0;
    while i < n
        invariant
            i <= n,
            n == all.len(),
            edge_list@ == all,
            residuals_of(all, 0) == residuals@ + residuals_of(all, i as int),
        decreases n - i,
    {
        let e = edge_list[i];
        if !has_pair(edge_list, e.1, e.0) {
            residuals.push((e.1, e.0, FlowEdge { capacity: 0, flow: 0 }));
            proof {
                assert(residuals_of(all, i as int) == seq![
                    (all[i as int].1, all[i as int].0, FlowEdge { capacity: 0, flow: 0 }),
                ] + residuals_of(all, i + 1 as int));
                assert(residuals@ + residuals_of(all, i + 1 as int) =~= residuals_of(all, 0));
            }
        } else {
            proof {
                assert(residuals_of(all, i as int) == residuals_of(all, i + 1 as int));
            }
        }
        i = i + 1;
    }
    proof {
        assert(residuals_of(all, n as int) =~= Seq::<(VertexId, VertexId, FlowEdge)>::empty());
        assert(residuals@ =~= residuals@ + residuals_of(all, n as int));
    }
    edge_list.append(&mut residuals);
}

/// The set of columns of row `u` whose matrix slot holds a real
/// (non-absent) edge property.
pub open spec fn row_filled_set<E: Property>(g: Graph<E>, u: int) -> Set<int> {
    Set::new(|v: int| 0 <= v < g.spec_n() && g.mat()[u][v] != E::absent())
}

/// A pair that was never inserted still holds the absent value.
pub(crate) proof fn lemma_absent_when_no_pair<E: Property>(
    es: Seq<(VertexId, VertexId, E)>,
    a: VertexId,
    b: VertexId,
)
    requires
        !contains_pair(es, a, b),
    ensures
        edge_value(es, a as int, b as int) == E::absent(),
    decreases es.len(),
{
    if es.len() > 0 {
        assert(es.last() == es[es.len() - 1]);
        assert(forall|k: int|
            0 <= k < es.drop_last().len() ==> #[trigger] es.drop_last()[k] == es[k]);
        lemma_absent_when_no_pair(es.drop_last(), a, b);
    }
}

/// The set of filled slots in row `u` of the matrix built from `es` is
/// finite and has exactly as many members as `u`'s adjacency list, when no
/// pair repeats and no inserted property is the absent value.
proof fn lemma_filled_count<E: Property>(es: Seq<(VertexId, VertexId, E)>, u: int, n: int)
    requires
        distinct_pairs(es),
        forall|k: int|
            0 <= k < es.len() ==> (#[trigger] es[k]).0 < n && es[k].1 < n && es[k].2
                != E::absent(),
    ensures
        filled_of(es, u, n).finite(),
        filled_of(es, u, n).len() == dests_of(es, u).len(),
    decreases es.len(),
{
    if es.len() == 0 {
        assert(filled_of(es, u, n) =~= Set::<int>::empty());
    } else {
        let pre = es.drop_last();
        let last = es[es.len() - 1];
        assert(es.last() == last);
        assert(forall|k: int| 0 <= k < pre.len() ==> #[trigger] pre[k] == es[k]);
        lemma_filled_count(pre, u, n);
        if last.0 as int == u {
            // the new destination's slot was absent before this insertion
            assert(!contains_pair(pre, last.0, last.1)) by {
                if contains_pair(pre, last.0, last.1) {
                    let k = choose|k: int|
                        0 <= k < pre.len() && #[trigger] pre[k].0 == last.0 && pre[k].1 == last.1;
                    assert(!distinct_pairs(es));
                }
            }
            lemma_absent_when_no_pair(pre, last.0, last.1);
            assert(filled_of(es, u, n) =~= filled_of(pre, u, n).insert(last.1 as int)) by {
                assert forall|v: int| #[trigger] filled_of(es, u, n).contains(v) implies filled_of(
                    pre,
                    u,
                    n,
                ).insert(last.1 as int).contains(v) by {
                    if v != last.1 as int {
                        assert(edge_value(es, u, v) == edge_value(pre, u, v));
                    }
                }
                assert forall|v: int|
                    filled_of(pre, u, n).insert(last.1 as int).contains(v) implies #[trigger] filled_of(
                    es,
                    u,
                    n,
                ).contains(v) by {
                    if v == last.1 as int {
                        assert(edge_value(es, u, v) == last.2);
                    } else {
                        assert(edge_value(es, u, v) == edge_value(pre, u, v));
                    }
                }
            }
            assert(!filled_of(pre, u, n).contains(last.1 as int));
        } else {
            assert(filled_of(es, u, n) =~= filled_of(pre, u, n)) by {
                assert forall|v: int| 0 <= v < n implies edge_value(es, u, v) == edge_value(
                    pre,
                    u,
                    v,
                ) by {}
            }
        }
    }
}

/// The filled slots of row `u` of the matrix that `es` builds.
pub open spec fn filled_of<E: Property>(es: Seq<(VertexId, VertexId, E)>, u: int, n: int) -> Set<
    int,
> {
    Set::new(|v: int| 0 <= v < n && edge_value(es, u, v) != E::absent())
}

/// Law: in a graph built from a duplicate-free edge list none of whose
/// properties is the absent value, the adjacency list of every vertex has
/// exactly as many entries as its matrix row has non-absent slots.
pub proof fn lemma_neighbor_len_counts_row<E: Property>(
    g: Graph<E>,
    es: Seq<(VertexId, VertexId, E)>,
    u: int,
)
    requires
        g.wf(),
        distinct_pairs(es),
        forall|k: int|
            0 <= k < es.len() ==> (#[trigger] es[k]).0 < g.spec_n() && es[k].1 < g.spec_n()
                && es[k].2 != E::absent(),
        forall|a: int, b: int|
            0 <= a < g.spec_n() && 0 <= b < g.spec_n() ==> #[trigger] g.mat()[a][b] == edge_value(
                es,
                a,
                b,
            ),
        forall|a: int| 0 <= a < g.spec_n() ==> #[trigger] g.nbs()[a] == dests_of(es, a),
        0 <= u < g.spec_n(),
    ensures
        row_filled_set(g, u).finite(),
        g.nbs()[u].len() == row_filled_set(g, u).len(),
{
    lemma_filled_count(es, u, g.spec_n());
    assert(row_filled_set(g, u) =~= filled_of(es, u, g.spec_n()));
}

/// Every destination that `dests_of` collects comes from an edge of `es`,
/// so it stays below `n` when all edge endpoints do.
proof fn lemma_dests_in_range<E: Property>(es: Seq<(VertexId, VertexId, E)>, n: int)
    requires
        forall|k: int| 0 <= k < es.len() ==> (#[trigger] es[k]).1 < n,
    ensures
        forall|u: int, k: int|
            0 <= k < dests_of(es, u).len() ==> (#[trigger] dests_of(es, u)[k]) < n,
    decreases es.len(),
{
    if es.len() > 0 {
        lemma_dests_in_range::<E>(es.drop_last(), n);
        assert forall|u: int, k: int|
            0 <= k < dests_of(es, u).len() implies (#[trigger] dests_of(es, u)[k]) < n by {
            let prev = dests_of(es.drop_last(), u);
            if es.last().0 as int == u {
                assert(es.last() == es[es.len() - 1]);
                if k < prev.len() {
                    assert(dests_of(es, u)[k] == prev[k]);
                } else {
                    assert(dests_of(es, u)[k] == es.last().1);
                }
            } else {
                assert(dests_of(es, u)[k] == prev[k]);
            }
        }
    }
}

} // verus!
