//! The augmenting-path / max-flow algorithm (Ford-Fulkerson family) on a
//! graph of `FlowEdge` properties.

use vstd::prelude::*;

use crate::flow::FlowEdge;
use crate::flow::Graph;
use crate::flow::Search;
use crate::flow::Triplet;
use crate::flow::VertexId;
use crate::search::admissible;
use crate::search::is_path;
use crate::search::path_from_visited;
use crate::search::reachable;
use crate::search::flow_predicate;
use crate::search::residual_admissible;
use crate::search::GraphIterator;
use crate::sums::lemma_sum_elem_le;
use crate::sums::lemma_sum_nonneg;
use crate::sums::lemma_sum_pointwise_le;
use crate::sums::lemma_sum_update;
use crate::sums::sum_int;

verus! {

/// The residual-capacity predicate as a single mathematical value, so that
/// the traversal, `augmenting_path` and `max_flow` all speak of the same
/// admissibility notion.
pub open spec fn residual_pred() -> spec_fn(FlowEdge) -> bool {
    |e: FlowEdge| residual_admissible(e)
}

/// The flow on the edge slot `u -> v`.
pub open spec fn flow_at(g: Graph<FlowEdge>, u: int, v: int) -> int {
    g.mat()[u][v].flow as int
}

/// The capacity of the edge slot `u -> v`.
pub open spec fn cap_at(g: Graph<FlowEdge>, u: int, v: int) -> int {
    g.mat()[u][v].capacity as int
}

/// Row `u` of the flow matrix.
pub open spec fn flow_row(g: Graph<FlowEdge>, u: int) -> Seq<int> {
    Seq::new(g.spec_n() as nat, |v: int| flow_at(g, u, v))
}

/// The net flow leaving `u`: the sum of its flow row.  Because every slot
/// carries the negation of its mirror, flow arriving at `u` stands in this
/// row as a negative entry, so conservation at `u` says this sum is zero.
pub open spec fn out_flow_of(g: Graph<FlowEdge>, u: int) -> int {
    sum_int(flow_row(g, u))
}

/// Row `u` of the capacity matrix.
pub open spec fn cap_row(g: Graph<FlowEdge>, u: int) -> Seq<int> {
    Seq::new(g.spec_n() as nat, |v: int| cap_at(g, u, v))
}

/// The total capacity leaving `u`.
pub open spec fn cap_out_of(g: Graph<FlowEdge>, u: int) -> int {
    sum_int(cap_row(g, u))
}

/// The sum of all capacities in the matrix.
pub open spec fn cap_total(g: Graph<FlowEdge>) -> int {
    sum_int(Seq::new(g.spec_n() as nat, |u: int| cap_out_of(g, u)))
}

/// Vertex `v` is listed among `u`'s neighbors.
pub open spec fn nb_has(g: Graph<FlowEdge>, u: int, v: int) -> bool {
    g.nbs()[u].contains(v as usize)
}

/// No vertex repeats in `s`.
pub open spec fn distinct_seq(s: Seq<VertexId>) -> bool {
    forall|i: int, j: int| 0 <= i < j < s.len() ==> s[i] != s[j]
}

/// Well-formedness of a flow network, maintained by `max_flow` at every
/// point during and after the algorithm:
/// - the shape is sound and each adjacency list is duplicate-free;
/// - adjacency is symmetric (every forward edge has its residual mirror)
///   and a slot outside the adjacency lists holds no capacity and no flow;
/// - capacities are non-negative, no vertex carries a self-loop capacity,
///   and their total fits the 32-bit accumulators (the documented input
///   scale of this implementation);
/// - `flow <= capacity` on every slot, and the flow on a slot is the exact
///   negation of the flow on its mirror.
///
/// Two of these clauses deliberately narrow the accepted inputs beyond
/// the bare data model, and callers that build their networks by hand
/// must respect them (the batch readers' networks satisfy them by
/// construction, see `lemma_built_network_ready`).  A duplicated
/// adjacency entry would make the reported total count the same edge slot
/// twice, so it is excluded rather than silently double-booked.  A
/// self-loop can never carry flow -- its residual mirror is the slot
/// itself, forcing its flow to zero -- while its capacity would still
/// burden the 32-bit accumulator budget, so it is excluded as well.
/// Drivers treat either one in their input as a fatal caller error.
pub open spec fn flow_wf(g: Graph<FlowEdge>) -> bool {
    let n = g.spec_n();
    &&& g.wf()
    &&& forall|u: int, i: int, j: int|
        0 <= u < n && 0 <= i < j < g.nbs()[u].len() ==> g.nbs()[u][i] != g.nbs()[u][j]
    &&& forall|u: int, v: int|
        0 <= u < n && 0 <= v < n ==> (#[trigger] nb_has(g, u, v) <==> nb_has(g, v, u))
    &&& forall|u: int, v: int|
        0 <= u < n && 0 <= v < n && !nb_has(g, u, v) ==> #[trigger] g.mat()[u][v] == (FlowEdge {
            capacity: 0,
            flow: 0,
        })
    &&& forall|u: int, v: int| 0 <= u < n && 0 <= v < n ==> 0 <= #[trigger] cap_at(g, u, v)
    &&& forall|u: int| 0 <= u < n ==> #[trigger] cap_at(g, u, u) == 0
    &&& forall|u: int, v: int|
        0 <= u < n && 0 <= v < n ==> #[trigger] flow_at(g, u, v) <= cap_at(g, u, v)
    &&& forall|u: int, v: int|
        0 <= u < n && 0 <= v < n ==> #[trigger] flow_at(g, u, v) == -flow_at(g, v, u)
    &&& cap_total(g) <= i32::MAX as int
}

/// Flow conservation: every vertex other than `source` and `sink` has a
/// zero net flow row.
pub open spec fn conserved(g: Graph<FlowEdge>, source: VertexId, sink: VertexId) -> bool {
    forall|v: int|
        0 <= v < g.spec_n() && v != source as int && v != sink as int ==> #[trigger] out_flow_of(
            g,
            v,
        ) == 0
}

/// No positive flow enters the source (true of a freshly built network,
/// and preserved because augmenting paths never step into the source).
pub open spec fn inflow_nonpos(g: Graph<FlowEdge>, source: VertexId) -> bool {
    forall|v: int| 0 <= v < g.spec_n() ==> #[trigger] flow_at(g, v, source as int) <= 0
}

/// The graph can be searched from `source` toward `sink`.
pub open spec fn searchable(g: Graph<FlowEdge>, source: VertexId, sink: VertexId) -> bool {
    &&& g.wf()
    &&& g.spec_n() < u32::MAX as int
    &&& (source as int) < g.spec_n()
    &&& (sink as int) < g.spec_n()
}

/// An admissible (positive-residual) source-to-sink path that repeats no
/// vertex.
pub open spec fn valid_aug_path(
    g: Graph<FlowEdge>,
    path: Seq<VertexId>,
    source: VertexId,
    sink: VertexId,
) -> bool {
    &&& is_path(g, residual_pred(), path, source, sink)
    &&& distinct_seq(path)
}

/// Special type of graph which has edges which can have flow and capacity.
pub trait FlowGraph {
    /// Well-formedness of the network (capacity bounds, residual mirrors).
    spec fn fg_wf(&self) -> bool;

    /// Flow conservation away from `source` and `sink`.
    spec fn fg_conserved(&self, source: VertexId, sink: VertexId) -> bool;

    /// No positive flow enters `source`.
    spec fn fg_inflow_nonpos(&self, source: VertexId) -> bool;

    /// The network can be searched between the two endpoints.
    spec fn fg_searchable(&self, source: VertexId, sink: VertexId) -> bool;

    /// Some augmenting path from `source` to `sink` exists.
    spec fn fg_has_augmenting_path(&self, source: VertexId, sink: VertexId) -> bool;

    /// `path` is an admissible source-to-sink path repeating no vertex.
    spec fn fg_valid_aug_path(&self, path: Seq<VertexId>, source: VertexId, sink: VertexId) -> bool;

    /// The net flow leaving `source`.
    spec fn fg_out_flow(&self, source: VertexId) -> int;

    /// `other` has the same vertices, edge count, adjacency and capacities.
    spec fn fg_same_shape(&self, other: &Self) -> bool;

    /// Returns a path from source to sink if one exists along which more
    /// flow can be pushed, and nothing exactly when no such path exists
    /// (an expected outcome, not an error).
    fn augmenting_path(&self, source: VertexId, sink: VertexId, search: Search) -> (r: Option<
        Vec<VertexId>,
    >)
        requires
            self.fg_searchable(source, sink),
        ensures
            r is Some <==> self.fg_has_augmenting_path(source, sink),
            r matches Some(p) ==> self.fg_valid_aug_path(p@, source, sink),
    ;

    /// Repeatedly finds an augmenting path and pushes its bottleneck of
    /// residual capacity along it, until no augmenting path remains; the
    /// flow is then maximal (the absence of an augmenting path means
    /// source and sink are separated by a saturated cut).  The graph is
    /// mutated in place and its final edge state is readable afterward;
    /// the result is the total flow out of the source, recomputed from
    /// that final state.  Capacity respect (`flow <= capacity` with exact
    /// residual mirrors) and flow conservation hold at every loop entry
    /// and at exit.
    fn max_flow(&mut self, source: VertexId, sink: VertexId, search: Search) -> (r: i32)
        requires
            old(self).fg_searchable(source, sink),
            source != sink,
            old(self).fg_wf(),
            old(self).fg_conserved(source, sink),
            old(self).fg_inflow_nonpos(source),
        ensures
            final(self).fg_wf(),
            final(self).fg_searchable(source, sink),
            final(self).fg_conserved(source, sink),
            final(self).fg_inflow_nonpos(source),
            final(self).fg_same_shape(old(self)),
            !final(self).fg_has_augmenting_path(source, sink),
            r as int == final(self).fg_out_flow(source),
            r >= 0,
            r as int >= old(self).fg_out_flow(source),
    ;
}

/// The contribution of the slot `source -> v` to the reported total: its
/// flow where the slot has a real capacity, nothing otherwise.
pub open spec fn cterm(g: Graph<FlowEdge>, s: int, v: int) -> int {
    if cap_at(g, s, v) != 0 {
        flow_at(g, s, v)
    } else {
        0
    }
}

/// The per-vertex capacity budget that bounds the reported total while it
/// accumulates.
pub open spec fn hterm(g: Graph<FlowEdge>, s: int, v: int) -> int {
    cap_at(g, s, v) + cap_at(g, v, s)
}

/// The capacity budgets of all vertices against source `s`, as one row.
pub open spec fn hrow(g: Graph<FlowEdge>, s: int) -> Seq<int> {
    Seq::new(g.spec_n() as nat, |v: int| hterm(g, s, v))
}

impl FlowGraph for Graph<FlowEdge> {
    open spec fn fg_wf(&self) -> bool {
        flow_wf(*self)
    }

    open spec fn fg_conserved(&self, source: VertexId, sink: VertexId) -> bool {
        conserved(*self, source, sink)
    }

    open spec fn fg_inflow_nonpos(&self, source: VertexId) -> bool {
        inflow_nonpos(*self, source)
    }

    open spec fn fg_searchable(&self, source: VertexId, sink: VertexId) -> bool {
        searchable(*self, source, sink)
    }

    open spec fn fg_has_augmenting_path(&self, source: VertexId, sink: VertexId) -> bool {
        reachable(*self, residual_pred(), source, sink)
    }

    open spec fn fg_valid_aug_path(
        &self,
        path: Seq<VertexId>,
        source: VertexId,
        sink: VertexId,
    ) -> bool {
        valid_aug_path(*self, path, source, sink)
    }

    open spec fn fg_out_flow(&self, source: VertexId) -> int {
        out_flow_of(*self, source as int)
    }

    open spec fn fg_same_shape(&self, other: &Self) -> bool {
        &&& self.spec_n() == other.spec_n()
        &&& self.spec_n_edges() == other.spec_n_edges()
        &&& self.nbs() == other.nbs()
        &&& forall|u: int, v: int|
            0 <= u < self.spec_n() && 0 <= v < self.spec_n() ==> #[trigger] cap_at(*self, u, v)
                == cap_at(*other, u, v)
    }

    /// Runs the traversal engine under the "residual capacity left"
    /// predicate, collects the parent map, and reconstructs the path if
    /// the sink was produced.
    fn augmenting_path(&self, source: VertexId, sink: VertexId, search: Search) -> (r: Option<
        Vec<VertexId>,
    >) {
        let mut iter = GraphIterator::new(
            self,
            source,
            sink,
            flow_predicate,
            search,
            Ghost(residual_pred()),
        );
        let n = self.n_vertexes();
        let mut node_parent_map: Vec<VertexId> = Vec::new();
        let mut i: usize = 0;
        while i < n
            invariant
                i <= n,
                node_parent_map@.len() == i,
                forall|m: int| 0 <= m < i ==> node_parent_map@[m] == usize::MAX,
            decreases n - i,
        {
            node_parent_map.push(usize::MAX);
            i = i + 1;
        }
        let mut sink_exists = false;
        proof {
            iter.lemma_popped_facts();
        }
        loop
            invariant
                iter.inv(),
                iter.g() == *self,
                iter.n() == n as int,
                iter.spec_source() == source,
                iter.spec_sink() == sink,
                iter.pred() == residual_pred(),
                node_parent_map@.len() == n,
                forall|v: int|
                    #[trigger] iter.spec_popped().contains(v) ==> node_parent_map@[v]
                        == iter.parent(v),
                forall|v: int|
                    0 <= v < n && !iter.spec_popped().contains(v) ==> node_parent_map@[v]
                        == usize::MAX,
                sink_exists == iter.spec_popped().contains(sink as int),
                iter.measure() >= 0,
            ensures
                iter.spec_found() || iter.frontier().len() == 0,
            decreases iter.measure(),
        {
            let ghost it_prev = iter;
            let node = match iter.next() {
                Option::Some(node) => node,
                Option::None => {
                    proof {
                        iter.lemma_popped_facts();
                    }
                    break ;
                },
            };
            node_parent_map[node.0] = node.2;
            sink_exists = sink_exists || node.0 == sink;
            proof {
                it_prev.lemma_popped_facts();
                iter.lemma_popped_facts();
            }
        }
        if sink_exists {
            proof {
                iter.lemma_popped_chain(node_parent_map@, sink as int);
            }
            let path = path_from_visited(source, sink, node_parent_map.as_slice());
            proof {
                iter.lemma_path_props(node_parent_map@, path@);
                assert(is_path(*self, residual_pred(), path@, source, sink));
                assert forall|i2: int, j2: int|
                    0 <= i2 < j2 < path@.len() implies path@[i2] != path@[j2] by {
                    assert(iter.dist(path@[i2] as int) as int == i2);
                    assert(iter.dist(path@[j2] as int) as int == j2);
                }
                assert(valid_aug_path(*self, path@, source, sink));
                assert(reachable(*self, residual_pred(), source, sink));
            }
            Some(path)
        } else {
            proof {
                iter.lemma_popped_facts();
                assert(!iter.spec_found());
                iter.lemma_finished_unreachable();
            }
            None
        }
    }

    /// The Ford-Fulkerson loop: search, take the bottleneck, push it along
    /// the path (raising each forward slot and lowering its mirror), and
    /// stop when no residual path is left; then report the flow leaving
    /// the source over its real-capacity edges.
    #[verifier::rlimit(100)]
    fn max_flow(&mut self, source: VertexId, sink: VertexId, search: Search) -> (r: i32) {
        let ghost g_init = *old(self);
        let mut total_flow: i32 = 0;
        proof {
            lemma_outflow_le_capout(*self, source as int);
        }
        loop
            invariant_except_break
                total_flow as int == 0,
            invariant
                flow_wf(*self),
                searchable(*self, source, sink),
                source != sink,
                conserved(*self, source, sink),
                inflow_nonpos(*self, source),
                self.spec_n() == g_init.spec_n(),
                self.spec_n_edges() == g_init.spec_n_edges(),
                self.neighbors == g_init.neighbors,
                forall|u: int, v: int|
                    0 <= u < g_init.spec_n() && 0 <= v < g_init.spec_n() ==> #[trigger] cap_at(
                        *self,
                        u,
                        v,
                    ) == cap_at(g_init, u, v),
                out_flow_of(*self, source as int) >= out_flow_of(g_init, source as int),
                out_flow_of(*self, source as int) <= cap_out_of(*self, source as int),
            ensures
                !reachable(*self, residual_pred(), source, sink),
                total_flow as int == out_flow_of(*self, source as int),
            decreases cap_out_of(*self, source as int) - out_flow_of(*self, source as int),
        {
            let ghost g_a = *self;
            let path_option: Option<Vec<VertexId>> = self.augmenting_path(source, sink, search);
            match path_option {
                Option::Some(path) => {
                    proof {
                        assert(valid_aug_path(g_a, path@, source, sink));
                        assert(path@.len() >= 2) by {
                            if path@.len() == 1 {
                                assert(path@[0] == source && path@.last() == sink);
                            }
                        }
                        assert forall|i: int|
                            0 <= i < path@.len() implies (#[trigger] path@[i] as int)
                            < g_a.spec_n() by {
                            if i < path@.len() - 1 {
                                assert(admissible(
                                    g_a,
                                    residual_pred(),
                                    path@[i] as int,
                                    path@[i + 1] as int,
                                ));
                            } else {
                                assert(admissible(
                                    g_a,
                                    residual_pred(),
                                    path@[i - 1] as int,
                                    path@[i] as int,
                                ));
                            }
                        }
                    }
                    let mut edges: Vec<Triplet<FlowEdge>> = Vec::new();
                    let mut flow: i32 = i32::MAX;
                    let mut i: usize = 0;
                    while i < path.len()
                        invariant
                            *self == g_a,
                            flow_wf(g_a),
                            searchable(g_a, source, sink),
                            valid_aug_path(g_a, path@, source, sink),
                            path@.len() >= 2,
                            forall|m: int|
                                0 <= m < path@.len() ==> (#[trigger] path@[m] as int)
                                    < g_a.spec_n(),
                            i <= path@.len(),
                            edges@.len() == (if i as int <= path@.len() - 1 {
                                i as int
                            } else {
                                path@.len() - 1
                            }),
                            forall|k: int|
                                0 <= k < edges@.len() ==> (#[trigger] edges@[k]).0 == path@[k]
                                    && edges@[k].2 == path@[k + 1] && edges@[k].1
                                    == g_a.mat()[path@[k] as int][path@[k + 1] as int],
                            1 <= flow as int,
                            forall|k: int|
                                0 <= k < edges@.len() ==> flow as int <= cap_at(
                                    g_a,
                                    #[trigger] path@[k] as int,
                                    path@[k + 1] as int,
                                ) - flow_at(g_a, path@[k] as int, path@[k + 1] as int),
                        decreases path@.len() - i,
                    {
                        if i + 1 != path.len() {
                            let v_0 = path[i];
                            let v_1 = path[i + 1];
                            proof {
                                assert(admissible(
                                    g_a,
                                    residual_pred(),
                                    v_0 as int,
                                    v_1 as int,
                                ));
                                assert(residual_admissible(g_a.mat()[v_0 as int][v_1 as int]));
                                assert(v_0 != v_1);
                                lemma_cap_bounds(g_a, v_0 as int, v_1 as int);
                                assert(g_a.mat()[v_0 as int] == g_a.edges@[v_0 as int]@);
                            }
                            let flow_edge = self.edges[v_0][v_1];
                            edges.push(Triplet(v_0, flow_edge, v_1));
                            let rcap = flow_edge.capacity - flow_edge.flow;
                            if rcap < flow {
                                flow = rcap;
                            }
                        }
                        i = i + 1;
                    }
                    let ghost f = flow as int;
                    let ghost nn = g_a.spec_n();
                    let ghost last = path@.len() - 1;
                    let mut j: usize = 0;
                    while j < edges.len()
                        invariant
                            flow_wf(g_a),
                            searchable(g_a, source, sink),
                            conserved(g_a, source, sink),
                            inflow_nonpos(g_a, source),
                            valid_aug_path(g_a, path@, source, sink),
                            source != sink,
                            path@.len() >= 2,
                            nn == g_a.spec_n(),
                            last == path@.len() - 1,
                            forall|m: int|
                                0 <= m < path@.len() ==> (#[trigger] path@[m] as int) < nn,
                            edges@.len() == last,
                            j <= edges@.len(),
                            forall|k: int|
                                0 <= k < edges@.len() ==> (#[trigger] edges@[k]).0 == path@[k]
                                    && edges@[k].2 == path@[k + 1],
                            1 <= f <= i32::MAX,
                            f == flow as int,
                            forall|k: int|
                                0 <= k < last ==> f <= cap_at(
                                    g_a,
                                    #[trigger] path@[k] as int,
                                    path@[k + 1] as int,
                                ) - flow_at(g_a, path@[k] as int, path@[k + 1] as int),
                            self.neighbors == g_a.neighbors,
                            self.n_vertexes == g_a.n_vertexes,
                            self.n_edges == g_a.n_edges,
                            self.wf(),
                            forall|u: int, v: int|
                                0 <= u < nn && 0 <= v < nn ==> #[trigger] cap_at(*self, u, v)
                                    == cap_at(g_a, u, v),
                            forall|u: int, v: int|
                                0 <= u < nn && 0 <= v < nn ==> #[trigger] flow_at(*self, u, v)
                                    == flow_at(g_a, u, v) + (if edge_on_path(
                                    path@,
                                    j as int,
                                    u,
                                    v,
                                ) {
                                    f
                                } else {
                                    0int
                                }) - (if edge_on_path(path@, j as int, v, u) {
                                    f
                                } else {
                                    0int
                                }),
                        decreases edges@.len() - j,
                    {
                        let e = &edges[j];
                        let e0 = e.0;
                        let e2 = e.2;
                        let ghost pre = *self;
                        proof {
                            assert(e0 == path@[j as int] && e2 == path@[j as int + 1]);
                            assert(admissible(
                                g_a,
                                residual_pred(),
                                e0 as int,
                                e2 as int,
                            ));
                            assert(e0 != e2);
                            // neither slot of edge j was touched by the
                            // earlier updates: the path repeats no vertex
                            assert(!edge_on_path(path@, j as int, e0 as int, e2 as int)) by {
                                if edge_on_path(path@, j as int, e0 as int, e2 as int) {
                                    let m = choose|m: int|
                                        0 <= m < j && #[trigger] path@[m] as int == e0 as int
                                            && path@[m + 1] as int == e2 as int;
                                    assert(path@[m] == path@[j as int]);
                                }
                            }
                            assert(!edge_on_path(path@, j as int, e2 as int, e0 as int)) by {
                                if edge_on_path(path@, j as int, e2 as int, e0 as int) {
                                    let m = choose|m: int|
                                        0 <= m < j && #[trigger] path@[m] as int == e2 as int
                                            && path@[m + 1] as int == e0 as int;
                                    assert(path@[m] == path@[j as int + 1]);
                                    assert(m == j as int + 1);
                                }
                            }
                            assert(flow_at(pre, e0 as int, e2 as int) == flow_at(
                                g_a,
                                e0 as int,
                                e2 as int,
                            ));
                            assert(flow_at(pre, e2 as int, e0 as int) == flow_at(
                                g_a,
                                e2 as int,
                                e0 as int,
                            ));
                            lemma_cap_bounds(g_a, e0 as int, e2 as int);
                            assert(f <= cap_at(g_a, e0 as int, e2 as int) - flow_at(
                                g_a,
                                e0 as int,
                                e2 as int,
                            ));
                            assert(self.mat()[e0 as int] == self.edges@[e0 as int]@);
                            assert(self.mat()[e2 as int] == self.edges@[e2 as int]@);
                        }
                        proof {
                            assert(cap_at(pre, e0 as int, e2 as int) == cap_at(
                                g_a,
                                e0 as int,
                                e2 as int,
                            ));
                            assert(cap_at(pre, e2 as int, e0 as int) == cap_at(
                                g_a,
                                e2 as int,
                                e0 as int,
                            ));
                            assert(flow_at(g_a, e2 as int, e0 as int) == -flow_at(
                                g_a,
                                e0 as int,
                                e2 as int,
                            ));
                        }
                        let cur = self.edges[e0][e2];
                        self.edges[e0][e2] = FlowEdge {
                            capacity: cur.capacity,
                            flow: cur.flow + flow,
                        };
                        proof {
                            assert forall|u: int|
                                0 <= u < self.edges@.len() implies #[trigger] self.mat()[u]
                                == pre.mat().update(
                                e0 as int,
                                pre.mat()[e0 as int].update(
                                    e2 as int,
                                    FlowEdge { capacity: cur.capacity, flow: (cur.flow + f) as i32 },
                                ),
                            )[u] by {
                                assert(self.mat()[u] == self.edges@[u]@);
                                assert(pre.mat()[u] == pre.edges@[u]@);
                            }
                            assert(self.mat() =~= pre.mat().update(
                                e0 as int,
                                pre.mat()[e0 as int].update(
                                    e2 as int,
                                    FlowEdge { capacity: cur.capacity, flow: (cur.flow + f) as i32 },
                                ),
                            ));
                        }
                        let ghost mid = *self;
                        let cur2 = self.edges[e2][e0];
                        self.edges[e2][e0] = FlowEdge {
                            capacity: cur2.capacity,
                            flow: cur2.flow - flow,
                        };
                        proof {
                            assert forall|u: int|
                                0 <= u < self.edges@.len() implies #[trigger] self.mat()[u]
                                == mid.mat().update(
                                e2 as int,
                                mid.mat()[e2 as int].update(
                                    e0 as int,
                                    FlowEdge { capacity: cur2.capacity, flow: (cur2.flow - f) as i32 },
                                ),
                            )[u] by {
                                assert(self.mat()[u] == self.edges@[u]@);
                                assert(mid.mat()[u] == mid.edges@[u]@);
                            }
                            assert(self.mat() =~= mid.mat().update(
                                e2 as int,
                                mid.mat()[e2 as int].update(
                                    e0 as int,
                                    FlowEdge { capacity: cur2.capacity, flow: (cur2.flow - f) as i32 },
                                ),
                            ));
                            // re-establish the flow characterization one
                            // edge further
                            assert forall|u: int, v: int|
                                0 <= u < nn && 0 <= v < nn implies #[trigger] flow_at(*self, u, v)
                                == flow_at(g_a, u, v) + (if edge_on_path(
                                path@,
                                j as int + 1,
                                u,
                                v,
                            ) {
                                f
                            } else {
                                0int
                            }) - (if edge_on_path(path@, j as int + 1, v, u) {
                                f
                            } else {
                                0int
                            }) by {
                                if u == e0 as int && v == e2 as int {
                                    assert(path@[j as int] as int == u && path@[j as int + 1] as int
                                        == v);
                                    assert(edge_on_path(path@, j as int + 1, u, v));
                                    assert(!edge_on_path(path@, j as int + 1, v, u)) by {
                                        if edge_on_path(path@, j as int + 1, v, u) {
                                            let m = choose|m: int|
                                                0 <= m < j + 1 && #[trigger] path@[m] as int == v
                                                    && path@[m + 1] as int == u;
                                            assert(path@[m] == path@[j as int + 1]);
                                            assert(m == j as int + 1);
                                        }
                                    }
                                } else if u == e2 as int && v == e0 as int {
                                    assert(path@[j as int] as int == v && path@[j as int + 1] as int
                                        == u);
                                    assert(edge_on_path(path@, j as int + 1, v, u));
                                    assert(!edge_on_path(path@, j as int + 1, u, v)) by {
                                        if edge_on_path(path@, j as int + 1, u, v) {
                                            let m = choose|m: int|
                                                0 <= m < j + 1 && #[trigger] path@[m] as int == u
                                                    && path@[m + 1] as int == v;
                                            assert(path@[m] == path@[j as int + 1]);
                                            assert(m == j as int + 1);
                                        }
                                    }
                                } else {
                                    assert(flow_at(*self, u, v) == flow_at(pre, u, v));
                                    assert(edge_on_path(path@, j as int + 1, u, v)
                                        == edge_on_path(path@, j as int, u, v)) by {
                                        if edge_on_path(path@, j as int + 1, u, v)
                                            && !edge_on_path(path@, j as int, u, v) {
                                            let m = choose|m: int|
                                                0 <= m < j + 1 && #[trigger] path@[m] as int == u
                                                    && path@[m + 1] as int == v;
                                            assert(m == j as int);
                                        }
                                        if edge_on_path(path@, j as int, u, v) {
                                            let m = choose|m: int|
                                                0 <= m < j && #[trigger] path@[m] as int == u
                                                    && path@[m + 1] as int == v;
                                            assert(edge_on_path(path@, j as int + 1, u, v));
                                        }
                                    }
                                    assert(edge_on_path(path@, j as int + 1, v, u)
                                        == edge_on_path(path@, j as int, v, u)) by {
                                        if edge_on_path(path@, j as int + 1, v, u)
                                            && !edge_on_path(path@, j as int, v, u) {
                                            let m = choose|m: int|
                                                0 <= m < j + 1 && #[trigger] path@[m] as int == v
                                                    && path@[m + 1] as int == u;
                                            assert(m == j as int);
                                        }
                                        if edge_on_path(path@, j as int, v, u) {
                                            let m = choose|m: int|
                                                0 <= m < j && #[trigger] path@[m] as int == v
                                                    && path@[m + 1] as int == u;
                                            assert(edge_on_path(path@, j as int + 1, v, u));
                                        }
                                    }
                                }
                            }
                            // capacities never change
                            assert(cur == pre.mat()[e0 as int][e2 as int]);
                            assert(cur2 == mid.mat()[e2 as int][e0 as int]);
                            assert(cur2 == pre.mat()[e2 as int][e0 as int]);
                            assert forall|u: int, v: int|
                                0 <= u < nn && 0 <= v < nn implies #[trigger] cap_at(*self, u, v)
                                == cap_at(g_a, u, v) by {
                                assert(cap_at(pre, u, v) == cap_at(g_a, u, v));
                                if u == e0 as int && v == e2 as int {
                                    assert(cap_at(*self, u, v) == cur.capacity as int);
                                    assert(cur.capacity as int == cap_at(pre, u, v));
                                } else if u == e2 as int && v == e0 as int {
                                    assert(cap_at(*self, u, v) == cur2.capacity as int);
                                    assert(cur2.capacity as int == cap_at(pre, u, v));
                                } else {
                                    assert(self.mat()[u][v] == mid.mat()[u][v]);
                                    assert(mid.mat()[u][v] == pre.mat()[u][v]);
                                }
                            }
                        }
                        j = j + 1;
                    }
                    proof {
                        let gb = *self;
                        // no edge of the path runs both ways between the
                        // same two vertices, so the two indicators of one
                        // slot never hold together
                        assert forall|u: int, v: int|
                            0 <= u < nn && 0 <= v < nn && edge_on_path(path@, last, u, v) implies !edge_on_path(
                            path@,
                            last,
                            v,
                            u,
                        ) && f <= cap_at(g_a, u, v) - flow_at(g_a, u, v) && nb_has(g_a, u, v) by {
                            let m = choose|m: int|
                                0 <= m < last && #[trigger] path@[m] as int == u && path@[m
                                    + 1] as int == v;
                            assert(f <= cap_at(g_a, path@[m] as int, path@[m + 1] as int)
                                - flow_at(g_a, path@[m] as int, path@[m + 1] as int));
                            assert(admissible(g_a, residual_pred(), u, v));
                            if edge_on_path(path@, last, v, u) {
                                let m2 = choose|m2: int|
                                    0 <= m2 < last && #[trigger] path@[m2] as int == v && path@[m2
                                        + 1] as int == u;
                                assert(path@[m2] == path@[m + 1]);
                                assert(m2 == m + 1);
                                assert(path@[m2 + 1] == path@[m]);
                                assert(m2 + 1 == m);
                            }
                        }
                        // capacity respect, mirrors and untouched absences
                        // all follow from the characterization
                        assert forall|u: int, v: int|
                            0 <= u < nn && 0 <= v < nn implies #[trigger] flow_at(gb, u, v)
                            <= cap_at(gb, u, v) && flow_at(gb, u, v) == -flow_at(gb, v, u) by {
                            assert(flow_at(gb, u, v) == flow_at(g_a, u, v) + (if edge_on_path(
                                path@,
                                last,
                                u,
                                v,
                            ) {
                                f
                            } else {
                                0int
                            }) - (if edge_on_path(path@, last, v, u) {
                                f
                            } else {
                                0int
                            }));
                            assert(flow_at(gb, v, u) == flow_at(g_a, v, u) + (if edge_on_path(
                                path@,
                                last,
                                v,
                                u,
                            ) {
                                f
                            } else {
                                0int
                            }) - (if edge_on_path(path@, last, u, v) {
                                f
                            } else {
                                0int
                            }));
                            assert(flow_at(g_a, u, v) == -flow_at(g_a, v, u));
                        }
                        assert forall|u: int, v: int|
                            0 <= u < nn && 0 <= v < nn && !nb_has(g_a, u, v) implies #[trigger] gb.mat()[u][v]
                            == (FlowEdge { capacity: 0, flow: 0 }) by {
                            assert(!edge_on_path(path@, last, u, v));
                            assert(!edge_on_path(path@, last, v, u)) by {
                                if edge_on_path(path@, last, v, u) {
                                    assert(nb_has(g_a, v, u));
                                }
                            }
                            assert(flow_at(gb, u, v) == flow_at(g_a, u, v));
                            assert(cap_at(gb, u, v) == cap_at(g_a, u, v));
                            assert(g_a.mat()[u][v] == (FlowEdge { capacity: 0, flow: 0 }));
                        }
                        assert(gb.nbs() == g_a.nbs());
                        lemma_same_caps(g_a, gb);
                        assert(flow_wf(gb)) by {
                            assert forall|u: int, v: int|
                                0 <= u < nn && 0 <= v < nn implies (#[trigger] nb_has(gb, u, v)
                                <==> nb_has(gb, v, u)) by {
                                assert(nb_has(gb, u, v) == nb_has(g_a, u, v));
                                assert(nb_has(gb, v, u) == nb_has(g_a, v, u));
                            }
                        }
                        assert(edge_on_path(path@, last, source as int, path@[1] as int)) by {
                            assert(path@[0] as int == source as int);
                        }
                        lemma_aug_rows(g_a, *self, path@, f, source, sink);
                        lemma_outflow_le_capout(*self, source as int);
                        // conservation survives: interior rows cancel
                        assert forall|v: int|
                            0 <= v < nn && v != source as int && v != sink as int implies #[trigger] out_flow_of(
                            *self,
                            v,
                        ) == 0 by {
                            assert(out_flow_of(g_a, v) == 0);
                        }
                        // no flow is ever pushed into the source
                        assert forall|v: int|
                            0 <= v < nn implies #[trigger] flow_at(*self, v, source as int)
                            <= 0 by {
                            assert(!edge_on_path(path@, last, v, source as int)) by {
                                if edge_on_path(path@, last, v, source as int) {
                                    let m = choose|m: int|
                                        0 <= m < last && #[trigger] path@[m] as int == v && path@[m
                                            + 1] as int == source as int;
                                    assert(path@[m + 1] == path@[0]);
                                    assert(m + 1 == 0);
                                }
                            }
                            assert(flow_at(g_a, v, source as int) <= 0);
                        }
                        assert(out_flow_of(*self, source as int) == out_flow_of(
                            g_a,
                            source as int,
                        ) + f);
                    }
                },
                Option::None => {
                    let ghost g_n = *self;
                    let nb_count = self.neighbors[source].len();
                    proof {
                        assert(g_n.nbs()[source as int] == g_n.neighbors@[source as int]@);
                        assert(cap_total(g_n) >= 0) by {
                            let rows = Seq::new(
                                g_n.spec_n() as nat,
                                |w: int| cap_out_of(g_n, w),
                            );
                            assert forall|w: int| 0 <= w < rows.len() implies rows[w] >= 0 by {
                                lemma_sum_nonneg(cap_row(g_n, w));
                            }
                            lemma_sum_nonneg(rows);
                        }
                    }
                    let ghost nn = g_n.spec_n();
                    let ghost nbseq = g_n.nbs()[source as int];
                    let mut k: usize = 0;
                    while k < nb_count
                        invariant
                            *self == g_n,
                            flow_wf(g_n),
                            searchable(g_n, source, sink),
                            inflow_nonpos(g_n, source),
                            nn == g_n.spec_n(),
                            nbseq == g_n.nbs()[source as int],
                            nb_count == nbseq.len(),
                            k <= nb_count,
                            total_flow as int == sum_int(
                                Seq::new(
                                    k as nat,
                                    |kk: int| cterm(g_n, source as int, nbseq[kk] as int),
                                ),
                            ),
                            sum_int(
                                Seq::new(
                                    k as nat,
                                    |kk: int| hterm(g_n, source as int, nbseq[kk] as int),
                                ),
                            ) <= cap_total(g_n),
                            -sum_int(
                                Seq::new(
                                    k as nat,
                                    |kk: int| hterm(g_n, source as int, nbseq[kk] as int),
                                ),
                            ) <= total_flow as int,
                            total_flow as int <= sum_int(
                                Seq::new(
                                    k as nat,
                                    |kk: int| hterm(g_n, source as int, nbseq[kk] as int),
                                ),
                            ),
                        decreases nb_count - k,
                    {
                        let ghost cseq_k = Seq::new(
                            k as nat,
                            |kk: int| cterm(g_n, source as int, nbseq[kk] as int),
                        );
                        let ghost hseq_k = Seq::new(
                            k as nat,
                            |kk: int| hterm(g_n, source as int, nbseq[kk] as int),
                        );
                        let ghost cseq_k1 = Seq::new(
                            (k + 1) as nat,
                            |kk: int| cterm(g_n, source as int, nbseq[kk] as int),
                        );
                        let ghost hseq_k1 = Seq::new(
                            (k + 1) as nat,
                            |kk: int| hterm(g_n, source as int, nbseq[kk] as int),
                        );
                        let v = self.neighbors[source][k];
                        proof {
                            lemma_h_bound(g_n, source);
                            assert(nbseq[k as int] == v);
                            assert((v as int) < nn);
                            lemma_cap_bounds(g_n, source as int, v as int);
                            lemma_cap_bounds(g_n, v as int, source as int);
                            assert(cseq_k1.drop_last() =~= cseq_k);
                            assert(hseq_k1.drop_last() =~= hseq_k);
                            assert(cseq_k1.last() == cterm(g_n, source as int, v as int));
                            assert(hseq_k1.last() == hterm(g_n, source as int, v as int));
                            // the budget of the prefix stays under the total
                            let idx = nbseq.subrange(0, k + 1 as int);
                            assert(forall|a: int, b: int|
                                0 <= a < b < idx.len() ==> idx[a] != idx[b]);
                            assert(forall|a: int|
                                0 <= a < idx.len() ==> (#[trigger] idx[a] as int) < nn);
                            let fh = (|w: int| hterm(g_n, source as int, w));
                            crate::sums::lemma_sum_distinct_indices(idx, fh, nn);
                            let lhs = Seq::new(idx.len(), |kk: int| fh(idx[kk] as int));
                            assert(lhs =~= hseq_k1);
                            let masked = Seq::new(
                                nn as nat,
                                |w: int|
                                    if idx.contains(w as usize) {
                                        fh(w)
                                    } else {
                                        0int
                                    },
                            );
                            let hfull = hrow(g_n, source as int);
                            assert forall|w: int| 0 <= w < nn implies masked[w] <= hfull[w] by {
                                lemma_cap_bounds(g_n, source as int, w);
                                lemma_cap_bounds(g_n, w, source as int);
                                assert(hfull[w] == hterm(g_n, source as int, w));
                                assert(fh(w) == hterm(g_n, source as int, w));
                            }
                            lemma_sum_pointwise_le(masked, hfull);
                            assert(sum_int(lhs) == sum_int(masked));
                            assert(sum_int(hseq_k1) <= cap_total(g_n));
                            // each term is within its budget
                            assert(flow_at(g_n, source as int, v as int) <= cap_at(
                                g_n,
                                source as int,
                                v as int,
                            ));
                            assert(flow_at(g_n, source as int, v as int) >= -cap_at(
                                g_n,
                                v as int,
                                source as int,
                            ));
                            assert(hterm(g_n, source as int, v as int) >= 0);
                        }
                        if self.edges[source][v].capacity != 0 {
                            proof {
                                assert(self.mat()[source as int] == self.edges@[source as int]@);
                                assert(cterm(g_n, source as int, v as int) == flow_at(
                                    g_n,
                                    source as int,
                                    v as int,
                                ));
                                assert(sum_int(cseq_k1) == total_flow as int + flow_at(
                                    g_n,
                                    source as int,
                                    v as int,
                                ));
                            }
                            total_flow = total_flow + self.edges[source][v].flow;
                        } else {
                            proof {
                                assert(self.mat()[source as int] == self.edges@[source as int]@);
                                assert(cterm(g_n, source as int, v as int) == 0);
                                assert(sum_int(cseq_k1) == total_flow as int);
                            }
                        }
                        k = k + 1;
                    }
                    proof {
                        // the accumulated value is exactly the net flow out
                        // of the source
                        lemma_outflow_nonneg(g_n, source);
                        let cfun = |w: int| cterm(g_n, source as int, w);
                        crate::sums::lemma_sum_distinct_indices(nbseq, cfun, nn);
                        let lhs = Seq::new(nbseq.len(), |kk: int| cfun(nbseq[kk] as int));
                        let cseq_full = Seq::new(
                            nb_count as nat,
                            |kk: int| cterm(g_n, source as int, nbseq[kk] as int),
                        );
                        assert(lhs =~= cseq_full);
                        let masked = Seq::new(
                            nn as nat,
                            |w: int|
                                if nbseq.contains(w as usize) {
                                    cfun(w)
                                } else {
                                    0int
                                },
                        );
                        assert forall|w: int| 0 <= w < nn implies masked[w] == flow_row(
                            g_n,
                            source as int,
                        )[w] by {
                            if nbseq.contains(w as usize) {
                                if cap_at(g_n, source as int, w) != 0 {
                                } else {
                                    assert(flow_at(g_n, source as int, w) >= 0);
                                    assert(flow_at(g_n, source as int, w) <= cap_at(
                                        g_n,
                                        source as int,
                                        w,
                                    ));
                                }
                            } else {
                                assert(!nb_has(g_n, source as int, w));
                                assert(g_n.mat()[source as int][w] == (FlowEdge {
                                    capacity: 0,
                                    flow: 0,
                                }));
                            }
                        }
                        crate::sums::lemma_sum_eq(masked, flow_row(g_n, source as int));
                        assert(total_flow as int == out_flow_of(g_n, source as int));
                    }
                    break ;
                },
            }
        }
        proof {
            lemma_outflow_nonneg(*self, source);
            assert(self.nbs() =~= g_init.nbs());
        }
        total_flow
    }
}

/// Basic capacity and flow bounds inside a well-formed network: every
/// capacity (and every opposite pair) fits under the total, and every flow
/// sits between the negated mirror capacity and its own capacity.
proof fn lemma_cap_bounds(g: Graph<FlowEdge>, u: int, v: int)
    requires
        flow_wf(g),
        0 <= u < g.spec_n(),
        0 <= v < g.spec_n(),
    ensures
        0 <= cap_at(g, u, v) <= cap_total(g),
        u != v ==> cap_at(g, u, v) + cap_at(g, v, u) <= cap_total(g),
        -cap_at(g, v, u) <= flow_at(g, u, v) <= cap_at(g, u, v),
{
    let n = g.spec_n();
    let rows = Seq::new(n as nat, |w: int| cap_out_of(g, w));
    assert forall|w: int| 0 <= w < n implies #[trigger] rows[w] >= 0 by {
        lemma_sum_nonneg(cap_row(g, w));
    }
    lemma_sum_elem_le(cap_row(g, u), v);
    lemma_sum_elem_le(rows, u);
    assert(cap_at(g, u, v) <= cap_out_of(g, u));
    if u != v {
        lemma_sum_elem_le(cap_row(g, v), u);
        crate::sums::lemma_sum_two_le(rows, u, v);
    }
}

/// Pointwise flow-below-capacity gives the same bound on the row sums.
proof fn lemma_outflow_le_capout(g: Graph<FlowEdge>, u: int)
    requires
        flow_wf(g),
        0 <= u < g.spec_n(),
    ensures
        out_flow_of(g, u) <= cap_out_of(g, u),
{
    lemma_sum_pointwise_le(flow_row(g, u), cap_row(g, u));
}

/// Two networks with the same size and the same capacities everywhere have
/// the same capacity rows and totals.
proof fn lemma_same_caps(g0: Graph<FlowEdge>, g1: Graph<FlowEdge>)
    requires
        g0.spec_n() >= 0,
        g0.spec_n() == g1.spec_n(),
        forall|u: int, v: int|
            0 <= u < g0.spec_n() && 0 <= v < g0.spec_n() ==> #[trigger] cap_at(g1, u, v) == cap_at(
                g0,
                u,
                v,
            ),
    ensures
        forall|u: int| 0 <= u < g0.spec_n() ==> #[trigger] cap_out_of(g1, u) == cap_out_of(g0, u),
        cap_total(g1) == cap_total(g0),
{
    let n = g0.spec_n();
    assert forall|u: int| 0 <= u < n implies #[trigger] cap_out_of(g1, u) == cap_out_of(
        g0,
        u,
    ) by {
        assert(cap_row(g1, u) =~= cap_row(g0, u));
    }
    let r1 = Seq::new(n as nat, |u: int| cap_out_of(g1, u));
    let r0 = Seq::new(n as nat, |u: int| cap_out_of(g0, u));
    assert forall|u: int| 0 <= u < r1.len() implies r1[u] == r0[u] by {
        assert(cap_row(g1, u) =~= cap_row(g0, u));
        assert(cap_out_of(g1, u) == cap_out_of(g0, u));
    }
    crate::sums::lemma_sum_eq(r1, r0);
}

/// With no positive flow into the source, every flow out of the source is
/// non-negative and so is their sum.
proof fn lemma_outflow_nonneg(g: Graph<FlowEdge>, source: VertexId)
    requires
        flow_wf(g),
        inflow_nonpos(g, source),
        (source as int) < g.spec_n(),
    ensures
        forall|v: int| 0 <= v < g.spec_n() ==> #[trigger] flow_at(g, source as int, v) >= 0,
        out_flow_of(g, source as int) >= 0,
{
    let n = g.spec_n();
    let s = source as int;
    assert forall|v: int| 0 <= v < n implies #[trigger] flow_at(g, s, v) >= 0 by {
        assert(flow_at(g, v, s) <= 0);
        assert(flow_at(g, s, v) == -flow_at(g, v, s));
    }
    lemma_sum_nonneg(flow_row(g, s));
}

/// The per-vertex bound used for the final accumulation: the sum over all
/// vertices of "capacity out of the source plus capacity back into it"
/// stays under the total capacity of the network.
proof fn lemma_h_bound(g: Graph<FlowEdge>, source: VertexId)
    requires
        flow_wf(g),
        (source as int) < g.spec_n(),
    ensures
        sum_int(hrow(g, source as int)) <= cap_total(g),
{
    let n = g.spec_n();
    let s = source as int;
    let hseq = hrow(g, s);
    assert(hseq =~= Seq::new(n as nat, |v: int| cap_at(g, s, v) + cap_at(g, v, s)));
    let col = Seq::new(n as nat, |v: int| cap_at(g, v, s));
    crate::sums::lemma_sum_pointwise_add(cap_row(g, s), col, hseq);
    let colupd = col.update(s, cap_out_of(g, s));
    lemma_sum_update(col, s, cap_out_of(g, s));
    assert(cap_at(g, s, s) == 0);
    let rows = Seq::new(n as nat, |w: int| cap_out_of(g, w));
    assert forall|v: int| 0 <= v < n implies colupd[v] <= rows[v] by {
        if v != s {
            lemma_sum_elem_le(cap_row(g, v), s);
        }
    }
    lemma_sum_pointwise_le(colupd, rows);
    assert(sum_int(colupd) == sum_int(col) - cap_at(g, s, s) + cap_out_of(g, s));
    assert(sum_int(hseq) == cap_out_of(g, s) + sum_int(col));
}

/// Some edge among the first `upto` edges of `path` goes from `u` to `v`.
pub open spec fn edge_on_path(path: Seq<VertexId>, upto: int, u: int, v: int) -> bool {
    exists|m: int|
        0 <= m < upto && #[trigger] path[m] as int == u && path[m + 1] as int == v
}

/// How one full augmentation changes each net flow row: pushing `f` along
/// the path raises the source's row by `f`, lowers the sink's by `f`, and
/// leaves every other row sum unchanged (the two touched slots of an
/// interior vertex cancel).
proof fn lemma_aug_rows(
    g0: Graph<FlowEdge>,
    g1: Graph<FlowEdge>,
    path: Seq<VertexId>,
    f: int,
    source: VertexId,
    sink: VertexId,
)
    requires
        g0.spec_n() >= 0,
        g0.spec_n() == g1.spec_n(),
        path.len() >= 2,
        path[0] == source,
        path.last() == sink,
        source != sink,
        distinct_seq(path),
        forall|i: int| 0 <= i < path.len() ==> (#[trigger] path[i] as int) < g0.spec_n(),
        forall|u: int, v: int|
            0 <= u < g0.spec_n() && 0 <= v < g0.spec_n() ==> #[trigger] flow_at(g1, u, v)
                == flow_at(g0, u, v) + (if edge_on_path(path, path.len() - 1, u, v) {
                f
            } else {
                0int
            }) - (if edge_on_path(path, path.len() - 1, v, u) {
                f
            } else {
                0int
            }),
    ensures
        forall|w: int|
            0 <= w < g0.spec_n() ==> #[trigger] out_flow_of(g1, w) == out_flow_of(g0, w) + (if w
                == source as int {
                f
            } else {
                0int
            }) - (if w == sink as int {
                f
            } else {
                0int
            }),
{
    let n = g0.spec_n();
    let last = path.len() - 1;
    assert(path.last() == path[last]);
    assert forall|w: int|
        0 <= w < n implies #[trigger] out_flow_of(g1, w) == out_flow_of(g0, w) + (if w
        == source as int {
        f
    } else {
        0int
    }) - (if w == sink as int {
        f
    } else {
        0int
    }) by {
        let r0 = flow_row(g0, w);
        let r1 = flow_row(g1, w);
        if exists|i: int| 0 <= i < path.len() && #[trigger] path[i] as int == w {
            let i = choose|i: int| 0 <= i < path.len() && #[trigger] path[i] as int == w;
            // the path visits w exactly once
            assert forall|i2: int|
                0 <= i2 < path.len() && #[trigger] path[i2] as int == w implies i2 == i by {}
            // resolve the two indicators for every slot of row w and
            // column w
            assert forall|v: int| 0 <= v < n implies edge_on_path(path, last, w, v) == (i < last
                && v == path[i + 1] as int) by {
                if edge_on_path(path, last, w, v) {
                    let m = choose|m: int|
                        0 <= m < last && #[trigger] path[m] as int == w && path[m + 1] as int == v;
                    assert(m == i);
                }
                if i < last && v == path[i + 1] as int {
                    assert(path[i] as int == w);
                    assert(edge_on_path(path, last, w, v));
                }
            }
            assert forall|v: int| 0 <= v < n implies edge_on_path(path, last, v, w) == (i > 0 && v
                == path[i - 1] as int) by {
                if edge_on_path(path, last, v, w) {
                    let m = choose|m: int|
                        0 <= m < last && #[trigger] path[m] as int == v && path[m + 1] as int == w;
                    assert(path[m + 1] as int == w);
                    assert(m + 1 == i);
                }
                if i > 0 && v == path[i - 1] as int {
                    assert(path[i - 1] as int == v && path[(i - 1) + 1] as int == w);
                    assert(edge_on_path(path, last, v, w));
                }
            }
            if 0 < i && i < last {
                let a = path[i + 1] as int;
                let b = path[i - 1] as int;
                assert(a != b && a != w && b != w);
                assert(0 <= a < n && 0 <= b < n);
                let mid = r0.update(a, r0[a] + f);
                assert(r1 =~= mid.update(b, r0[b] - f)) by {
                    assert forall|v: int| 0 <= v < n implies r1[v] == mid.update(b, r0[b] - f)[v] by {
                        assert(flow_at(g1, w, v) == flow_at(g0, w, v) + (if edge_on_path(
                            path,
                            last,
                            w,
                            v,
                        ) {
                            f
                        } else {
                            0int
                        }) - (if edge_on_path(path, last, v, w) {
                            f
                        } else {
                            0int
                        }));
                    }
                }
                lemma_sum_update(r0, a, r0[a] + f);
                lemma_sum_update(mid, b, r0[b] - f);
                assert(mid[b] == r0[b]);
                assert(w != source as int) by {
                    if w == source as int {
                        assert(path[0] as int == w);
                    }
                }
                assert(w != sink as int) by {
                    if w == sink as int {
                        assert(path[last] as int == w);
                    }
                }
            } else if i == 0 {
                assert(w == source as int);
                let a = path[i + 1] as int;
                assert(a != w);
                assert(r1 =~= r0.update(a, r0[a] + f)) by {
                    assert forall|v: int| 0 <= v < n implies r1[v] == r0.update(a, r0[a] + f)[v] by {
                        assert(flow_at(g1, w, v) == flow_at(g0, w, v) + (if edge_on_path(
                            path,
                            last,
                            w,
                            v,
                        ) {
                            f
                        } else {
                            0int
                        }) - (if edge_on_path(path, last, v, w) {
                            f
                        } else {
                            0int
                        }));
                    }
                }
                lemma_sum_update(r0, a, r0[a] + f);
                assert(w != sink as int);
            } else {
                assert(i == last);
                assert(w == sink as int);
                let b = path[i - 1] as int;
                assert(b != w);
                assert(r1 =~= r0.update(b, r0[b] - f)) by {
                    assert forall|v: int| 0 <= v < n implies r1[v] == r0.update(b, r0[b] - f)[v] by {
                        assert(flow_at(g1, w, v) == flow_at(g0, w, v) + (if edge_on_path(
                            path,
                            last,
                            w,
                            v,
                        ) {
                            f
                        } else {
                            0int
                        }) - (if edge_on_path(path, last, v, w) {
                            f
                        } else {
                            0int
                        }));
                    }
                }
                lemma_sum_update(r0, b, r0[b] - f);
                assert(w != source as int);
            }
        } else {
            assert forall|v: int| 0 <= v < n implies r1[v] == r0[v] by {
                assert(!edge_on_path(path, last, w, v)) by {
                    if edge_on_path(path, last, w, v) {
                        let m = choose|m: int|
                            0 <= m < last && #[trigger] path[m] as int == w && path[m + 1] as int
                                == v;
                    }
                }
                assert(!edge_on_path(path, last, v, w)) by {
                    if edge_on_path(path, last, v, w) {
                        let m = choose|m: int|
                            0 <= m < last && #[trigger] path[m] as int == v && path[m + 1] as int
                                == w;
                        assert(path[m + 1] as int == w);
                    }
                }
                assert(flow_at(g1, w, v) == flow_at(g0, w, v));
            }
            crate::sums::lemma_sum_eq(r1, r0);
            assert(w != source as int) by {
                if w == source as int {
                    assert(path[0] as int == w);
                }
            }
            assert(w != sink as int) by {
                if w == sink as int {
                    assert(path[last] as int == w);
                }
            }
        }
    }
}

/// Law: in a well-formed network, an edge whose reverse slot carries no
/// capacity (a plain forward edge beside its synthesized zero-capacity
/// residual) satisfies `0 <= flow <= capacity`.  Together with `flow_wf`
/// holding at every entry of the max-flow loop and at its exit, this is
/// capacity respect at every point during and after the algorithm.
pub proof fn lemma_forward_edge_bounds(g: Graph<FlowEdge>, u: int, v: int)
    requires
        flow_wf(g),
        0 <= u < g.spec_n(),
        0 <= v < g.spec_n(),
        cap_at(g, v, u) == 0,
    ensures
        0 <= flow_at(g, u, v) <= cap_at(g, u, v),
{
    assert(flow_at(g, v, u) <= cap_at(g, v, u));
    assert(flow_at(g, u, v) == -flow_at(g, v, u));
}

} // verus!
