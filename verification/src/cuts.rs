//! Source/sink cuts and the max-flow/min-cut equivalence: the value of a
//! conserved flow never exceeds the capacity of any cut, and once no
//! augmenting path remains the cut of residual-reachable vertices is
//! saturated, so the value reached by `max_flow` equals the minimum cut
//! capacity -- whichever search mode produced it.

use vstd::prelude::*;

use crate::flow::FlowEdge;
use crate::flow::Graph;
use crate::flow::VertexId;
use crate::maxflow::cap_at;
use crate::maxflow::conserved;
use crate::maxflow::flow_at;
use crate::maxflow::flow_row;
use crate::maxflow::flow_wf;
use crate::maxflow::out_flow_of;
use crate::maxflow::residual_pred;
use crate::maxflow::nb_has;
use crate::search::admissible;
use crate::search::is_path;
use crate::search::reachable;
use crate::search::residual_admissible;
use crate::sums::lemma_sum_eq;
use crate::sums::lemma_sum_pointwise_add;
use crate::sums::lemma_sum_pointwise_le;
use crate::sums::lemma_sum_update;
use crate::sums::lemma_sum_zero;
use crate::sums::sum_int;

verus! {

/// `c` is a source/sink cut: one side holds the source, the other the
/// sink.
pub open spec fn is_cut(c: Set<int>, source: VertexId, sink: VertexId) -> bool {
    c.contains(source as int) && !c.contains(sink as int)
}

/// The capacities leaving `u` toward the far side of the cut.
pub open spec fn cross_cap_seq(g: Graph<FlowEdge>, c: Set<int>, u: int) -> Seq<int> {
    Seq::new(
        g.spec_n() as nat,
        |v: int|
            if !c.contains(v) {
                cap_at(g, u, v)
            } else {
                0int
            },
    )
}

/// The total capacity leaving `u` toward the far side.
pub open spec fn cross_cap_of(g: Graph<FlowEdge>, c: Set<int>, u: int) -> int {
    sum_int(cross_cap_seq(g, c, u))
}

/// The flows leaving `u` toward the far side of the cut.
pub open spec fn cross_flow_seq(g: Graph<FlowEdge>, c: Set<int>, u: int) -> Seq<int> {
    Seq::new(
        g.spec_n() as nat,
        |v: int|
            if !c.contains(v) {
                flow_at(g, u, v)
            } else {
                0int
            },
    )
}

/// The net flow leaving `u` toward the far side.
pub open spec fn cross_flow_of(g: Graph<FlowEdge>, c: Set<int>, u: int) -> int {
    sum_int(cross_flow_seq(g, c, u))
}

/// Per cut-side vertex, its crossing capacity.
pub open spec fn cutcap_rows(g: Graph<FlowEdge>, c: Set<int>) -> Seq<int> {
    Seq::new(
        g.spec_n() as nat,
        |u: int|
            if c.contains(u) {
                cross_cap_of(g, c, u)
            } else {
                0int
            },
    )
}

/// The capacity of the cut: the sum, over the source's side, of the
/// capacities crossing to the sink's side.
pub open spec fn cut_capacity(g: Graph<FlowEdge>, c: Set<int>) -> int {
    sum_int(cutcap_rows(g, c))
}

/// Per cut-side vertex, its net crossing flow.
pub open spec fn cutflow_rows(g: Graph<FlowEdge>, c: Set<int>) -> Seq<int> {
    Seq::new(
        g.spec_n() as nat,
        |u: int|
            if c.contains(u) {
                cross_flow_of(g, c, u)
            } else {
                0int
            },
    )
}

/// The net flow across the cut.
pub open spec fn cut_flow(g: Graph<FlowEdge>, c: Set<int>) -> int {
    sum_int(cutflow_rows(g, c))
}

/// The flows from `u` to cut-side vertices below `k`.
pub open spec fn inside_seq(g: Graph<FlowEdge>, c: Set<int>, u: int, k: int) -> Seq<int> {
    Seq::new(
        g.spec_n() as nat,
        |v: int|
            if v < k && c.contains(v) {
                flow_at(g, u, v)
            } else {
                0int
            },
    )
}

/// The net flow from `u` into cut-side vertices below `k`.
pub open spec fn inside_of(g: Graph<FlowEdge>, c: Set<int>, u: int, k: int) -> int {
    sum_int(inside_seq(g, c, u, k))
}

/// Per cut-side vertex below `k2`, its net flow into cut-side vertices
/// below `k`.
pub open spec fn inside_rows(g: Graph<FlowEdge>, c: Set<int>, k2: int, k: int) -> Seq<int> {
    Seq::new(
        g.spec_n() as nat,
        |u: int|
            if u < k2 && c.contains(u) {
                inside_of(g, c, u, k)
            } else {
                0int
            },
    )
}

/// The net flow exchanged inside the cut side, truncated at `k2`/`k`.
pub open spec fn inside_total(g: Graph<FlowEdge>, c: Set<int>, k2: int, k: int) -> int {
    sum_int(inside_rows(g, c, k2, k))
}

/// The all-zero row used as a comparison point.
pub open spec fn zero_seq(n: int) -> Seq<int> {
    Seq::new(
        if n >= 0 {
            n as nat
        } else {
            0
        },
        |v: int| 0int,
    )
}

/// A sequence of zeros sums to zero (in the shape used here).
proof fn lemma_zero_sum(n: int)
    requires
        n >= 0,
    ensures
        sum_int(zero_seq(n)) == 0,
{
    lemma_sum_zero(n);
    assert(zero_seq(n) =~= Seq::new(
        if n >= 0 {
            n as nat
        } else {
            0
        },
        |v: int| 0int,
    ));
}

/// Growing the inner truncation by one column adds exactly that column's
/// masked flow.
proof fn lemma_inside_of_step(g: Graph<FlowEdge>, c: Set<int>, u: int, k: int)
    requires
        g.spec_n() >= 0,
        0 <= k < g.spec_n(),
    ensures
        inside_of(g, c, u, k + 1) == inside_of(g, c, u, k) + (if c.contains(k) {
            flow_at(g, u, k)
        } else {
            0int
        }),
{
    let a = inside_seq(g, c, u, k);
    let b = inside_seq(g, c, u, k + 1);
    assert(b =~= a.update(
        k,
        if c.contains(k) {
            flow_at(g, u, k)
        } else {
            0int
        },
    ));
    lemma_sum_update(
        a,
        k,
        if c.contains(k) {
            flow_at(g, u, k)
        } else {
            0int
        },
    );
    assert(a[k] == 0);
}

/// Growing the outer truncation by one row adds exactly that row's masked
/// total.
proof fn lemma_inside_total_step(g: Graph<FlowEdge>, c: Set<int>, k2: int, k: int)
    requires
        g.spec_n() >= 0,
        0 <= k2 < g.spec_n(),
    ensures
        inside_total(g, c, k2 + 1, k) == inside_total(g, c, k2, k) + (if c.contains(k2) {
            inside_of(g, c, k2, k)
        } else {
            0int
        }),
{
    let a = inside_rows(g, c, k2, k);
    let b = inside_rows(g, c, k2 + 1, k);
    assert(b =~= a.update(
        k2,
        if c.contains(k2) {
            inside_of(g, c, k2, k)
        } else {
            0int
        },
    ));
    lemma_sum_update(
        a,
        k2,
        if c.contains(k2) {
            inside_of(g, c, k2, k)
        } else {
            0int
        },
    );
    assert(a[k2] == 0);
}

/// Because the flow on a slot is the exact negation of its mirror, the
/// flow exchanged inside one side of a cut cancels to zero.
proof fn lemma_inside_cancels(g: Graph<FlowEdge>, c: Set<int>, k: int)
    requires
        flow_wf(g),
        0 <= k <= g.spec_n(),
    ensures
        inside_total(g, c, k, k) == 0,
    decreases k,
{
    let n = g.spec_n();
    if k == 0 {
        assert(inside_rows(g, c, 0, 0) =~= zero_seq(n));
        lemma_zero_sum(n);
    } else {
        lemma_inside_cancels(g, c, k - 1);
        let km = k - 1;
        // extend the inner truncation of every earlier row by column km
        let a = inside_rows(g, c, km, km);
        let b = inside_rows(g, c, km, k);
        let d = Seq::new(
            n as nat,
            |u: int|
                if u < km && c.contains(u) && c.contains(km) {
                    flow_at(g, u, km)
                } else {
                    0int
                },
        );
        assert forall|u: int| 0 <= u < n implies b[u] == a[u] + d[u] by {
            if u < km && c.contains(u) {
                lemma_inside_of_step(g, c, u, km);
            }
        }
        lemma_sum_pointwise_add(a, d, b);
        // the added column is the negation of row km's own truncated total
        let e = inside_seq(g, c, km, k);
        if c.contains(km) {
            let zn = zero_seq(n);
            let de = Seq::new(n as nat, |u: int| d[u] + e[u]);
            assert forall|u: int| 0 <= u < n implies de[u] == 0 by {
                if u < km && c.contains(u) {
                    assert(flow_at(g, u, km) == -flow_at(g, km, u));
                } else if u == km && c.contains(u) {
                    // the diagonal slot mirrors itself, so it carries none
                    assert(flow_at(g, km, km) == -flow_at(g, km, km));
                }
            }
            lemma_sum_pointwise_add(d, e, de);
            assert(de =~= zn);
            lemma_zero_sum(n);
            assert(sum_int(d) == -sum_int(e));
            assert(sum_int(e) == inside_of(g, c, km, k));
        } else {
            assert(d =~= zero_seq(n));
            lemma_zero_sum(n);
        }
        // append row km to the outer truncation
        lemma_inside_total_step(g, c, km, k);
        // row km's inner truncations at km and k agree up to the diagonal
        if c.contains(km) {
            lemma_inside_of_step(g, c, km, km);
            assert(flow_at(g, km, km) == -flow_at(g, km, km));
            assert(inside_of(g, c, km, k) == inside_of(g, c, km, km));
        }
        assert(inside_total(g, c, k, k) == 0);
    }
}

/// Each net flow row splits into its within-side part and its crossing
/// part.
proof fn lemma_row_split(g: Graph<FlowEdge>, c: Set<int>, u: int)
    requires
        flow_wf(g),
        0 <= u < g.spec_n(),
    ensures
        out_flow_of(g, u) == inside_of(g, c, u, g.spec_n()) + cross_flow_of(g, c, u),
{
    let n = g.spec_n();
    let a = inside_seq(g, c, u, n);
    let b = cross_flow_seq(g, c, u);
    let r = flow_row(g, u);
    assert(forall|v: int| 0 <= v < n ==> r[v] == a[v] + b[v]);
    lemma_sum_pointwise_add(a, b, r);
}

/// The net flow across any cut equals the total flow out of the source:
/// conservation empties every other row, and the within-side exchange
/// cancels.
pub proof fn lemma_cut_flow_is_value(
    g: Graph<FlowEdge>,
    c: Set<int>,
    source: VertexId,
    sink: VertexId,
)
    requires
        flow_wf(g),
        conserved(g, source, sink),
        (source as int) < g.spec_n(),
        (sink as int) < g.spec_n(),
        source != sink,
        is_cut(c, source, sink),
    ensures
        cut_flow(g, c) == out_flow_of(g, source as int),
{
    let n = g.spec_n();
    let s = source as int;
    // masked row sums: only the source's row survives
    let vals = Seq::new(
        n as nat,
        |u: int|
            if c.contains(u) {
                out_flow_of(g, u)
            } else {
                0int
            },
    );
    let zn = zero_seq(n);
    assert forall|u: int| 0 <= u < n implies vals[u] == zn.update(s, out_flow_of(g, s))[u] by {
        if u != s {
            if c.contains(u) {
                assert(u != sink as int);
                assert(out_flow_of(g, u) == 0);
            }
        }
    }
    assert(vals =~= zn.update(s, out_flow_of(g, s)));
    lemma_sum_update(zn, s, out_flow_of(g, s));
    lemma_zero_sum(n);
    assert(sum_int(vals) == out_flow_of(g, s));
    // each surviving row splits into within-side and crossing parts
    let ins = inside_rows(g, c, n, n);
    let crs = cutflow_rows(g, c);
    assert forall|u: int| 0 <= u < n implies vals[u] == ins[u] + crs[u] by {
        if c.contains(u) {
            lemma_row_split(g, c, u);
        }
    }
    lemma_sum_pointwise_add(ins, crs, vals);
    lemma_inside_cancels(g, c, n);
}

/// Law: the total flow out of the source never exceeds the capacity of
/// any source/sink cut (weak duality).
pub proof fn lemma_flow_value_le_cut_capacity(
    g: Graph<FlowEdge>,
    c: Set<int>,
    source: VertexId,
    sink: VertexId,
)
    requires
        flow_wf(g),
        conserved(g, source, sink),
        (source as int) < g.spec_n(),
        (sink as int) < g.spec_n(),
        source != sink,
        is_cut(c, source, sink),
    ensures
        out_flow_of(g, source as int) <= cut_capacity(g, c),
{
    let n = g.spec_n();
    lemma_cut_flow_is_value(g, c, source, sink);
    let crs = cutflow_rows(g, c);
    let caps = cutcap_rows(g, c);
    assert forall|u: int| 0 <= u < n implies crs[u] <= caps[u] by {
        if c.contains(u) {
            lemma_sum_pointwise_le(cross_flow_seq(g, c, u), cross_cap_seq(g, c, u));
        }
    }
    lemma_sum_pointwise_le(crs, caps);
}

/// The side of all vertices the source can still reach through
/// positive-residual edges.
pub open spec fn residual_cut(g: Graph<FlowEdge>, source: VertexId) -> Set<int> {
    Set::new(|v: int| 0 <= v < g.spec_n() && reachable(g, residual_pred(), source, v as usize))
}

/// One admissible step extends reachability.
proof fn lemma_reach_step(g: Graph<FlowEdge>, source: VertexId, u: VertexId, v: VertexId)
    requires
        reachable(g, residual_pred(), source, u),
        admissible(g, residual_pred(), u as int, v as int),
    ensures
        reachable(g, residual_pred(), source, v),
{
    let path = choose|path: Seq<VertexId>| is_path(g, residual_pred(), path, source, u);
    let longer = path.push(v);
    assert(longer.last() == v);
    assert(longer[0] == path[0]);
    assert forall|i: int|
        0 <= i < longer.len() - 1 implies admissible(
        g,
        residual_pred(),
        #[trigger] longer[i] as int,
        longer[i + 1] as int,
    ) by {
        if i < path.len() - 1 {
            assert(longer[i] == path[i] && longer[i + 1] == path[i + 1]);
        } else {
            assert(longer[i] == path.last());
        }
    }
    assert(is_path(g, residual_pred(), longer, source, v));
}

/// Law: when no augmenting path is left, the cut of residual-reachable
/// vertices is saturated, and its capacity equals the total flow out of
/// the source.  Together with weak duality this is the max-flow/min-cut
/// equivalence: the value reached by the algorithm is the minimum cut
/// capacity.
pub proof fn lemma_min_cut_achieved(g: Graph<FlowEdge>, source: VertexId, sink: VertexId)
    requires
        flow_wf(g),
        conserved(g, source, sink),
        (source as int) < g.spec_n(),
        (sink as int) < g.spec_n(),
        source != sink,
        !reachable(g, residual_pred(), source, sink),
    ensures
        is_cut(residual_cut(g, source), source, sink),
        cut_capacity(g, residual_cut(g, source)) == out_flow_of(g, source as int),
{
    let n = g.spec_n();
    let c = residual_cut(g, source);
    assert(c.contains(source as int)) by {
        let self_path: Seq<VertexId> = seq![source];
        assert(self_path[0] == source && self_path.last() == source);
        assert(is_path(g, residual_pred(), self_path, source, source));
        assert(reachable(g, residual_pred(), source, source));
    }
    assert(!c.contains(sink as int));
    lemma_cut_flow_is_value(g, c, source, sink);
    // every crossing slot is saturated: an unsaturated listed edge would
    // extend reachability past the cut
    assert forall|u: int, v: int|
        0 <= u < n && 0 <= v < n && c.contains(u) && !c.contains(v) implies #[trigger] flow_at(
        g,
        u,
        v,
    ) == cap_at(g, u, v) by {
        if nb_has(g, u, v) {
            if flow_at(g, u, v) < cap_at(g, u, v) {
                assert(residual_admissible(g.mat()[u][v]));
                assert(residual_pred()(g.mat()[u][v]));
                assert(g.nbs()[u].contains((v as usize) as VertexId));
                assert(admissible(g, residual_pred(), u, v));
                assert(reachable(g, residual_pred(), source, u as usize));
                lemma_reach_step(g, source, u as usize, v as usize);
                assert(c.contains(v));
            }
            assert(flow_at(g, u, v) <= cap_at(g, u, v));
        } else {
            assert(g.mat()[u][v] == (FlowEdge { capacity: 0, flow: 0 }));
        }
    }
    let crs = cutflow_rows(g, c);
    let caps = cutcap_rows(g, c);
    assert forall|u: int| 0 <= u < n implies crs[u] == caps[u] by {
        if c.contains(u) {
            assert forall|v: int|
                0 <= v < n implies cross_flow_seq(g, c, u)[v] == cross_cap_seq(g, c, u)[v] by {
                if !c.contains(v) {
                    assert(flow_at(g, u, v) == cap_at(g, u, v));
                }
            }
            lemma_sum_eq(cross_flow_seq(g, c, u), cross_cap_seq(g, c, u));
        }
    }
    lemma_sum_eq(crs, caps);
}

/// Law: any two well-formed conserved flow states over the same
/// capacities that both admit no further augmenting path carry the same
/// total flow out of the source.  `max_flow` leaves the network in
/// exactly such a state whatever search mode drove it, so breadth-first
/// and depth-first runs return the same value.
pub proof fn lemma_total_flow_unique(
    g1: Graph<FlowEdge>,
    g2: Graph<FlowEdge>,
    source: VertexId,
    sink: VertexId,
)
    requires
        flow_wf(g1),
        flow_wf(g2),
        conserved(g1, source, sink),
        conserved(g2, source, sink),
        g1.spec_n() == g2.spec_n(),
        (source as int) < g1.spec_n(),
        (sink as int) < g1.spec_n(),
        source != sink,
        !reachable(g1, residual_pred(), source, sink),
        !reachable(g2, residual_pred(), source, sink),
        forall|u: int, v: int|
            0 <= u < g1.spec_n() && 0 <= v < g1.spec_n() ==> #[trigger] cap_at(g1, u, v) == cap_at(
                g2,
                u,
                v,
            ),
    ensures
        out_flow_of(g1, source as int) == out_flow_of(g2, source as int),
{
    let c1 = residual_cut(g1, source);
    let c2 = residual_cut(g2, source);
    lemma_min_cut_achieved(g1, source, sink);
    lemma_min_cut_achieved(g2, source, sink);
    lemma_flow_value_le_cut_capacity(g2, c1, source, sink);
    lemma_flow_value_le_cut_capacity(g1, c2, source, sink);
    lemma_same_caps_same_cuts(g1, g2, c1);
    lemma_same_caps_same_cuts(g1, g2, c2);
}

/// Cut capacities depend on the capacities alone.
proof fn lemma_same_caps_same_cuts(g1: Graph<FlowEdge>, g2: Graph<FlowEdge>, c: Set<int>)
    requires
        g1.spec_n() >= 0,
        g1.spec_n() == g2.spec_n(),
        forall|u: int, v: int|
            0 <= u < g1.spec_n() && 0 <= v < g1.spec_n() ==> #[trigger] cap_at(g1, u, v) == cap_at(
                g2,
                u,
                v,
            ),
    ensures
        cut_capacity(g1, c) == cut_capacity(g2, c),
{
    let n = g1.spec_n();
    assert forall|u: int| 0 <= u < n implies cutcap_rows(g1, c)[u] == cutcap_rows(g2, c)[u] by {
        if c.contains(u) {
            assert forall|v: int|
                0 <= v < n implies cross_cap_seq(g1, c, u)[v] == cross_cap_seq(g2, c, u)[v] by {
                if !c.contains(v) {
                    assert(cap_at(g1, u, v) == cap_at(g2, u, v));
                }
            }
            lemma_sum_eq(cross_cap_seq(g1, c, u), cross_cap_seq(g2, c, u));
        }
    }
    lemma_sum_eq(cutcap_rows(g1, c), cutcap_rows(g2, c));
}

} // verus!
