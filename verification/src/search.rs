//! The traversal engine: a one-shot breadth-first or depth-first walk over
//! a graph under an edge-admissibility predicate, with early termination at
//! a designated sink, and the augmenting-path / max-flow loop built on it.

use std::collections::VecDeque;
use vstd::prelude::*;
use vstd::set_lib::lemma_int_range;
use vstd::set_lib::lemma_len_subset;
use vstd::set_lib::set_int_range;

use crate::flow::FlowEdge;
use crate::flow::Graph;
use crate::flow::Property;
use crate::flow::Search;
use crate::flow::VertexId;
use crate::flow::BFS;
use crate::flow::DFS;

verus! {

/// The edge `u -> v` exists (it is listed among `u`'s neighbors) and its
/// property passes the predicate `p`.
pub open spec fn admissible<E: Property>(
    g: Graph<E>,
    p: spec_fn(E) -> bool,
    u: int,
    v: int,
) -> bool {
    &&& 0 <= u < g.spec_n()
    &&& 0 <= v < g.spec_n()
    &&& g.nbs()[u].contains(v as usize)
    &&& p(g.mat()[u][v])
}

/// `path` walks from `s` to `t` through edges admissible under `p`.
pub open spec fn is_path<E: Property>(
    g: Graph<E>,
    p: spec_fn(E) -> bool,
    path: Seq<VertexId>,
    s: VertexId,
    t: VertexId,
) -> bool {
    &&& path.len() >= 1
    &&& path[0] == s
    &&& path.last() == t
    &&& (s as int) < g.spec_n()
    &&& forall|i: int|
        0 <= i < path.len() - 1 ==> admissible(g, p, #[trigger] path[i] as int, path[i + 1] as int)
}

/// An admissible path with at most `k` edges leads from `s` to `t`.
pub open spec fn reach_within<E: Property>(
    g: Graph<E>,
    p: spec_fn(E) -> bool,
    s: VertexId,
    t: VertexId,
    k: int,
) -> bool {
    exists|path: Seq<VertexId>| is_path(g, p, path, s, t) && path.len() <= k + 1
}

/// Some admissible path leads from `s` to `t`.
pub open spec fn reachable<E: Property>(
    g: Graph<E>,
    p: spec_fn(E) -> bool,
    s: VertexId,
    t: VertexId,
) -> bool {
    exists|path: Seq<VertexId>| is_path(g, p, path, s, t)
}

/// A set of vertices that contains `s` and is closed under admissible
/// edges contains everything reachable from `s`.
proof fn lemma_closed_set_blocks<E: Property>(
    g: Graph<E>,
    p: spec_fn(E) -> bool,
    d: Set<int>,
    path: Seq<VertexId>,
    s: VertexId,
    t: VertexId,
)
    requires
        is_path(g, p, path, s, t),
        d.contains(s as int),
        forall|v: int, u: int|
            d.contains(v) && admissible(g, p, v, u) ==> d.contains(#[trigger] admissible_dst(v, u)),
    ensures
        d.contains(t as int),
    decreases path.len(),
{
    if path.len() == 1 {
        assert(path[0] == s && path.last() == t);
    } else {
        let pre = path.drop_last();
        assert(forall|i: int| 0 <= i < pre.len() ==> pre[i] == path[i]);
        assert(pre.last() == path[path.len() - 2]);
        assert(is_path(g, p, pre, s, pre.last()));
        lemma_closed_set_blocks(g, p, d, pre, s, pre.last());
        assert(admissible(g, p, path[path.len() - 2] as int, path[path.len() - 1] as int));
        assert(d.contains(admissible_dst(pre.last() as int, t as int)));
    }
}

/// Identity marker used to give the closure hypothesis of
/// `lemma_closed_set_blocks` a stable trigger.
pub open spec fn admissible_dst(v: int, u: int) -> int {
    u
}

/// The vertices newly discovered while expanding the first `k` entries of
/// `u`'s adjacency list, in list order: each target that was still
/// unvisited in the distance record `dists`, reached through a
/// predicate-admissible edge, and not already discovered earlier in the
/// same expansion.
pub open spec fn discoveries<E: Property>(
    g: Graph<E>,
    p: spec_fn(E) -> bool,
    dists: Seq<u32>,
    u: int,
    k: int,
) -> Seq<VertexId>
    decreases k,
{
    if k <= 0 {
        Seq::empty()
    } else {
        let pre = discoveries(g, p, dists, u, k - 1);
        let w = g.nbs()[u][k - 1];
        if dists[w as int] == u32::MAX && !pre.contains(w) && p(g.mat()[u][w as int]) {
            pre.push(w)
        } else {
            pre
        }
    }
}

/// Representation of a breadth-first or depth-first search iterator.
///
/// It hands out one `(vertex, distance, parent)` triple per vertex popped
/// from the frontier, in pop order, and stops as soon as the sink vertex
/// itself is produced.
#[verifier::reject_recursive_types(E)]
pub struct GraphIterator<'a, E: Property, F> {
    queue: VecDeque<VertexId>,
    stack: Vec<VertexId>,
    graph: &'a Graph<E>,
    distances: Vec<u32>,
    parents: Vec<VertexId>,
    predicate: F,
    search: Search,
    sink: VertexId,
    sink_found: bool,
    source: Ghost<VertexId>,
    popped: Ghost<Set<int>>,
    pred_spec: Ghost<spec_fn(E) -> bool>,
}

impl<'a, E: Property, F: Fn(E) -> bool> GraphIterator<'a, E, F> {
    /// The graph being walked.
    pub closed spec fn g(self) -> Graph<E> {
        *self.graph
    }

    /// The number of vertices of that graph.
    pub open spec fn n(self) -> int {
        self.g().spec_n()
    }

    /// The mathematical admissibility predicate the walk runs under.
    pub closed spec fn pred(self) -> spec_fn(E) -> bool {
        self.pred_spec@
    }

    /// The source vertex the walk started from.
    pub closed spec fn spec_source(self) -> VertexId {
        self.source@
    }

    /// The sink vertex the walk stops at.
    pub closed spec fn spec_sink(self) -> VertexId {
        self.sink
    }

    /// Whether the sink has already been produced.
    pub closed spec fn spec_found(self) -> bool {
        self.sink_found
    }

    /// The set of vertices popped (and hence produced) so far.
    pub closed spec fn spec_popped(self) -> Set<int> {
        self.popped@
    }

    /// The frontier still awaiting a pop, in container order.
    pub closed spec fn frontier(self) -> Seq<VertexId> {
        match self.search {
            Search::Bfs => self.queue@,
            Search::Dfs => self.stack@,
        }
    }

    /// The search mode.
    pub closed spec fn mode(self) -> Search {
        self.search
    }

    /// Whether `v` has been discovered (its distance slot was written).
    pub closed spec fn discovered(self, v: int) -> bool {
        self.distances@[v] != u32::MAX
    }

    /// The recorded first-discovery distance of `v`.
    pub closed spec fn dist(self, v: int) -> u32 {
        self.distances@[v]
    }

    /// The whole distance record, for feeding the discovery law.
    pub closed spec fn dist_map(self) -> Seq<u32> {
        self.distances@
    }

    /// The recorded first-discovery parent of `v`.
    pub closed spec fn parent(self, v: int) -> VertexId {
        self.parents@[v]
    }

    /// The set of discovered vertices.
    pub closed spec fn dset(self) -> Set<int> {
        Set::new(|v: int| 0 <= v < self.n() && self.discovered(v))
    }

    /// Termination measure of the walk: every pop either discovers new
    /// vertices or shrinks the frontier.
    pub closed spec fn measure(self) -> int {
        2 * (self.n() - self.dset().len()) + self.frontier().len()
    }

    /// Fixed-shape part of the invariant.
    pub closed spec fn shape_inv(self) -> bool {
        &&& self.g().wf()
        &&& self.n() < u32::MAX as int
        &&& self.distances@.len() == self.n()
        &&& self.parents@.len() == self.n()
        &&& (self.spec_source() as int) < self.n()
        &&& (self.spec_sink() as int) < self.n()
        &&& match self.search {
            Search::Bfs => self.stack@.len() == 0,
            Search::Dfs => self.queue@.len() == 0,
        }
    }

    /// The stored executable predicate runs on every edge property and
    /// agrees with the mathematical predicate.
    pub closed spec fn pred_inv(self) -> bool {
        &&& forall|e: E| #[trigger] call_requires(self.predicate, (e,))
        &&& forall|e: E, b: bool| call_ensures(self.predicate, (e,), b) ==> b == self.pred()(e)
    }

    /// `v`'s admissible out-edges whose targets are listed before position
    /// `k` of its adjacency list all lead to discovered vertices.
    pub closed spec fn expanded_upto(self, v: int, k: int) -> bool {
        forall|j: int|
            0 <= j < k ==> (self.pred()(
                self.g().mat()[v][#[trigger] self.g().nbs()[v][j] as int],
            ) ==> self.discovered(self.g().nbs()[v][j] as int))
    }

    /// All of `v`'s admissible out-edges lead to discovered vertices.
    pub closed spec fn expanded(self, v: int) -> bool {
        self.expanded_upto(v, self.g().nbs()[v].len() as int)
    }

    /// Mutable-state part of the invariant, without the sink flag and the
    /// expansion closure (those are suspended inside one step).
    pub closed spec fn core_inv(self) -> bool {
        let n = self.n();
        &&& self.discovered(self.spec_source() as int)
        &&& self.dist(self.spec_source() as int) == 0
        &&& self.parent(self.spec_source() as int) == usize::MAX
        &&& forall|k: int|
            0 <= k < self.frontier().len() ==> (#[trigger] self.frontier()[k] as int) < n
                && self.discovered(self.frontier()[k] as int) && !self.spec_popped().contains(
                self.frontier()[k] as int,
            )
        &&& forall|i: int, j: int|
            0 <= i < j < self.frontier().len() ==> self.frontier()[i] != self.frontier()[j]
        &&& forall|v: int| #[trigger] self.spec_popped().contains(v) ==> 0 <= v < n
        &&& forall|v: int| #[trigger] self.spec_popped().contains(v) ==> self.discovered(v)
        &&& forall|v: int|
            0 <= v < n && #[trigger] self.discovered(v) ==> self.spec_popped().contains(v)
                || self.frontier().contains(v as usize)
        &&& forall|v: int|
            0 <= v < n && #[trigger] self.discovered(v) && v != self.spec_source() as int ==> (
            self.parent(v) as int) < n && self.discovered(self.parent(v) as int)
                && self.spec_popped().contains(self.parent(v) as int) && admissible(
                self.g(),
                self.pred(),
                self.parent(v) as int,
                v,
            ) && self.dist(self.parent(v) as int) as int + 1 == self.dist(v) as int
        &&& self.dset().finite()
        &&& forall|v: int|
            0 <= v < n && #[trigger] self.discovered(v) ==> (self.dist(v) as int)
                < self.dset().len()
    }

    /// Mutable-state part of the invariant.
    pub closed spec fn state_inv(self) -> bool {
        &&& self.core_inv()
        &&& (self.spec_found() ==> self.spec_popped().contains(self.spec_sink() as int))
        &&& (!self.spec_found() ==> !self.spec_popped().contains(self.spec_sink() as int))
        &&& (!self.spec_found() ==> forall|v: int|
            #[trigger] self.spec_popped().contains(v) ==> self.expanded(v))
    }

    /// The full invariant of a live iterator.
    pub closed spec fn inv(self) -> bool {
        self.shape_inv() && self.pred_inv() && self.state_inv()
    }

    /// What one produced item does to the walk: the rest of the frontier
    /// (head removed under breadth-first, top removed under depth-first)
    /// stays in order; the sink's edges are left unexplored; any other
    /// popped vertex appends its newly discovered neighbors to the
    /// frontier in adjacency-list order, each recorded one step farther
    /// away with the popped vertex as parent, and no other record moves.
    pub open spec fn step_law(self, post: Self, item: (VertexId, u32, VertexId)) -> bool {
        let mid = match self.mode() {
            Search::Bfs => self.frontier().subrange(1, self.frontier().len() as int),
            Search::Dfs => self.frontier().drop_last(),
        };
        let news = discoveries(
            self.g(),
            self.pred(),
            self.dist_map(),
            item.0 as int,
            self.g().nbs()[item.0 as int].len() as int,
        );
        if item.0 == self.spec_sink() {
            &&& post.frontier() == mid
            &&& forall|v: int|
                0 <= v < self.n() ==> #[trigger] post.dist(v) == self.dist(v) && post.parent(v)
                    == self.parent(v)
            &&& forall|v: int|
                0 <= v < self.n() ==> (#[trigger] post.discovered(v) <==> self.discovered(v))
        } else {
            &&& post.frontier() == mid + news
            &&& forall|j: int|
                0 <= j < news.len() ==> #[trigger] post.dist(news[j] as int) as int == item.1 as int
                    + 1 && post.parent(news[j] as int) == item.0
            &&& forall|v: int|
                0 <= v < self.n() ==> (#[trigger] post.discovered(v) <==> self.discovered(v)
                    || news.contains(v as usize))
            &&& forall|v: int|
                0 <= v < self.n() && !news.contains(v as usize) ==> #[trigger] post.dist(v)
                    == self.dist(v) && post.parent(v) == self.parent(v)
        }
    }

    /// Everything observable about the iterator is the same in `a` and
    /// `b` (the containers are compared by contents).
    pub closed spec fn same_state(a: Self, b: Self) -> bool {
        &&& a.graph == b.graph
        &&& a.queue@ == b.queue@
        &&& a.stack@ == b.stack@
        &&& a.distances@ == b.distances@
        &&& a.parents@ == b.parents@
        &&& a.predicate == b.predicate
        &&& a.search == b.search
        &&& a.sink == b.sink
        &&& a.sink_found == b.sink_found
        &&& a.source == b.source
        &&& a.popped == b.popped
        &&& a.pred_spec == b.pred_spec
    }

    /// The discovered set never exceeds the vertex count.
    proof fn lemma_dset_card(self)
        requires
            self.shape_inv(),
            self.dset().finite(),
        ensures
            self.dset().len() <= self.n(),
    {
        lemma_int_range(0, self.n());
        assert(self.dset().subset_of(set_int_range(0, self.n())));
        lemma_len_subset(self.dset(), set_int_range(0, self.n()));
    }

    /// Two iterator states with the same containers, arrays and ghost
    /// bookkeeping satisfy the same core invariant.
    proof fn lemma_core_preserved(a: Self, b: Self)
        requires
            a.core_inv(),
            b.graph == a.graph,
            b.queue@ == a.queue@,
            b.stack@ == a.stack@,
            b.distances@ == a.distances@,
            b.parents@ == a.parents@,
            b.search == a.search,
            b.source == a.source,
            b.pred_spec == a.pred_spec,
            b.popped@ == a.popped@,
        ensures
            b.core_inv(),
            b.dset() == a.dset(),
            b.frontier() == a.frontier(),
    {
        let n = b.n();
        assert(b.frontier() == a.frontier());
        assert(b.dset() =~= a.dset());
        assert(b.discovered(b.spec_source() as int) == a.discovered(a.spec_source() as int));
        assert forall|k: int|
            0 <= k < b.frontier().len() implies (#[trigger] b.frontier()[k] as int) < n
            && b.discovered(b.frontier()[k] as int) && !b.spec_popped().contains(
            b.frontier()[k] as int,
        ) by {
            assert(a.frontier()[k] == b.frontier()[k]);
            assert(a.discovered(a.frontier()[k] as int));
        }
        assert forall|v: int|
            0 <= v < n && #[trigger] b.discovered(v) implies b.spec_popped().contains(v)
            || b.frontier().contains(v as usize) by {
            assert(a.discovered(v));
        }
        assert forall|v: int| #[trigger] b.spec_popped().contains(v) implies 0 <= v < n
            && b.discovered(v) by {
            assert(a.spec_popped().contains(v));
            assert(a.discovered(v));
        }
        assert forall|v: int|
            0 <= v < n && #[trigger] b.discovered(v) && v != b.spec_source() as int implies (
        b.parent(v) as int) < n && b.discovered(b.parent(v) as int) && b.spec_popped().contains(
            b.parent(v) as int,
        ) && admissible(b.g(), b.pred(), b.parent(v) as int, v) && b.dist(
            b.parent(v) as int,
        ) as int + 1 == b.dist(v) as int by {
            assert(a.discovered(v));
            assert(admissible(a.g(), a.pred(), a.parent(v) as int, v));
        }
        assert forall|v: int|
            0 <= v < n && #[trigger] b.discovered(v) implies (b.dist(v) as int)
            < b.dset().len() by {
            assert(a.discovered(v));
        }
    }

    /// Two iterator states with the same containers, arrays, ghost
    /// bookkeeping, sink and sink flag satisfy the same full state
    /// invariant.
    proof fn lemma_state_preserved(a: Self, b: Self)
        requires
            a.state_inv(),
            b.graph == a.graph,
            b.queue@ == a.queue@,
            b.stack@ == a.stack@,
            b.distances@ == a.distances@,
            b.parents@ == a.parents@,
            b.search == a.search,
            b.source == a.source,
            b.pred_spec == a.pred_spec,
            b.popped@ == a.popped@,
            b.sink == a.sink,
            b.sink_found == a.sink_found,
        ensures
            b.state_inv(),
    {
        Self::lemma_core_preserved(a, b);
        if !b.spec_found() {
            assert forall|v: int| #[trigger] b.spec_popped().contains(v) implies b.expanded(
                v,
            ) by {
                assert(a.spec_popped().contains(v));
                assert(a.expanded(v));
                Self::lemma_expanded_preserved(a, b, v);
            }
        }
    }

    /// Expansion of one vertex carries over between states with the same
    /// graph, predicate and discovery record.
    proof fn lemma_expanded_preserved(a: Self, b: Self, v: int)
        requires
            a.expanded(v),
            b.graph == a.graph,
            b.distances@ == a.distances@,
            b.pred_spec == a.pred_spec,
        ensures
            b.expanded(v),
    {
        assert forall|j: int|
            0 <= j < b.g().nbs()[v].len() implies (b.pred()(
            b.g().mat()[v][#[trigger] b.g().nbs()[v][j] as int],
        ) ==> b.discovered(b.g().nbs()[v][j] as int)) by {
            assert(a.expanded_upto(v, a.g().nbs()[v].len() as int));
            let w = a.g().nbs()[v][j] as int;
            assert(a.pred()(a.g().mat()[v][w]) ==> a.discovered(w));
        }
        assert(b.expanded_upto(v, b.g().nbs()[v].len() as int));
    }

    pub(crate) fn new(
        graph: &'a Graph<E>,
        source: VertexId,
        sink: VertexId,
        predicate: F,
        search: Search,
        Ghost(pspec): Ghost<spec_fn(E) -> bool>,
    ) -> (it: GraphIterator<'a, E, F>)
        requires
            graph.wf(),
            graph.spec_n() < u32::MAX as int,
            (source as int) < graph.spec_n(),
            (sink as int) < graph.spec_n(),
            forall|e: E| #[trigger] call_requires(predicate, (e,)),
            forall|e: E, b: bool| call_ensures(predicate, (e,), b) ==> b == pspec(e),
        ensures
            it.inv(),
            it.g() == *graph,
            it.spec_source() == source,
            it.spec_sink() == sink,
            it.pred() == pspec,
            it.mode() == search,
            !it.spec_found(),
            it.spec_popped() == Set::<int>::empty(),
            it.frontier() == seq![source],
            forall|v: int| 0 <= v < it.n() ==> (it.discovered(v) <==> v == source as int),
            it.dist(source as int) == 0,
            forall|v: int|
                0 <= v < it.n() && v != source as int ==> #[trigger] it.dist(v) == u32::MAX,
            forall|v: int| 0 <= v < it.n() ==> #[trigger] it.parent(v) == usize::MAX,
            it.dist_map().len() == it.n(),
            forall|v: int| 0 <= v < it.n() ==> #[trigger] it.dist_map()[v] == it.dist(v),
    {
        let n = graph.n_vertexes();
        let mut queue: VecDeque<VertexId> = VecDeque::new();
        let mut stack: Vec<VertexId> = Vec::new();
        match search {
            Search::Bfs => {
                queue.push_back(source);
            },
            Search::Dfs => {
                stack.push(source);
            },
        }
        let mut distances: Vec<u32> = Vec::new();
        let mut i: usize = 0;
        while i < n
            invariant
                i <= n,
                distances@.len() == i,
                forall|j: int| 0 <= j < i ==> distances@[j] == u32::MAX,
            decreases n - i,
        {
            distances.push(u32::MAX);
            i = i + 1;
        }
        let mut parents: Vec<VertexId> = Vec::new();
        let mut j: usize = 0;
        while j < n
            invariant
                j <= n,
                parents@.len() == j,
                forall|m: int| 0 <= m < j ==> parents@[m] == usize::MAX,
            decreases n - j,
        {
            parents.push(usize::MAX);
            j = j + 1;
        }
        distances[source] = 0;
        let it = GraphIterator {
            graph,
            queue,
            stack,
            distances,
            parents,
            predicate,
            search,
            sink,
            sink_found: false,
            source: Ghost(source),
            popped: Ghost(Set::empty()),
            pred_spec: Ghost(pspec),
        };
        proof {
            assert(it.frontier() =~= seq![source]);
            assert(it.frontier()[0] == source);
            assert(it.frontier().contains(source));
            assert forall|v: int| 0 <= v < it.n() implies (it.discovered(v) <==> v
                == source as int) by {}
            assert(it.dset() =~= Set::<int>::empty().insert(source as int));
            assert(it.dset().finite());
            assert(it.dset().len() == 1);
            assert(it.spec_popped() =~= Set::<int>::empty());
            assert(it.shape_inv());
            assert(it.pred_inv());
            assert(it.state_inv());
        }
        it
    }

    /// Take the next frontier vertex: the front of the queue under
    /// breadth-first, the top of the stack under depth-first.
    fn pop(&mut self) -> (r: Option<VertexId>)
        ensures
            final(self).graph == old(self).graph,
            final(self).distances@ == old(self).distances@,
            final(self).parents@ == old(self).parents@,
            final(self).predicate == old(self).predicate,
            final(self).search == old(self).search,
            final(self).sink == old(self).sink,
            final(self).sink_found == old(self).sink_found,
            final(self).source == old(self).source,
            final(self).popped == old(self).popped,
            final(self).pred_spec == old(self).pred_spec,
            match r {
                Option::None => Self::same_state(*final(self), *old(self)) && old(self).frontier().len() == 0,
                Option::Some(v) => old(self).frontier().len() > 0 && exists|k: int|
                    0 <= k < old(self).frontier().len() && v == old(self).frontier()[k]
                        && final(self).frontier() == old(self).frontier().remove(k),
            },
            // FIFO under breadth-first, LIFO under depth-first: only the
            // pop discipline differs between the modes
            r matches Some(v) ==> match old(self).search {
                Search::Bfs => v == old(self).frontier()[0] && final(self).frontier() == old(
                    self,
                ).frontier().subrange(1, old(self).frontier().len() as int),
                Search::Dfs => v == old(self).frontier().last() && final(self).frontier() == old(
                    self,
                ).frontier().drop_last(),
            },
            match old(self).search {
                Search::Bfs => final(self).stack@ == old(self).stack@,
                Search::Dfs => final(self).queue@ == old(self).queue@,
            },
    {
        match self.search {
            Search::Bfs => {
                let r = self.queue.pop_front();
                proof {
                    if r is Some {
                        let f0 = old(self).frontier();
                        assert(self.frontier() =~= f0.remove(0));
                        assert(self.frontier() =~= f0.subrange(1, f0.len() as int));
                    }
                }
                r
            },
            Search::Dfs => {
                let r = self.stack.pop();
                proof {
                    if r is Some {
                        let f0 = old(self).frontier();
                        assert(self.frontier() =~= f0.remove(f0.len() - 1));
                        assert(self.frontier() =~= f0.drop_last());
                        assert(r == Some(f0.last()));
                    }
                }
                r
            },
        }
    }

    /// Add a newly discovered vertex to the frontier.
    fn push(&mut self, v: VertexId)
        ensures
            final(self).graph == old(self).graph,
            final(self).distances@ == old(self).distances@,
            final(self).parents@ == old(self).parents@,
            final(self).predicate == old(self).predicate,
            final(self).search == old(self).search,
            final(self).sink == old(self).sink,
            final(self).sink_found == old(self).sink_found,
            final(self).source == old(self).source,
            final(self).popped == old(self).popped,
            final(self).pred_spec == old(self).pred_spec,
            final(self).frontier() == old(self).frontier().push(v),
            match old(self).search {
                Search::Bfs => final(self).stack@ == old(self).stack@,
                Search::Dfs => final(self).queue@ == old(self).queue@,
            },
    {
        match self.search {
            Search::Bfs => self.queue.push_back(v),
            Search::Dfs => self.stack.push(v),
        }
    }

    /// The parent chain of any discovered vertex realizes its recorded
    /// distance: an admissible path of exactly that many edges reaches it
    /// from the source (first-discovery values are genuine path lengths).
    #[verifier::rlimit(50)]
    pub proof fn lemma_dist_reaches(self, v: int)
        requires
            self.inv(),
            0 <= v < self.n(),
            self.discovered(v),
        ensures
            reach_within(self.g(), self.pred(), self.spec_source(), v as usize, self.dist(v) as int),
        decreases self.dist(v),
    {
        if v == self.spec_source() as int {
            let path: Seq<VertexId> = seq![self.spec_source()];
            assert(path[0] == self.spec_source() && path.last() == self.spec_source());
            assert(is_path(self.g(), self.pred(), path, self.spec_source(), v as usize));
            assert(path.len() <= self.dist(v) as int + 1);
        } else {
            let p = self.parent(v);
            assert(self.spec_popped().contains(p as int));
            assert(self.dist(p as int) as int + 1 == self.dist(v) as int);
            self.lemma_dist_reaches(p as int);
            let pre = choose|pre: Seq<VertexId>|
                is_path(self.g(), self.pred(), pre, self.spec_source(), (p as int) as usize)
                    && pre.len() <= self.dist(p as int) as int + 1;
            let path = pre.push(v as usize);
            assert(path.last() == v as usize);
            assert(path[0] == pre[0]);
            assert forall|i: int|
                0 <= i < path.len() - 1 implies admissible(
                self.g(),
                self.pred(),
                #[trigger] path[i] as int,
                path[i + 1] as int,
            ) by {
                if i < pre.len() - 1 {
                    assert(path[i] == pre[i] && path[i + 1] == pre[i + 1]);
                } else {
                    assert(path[i] == pre.last());
                    assert(admissible(self.g(), self.pred(), p as int, v));
                }
            }
            assert(is_path(self.g(), self.pred(), path, self.spec_source(), v as usize));
            assert(path.len() <= self.dist(v) as int + 1);
        }
    }

    /// Facts about a live iterator that callers outside this module need:
    /// popped vertices are in range, the measure is a usable termination
    /// bound, and a found sink was popped.
    pub(crate) proof fn lemma_popped_facts(self)
        requires
            self.inv(),
        ensures
            forall|v: int|
                #[trigger] self.spec_popped().contains(v) ==> 0 <= v < self.n()
                    && self.discovered(v),
            self.measure() >= 0,
            self.spec_found() ==> self.spec_popped().contains(self.spec_sink() as int),
    {
        self.lemma_dset_card();
    }

    /// When the walk ends with an empty frontier and the sink was never
    /// produced, no admissible path from the source to the sink exists:
    /// the discovered set is closed under admissible edges and the sink is
    /// outside it.
    pub(crate) proof fn lemma_finished_unreachable(self)
        requires
            self.inv(),
            !self.spec_found(),
            self.frontier().len() == 0,
        ensures
            !reachable(self.g(), self.pred(), self.spec_source(), self.spec_sink()),
    {
        let d = self.dset();
        let g = self.g();
        let p = self.pred();
        assert(d.contains(self.spec_source() as int));
        assert forall|v: int, u: int|
            d.contains(v) && admissible(g, p, v, u) implies d.contains(
            #[trigger] admissible_dst(v, u),
        ) by {
            assert(self.discovered(v));
            assert(!self.frontier().contains(v as usize));
            assert(self.spec_popped().contains(v));
            assert(self.expanded(v));
            assert(g.nbs()[v].contains(u as usize));
            let j = choose|j: int| 0 <= j < g.nbs()[v].len() && g.nbs()[v][j] == u as usize;
            assert(self.pred()(g.mat()[v][g.nbs()[v][j] as int]) ==> self.discovered(
                g.nbs()[v][j] as int,
            ));
            assert(self.discovered(u));
        }
        assert(!d.contains(self.spec_sink() as int)) by {
            if d.contains(self.spec_sink() as int) {
                assert(self.discovered(self.spec_sink() as int));
                assert(!self.frontier().contains(self.spec_sink()));
                assert(self.spec_popped().contains(self.spec_sink() as int));
            }
        }
        if reachable(g, p, self.spec_source(), self.spec_sink()) {
            let path = choose|path: Seq<VertexId>|
                is_path(g, p, path, self.spec_source(), self.spec_sink());
            lemma_closed_set_blocks(g, p, d, path, self.spec_source(), self.spec_sink());
        }
    }

    /// Walking parent pointers backward from any popped vertex reaches the
    /// source in exactly as many steps as its recorded distance, through a
    /// map that agrees with the parent array on popped vertices.
    pub(crate) proof fn lemma_popped_chain(self, pm: Seq<VertexId>, v: int)
        requires
            self.inv(),
            pm.len() == self.n(),
            forall|w: int|
                #[trigger] self.spec_popped().contains(w) ==> pm[w] == self.parent(w),
            self.spec_popped().contains(v),
        ensures
            chain_to_source(pm, self.spec_source(), (v as usize) as VertexId, self.dist(v) as nat),
            self.dist(v) as int <= self.n(),
        decreases self.dist(v),
    {
        self.lemma_dset_card();
        if v == self.spec_source() as int {
        } else {
            assert(self.discovered(v));
            let p = self.parent(v);
            assert(self.spec_popped().contains(p as int));
            assert(self.dist(p as int) as int + 1 == self.dist(v) as int);
            self.lemma_popped_chain(pm, p as int);
            assert(pm[v] == p);
            assert(chain_to_source(pm, self.spec_source(), v as usize, self.dist(v) as nat));
        }
    }

    /// The forward path reconstructed from the parent map is admissible,
    /// starts at the source, and visits each vertex at a strictly larger
    /// recorded distance than its predecessor (so it repeats none).
    #[verifier::rlimit(100)]
    pub(crate) proof fn lemma_path_props(self, pm: Seq<VertexId>, r: Seq<VertexId>)
        requires
            self.inv(),
            pm.len() == self.n(),
            forall|w: int|
                #[trigger] self.spec_popped().contains(w) ==> pm[w] == self.parent(w),
            r.len() >= 1,
            r[0] == self.spec_source(),
            forall|i: int|
                1 <= i < r.len() ==> r[i] != self.spec_source() && (#[trigger] r[i] as int)
                    < pm.len() && pm[r[i] as int] == r[i - 1],
            self.spec_popped().contains(r.last() as int),
        ensures
            forall|i: int|
                0 <= i < r.len() ==> self.spec_popped().contains(#[trigger] r[i] as int)
                    && self.dist(r[i] as int) as int == i,
            forall|i: int|
                0 <= i < r.len() - 1 ==> admissible(
                    self.g(),
                    self.pred(),
                    #[trigger] r[i] as int,
                    r[i + 1] as int,
                ),
        decreases r.len(),
    {
        if r.len() == 1 {
            assert(r.last() == r[0]);
            assert(self.dist(r[0] as int) == 0);
        } else {
            let last = r.last();
            let m = r.len() - 1;
            assert(last == r[m]);
            assert(last != self.spec_source());
            assert(self.spec_popped().contains(last as int));
            assert(self.discovered(last as int));
            let p = self.parent(last as int);
            assert(pm[last as int] == p);
            assert(p == r[m - 1]);
            assert(self.spec_popped().contains(p as int));
            let pre = r.drop_last();
            assert(forall|i: int| 0 <= i < pre.len() ==> pre[i] == r[i]);
            assert(pre.last() == r[m - 1]);
            self.lemma_path_props(pm, pre);
            assert(self.dist(p as int) as int == m - 1);
            assert(self.dist(last as int) as int == m);
            assert(admissible(self.g(), self.pred(), p as int, last as int));
            assert forall|i: int|
                0 <= i < r.len() implies self.spec_popped().contains(#[trigger] r[i] as int)
                && self.dist(r[i] as int) as int == i by {
                if i < m {
                    assert(pre[i] == r[i]);
                }
            }
            assert forall|i: int|
                0 <= i < r.len() - 1 implies admissible(
                self.g(),
                self.pred(),
                #[trigger] r[i] as int,
                r[i + 1] as int,
            ) by {
                if i < m - 1 {
                    assert(pre[i] == r[i] && pre[i + 1] == r[i + 1]);
                    assert(admissible(self.g(), self.pred(), pre[i] as int, pre[i + 1] as int));
                }
            }
        }
    }

    /// Run the stored admissibility predicate on one edge property.
    fn evaluate_predicate(&self, edge: E) -> (r: bool)
        requires
            self.pred_inv(),
        ensures
            r == self.pred()(edge),
    {
        let predicate = &self.predicate;
        predicate(edge)
    }

    /// Produce the next `(vertex, distance, parent)` triple, in pop order.
    ///
    /// If the popped vertex is the sink, its triple is still produced but
    /// its outgoing edges are not explored and the walk then stops for
    /// good; otherwise every unvisited neighbor behind an admissible edge
    /// is discovered (distance and parent recorded) and enqueued.
    #[verifier::rlimit(100)]
    pub fn next(&mut self) -> (r: Option<(VertexId, u32, VertexId)>)
        requires
            old(self).inv(),
        ensures
            final(self).inv(),
            final(self).g() == old(self).g(),
            final(self).spec_source() == old(self).spec_source(),
            final(self).spec_sink() == old(self).spec_sink(),
            final(self).pred() == old(self).pred(),
            final(self).mode() == old(self).mode(),
            final(self).measure() >= 0,
            (r is None <==> (old(self).spec_found() || old(self).frontier().len() == 0)),
            match r {
                Option::None => Self::same_state(*final(self), *old(self)) && (old(self).spec_found() || old(self).frontier().len() == 0) && final(self).spec_popped() == old(self).spec_popped() && final(self).spec_found() == old(self).spec_found() && final(self).frontier() == old(self).frontier() && final(self).measure() == old(self).measure() && forall|v: int|
                    0 <= v < old(self).n() ==> final(self).parent(v) == old(self).parent(v)
                        && final(self).dist(v) == old(self).dist(v) && (final(self).discovered(v)
                        <==> old(self).discovered(v)),
                Option::Some(item) => {
                    &&& !old(self).spec_found()
                    &&& (item.0 as int) < old(self).n()
                    &&& old(self).discovered(item.0 as int)
                    &&& !old(self).spec_popped().contains(item.0 as int)
                    &&& old(self).frontier().contains(item.0)
                    &&& (match old(self).mode() {
                        Search::Bfs => item.0 == old(self).frontier()[0],
                        Search::Dfs => item.0 == old(self).frontier().last(),
                    })
                    &&& final(self).spec_popped() == old(self).spec_popped().insert(item.0 as int)
                    &&& item.1 == old(self).dist(item.0 as int)
                    &&& item.2 == old(self).parent(item.0 as int)
                    &&& (item.0 == old(self).spec_source() ==> item.1 == 0 && item.2 == usize::MAX)
                    &&& (item.0 != old(self).spec_source() ==> (item.2 as int) < old(self).n()
                        && old(self).spec_popped().contains(item.2 as int) && admissible(
                        old(self).g(),
                        old(self).pred(),
                        item.2 as int,
                        item.0 as int,
                    ) && old(self).dist(item.2 as int) as int + 1 == item.1 as int)
                    &&& (final(self).spec_found() <==> item.0 == old(self).spec_sink())
                    &&& forall|v: int|
                        0 <= v < old(self).n() && old(self).discovered(v) ==> final(self).discovered(v) && final(self).dist(v) == old(self).dist(v) && final(self).parent(v) == old(self).parent(v)
                    &&& old(self).step_law(*final(self), item)
                    &&& final(self).measure() < old(self).measure()
                    &&& final(self).dist_map().len() == old(self).n()
                    &&& forall|v: int|
                        0 <= v < old(self).n() ==> #[trigger] final(self).dist_map()[v] == final(self).dist(v)
                },
            },
    {
        if self.sink_found {
            proof {
                self.lemma_dset_card();
            }
            return None;
        }
        let popped_v = self.pop();
        let vertex = match popped_v {
            Option::Some(vertex) => vertex,
            Option::None => {
                proof {
                    assert(self.dset() =~= old(self).dset());
                    self.lemma_dset_card();
                    assert(self.shape_inv());
                    assert(self.pred_inv());
                    Self::lemma_state_preserved(*old(self), *self);
                }
                return None;
            },
        };
        let ghost f0 = old(self).frontier();
        let ghost kpos = choose|k: int|
            0 <= k < f0.len() && vertex == f0[k] && self.frontier() == f0.remove(k);
        proof {
            assert((vertex as int) < self.n());
            assert(self.discovered(vertex as int));
            assert(!self.spec_popped().contains(vertex as int));
        }
        self.popped = Ghost(self.popped@.insert(vertex as int));
        proof {
            // the popped vertex leaves the frontier and enters the popped
            // set; every remaining frontier entry is a different vertex
            assert forall|k: int| 0 <= k < self.frontier().len() implies (
            #[trigger] self.frontier()[k] as int) < self.n() && self.discovered(
                self.frontier()[k] as int,
            ) && !self.spec_popped().contains(self.frontier()[k] as int) by {
                let orig: int = if k < kpos {
                    k
                } else {
                    k + 1
                };
                assert(self.frontier()[k] == f0[orig]);
                assert(f0[orig] != f0[kpos]);
            }
            assert forall|i: int, j: int| 0 <= i < j < self.frontier().len() implies self.frontier()[i]
                != self.frontier()[j] by {
                let oi: int = if i < kpos {
                    i
                } else {
                    i + 1
                };
                let oj: int = if j < kpos {
                    j
                } else {
                    j + 1
                };
                assert(self.frontier()[i] == f0[oi]);
                assert(self.frontier()[j] == f0[oj]);
            }
            assert forall|v: int|
                0 <= v < self.n() && #[trigger] self.discovered(v) implies self.spec_popped().contains(
                v,
            ) || self.frontier().contains(v as usize) by {
                if !old(self).spec_popped().contains(v) && v != vertex as int {
                    assert(old(self).discovered(v));
                    assert(old(self).spec_popped().contains(v) || old(self).frontier().contains(
                        v as usize,
                    ));
                    assert(f0.contains(v as usize));
                    let i = choose|i: int| 0 <= i < f0.len() && f0[i] == v as usize;
                    assert(i != kpos);
                    let ni: int = if i < kpos {
                        i
                    } else {
                        i - 1
                    };
                    assert(self.frontier()[ni] == f0[i]);
                    assert(self.frontier().contains(v as usize));
                }
            }
            assert(self.dset() =~= old(self).dset());
            assert(self.core_inv());
            assert(f0[kpos] == vertex);
            assert(f0.contains(vertex));
            if vertex != old(self).spec_source() {
                assert(old(self).discovered(vertex as int));
            }
        }
        if vertex == self.sink {
            let ghost s1 = *self;
            self.sink_found = true;
            proof {
                Self::lemma_core_preserved(s1, *self);
                assert(self.dset() =~= old(self).dset());
                assert(self.frontier().len() == f0.len() - 1);
                assert(self.spec_popped().contains(self.spec_sink() as int));
                assert(self.state_inv());
                self.lemma_dset_card();
                assert forall|v: int|
                    0 <= v < old(self).n() && old(self).discovered(v) implies self.discovered(v)
                    && self.dist(v) == old(self).dist(v) && self.parent(v) == old(self).parent(
                    v,
                ) by {
                    assert(self.distances@[v] == old(self).distances@[v]);
                    assert(self.parents@[v] == old(self).parents@[v]);
                }
                assert(self.measure() < old(self).measure());
                // the sink's edges stay unexplored: nothing but the
                // frontier head (or top) moved
                let it_item = (vertex, old(self).dist(vertex as int), old(self).parent(
                    vertex as int,
                ));
                assert forall|v: int|
                    0 <= v < old(self).n() implies #[trigger] self.dist(v) == old(self).dist(v)
                    && self.parent(v) == old(self).parent(v) by {
                    assert(self.distances@[v] == old(self).distances@[v]);
                }
                assert forall|v: int|
                    0 <= v < old(self).n() implies (#[trigger] self.discovered(v) <==> old(
                    self,
                ).discovered(v)) by {
                    assert(self.distances@[v] == old(self).distances@[v]);
                }
                assert(old(self).step_law(*self, it_item));
            }
        } else {
            let g = self.graph;
            proof {
                assert(g.mat()[vertex as int] == g.edges@[vertex as int]@);
                assert(g.nbs()[vertex as int] == g.neighbors@[vertex as int]@);
            }
            let nb_len = g.neighbors[vertex].len();
            let ghost it0 = *self;
            let ghost d0 = it0.dist_map();
            proof {
                assert(it0.dset() =~= old(self).dset());
                assert(it0.frontier().len() == f0.len() - 1);
                assert(it0.measure() == old(self).measure() - 1);
                it0.lemma_dset_card();
                assert((it0.dist(vertex as int) as int) < it0.n());
                assert(d0.len() == it0.n());
                assert(it0.discovered(vertex as int));
                assert(match old(self).mode() {
                    Search::Bfs => it0.frontier() == f0.subrange(1, f0.len() as int),
                    Search::Dfs => it0.frontier() == f0.drop_last(),
                });
                assert(discoveries(it0.g(), it0.pred(), d0, vertex as int, 0int)
                    =~= Seq::<VertexId>::empty());
                assert(self.frontier() =~= it0.frontier() + discoveries(
                    it0.g(),
                    it0.pred(),
                    d0,
                    vertex as int,
                    0int,
                ));
            }
            let mut k: usize = 0;
            while k < nb_len
                invariant
                    k <= nb_len,
                    self.graph == it0.graph,
                    g == self.graph,
                    nb_len == self.g().nbs()[vertex as int].len(),
                    self.predicate == it0.predicate,
                    self.pred_spec == it0.pred_spec,
                    self.search == it0.search,
                    self.sink == it0.sink,
                    self.sink_found == false,
                    self.source == it0.source,
                    self.popped == it0.popped,
                    self.shape_inv(),
                    self.pred_inv(),
                    self.core_inv(),
                    (vertex as int) < self.n(),
                    vertex != self.sink,
                    self.spec_popped().contains(vertex as int),
                    self.discovered(vertex as int),
                    forall|v: int|
                        0 <= v < self.n() && it0.discovered(v) ==> self.discovered(v) && self.dist(
                            v,
                        ) == it0.dist(v) && self.parent(v) == it0.parent(v),
                    self.measure() <= it0.measure(),
                    !self.spec_popped().contains(self.spec_sink() as int),
                    forall|v: int|
                        #[trigger] self.spec_popped().contains(v) && v != vertex as int
                            ==> self.expanded(v),
                    self.expanded_upto(vertex as int, k as int),
                    d0 == it0.dist_map(),
                    d0.len() == it0.n(),
                    it0.n() == self.n(),
                    it0.n() < u32::MAX as int,
                    it0.discovered(vertex as int),
                    (it0.dist(vertex as int) as int) < it0.n(),
                    self.frontier() == it0.frontier() + discoveries(
                        it0.g(),
                        it0.pred(),
                        d0,
                        vertex as int,
                        k as int,
                    ),
                    forall|j: int|
                        0 <= j < discoveries(it0.g(), it0.pred(), d0, vertex as int, k as int).len()
                            ==> #[trigger] self.dist(
                            discoveries(it0.g(), it0.pred(), d0, vertex as int, k as int)[j] as int,
                        ) as int == it0.dist(vertex as int) as int + 1 && self.parent(
                            discoveries(it0.g(), it0.pred(), d0, vertex as int, k as int)[j] as int,
                        ) == vertex,
                    forall|v: int|
                        0 <= v < self.n() ==> (#[trigger] self.discovered(v) <==> it0.discovered(v)
                            || discoveries(it0.g(), it0.pred(), d0, vertex as int, k as int).contains(
                            v as usize,
                        )),
                    forall|v: int|
                        0 <= v < self.n() && !discoveries(
                            it0.g(),
                            it0.pred(),
                            d0,
                            vertex as int,
                            k as int,
                        ).contains(v as usize) ==> #[trigger] self.dist(v) == it0.dist(v)
                            && self.parent(v) == it0.parent(v),
                    forall|j: int|
                        0 <= j < discoveries(it0.g(), it0.pred(), d0, vertex as int, k as int).len()
                            ==> (#[trigger] discoveries(
                            it0.g(),
                            it0.pred(),
                            d0,
                            vertex as int,
                            k as int,
                        )[j] as int) < self.n(),
                decreases nb_len - k,
            {
                let v = g.neighbors[vertex][k];
                proof {
                    assert(v == self.g().nbs()[vertex as int][k as int]);
                    assert((v as int) < self.n());
                    assert(g.mat()[vertex as int] == g.edges@[vertex as int]@);
                }
                let ghost s0 = *self;
                if self.distances[v] == u32::MAX && self.evaluate_predicate(g.edges[vertex][v]) {
                    let d = self.distances[vertex];
                    proof {
                        s0.lemma_dset_card();
                        assert(s0.dist(vertex as int) == it0.dist(vertex as int));
                        assert(d == it0.dist(vertex as int));
                        let led = discoveries(it0.g(), it0.pred(), d0, vertex as int, k as int);
                        assert forall|w: int|
                            0 <= w < s0.n() && !led.contains(w as usize) implies #[trigger] s0.dist(
                            w,
                        ) == it0.dist(w) && s0.parent(w) == it0.parent(w) by {}
                        assert forall|w: int|
                            0 <= w < s0.n() implies (#[trigger] s0.discovered(w) <==> it0.discovered(
                            w,
                        ) || led.contains(w as usize)) by {}
                        assert forall|j: int|
                            0 <= j < led.len() implies #[trigger] s0.dist(led[j] as int) as int
                            == it0.dist(vertex as int) as int + 1 && s0.parent(led[j] as int)
                            == vertex by {}
                    }
                    self.distances[v] = d + 1;
                    self.parents[v] = vertex;
                    self.push(v);
                    proof {
                        let n = self.n();
                        assert(!s0.dset().contains(v as int));
                        assert(self.dset() =~= s0.dset().insert(v as int));
                        assert(self.dset().len() == s0.dset().len() + 1);
                        assert(self.frontier() == s0.frontier().push(v));
                        assert(self.frontier()[self.frontier().len() - 1] == v);
                        // every vertex discovered before keeps its record
                        assert forall|w: int|
                            0 <= w < n && s0.discovered(w) implies self.discovered(w) && self.dist(
                            w,
                        ) == s0.dist(w) && self.parent(w) == s0.parent(w) by {
                            assert(w != v as int);
                        }
                        // the frontier facts, one entry longer
                        assert forall|kk: int| 0 <= kk < self.frontier().len() implies (
                        #[trigger] self.frontier()[kk] as int) < n && self.discovered(
                            self.frontier()[kk] as int,
                        ) && !self.spec_popped().contains(self.frontier()[kk] as int) by {
                            if kk < self.frontier().len() - 1 {
                                assert(self.frontier()[kk] == s0.frontier()[kk]);
                            } else {
                                assert(self.frontier()[kk] == v);
                            }
                        }
                        assert forall|i: int, j: int|
                            0 <= i < j < self.frontier().len() implies self.frontier()[i]
                            != self.frontier()[j] by {
                            if j < self.frontier().len() - 1 {
                                assert(self.frontier()[i] == s0.frontier()[i]);
                                assert(self.frontier()[j] == s0.frontier()[j]);
                            } else {
                                assert(self.frontier()[i] == s0.frontier()[i]);
                                assert(s0.discovered(s0.frontier()[i] as int));
                                assert(self.frontier()[j] == v);
                            }
                        }
                        assert forall|w: int|
                            0 <= w < n && #[trigger] self.discovered(w) implies self.spec_popped().contains(
                            w,
                        ) || self.frontier().contains(w as usize) by {
                            if w == v as int {
                                assert(self.frontier().contains(v));
                            } else {
                                if !self.spec_popped().contains(w) {
                                    assert(s0.discovered(w));
                                    assert(s0.spec_popped().contains(w)
                                        || s0.frontier().contains(w as usize));
                                    assert(s0.frontier().contains(w as usize));
                                    let i = choose|i: int|
                                        0 <= i < s0.frontier().len() && s0.frontier()[i]
                                            == w as usize;
                                    assert(self.frontier()[i] == w as usize);
                                }
                            }
                        }
                        // the parent chain gains exactly the entry for v
                        assert(admissible(self.g(), self.pred(), vertex as int, v as int)) by {
                            assert(self.g().nbs()[vertex as int][k as int] == v);
                            assert(self.g().nbs()[vertex as int].contains(v));
                        }
                        assert forall|w: int|
                            0 <= w < n && #[trigger] self.discovered(w) && w != self.spec_source() as int implies (
                        self.parent(w) as int) < n && self.discovered(self.parent(w) as int)
                            && self.spec_popped().contains(self.parent(w) as int) && admissible(
                            self.g(),
                            self.pred(),
                            self.parent(w) as int,
                            w,
                        ) && self.dist(self.parent(w) as int) as int + 1 == self.dist(
                            w,
                        ) as int by {
                            if w == v as int {
                                assert(self.parent(w) == vertex);
                                assert(self.dist(vertex as int) == d);
                                assert(self.dist(w) == d + 1);
                            } else {
                                assert(s0.discovered(w));
                            }
                        }
                        // distance bound against the grown discovered set
                        assert forall|w: int|
                            0 <= w < n && #[trigger] self.discovered(w) implies (self.dist(
                            w,
                        ) as int) < self.dset().len() by {
                            if w == v as int {
                                assert((d as int) < s0.dset().len());
                            } else {
                                assert((s0.dist(w) as int) < s0.dset().len());
                            }
                        }
                        assert(self.core_inv());
                        // partial expansion advances by one slot
                        assert forall|j: int|
                            0 <= j < k + 1 implies (self.pred()(
                            self.g().mat()[vertex as int][#[trigger] self.g().nbs()[vertex as int][j] as int],
                        ) ==> self.discovered(self.g().nbs()[vertex as int][j] as int)) by {
                            if j < k {
                                assert(s0.expanded_upto(vertex as int, k as int));
                            } else {
                                assert(self.discovered(v as int));
                            }
                        }
                        assert(self.expanded_upto(vertex as int, k + 1 as int));
                        assert forall|w: int|
                            #[trigger] self.spec_popped().contains(w) && w != vertex as int implies self.expanded(
                            w,
                        ) by {
                            assert(s0.expanded(w));
                            assert forall|j: int|
                                0 <= j < self.g().nbs()[w].len() implies (self.pred()(
                                self.g().mat()[w][#[trigger] self.g().nbs()[w][j] as int],
                            ) ==> self.discovered(self.g().nbs()[w][j] as int)) by {
                                assert(s0.expanded_upto(w, self.g().nbs()[w].len() as int));
                            }
                        }
                        // the discovery ledger gains exactly v
                        let pre_news = discoveries(it0.g(), it0.pred(), d0, vertex as int, k as int);
                        let post_news = discoveries(
                            it0.g(),
                            it0.pred(),
                            d0,
                            vertex as int,
                            k + 1 as int,
                        );
                        assert(!pre_news.contains(v)) by {
                            if pre_news.contains(v) {
                                let j = choose|j: int|
                                    0 <= j < pre_news.len() && pre_news[j] == v;
                                assert(s0.dist(pre_news[j] as int) as int == it0.dist(
                                    vertex as int,
                                ) as int + 1);
                            }
                        }
                        assert(!it0.discovered(v as int));
                        assert(d0[v as int] == u32::MAX);
                        assert(post_news =~= pre_news.push(v));
                        assert(self.frontier() =~= it0.frontier() + post_news);
                        assert forall|j: int|
                            0 <= j < post_news.len() implies (#[trigger] post_news[j] as int)
                            < self.n() by {
                            if j < post_news.len() - 1 {
                                assert(post_news[j] == pre_news[j]);
                                assert((pre_news[j] as int) < s0.n());
                            } else {
                                assert(post_news[j] == v);
                            }
                        }
                        assert forall|j: int|
                            0 <= j < post_news.len() implies #[trigger] self.dist(
                            post_news[j] as int,
                        ) as int == it0.dist(vertex as int) as int + 1 && self.parent(
                            post_news[j] as int,
                        ) == vertex by {
                            if j < post_news.len() - 1 {
                                assert(post_news[j] == pre_news[j]);
                                assert((pre_news[j] as int) < s0.n());
                                assert(s0.dist(pre_news[j] as int) as int == it0.dist(
                                    vertex as int,
                                ) as int + 1);
                                assert(s0.parent(pre_news[j] as int) == vertex);
                                assert(it0.n() < u32::MAX as int);
                                assert(s0.dist(pre_news[j] as int) != u32::MAX);
                                assert(pre_news[j] != v);
                                assert(self.distances@[pre_news[j] as int]
                                    == s0.distances@[pre_news[j] as int]);
                                assert(self.parents@[pre_news[j] as int]
                                    == s0.parents@[pre_news[j] as int]);
                            } else {
                                assert(post_news[j] == v);
                                assert(self.distances@[v as int] == d + 1);
                                assert(self.parents@[v as int] == vertex);
                                assert(d == it0.dist(vertex as int));
                            }
                        }
                        assert forall|w: int|
                            0 <= w < n implies (#[trigger] self.discovered(w) <==> it0.discovered(w)
                            || post_news.contains(w as usize)) by {
                            if w == v as int {
                                assert(post_news.last() == v);
                                assert(post_news.contains(v));
                            } else {
                                assert(self.distances@[w] == s0.distances@[w]);
                                assert(s0.discovered(w) <==> it0.discovered(w)
                                    || pre_news.contains(w as usize));
                                assert(pre_news.contains(w as usize) == post_news.contains(
                                    w as usize,
                                )) by {
                                    if post_news.contains(w as usize) {
                                        let j = choose|j: int|
                                            0 <= j < post_news.len() && post_news[j] == w as usize;
                                        assert(j < post_news.len() - 1);
                                        assert(pre_news[j] == w as usize);
                                    }
                                    if pre_news.contains(w as usize) {
                                        let j = choose|j: int|
                                            0 <= j < pre_news.len() && pre_news[j] == w as usize;
                                        assert(post_news[j] == w as usize);
                                    }
                                }
                            }
                        }
                        assert forall|w: int|
                            0 <= w < n && !post_news.contains(w as usize) implies #[trigger] self.dist(
                            w,
                        ) == it0.dist(w) && self.parent(w) == it0.parent(w) by {
                            assert(!pre_news.contains(w as usize)) by {
                                if pre_news.contains(w as usize) {
                                    let j = choose|j: int|
                                        0 <= j < pre_news.len() && pre_news[j] == w as usize;
                                    assert(post_news[j] == w as usize);
                                }
                            }
                            assert(w != v as int) by {
                                assert(post_news.last() == v);
                            }
                            assert(s0.n() == n);
                            assert(0 <= w < s0.n());
                            assert(!discoveries(
                                it0.g(),
                                it0.pred(),
                                d0,
                                vertex as int,
                                k as int,
                            ).contains(w as usize));
                            assert(s0.dist(w) == it0.dist(w));
                            assert(s0.parent(w) == it0.parent(w));
                            assert(self.distances@[w] == s0.distances@[w]);
                            assert(self.parents@[w] == s0.parents@[w]);
                        }
                    }
                } else {
                    proof {
                        assert forall|j: int|
                            0 <= j < k + 1 implies (self.pred()(
                            self.g().mat()[vertex as int][#[trigger] self.g().nbs()[vertex as int][j] as int],
                        ) ==> self.discovered(self.g().nbs()[vertex as int][j] as int)) by {
                            if j == k {
                                if self.distances@[v as int] != u32::MAX {
                                    assert(self.discovered(v as int));
                                }
                            } else {
                                assert(s0.expanded_upto(vertex as int, k as int));
                            }
                        }
                        assert(self.expanded_upto(vertex as int, k + 1 as int));
                        // nothing was discovered: the ledger keeps its entries
                        let pre_news = discoveries(it0.g(), it0.pred(), d0, vertex as int, k as int);
                        let post_news = discoveries(
                            it0.g(),
                            it0.pred(),
                            d0,
                            vertex as int,
                            k + 1 as int,
                        );
                        assert(it0.g() == self.g());
                        assert(it0.pred() == self.pred());
                        assert(it0.g().nbs()[vertex as int][k as int] == v);
                        assert(post_news =~= pre_news) by {
                            if self.distances@[v as int] != u32::MAX {
                                assert(self.discovered(v as int));
                                assert(it0.discovered(v as int) || pre_news.contains(v));
                                if it0.discovered(v as int) {
                                    assert(d0[v as int] != u32::MAX);
                                }
                            } else {
                                assert(!self.pred()(self.g().mat()[vertex as int][v as int]));
                            }
                        }
                        assert(self.frontier() =~= it0.frontier() + post_news);
                    }
                }
                k = k + 1;
            }
            proof {
                assert(self.expanded(vertex as int));
                assert forall|w: int| #[trigger] self.spec_popped().contains(w) implies self.expanded(
                    w,
                ) by {
                    if w != vertex as int {
                    }
                }
                assert(self.inv());
                self.lemma_dset_card();
                assert forall|v: int|
                    0 <= v < old(self).n() && old(self).discovered(v) implies self.discovered(v)
                    && self.dist(v) == old(self).dist(v) && self.parent(v) == old(self).parent(
                    v,
                ) by {
                    assert(it0.discovered(v));
                    assert(self.dist(v) == it0.dist(v));
                    assert(it0.distances@[v] == old(self).distances@[v]);
                }
                assert(it0.discovered(vertex as int));
                assert(self.dist(vertex as int) == old(self).dist(vertex as int));
                assert(self.parent(vertex as int) == old(self).parent(vertex as int));
                assert(self.measure() <= it0.measure());
                assert(self.measure() < old(self).measure());
                // assemble the step law from the finished ledger
                let it_item = (vertex, old(self).dist(vertex as int), old(self).parent(
                    vertex as int,
                ));
                assert(old(self).dist_map() == d0);
                assert(old(self).g() == it0.g());
                assert(old(self).pred() == it0.pred());
                let news = discoveries(
                    old(self).g(),
                    old(self).pred(),
                    old(self).dist_map(),
                    vertex as int,
                    old(self).g().nbs()[vertex as int].len() as int,
                );
                assert(news == discoveries(it0.g(), it0.pred(), d0, vertex as int, nb_len as int));
                assert forall|j: int|
                    0 <= j < news.len() implies #[trigger] self.dist(news[j] as int) as int
                    == it_item.1 as int + 1 && self.parent(news[j] as int) == vertex by {
                    assert(self.dist(news[j] as int) as int == it0.dist(vertex as int) as int + 1);
                    assert(it0.distances@[vertex as int] == old(self).distances@[vertex as int]);
                }
                assert forall|v: int|
                    0 <= v < old(self).n() implies (#[trigger] self.discovered(v) <==> old(
                    self,
                ).discovered(v) || news.contains(v as usize)) by {
                    assert(it0.distances@[v] == old(self).distances@[v]);
                }
                assert forall|v: int|
                    0 <= v < old(self).n() && !news.contains(v as usize) implies #[trigger] self.dist(
                    v,
                ) == old(self).dist(v) && self.parent(v) == old(self).parent(v) by {
                    assert(0 <= v < self.n());
                    assert(!discoveries(
                        it0.g(),
                        it0.pred(),
                        d0,
                        vertex as int,
                        nb_len as int,
                    ).contains(v as usize));
                    assert(self.dist(v) == it0.dist(v));
                    assert(self.parent(v) == it0.parent(v));
                    assert(it0.distances@[v] == old(self).distances@[v]);
                    assert(it0.parents@[v] == old(self).parents@[v]);
                }
                assert(old(self).step_law(*self, it_item));
            }
        }
        let item = Some((vertex, self.distances[vertex], self.parents[vertex]));
        proof {
            assert(old(self).dset() =~= Set::new(
                |v: int| 0 <= v < old(self).n() && old(self).discovered(v),
            ));
            assert(self.dist(vertex as int) == old(self).dist(vertex as int));
            assert(self.parent(vertex as int) == old(self).parent(vertex as int));
            assert(f0.remove(kpos).len() == f0.len() - 1);
            if vertex == old(self).spec_source() {
                assert(old(self).dist(vertex as int) == 0);
                assert(old(self).parent(vertex as int) == usize::MAX);
            } else {
                assert(old(self).discovered(vertex as int));
            }
            assert(self.dist_map().len() == old(self).n());
            assert forall|v: int|
                0 <= v < old(self).n() implies #[trigger] self.dist_map()[v] == self.dist(v) by {}
        }
        item
    }
}

/// An edge still has residual capacity: `capacity - flow > 0`.
pub open spec fn residual_admissible(e: FlowEdge) -> bool {
    e.capacity - e.flow > 0
}

fn true_predicate<E: Property>(_edge: E) -> (r: bool)
    ensures
        r,
{
    true
}

/// Ensure that there is available flow across the edge.
pub(crate) fn flow_predicate(edge: FlowEdge) -> (r: bool)
    ensures
        r == residual_admissible(edge),
{
    edge.flow < edge.capacity
}

impl<E: Property> Graph<E> {
    /// A breadth-first walk from `source` that stops once `sink` is
    /// produced, with every edge admissible.
    pub fn bfs_iter(&self, source: VertexId, sink: VertexId) -> (it: GraphIterator<'_, E, impl Fn(
        E,
    ) -> bool>)
        requires
            self.wf(),
            self.spec_n() < u32::MAX as int,
            (source as int) < self.spec_n(),
            (sink as int) < self.spec_n(),
        ensures
            it.inv(),
            it.g() == *self,
            it.spec_source() == source,
            it.spec_sink() == sink,
            it.mode() == Search::Bfs,
            !it.spec_found(),
            it.spec_popped() == Set::<int>::empty(),
            forall|e: E| #[trigger] it.pred()(e),
            it.frontier() == seq![source],
            forall|v: int| 0 <= v < it.n() ==> (it.discovered(v) <==> v == source as int),
            it.dist(source as int) == 0,
            forall|v: int|
                0 <= v < it.n() && v != source as int ==> #[trigger] it.dist(v) == u32::MAX,
            forall|v: int| 0 <= v < it.n() ==> #[trigger] it.parent(v) == usize::MAX,
            it.dist_map().len() == it.n(),
            forall|v: int| 0 <= v < it.n() ==> #[trigger] it.dist_map()[v] == it.dist(v),
    {
        GraphIterator::new(self, source, sink, true_predicate, BFS, Ghost(|e: E| true))
    }

    /// A depth-first walk from `source` that stops once `sink` is
    /// produced, with every edge admissible.
    pub fn dfs_iter(&self, source: VertexId, sink: VertexId) -> (it: GraphIterator<'_, E, impl Fn(
        E,
    ) -> bool>)
        requires
            self.wf(),
            self.spec_n() < u32::MAX as int,
            (source as int) < self.spec_n(),
            (sink as int) < self.spec_n(),
        ensures
            it.inv(),
            it.g() == *self,
            it.spec_source() == source,
            it.spec_sink() == sink,
            it.mode() == Search::Dfs,
            !it.spec_found(),
            it.spec_popped() == Set::<int>::empty(),
            forall|e: E| #[trigger] it.pred()(e),
            it.frontier() == seq![source],
            forall|v: int| 0 <= v < it.n() ==> (it.discovered(v) <==> v == source as int),
            it.dist(source as int) == 0,
            forall|v: int|
                0 <= v < it.n() && v != source as int ==> #[trigger] it.dist(v) == u32::MAX,
            forall|v: int| 0 <= v < it.n() ==> #[trigger] it.parent(v) == usize::MAX,
            it.dist_map().len() == it.n(),
            forall|v: int| 0 <= v < it.n() ==> #[trigger] it.dist_map()[v] == it.dist(v),
    {
        GraphIterator::new(self, source, sink, true_predicate, DFS, Ghost(|e: E| true))
    }
}

/// Following `pm` backward from `v` reaches `source` within `k` steps.
pub open spec fn chain_to_source(pm: Seq<VertexId>, source: VertexId, v: VertexId, k: nat) -> bool
    decreases k,
{
    if v == source {
        true
    } else if k == 0 {
        false
    } else {
        (v as int) < pm.len() && chain_to_source(pm, source, pm[v as int], (k - 1) as nat)
    }
}

/// Creates a path from the parent back-pointers of a tree search (breadth-
/// first or depth-first).  Walking backward from the sink must reach the
/// source (the sink was visited during the traversal): anything else is a
/// caller contract violation.  The result is the forward path
/// `[source, ..., sink]`.
pub fn path_from_visited(source: VertexId, sink: VertexId, node_parent_map: &[VertexId]) -> (r:
    Vec<VertexId>)
    requires
        exists|k: nat|
            k <= node_parent_map@.len() && chain_to_source(node_parent_map@, source, sink, k),
    ensures
        r@.len() >= 1,
        r@[0] == source,
        r@.last() == sink,
        forall|i: int|
            1 <= i < r@.len() ==> r@[i] != source && (#[trigger] r@[i] as int)
                < node_parent_map@.len() && node_parent_map@[r@[i] as int] == r@[i - 1],
    {
    let ghost pm = node_parent_map@;
    let ghost k0 = choose|k: nat| k <= pm.len() && chain_to_source(pm, source, sink, k);
    let mut path: Vec<VertexId> = Vec::new();
    let mut node: VertexId = sink;
    let ghost mut fuel: nat = k0;
    loop
        invariant_except_break
            pm == node_parent_map@,
            chain_to_source(pm, source, node, fuel),
            path@.len() >= 1 ==> path@[0] == sink,
            path@.len() >= 1 ==> pm[path@.last() as int] == node && (path@.last() as int)
                < pm.len(),
            path@.len() == 0 ==> node == sink,
            forall|i: int| 0 <= i < path@.len() ==> path@[i] != source,
            forall|i: int|
                0 <= i < path@.len() - 1 ==> (#[trigger] path@[i] as int) < pm.len() && pm[path@[i] as int]
                    == path@[i + 1],
        ensures
            pm == node_parent_map@,
            path@.len() >= 1,
            path@[0] == sink,
            path@.last() == source,
            forall|i: int|
                0 <= i < path@.len() - 1 ==> path@[i] != source && (#[trigger] path@[i] as int)
                    < pm.len() && pm[path@[i] as int] == path@[i + 1],
        decreases fuel,
    {
        path.push(node);
        if node == source {
            break;
        }
        proof {
            assert(fuel > 0 && (node as int) < pm.len());
            fuel = (fuel - 1) as nat;
        }
        node = node_parent_map[node];
    }
    let mut reversed: Vec<VertexId> = Vec::new();
    let n = path.len();
    let mut i: usize = n;
    while i > 0
        invariant
            i <= n,
            n == path@.len(),
            reversed@.len() == n - i,
            forall|j: int| 0 <= j < reversed@.len() ==> reversed@[j] == path@[n - 1 - j],
        decreases i,
    {
        i = i - 1;
        reversed.push(path[i]);
    }
    proof {
        assert(reversed@.len() == n);
        assert(reversed@[0] == path@[n - 1]);
        assert(reversed@.last() == path@[0]);
        assert forall|i2: int|
            1 <= i2 < reversed@.len() implies reversed@[i2] != source && (
        #[trigger] reversed@[i2] as int) < pm.len() && pm[reversed@[i2] as int] == reversed@[i2
            - 1] by {
            assert(reversed@[i2] == path@[n - 1 - i2]);
            assert(reversed@[i2 - 1] == path@[n - i2]);
            assert(path@[n - 1 - i2] != source);
            assert(pm[path@[n - 1 - i2] as int] == path@[n - i2]);
        }
    }
    reversed
}

} // verus!
