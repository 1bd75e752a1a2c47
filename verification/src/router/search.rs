//! What the path search keeps true of its state, step by step.

use crate::chipdb::{ChipDb, PipId, WireId};
use crate::context::Context;
use crate::router::graph::{
    allowed, consistent, enters, has_entry, hop_cost, hop_ok, is_entry, leaves, lemma_consistent_walk,
    lemma_node_estimate, lemma_path_joined, node_estimate, path_cost, path_ok, settles, step_cost, trace_back,
    visits_closed, visits_sound, walk_cost, walk_end, walk_ok, Hop, PathCostModel, Visit,
};
use crate::router::heap::{ahead, QueueEntry};
use crate::timing::delay::sat_sum;
use vstd::multiset::Multiset;
use vstd::prelude::*;

verus! {

/// The state of a search.
pub struct SearchState {
    /// The wires that were come to.
    pub vis: Map<WireId, Visit>,
    /// The entries that wait.
    pub heap: Multiset<QueueEntry>,
    /// The wires whose steps have all been taken.
    pub done: Set<WireId>,
    /// The nodes that were expanded.
    pub nodes: Set<u64>,
    /// When each visit was last changed.
    pub time: Map<WireId, nat>,
    pub clock: nat,
    /// The largest estimate that has left the queue.
    pub low: int,
    /// How many entries have left the queue.
    pub taken: nat,
    /// How many sources there are.
    pub roots: nat,
    /// The wires and scores that entries were made for.
    pub offers: Set<(WireId, int)>,
    /// The pips that entries were made for.
    pub steps: Set<PipId>,
}

pub open spec fn entry_score(e: QueueEntry) -> int {
    sat_sum(e.cost as int, e.penalty as int)
}

/// The estimate of an entry is its score and what the model expects of the rest.
pub open spec fn estimated<M: PathCostModel>(ctx: Context, m: &M, dst: WireId, e: QueueEntry) -> bool {
    &&& e.cost >= 0
    &&& e.penalty >= 0
    &&& m.heuristic_of(ctx, e.wire, dst) >= 0
    &&& e.estimate == sat_sum(entry_score(e), m.heuristic_of(ctx, e.wire, dst))
}

impl SearchState {
    /// `a` has the lower score, or the same and was come to earlier.
    pub open spec fn before(self, a: WireId, b: WireId) -> bool {
        self.vis[a].score() < self.vis[b].score() || (self.vis[a].score() == self.vis[b].score()
            && self.time[a] < self.time[b])
    }

    /// The visit of `w` continues that of the wire before it.
    pub closed spec fn parent_ok<M: PathCostModel>(
        self,
        ctx: Context,
        m: &M,
        srcs: Map<WireId, ()>,
        w: WireId,
    ) -> bool {
        let v = self.vis[w];
        &&& v.cost >= 0
        &&& v.penalty >= 0
        &&& match v.pip {
            Some(p) => {
                let u = ctx.chipdb.src(p);
                &&& leaves(ctx.chipdb, u, p)
                &&& ctx.chipdb.valid_pip(p)
                &&& ctx.chipdb.dst(p) == w
                &&& allowed(ctx, m, w)
                &&& step_cost(ctx, m, p) >= 0
                &&& self.vis.contains_key(u)
                &&& v.score() >= sat_sum(self.vis[u].score(), step_cost(ctx, m, p))
                &&& self.before(u, w)
            },
            None => {
                if v.from == w {
                    srcs.contains_key(w)
                } else {
                    &&& ctx.chipdb.joined(v.from, w)
                    &&& self.vis.contains_key(v.from)
                    &&& v.score() >= self.vis[v.from].score()
                    &&& self.before(v.from, w)
                }
            },
        }
    }

    /// Sources cost nothing, and every visit continues another or is that of a source.
    pub closed spec fn sound<M: PathCostModel>(self, ctx: Context, m: &M, srcs: Map<WireId, ()>) -> bool {
        &&& forall|s: WireId| #[trigger]
            srcs.contains_key(s) ==> self.vis.contains_key(s) && self.vis[s].score() == 0
        &&& forall|w: WireId| #[trigger]
            self.vis.contains_key(w) ==> ctx.chipdb.valid_wire(w) && self.time[w] < self.clock
                && self.parent_ok(ctx, m, srcs, w)
    }

    /// An entry with the score of the visit waits for `w`.
    pub closed spec fn waits(self, w: WireId) -> bool {
        exists|e: QueueEntry| #[trigger]
            self.heap.contains(e) && e.wire == w && entry_score(e) == self.vis[w].score()
    }

    /// The part of the invariant that finds the cheapest path.
    pub closed spec fn frugal<M: PathCostModel>(
        self,
        ctx: Context,
        m: &M,
        srcs: Map<WireId, ()>,
        dst: WireId,
    ) -> bool {
        &&& forall|e: QueueEntry| #[trigger] self.heap.contains(e) ==> e.estimate >= self.low
        &&& self.low < i32::MAX ==> {
            &&& forall|w: WireId| #[trigger]
                self.done.contains(w) ==> self.vis[w].score() + node_estimate(ctx, m, srcs, dst, w) <= self.low
            &&& forall|w: WireId, h: Hop|
                self.done.contains(w) && #[trigger] hop_ok(ctx, m, w, h) ==> self.vis[h.to].score()
                    <= sat_sum(self.vis[w].score(), hop_cost(ctx, m, h))
        }
    }

    /// The invariant of the search; `cur` is the wire whose conductor is being expanded.
    pub closed spec fn inv<M: PathCostModel>(
        self,
        ctx: Context,
        m: &M,
        srcs: Map<WireId, ()>,
        dst: WireId,
        exhaustive: bool,
        cur: Option<WireId>,
    ) -> bool {
        &&& self.sound(ctx, m, srcs)
        &&& forall|e: QueueEntry| #[trigger]
            self.heap.contains(e) ==> self.vis.contains_key(e.wire) && entry_score(e)
                >= self.vis[e.wire].score() && estimated(ctx, m, dst, e) && is_entry(ctx, m, srcs, e.wire)
        &&& forall|w: WireId| #[trigger]
            self.vis.contains_key(w) && !self.done.contains(w) && !(cur is Some && ctx.chipdb.joined(
                cur->0,
                w,
            )) ==> self.waits(w)
        &&& forall|w: WireId| #[trigger] self.done.contains(w) ==> self.vis.contains_key(w)
        &&& forall|w: WireId, h: Hop|
            self.done.contains(w) && #[trigger] hop_ok(ctx, m, w, h) ==> self.vis.contains_key(h.to)
        &&& forall|w: WireId|
            ctx.chipdb.node(w) is Some ==> (#[trigger] self.done.contains(w) <==> self.nodes.contains(
                ctx.chipdb.node(w)->0,
            ))
        &&& !exhaustive ==> !self.done.contains(dst)
        &&& consistent(ctx, m, srcs, dst) ==> self.frugal(ctx, m, srcs, dst)
    }

    /// The conductor of `w`, whose score is `s`, is being expanded.
    pub closed spec fn expanding<M: PathCostModel>(
        self,
        ctx: Context,
        m: &M,
        srcs: Map<WireId, ()>,
        dst: WireId,
        exhaustive: bool,
        w: WireId,
        s: int,
    ) -> bool {
        &&& self.vis.contains_key(w)
        &&& self.vis[w].score() == s
        &&& m.heuristic_of(ctx, w, dst) >= 0
        &&& is_entry(ctx, m, srcs, w)
        &&& ctx.chipdb.node(w) is Some ==> !self.nodes.contains(ctx.chipdb.node(w)->0)
        &&& !exhaustive ==> !ctx.chipdb.joined(w, dst)
        &&& consistent(ctx, m, srcs, dst) ==> {
            &&& self.low == sat_sum(s, m.heuristic_of(ctx, w, dst))
            &&& self.low < i32::MAX ==> forall|x: WireId| #[trigger]
                self.vis.contains_key(x) && ctx.chipdb.joined(w, x) ==> self.vis[x].score() >= s
        }
    }

    /// Nothing was lost: visited wires stay visited, and scores do not rise.
    pub open spec fn improves(self, old_vis: Map<WireId, Visit>) -> bool {
        forall|x: WireId| #[trigger]
            old_vis.contains_key(x) ==> self.vis.contains_key(x) && self.vis[x].score()
                <= old_vis[x].score()
    }

    /// All steps from `u` have been taken with score `s`.
    pub open spec fn expanded<M: PathCostModel>(self, ctx: Context, m: &M, u: WireId, s: int) -> bool {
        forall|h: Hop| #[trigger]
            hop_ok(ctx, m, u, h) && h.pip is Some ==> self.vis.contains_key(h.to)
                && self.vis[h.to].score() <= sat_sum(s, hop_cost(ctx, m, h))
    }

    /// No entry was made without a new wire and score.
    pub open spec fn counted(self, ctx: Context) -> bool {
        &&& self.heap.len() + self.taken <= self.offers.len()
        &&& self.offers.finite()
        &&& forall|o: (WireId, int)| #[trigger]
            self.offers.contains(o) ==> ctx.chipdb.valid_wire(o.0) && self.vis.contains_key(o.0)
                && self.vis[o.0].score() <= o.1 && 0 <= o.1 <= i32::MAX
    }

    /// The step over the pip was taken from a wire whose score is final, and taking it again would
    /// not help.
    pub open spec fn stepped<M: PathCostModel>(self, ctx: Context, m: &M, cur: Option<WireId>, p: PipId) -> bool {
        let u = ctx.chipdb.src(p);
        let v = ctx.chipdb.dst(p);
        &&& ctx.chipdb.valid_pip(p)
        &&& self.vis.contains_key(u)
        &&& self.vis.contains_key(v)
        &&& self.vis[v].score() <= sat_sum(self.vis[u].score(), step_cost(ctx, m, p))
        &&& self.done.contains(u) || (cur is Some && ctx.chipdb.joined(cur->0, u) && self.vis[u].score()
            <= self.vis[cur->0].score())
    }

    /// No entry was made without a source or a new pip.
    pub open spec fn thrifty<M: PathCostModel>(self, ctx: Context, m: &M, cur: Option<WireId>) -> bool {
        &&& self.heap.len() + self.taken <= self.roots + self.steps.len()
        &&& self.steps.finite()
        &&& forall|p: PipId| #[trigger] self.steps.contains(p) ==> self.stepped(ctx, m, cur, p)
    }

    /// The state after a visit was set.
    pub open spec fn with_visit(self, v: WireId, nv: Visit) -> SearchState {
        SearchState {
            vis: self.vis.insert(v, nv),
            time: self.time.insert(v, self.clock),
            clock: self.clock + 1,
            ..self
        }
    }

    /// The state after an entry was added.
    pub open spec fn with_entry(self, e: QueueEntry) -> SearchState {
        SearchState {
            heap: self.heap.insert(e),
            offers: self.offers.insert((e.wire, entry_score(e))),
            steps: self.steps.insert(self.vis[e.wire].pip->0),
            ..self
        }
    }

    /// The state after an entry was taken out.
    pub open spec fn popped(self, e: QueueEntry) -> SearchState {
        SearchState {
            heap: self.heap.remove(e),
            low: if e.estimate > self.low {
                e.estimate as int
            } else {
                self.low
            },
            taken: self.taken + 1,
            ..self
        }
    }

    /// The state after the conductor of `w` was expanded.
    pub open spec fn closed_off(self, chip: ChipDb, w: WireId) -> SearchState {
        SearchState {
            done: Set::new(|x: WireId| self.done.contains(x) || chip.joined(w, x)),
            nodes: match chip.node(w) {
                Some(n) => self.nodes.insert(n),
                None => self.nodes,
            },
            ..self
        }
    }
}

/// The visits of a state that keeps the invariant are sound.
pub proof fn lemma_inv_sound<M: PathCostModel>(
    ctx: Context,
    m: &M,
    srcs: Map<WireId, ()>,
    dst: WireId,
    exhaustive: bool,
    cur: Option<WireId>,
    st: SearchState,
)
    requires
        st.inv(ctx, m, srcs, dst, exhaustive, cur),
    ensures
        st.sound(ctx, m, srcs),
{
}

/// A visited wire exists, and its visit has a score.
pub proof fn lemma_visit_ok<M: PathCostModel>(
    ctx: Context,
    m: &M,
    srcs: Map<WireId, ()>,
    st: SearchState,
    w: WireId,
)
    requires
        st.sound(ctx, m, srcs),
        st.vis.contains_key(w),
    ensures
        ctx.chipdb.valid_wire(w),
        st.vis[w].cost >= 0,
        st.vis[w].penalty >= 0,
{
    assert(st.parent_ok(ctx, m, srcs, w));
}

/// The sources are visited, at no cost.
pub proof fn lemma_sources_visited<M: PathCostModel>(
    ctx: Context,
    m: &M,
    srcs: Map<WireId, ()>,
    st: SearchState,
)
    requires
        st.sound(ctx, m, srcs),
    ensures
        forall|s: WireId| #[trigger]
            srcs.contains_key(s) ==> st.vis.contains_key(s) && st.vis[s].score() == 0,
{
}

/// The wire that is being expanded was come to with the score.
pub proof fn lemma_expanding<M: PathCostModel>(
    ctx: Context,
    m: &M,
    srcs: Map<WireId, ()>,
    dst: WireId,
    exhaustive: bool,
    st: SearchState,
    w: WireId,
    s: int,
)
    requires
        st.expanding(ctx, m, srcs, dst, exhaustive, w, s),
    ensures
        st.vis.contains_key(w),
        st.vis[w].score() == s,
        is_entry(ctx, m, srcs, w),
{
}

/// The entries that wait are for wires at which a node can be entered.
pub proof fn lemma_waiting_entry<M: PathCostModel>(
    ctx: Context,
    m: &M,
    srcs: Map<WireId, ()>,
    dst: WireId,
    exhaustive: bool,
    st: SearchState,
    e: QueueEntry,
)
    requires
        st.inv(ctx, m, srcs, dst, exhaustive, None),
        st.heap.contains(e),
    ensures
        is_entry(ctx, m, srcs, e.wire),
        m.heuristic_of(ctx, e.wire, dst) >= 0,
        !exhaustive && e.wire == dst && ctx.chipdb.node(dst) is Some ==> !st.nodes.contains(
            ctx.chipdb.node(dst)->0,
        ),
{
    if ctx.chipdb.node(dst) is Some {
        assert(st.done.contains(dst) <==> st.nodes.contains(ctx.chipdb.node(dst)->0));
    }
}

/// The node of a visited wire can be entered.
pub proof fn lemma_visited_entry<M: PathCostModel>(
    ctx: Context,
    m: &M,
    srcs: Map<WireId, ()>,
    st: SearchState,
    w: WireId,
)
    requires
        ctx.wf(),
        st.sound(ctx, m, srcs),
        st.vis.contains_key(w),
    ensures
        has_entry(ctx, m, srcs, w),
    decreases st.vis[w].score(), st.time[w],
{
    assert(st.parent_ok(ctx, m, srcs, w));
    match st.vis[w].pip {
        Some(p) => {
            assert(enters(ctx, m, p, w));
            assert(is_entry(ctx, m, srcs, w) && ctx.chipdb.joined(w, w));
        },
        None => {
            if st.vis[w].from == w {
                assert(is_entry(ctx, m, srcs, w) && ctx.chipdb.joined(w, w));
            } else {
                let u = st.vis[w].from;
                lemma_visited_entry(ctx, m, srcs, st, u);
                let a = choose|a: WireId| #[trigger] is_entry(ctx, m, srcs, a) && ctx.chipdb.joined(a, u);
                assert(is_entry(ctx, m, srcs, a) && ctx.chipdb.joined(a, w));
            }
        },
    }
}

/// The state with the sources alone keeps the invariant.
pub proof fn lemma_init<M: PathCostModel>(
    ctx: Context,
    m: &M,
    srcs: Map<WireId, ()>,
    dst: WireId,
    exhaustive: bool,
    st: SearchState,
)
    requires
        forall|s: WireId| #[trigger] srcs.contains_key(s) ==> ctx.chipdb.valid_wire(s),
        forall|s: WireId| #[trigger] st.vis.contains_key(s) <==> srcs.contains_key(s),
        forall|w: WireId| #[trigger]
            st.vis.contains_key(w) ==> st.vis[w] == (Visit { cost: 0, penalty: 0, pip: None, from: w })
                && exists|e: QueueEntry| #[trigger]
                st.heap.contains(e) && e.wire == w && e.cost == 0 && e.penalty == 0,
        forall|e: QueueEntry| #[trigger]
            st.heap.contains(e) ==> st.vis.contains_key(e.wire) && e.cost == 0 && e.penalty == 0
                && estimated(ctx, m, dst, e),
        st.done == Set::<WireId>::empty(),
        st.nodes == Set::<u64>::empty(),
        forall|w: WireId| #[trigger] st.time[w] < st.clock,
        st.low == 0,
    ensures
        st.inv(ctx, m, srcs, dst, exhaustive, None),
{
    assert forall|e: QueueEntry| #[trigger] st.heap.contains(e) implies is_entry(ctx, m, srcs, e.wire) by {
        assert(st.vis.contains_key(e.wire));
    }
    assert forall|w: WireId| #[trigger] st.vis.contains_key(w) implies st.waits(w) by {
        let y = choose|y: QueueEntry| #[trigger]
            st.heap.contains(y) && y.wire == w && y.cost == 0 && y.penalty == 0;
        assert(st.heap.contains(y) && y.wire == w && entry_score(y) == st.vis[w].score());
    }
}

/// Setting a visit that is better than the one before keeps the visits sound.
pub proof fn lemma_set_visit<M: PathCostModel>(
    ctx: Context,
    m: &M,
    srcs: Map<WireId, ()>,
    st: SearchState,
    u: WireId,
    v: WireId,
    nv: Visit,
)
    requires
        st.sound(ctx, m, srcs),
        st.vis.contains_key(u),
        ctx.chipdb.valid_wire(v),
        nv.cost >= 0,
        nv.penalty >= 0,
        !st.vis.contains_key(v) || nv.score() < st.vis[v].score(),
        nv.score() >= st.vis[u].score(),
        match nv.pip {
            Some(p) => {
                &&& ctx.chipdb.src(p) == u
                &&& leaves(ctx.chipdb, u, p)
                &&& ctx.chipdb.valid_pip(p)
                &&& ctx.chipdb.dst(p) == v
                &&& allowed(ctx, m, v)
                &&& step_cost(ctx, m, p) >= 0
                &&& nv.score() >= sat_sum(st.vis[u].score(), step_cost(ctx, m, p))
            },
            None => nv.from == u && u != v && ctx.chipdb.joined(u, v),
        },
    ensures
        st.with_visit(v, nv).sound(ctx, m, srcs),
        st.with_visit(v, nv).improves(st.vis),
        st.with_visit(v, nv).vis.contains_key(v),
        st.with_visit(v, nv).vis[v] == nv,
        !srcs.contains_key(v),
        u != v,
{
    let t = st.with_visit(v, nv);
    assert(u != v);
    assert(nv.score() >= 0);
    assert forall|w: WireId| #[trigger] t.vis.contains_key(w) implies ctx.chipdb.valid_wire(w)
        && t.time[w] < t.clock && t.parent_ok(ctx, m, srcs, w) by {
        if w == v {
            assert(st.time[u] < st.clock);
            assert(t.vis[u] == st.vis[u]);
        } else {
            assert(st.vis.contains_key(w));
            assert(st.parent_ok(ctx, m, srcs, w));
        }
    }
}

/// Taking a step to a wire keeps the invariant.
pub proof fn lemma_step<M: PathCostModel>(
    ctx: Context,
    m: &M,
    srcs: Map<WireId, ()>,
    dst: WireId,
    exhaustive: bool,
    st: SearchState,
    w: WireId,
    s: int,
    u: WireId,
    p: PipId,
    nv: Visit,
    e: QueueEntry,
)
    requires
        ctx.wf(),
        st.inv(ctx, m, srcs, dst, exhaustive, Some(w)),
        st.expanding(ctx, m, srcs, dst, exhaustive, w, s),
        ctx.chipdb.joined(w, u),
        st.vis.contains_key(u),
        st.vis[u].score() <= s,
        ctx.chipdb.src(p) == u,
        leaves(ctx.chipdb, u, p),
        ctx.chipdb.valid_pip(p),
        ctx.chipdb.valid_wire(ctx.chipdb.dst(p)),
        allowed(ctx, m, ctx.chipdb.dst(p)),
        step_cost(ctx, m, p) >= 0,
        nv.cost >= 0,
        nv.penalty >= 0,
        nv.pip == Some(p),
        nv.score() == sat_sum(s, step_cost(ctx, m, p)),
        !st.vis.contains_key(ctx.chipdb.dst(p)) || nv.score() < st.vis[ctx.chipdb.dst(p)].score(),
        e.wire == ctx.chipdb.dst(p),
        entry_score(e) == nv.score(),
        estimated(ctx, m, dst, e),
    ensures
        st.with_visit(e.wire, nv).with_entry(e).inv(ctx, m, srcs, dst, exhaustive, Some(w)),
        st.with_visit(e.wire, nv).with_entry(e).expanding(ctx, m, srcs, dst, exhaustive, w, s),
        st.with_visit(e.wire, nv).with_entry(e).improves(st.vis),
        st.with_visit(e.wire, nv).sound(ctx, m, srcs),
{
    let v = ctx.chipdb.dst(p);
    let mid = st.with_visit(v, nv);
    let t = mid.with_entry(e);
    lemma_set_visit(ctx, m, srcs, st, u, v, nv);
    let h = Hop { pip: Some(p), to: v };
    assert(hop_ok(ctx, m, u, h));
    assert(v != w);
    assert(t.heap.contains(e));
    assert(enters(ctx, m, p, v));
    assert(is_entry(ctx, m, srcs, v));
    assert forall|x: QueueEntry| #[trigger] t.heap.contains(x) implies x == e || st.heap.contains(x) by {
    }
    assert forall|x: WireId| #[trigger]
        t.vis.contains_key(x) && !t.done.contains(x) && !ctx.chipdb.joined(w, x) implies t.waits(x) by {
        if x == v {
            assert(t.heap.contains(e) && e.wire == x && entry_score(e) == t.vis[x].score());
        } else {
            assert(st.vis.contains_key(x));
            let y = choose|y: QueueEntry| #[trigger]
                st.heap.contains(y) && y.wire == x && entry_score(y) == st.vis[x].score();
            assert(t.heap.contains(y));
        }
    }
    if consistent(ctx, m, srcs, dst) {
        let hw = m.heuristic_of(ctx, w, dst);
        let hv = m.heuristic_of(ctx, v, dst);
        assert(hw <= step_cost(ctx, m, p) + hv);
        assert(e.estimate >= st.low);
        if st.low < i32::MAX {
            if st.done.contains(v) {
                assert(st.vis.contains_key(v));
                assert(st.vis[v].score() + hv <= st.low);
                assert(false);
            }
        }
        assert(t.frugal(ctx, m, srcs, dst));
    }
}

/// Coming to another wire of the conductor keeps the invariant.
pub proof fn lemma_peer<M: PathCostModel>(
    ctx: Context,
    m: &M,
    srcs: Map<WireId, ()>,
    dst: WireId,
    exhaustive: bool,
    st: SearchState,
    w: WireId,
    s: int,
    v: WireId,
    nv: Visit,
)
    requires
        ctx.wf(),
        st.inv(ctx, m, srcs, dst, exhaustive, Some(w)),
        st.expanding(ctx, m, srcs, dst, exhaustive, w, s),
        ctx.chipdb.joined(w, v),
        w != v,
        ctx.chipdb.valid_wire(v),
        nv.cost >= 0,
        nv.penalty >= 0,
        nv.pip is None,
        nv.from == w,
        nv.score() == s,
        !st.vis.contains_key(v) || nv.score() < st.vis[v].score(),
    ensures
        st.with_visit(v, nv).inv(ctx, m, srcs, dst, exhaustive, Some(w)),
        st.with_visit(v, nv).expanding(ctx, m, srcs, dst, exhaustive, w, s),
        st.with_visit(v, nv).improves(st.vis),
{
    let t = st.with_visit(v, nv);
    lemma_set_visit(ctx, m, srcs, st, w, v, nv);
    assert(!st.done.contains(v));
    assert forall|x: WireId| #[trigger]
        t.vis.contains_key(x) && !t.done.contains(x) && !ctx.chipdb.joined(w, x) implies t.waits(x) by {
        assert(st.vis.contains_key(x));
        let y = choose|y: QueueEntry| #[trigger]
            st.heap.contains(y) && y.wire == x && entry_score(y) == st.vis[x].score();
        assert(t.heap.contains(y));
    }
    if consistent(ctx, m, srcs, dst) {
        assert(t.frugal(ctx, m, srcs, dst));
    }
}

/// Closing off an expanded conductor keeps the invariant.
pub proof fn lemma_close<M: PathCostModel>(
    ctx: Context,
    m: &M,
    srcs: Map<WireId, ()>,
    dst: WireId,
    exhaustive: bool,
    st: SearchState,
    w: WireId,
    s: int,
)
    requires
        ctx.wf(),
        st.inv(ctx, m, srcs, dst, exhaustive, Some(w)),
        st.expanding(ctx, m, srcs, dst, exhaustive, w, s),
        forall|x: WireId| #[trigger]
            ctx.chipdb.joined(w, x) ==> st.vis.contains_key(x) && st.vis[x].score() <= s && st.expanded(
                ctx,
                m,
                x,
                s,
            ),
    ensures
        st.closed_off(ctx.chipdb, w).inv(ctx, m, srcs, dst, exhaustive, None),
{
    let t = st.closed_off(ctx.chipdb, w);
    assert forall|x: WireId, h: Hop|
        t.done.contains(x) && #[trigger] hop_ok(ctx, m, x, h) implies t.vis.contains_key(h.to) by {
        if ctx.chipdb.joined(w, x) {
            if h.pip is None {
                assert(ctx.chipdb.joined(w, h.to));
            } else {
                assert(st.expanded(ctx, m, x, s));
            }
        }
    }
    assert forall|x: WireId| #[trigger] t.vis.contains_key(x) && !t.done.contains(x) implies t.waits(x) by {
        assert(!ctx.chipdb.joined(w, x));
        let y = choose|y: QueueEntry| #[trigger]
            st.heap.contains(y) && y.wire == x && entry_score(y) == st.vis[x].score();
        assert(t.heap.contains(y));
    }
    assert forall|x: WireId| ctx.chipdb.node(x) is Some implies (#[trigger] t.done.contains(x)
        <==> t.nodes.contains(ctx.chipdb.node(x)->0)) by {
    }
    if consistent(ctx, m, srcs, dst) {
        if t.low < i32::MAX {
            assert forall|x: WireId| #[trigger] t.done.contains(x) implies t.vis[x].score()
                + node_estimate(ctx, m, srcs, dst, x) <= t.low by {
                if ctx.chipdb.joined(w, x) {
                    lemma_node_estimate(ctx, m, srcs, dst, w, x);
                }
            }
            assert forall|x: WireId, h: Hop|
                t.done.contains(x) && #[trigger] hop_ok(ctx, m, x, h) implies t.vis[h.to].score()
                <= sat_sum(t.vis[x].score(), hop_cost(ctx, m, h)) by {
                if ctx.chipdb.joined(w, x) {
                    assert(st.vis.contains_key(x));
                    assert(st.vis[x].score() == s);
                    if h.pip is None {
                        assert(ctx.chipdb.joined(w, h.to));
                    } else {
                        assert(st.expanded(ctx, m, x, s));
                    }
                }
            }
        }
    }
}

/// Taking out the entry that is ahead of all keeps the invariant, but for the conductor of the
/// wire it was for, if it was up to date.
pub proof fn lemma_pop<M: PathCostModel>(
    ctx: Context,
    m: &M,
    srcs: Map<WireId, ()>,
    dst: WireId,
    exhaustive: bool,
    st: SearchState,
    e: QueueEntry,
)
    requires
        ctx.wf(),
        st.inv(ctx, m, srcs, dst, exhaustive, None),
        st.heap.contains(e),
        forall|x: QueueEntry| #[trigger] st.heap.contains(x) ==> ahead(e, x),
    ensures
        st.popped(e).inv(ctx, m, srcs, dst, exhaustive, Some(e.wire)),
        st.vis.contains_key(e.wire),
        ctx.chipdb.valid_wire(e.wire),
        e.cost >= 0,
        e.penalty >= 0,
        entry_score(e) >= st.vis[e.wire].score(),
        st.popped(e).sound(ctx, m, srcs),
        entry_score(e) > st.vis[e.wire].score() || (ctx.chipdb.node(e.wire) is Some && st.nodes.contains(
            ctx.chipdb.node(e.wire)->0,
        )) ==> st.popped(e).inv(
            ctx,
            m,
            srcs,
            dst,
            exhaustive,
            None,
        ),
        entry_score(e) <= st.vis[e.wire].score() && (ctx.chipdb.node(e.wire) is Some
            ==> !st.nodes.contains(ctx.chipdb.node(e.wire)->0)) && (!exhaustive ==> !ctx.chipdb.joined(
            e.wire,
            dst,
        )) ==> st.popped(e).expanding(ctx, m, srcs, dst, exhaustive, e.wire, entry_score(e)),
{
    let t = st.popped(e);
    let w = e.wire;
    assert forall|x: QueueEntry| #[trigger] t.heap.contains(x) implies st.heap.contains(x) by {
    }
    assert forall|x: WireId| #[trigger]
        t.vis.contains_key(x) && !t.done.contains(x) && (x != w || entry_score(e)
            > st.vis[w].score()) implies t.waits(x) by {
        assert(st.vis.contains_key(x));
        let y = choose|y: QueueEntry| #[trigger]
            st.heap.contains(y) && y.wire == x && entry_score(y) == st.vis[x].score();
        assert(y != e);
        assert(t.heap.contains(y));
    }
    if consistent(ctx, m, srcs, dst) {
        assert(e.estimate >= st.low);
        assert(t.low == e.estimate);
        assert(t.frugal(ctx, m, srcs, dst));
        if entry_score(e) <= st.vis[w].score() && (ctx.chipdb.node(w) is Some ==> !st.nodes.contains(
            ctx.chipdb.node(w)->0,
        )) && t.low < i32::MAX {
            let s = entry_score(e);
            assert forall|x: WireId| #[trigger]
                t.vis.contains_key(x) && ctx.chipdb.joined(w, x) implies t.vis[x].score() >= s by {
                if x != w {
                    assert(!st.done.contains(x));
                    assert(st.waits(x));
                    let y = choose|y: QueueEntry| #[trigger]
                        st.heap.contains(y) && y.wire == x && entry_score(y) == st.vis[x].score();
                    assert(ahead(e, y));
                    assert(is_entry(ctx, m, srcs, x) && is_entry(ctx, m, srcs, w));
                }
            }
        }
    }
}

/// Steps that were taken stay taken while the visits improve.
pub proof fn lemma_expanded_stays<M: PathCostModel>(
    ctx: Context,
    m: &M,
    st: SearchState,
    t: SearchState,
    u: WireId,
    s: int,
)
    requires
        st.expanded(ctx, m, u, s),
        t.improves(st.vis),
    ensures
        t.expanded(ctx, m, u, s),
{
    assert forall|h: Hop| #[trigger] hop_ok(ctx, m, u, h) && h.pip is Some implies t.vis.contains_key(h.to)
        && t.vis[h.to].score() <= sat_sum(s, hop_cost(ctx, m, h)) by {
        assert(st.vis.contains_key(h.to));
    }
}

/// No walk from a wire `u` that waits, which was come to for at most `g`, to the node of the entry that is
/// ahead of all is cheaper than the entry.
proof fn lemma_waiting_cheapest<M: PathCostModel>(
    ctx: Context,
    m: &M,
    srcs: Map<WireId, ()>,
    dst: WireId,
    exhaustive: bool,
    st: SearchState,
    e: QueueEntry,
    u: WireId,
    walk: Seq<Hop>,
    g: int,
)
    requires
        ctx.wf(),
        consistent(ctx, m, srcs, dst),
        st.inv(ctx, m, srcs, dst, exhaustive, None),
        st.heap.contains(e),
        forall|x: QueueEntry| #[trigger] st.heap.contains(x) ==> ahead(e, x),
        entry_score(e) + m.heuristic_of(ctx, e.wire, dst) < i32::MAX,
        st.vis.contains_key(u),
        !st.done.contains(u),
        st.vis[u].score() <= g,
        walk_ok(ctx, m, u, walk),
        ctx.chipdb.joined(e.wire, walk_end(u, walk)),
    ensures
        entry_score(e) <= g + walk_cost(ctx, m, walk),
{
    lemma_inv_sound(ctx, m, srcs, dst, exhaustive, None, st);
    assert(is_entry(ctx, m, srcs, e.wire));
    lemma_node_estimate(ctx, m, srcs, dst, e.wire, walk_end(u, walk));
    lemma_visited_entry(ctx, m, srcs, st, u);
    lemma_consistent_walk(ctx, m, srcs, dst, u, walk);
    assert(st.waits(u));
    let y = choose|y: QueueEntry| #[trigger]
        st.heap.contains(y) && y.wire == u && entry_score(y) == st.vis[u].score();
    assert(ahead(e, y));
    assert(is_entry(ctx, m, srcs, u));
}

/// No walk from `u`, which was come to for at most `g`, to the node of the entry that is about to be
/// expanded is cheaper than the entry.
pub proof fn lemma_cheapest<M: PathCostModel>(
    ctx: Context,
    m: &M,
    srcs: Map<WireId, ()>,
    dst: WireId,
    exhaustive: bool,
    st: SearchState,
    e: QueueEntry,
    u: WireId,
    walk: Seq<Hop>,
    g: int,
)
    requires
        ctx.wf(),
        consistent(ctx, m, srcs, dst),
        st.inv(ctx, m, srcs, dst, exhaustive, None),
        st.heap.contains(e),
        forall|x: QueueEntry| #[trigger] st.heap.contains(x) ==> ahead(e, x),
        entry_score(e) <= st.vis[e.wire].score(),
        ctx.chipdb.node(e.wire) is Some ==> !st.nodes.contains(ctx.chipdb.node(e.wire)->0),
        entry_score(e) + m.heuristic_of(ctx, e.wire, dst) < i32::MAX,
        st.vis.contains_key(u),
        st.vis[u].score() <= g,
        walk_ok(ctx, m, u, walk),
        ctx.chipdb.joined(e.wire, walk_end(u, walk)),
    ensures
        entry_score(e) <= g + walk_cost(ctx, m, walk),
    decreases walk.len(),
{
    assert(e.estimate == entry_score(e) + m.heuristic_of(ctx, e.wire, dst));
    assert(st.low <= e.estimate);
    if !st.done.contains(u) {
        lemma_waiting_cheapest(ctx, m, srcs, dst, exhaustive, st, e, u, walk, g);
    } else if walk.len() == 0 {
        assert(u == e.wire);
    } else {
        let h = walk[0];
        let rest = walk.skip(1);
        assert(hop_ok(ctx, m, u, h));
        assert(st.vis.contains_key(h.to));
        assert(st.vis[h.to].score() <= sat_sum(st.vis[u].score(), hop_cost(ctx, m, h)));
        assert(walk_end(h.to, rest) == walk_end(u, walk)) by {
            if walk.len() > 1 {
                assert(rest.last() == walk.last());
            }
        }
        lemma_cheapest(ctx, m, srcs, dst, exhaustive, st, e, h.to, rest, g + hop_cost(ctx, m, h));
    }
}

/// When no entry waits, the visits are closed.
pub proof fn lemma_drained<M: PathCostModel>(
    ctx: Context,
    m: &M,
    srcs: Map<WireId, ()>,
    dst: WireId,
    exhaustive: bool,
    st: SearchState,
)
    requires
        st.inv(ctx, m, srcs, dst, exhaustive, None),
        st.heap == Multiset::<QueueEntry>::empty(),
    ensures
        visits_closed(ctx, m, srcs, st.vis),
        !exhaustive ==> !st.vis.contains_key(dst),
{
    assert forall|w: WireId| #[trigger] st.vis.contains_key(w) implies st.done.contains(w) by {
        if !st.done.contains(w) {
            assert(st.waits(w));
            let y = choose|y: QueueEntry| #[trigger]
                st.heap.contains(y) && y.wire == w && entry_score(y) == st.vis[w].score();
            assert(false);
        }
    }
}

/// A sound visit can be followed back over a path that its score pays for.
pub proof fn lemma_follow<M: PathCostModel>(
    ctx: Context,
    m: &M,
    srcs: Map<WireId, ()>,
    st: SearchState,
    w: WireId,
) -> (n: nat)
    requires
        st.sound(ctx, m, srcs),
        st.vis.contains_key(w),
    ensures
        settles(ctx.chipdb, st.vis, w, n),
        path_ok(ctx, m, srcs, trace_back(ctx.chipdb, st.vis, w, n), w),
        sat_sum(path_cost(ctx, m, trace_back(ctx.chipdb, st.vis, w, n)), 0) <= st.vis[w].score(),
        path_cost(ctx, m, trace_back(ctx.chipdb, st.vis, w, n)) >= 0,
    decreases st.vis[w].score(), st.time[w],
{
    assert(st.parent_ok(ctx, m, srcs, w));
    match st.vis[w].pip {
        Some(p) => {
            let u = ctx.chipdb.src(p);
            let k = lemma_follow(ctx, m, srcs, st, u);
            let head = trace_back(ctx.chipdb, st.vis, u, k);
            let path = trace_back(ctx.chipdb, st.vis, w, k + 1);
            assert(path == head.push(p));
            assert(path.drop_last() =~= head);
            k + 1
        },
        None => {
            if st.vis[w].from == w {
                assert(srcs.contains_key(w) && ctx.chipdb.joined(w, w));
                0
            } else {
                let u = st.vis[w].from;
                let k = lemma_follow(ctx, m, srcs, st, u);
                lemma_path_joined(ctx, m, srcs, trace_back(ctx.chipdb, st.vis, u, k), u, w);
                k + 1
            }
        },
    }
}

/// Sound visits are sound in the sense of the result.
pub proof fn lemma_visits_sound<M: PathCostModel>(
    ctx: Context,
    m: &M,
    srcs: Map<WireId, ()>,
    st: SearchState,
)
    requires
        st.sound(ctx, m, srcs),
    ensures
        visits_sound(ctx, m, srcs, st.vis),
{
    assert forall|w: WireId| #[trigger] st.vis.contains_key(w) implies ctx.chipdb.valid_wire(w) && exists|
        n: nat,
    | #[trigger]
        settles(ctx.chipdb, st.vis, w, n) && path_ok(
            ctx,
            m,
            srcs,
            trace_back(ctx.chipdb, st.vis, w, n),
            w,
        ) && sat_sum(path_cost(ctx, m, trace_back(ctx.chipdb, st.vis, w, n)), 0) <= st.vis[w].score() by {
        let n = lemma_follow(ctx, m, srcs, st, w);
        assert(settles(ctx.chipdb, st.vis, w, n));
    }
}

/// Taking a step makes one entry, for a new wire and score and, if the estimates are consistent,
/// for a new pip.
pub proof fn lemma_step_counts<M: PathCostModel>(
    ctx: Context,
    m: &M,
    srcs: Map<WireId, ()>,
    dst: WireId,
    exhaustive: bool,
    st: SearchState,
    w: WireId,
    s: int,
    u: WireId,
    p: PipId,
    nv: Visit,
    e: QueueEntry,
)
    requires
        ctx.wf(),
        st.inv(ctx, m, srcs, dst, exhaustive, Some(w)),
        st.expanding(ctx, m, srcs, dst, exhaustive, w, s),
        ctx.chipdb.joined(w, u),
        st.vis.contains_key(u),
        st.vis[u].score() <= s,
        ctx.chipdb.src(p) == u,
        leaves(ctx.chipdb, u, p),
        ctx.chipdb.valid_pip(p),
        ctx.chipdb.valid_wire(ctx.chipdb.dst(p)),
        allowed(ctx, m, ctx.chipdb.dst(p)),
        step_cost(ctx, m, p) >= 0,
        nv.cost >= 0,
        nv.penalty >= 0,
        nv.pip == Some(p),
        nv.score() == sat_sum(s, step_cost(ctx, m, p)),
        !st.vis.contains_key(ctx.chipdb.dst(p)) || nv.score() < st.vis[ctx.chipdb.dst(p)].score(),
        e.wire == ctx.chipdb.dst(p),
        entry_score(e) == nv.score(),
        estimated(ctx, m, dst, e),
        st.counted(ctx),
    ensures
        st.with_visit(e.wire, nv).with_entry(e).counted(ctx),
        consistent(ctx, m, srcs, dst) && st.low < i32::MAX && st.thrifty(ctx, m, Some(w)) ==> st.with_visit(
            e.wire,
            nv,
        ).with_entry(e).thrifty(ctx, m, Some(w)),
{
    let v = ctx.chipdb.dst(p);
    let t = st.with_visit(v, nv).with_entry(e);
    lemma_set_visit(ctx, m, srcs, st, u, v, nv);
    let o = (v, nv.score());
    assert(0 <= nv.score() <= i32::MAX);
    assert(!st.offers.contains(o));
    assert(t.heap.len() == st.heap.len() + 1);
    assert(t.offers.len() == st.offers.len() + 1);
    assert forall|x: (WireId, int)| #[trigger] t.offers.contains(x) implies ctx.chipdb.valid_wire(x.0)
        && t.vis.contains_key(x.0) && t.vis[x.0].score() <= x.1 && 0 <= x.1 <= i32::MAX by {
        if x != o {
            assert(st.offers.contains(x));
        }
    }
    if consistent(ctx, m, srcs, dst) && st.low < i32::MAX && st.thrifty(ctx, m, Some(w)) {
        if st.steps.contains(p) {
            assert(st.stepped(ctx, m, Some(w), p));
            assert(false);
        }
        assert(t.steps.len() == st.steps.len() + 1);
        let hw = m.heuristic_of(ctx, w, dst);
        let hv = m.heuristic_of(ctx, v, dst);
        assert(enters(ctx, m, p, v));
        assert(is_entry(ctx, m, srcs, v));
        assert(hw <= step_cost(ctx, m, p) + hv);
        assert(e.estimate >= st.low);
        assert(!st.done.contains(v)) by {
            if st.done.contains(v) {
                assert(st.vis.contains_key(v));
                assert(st.vis[v].score() + hv <= st.low);
                assert(false);
            }
        }
        assert(v != w);
        assert(st.vis[u].score() == s);
        assert forall|q: PipId| #[trigger] t.steps.contains(q) implies t.stepped(ctx, m, Some(w), q) by {
            if q != p {
                assert(st.steps.contains(q));
                assert(st.stepped(ctx, m, Some(w), q));
                let a = ctx.chipdb.src(q);
                if a == v {
                    assert(st.vis[a].score() <= s);
                    assert(false);
                }
            }
        }
    }
}

/// Coming to another wire of the conductor makes no entry.
pub proof fn lemma_peer_counts<M: PathCostModel>(
    ctx: Context,
    m: &M,
    srcs: Map<WireId, ()>,
    dst: WireId,
    exhaustive: bool,
    st: SearchState,
    w: WireId,
    s: int,
    v: WireId,
    nv: Visit,
)
    requires
        ctx.wf(),
        st.inv(ctx, m, srcs, dst, exhaustive, Some(w)),
        st.expanding(ctx, m, srcs, dst, exhaustive, w, s),
        ctx.chipdb.joined(w, v),
        w != v,
        nv.score() == s,
        !st.vis.contains_key(v) || nv.score() < st.vis[v].score(),
        st.counted(ctx),
    ensures
        st.with_visit(v, nv).counted(ctx),
        st.thrifty(ctx, m, Some(w)) ==> st.with_visit(v, nv).thrifty(ctx, m, Some(w)),
{
    let t = st.with_visit(v, nv);
    assert(!st.done.contains(v));
    assert forall|x: (WireId, int)| #[trigger] t.offers.contains(x) implies ctx.chipdb.valid_wire(x.0)
        && t.vis.contains_key(x.0) && t.vis[x.0].score() <= x.1 && 0 <= x.1 <= i32::MAX by {
        assert(st.offers.contains(x));
    }
    if st.thrifty(ctx, m, Some(w)) {
        assert forall|q: PipId| #[trigger] t.steps.contains(q) implies t.stepped(ctx, m, Some(w), q) by {
            assert(st.steps.contains(q));
            assert(st.stepped(ctx, m, Some(w), q));
        }
    }
}

/// Closing off an expanded conductor makes no entry.
pub proof fn lemma_close_counts<M: PathCostModel>(ctx: Context, m: &M, st: SearchState, w: WireId)
    requires
        st.counted(ctx),
    ensures
        st.closed_off(ctx.chipdb, w).counted(ctx),
        st.thrifty(ctx, m, Some(w)) ==> st.closed_off(ctx.chipdb, w).thrifty(ctx, m, None),
{
    let t = st.closed_off(ctx.chipdb, w);
    assert forall|x: (WireId, int)| #[trigger] t.offers.contains(x) implies ctx.chipdb.valid_wire(x.0)
        && t.vis.contains_key(x.0) && t.vis[x.0].score() <= x.1 && 0 <= x.1 <= i32::MAX by {
        assert(st.offers.contains(x));
    }
    if st.thrifty(ctx, m, Some(w)) {
        assert forall|q: PipId| #[trigger] t.steps.contains(q) implies t.stepped(ctx, m, None, q) by {
            assert(st.steps.contains(q));
            assert(st.stepped(ctx, m, Some(w), q));
        }
    }
}

/// Taking out an entry makes none.
pub proof fn lemma_pop_counts<M: PathCostModel>(ctx: Context, m: &M, st: SearchState, e: QueueEntry)
    requires
        st.counted(ctx),
        st.heap.contains(e),
    ensures
        st.popped(e).counted(ctx),
        st.heap.len() > 0,
        st.thrifty(ctx, m, None) ==> st.popped(e).thrifty(ctx, m, None) && st.popped(e).thrifty(
            ctx,
            m,
            Some(e.wire),
        ),
{
    let t = st.popped(e);
    assert(st.heap =~= t.heap.insert(e));
    assert(st.heap.len() == t.heap.len() + 1);
    assert forall|x: (WireId, int)| #[trigger] t.offers.contains(x) implies ctx.chipdb.valid_wire(x.0)
        && t.vis.contains_key(x.0) && t.vis[x.0].score() <= x.1 && 0 <= x.1 <= i32::MAX by {
        assert(st.offers.contains(x));
    }
    if st.thrifty(ctx, m, None) {
        assert forall|q: PipId| #[trigger] t.steps.contains(q) implies t.stepped(ctx, m, None, q)
            && t.stepped(ctx, m, Some(e.wire), q) by {
            assert(st.steps.contains(q));
            assert(st.stepped(ctx, m, None, q));
        }
    }
}

/// While there is a walk from `u`, which was come to for at most `g`, to the target, the next entry
/// estimates no more than the walk costs.
pub proof fn lemma_next_estimate<M: PathCostModel>(
    ctx: Context,
    m: &M,
    srcs: Map<WireId, ()>,
    dst: WireId,
    st: SearchState,
    e: QueueEntry,
    u: WireId,
    walk: Seq<Hop>,
    g: int,
)
    requires
        ctx.wf(),
        consistent(ctx, m, srcs, dst),
        st.inv(ctx, m, srcs, dst, false, None),
        st.low < i32::MAX,
        forall|x: QueueEntry| #[trigger] st.heap.contains(x) ==> ahead(e, x),
        st.vis.contains_key(u),
        st.vis[u].score() <= g,
        walk_ok(ctx, m, u, walk),
        walk_end(u, walk) == dst,
    ensures
        e.estimate <= g + walk_cost(ctx, m, walk) + node_estimate(ctx, m, srcs, dst, dst),
    decreases walk.len(),
{
    if !st.done.contains(u) {
        lemma_inv_sound(ctx, m, srcs, dst, false, None, st);
        lemma_visited_entry(ctx, m, srcs, st, u);
        lemma_consistent_walk(ctx, m, srcs, dst, u, walk);
        assert(st.waits(u));
        let y = choose|y: QueueEntry| #[trigger]
            st.heap.contains(y) && y.wire == u && entry_score(y) == st.vis[u].score();
        assert(ahead(e, y));
    } else {
        assert(walk.len() > 0);
        let h = walk[0];
        let rest = walk.skip(1);
        assert(hop_ok(ctx, m, u, h));
        assert(st.vis.contains_key(h.to));
        assert(st.vis[h.to].score() <= sat_sum(st.vis[u].score(), hop_cost(ctx, m, h)));
        assert(walk_end(h.to, rest) == dst) by {
            if walk.len() > 1 {
                assert(rest.last() == walk.last());
            }
        }
        lemma_next_estimate(ctx, m, srcs, dst, st, e, h.to, rest, g + hop_cost(ctx, m, h));
    }
}

} // verus!
