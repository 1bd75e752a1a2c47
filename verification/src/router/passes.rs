//! The passes of the raster router: what each begins with, the order of its nets, the counts that it
//! keeps, and how it ends.

use crate::chipdb::WireId;
use crate::context::Context;
use crate::ids::IdMap;
use crate::netlist::{Design, NetId};
use crate::router::cleanup::{cleanup_done, cleanup_net, CleanupResult};
use crate::router::common::{plan_conflict, steps_bound, RoutePlan};
use crate::router::gate::{
    by_fanout, by_rank, choose_nets, clock_backbone, end_of_cleanup, end_of_routing, fanout_part, has_clock,
    nothing_to_route, on_clock_network, order_by_fanout, order_by_rank, pass_chosen, split_by_fanout,
    unfinished_nets, unfinished_upto, PassEnd, PassPlan,
};
use crate::router::lookahead::Lookahead;
use crate::router::negotiation::{owned_by_last, NegotiationCfg, NegotiationState};
use crate::router::raster::{bind_and_count, counted_upto, crowded, pips_upto, TileUsage};
use crate::router::maze::penalties_ok;
use crate::router::ripup::MAX_RIPUP_ATTEMPTS_PER_RUN;
use crate::router::usage::{counts_users, first_nets, overused_set};
use crate::timing::delay::DelayT;
use vstd::prelude::*;

verus! {

/// What the passes of the raster router have come to.
pub struct RasterPasses {
    /// The nets to route.
    pub nets: Vec<NetId>,
    pub state: NegotiationState,
    /// How crowded the tiles are.
    pub usage: TileUsage,
    /// How many more nets may be routed by making room for them.
    pub budget: u32,
    /// The number of the pass.
    pub pass: usize,
    /// How many nets of the pass were bound.
    pub routed: usize,
    /// How many nets of the pass were not.
    pub failed: usize,
}

/// What a pass begins with.
pub enum PassChoice {
    /// All nets are routed.
    First,
    /// Some nets are routed again.
    Again(PassPlan),
    /// There is nothing left to route.
    Nothing(PassPlan),
}

/// How many wires of a net lie in a tile.
pub open spec fn wires_at(design: Design, net: NetId, tile: int) -> nat {
    design.net_of(net).wires@.dom().filter(|w: WireId| w.tile == tile).len()
}

/// How many wires of the first `n` nets of a list lie in a tile.
pub open spec fn load_at(design: Design, nets: Seq<NetId>, n: int, tile: int) -> nat
    decreases n,
{
    if n <= 0 {
        0
    } else {
        load_at(design, nets, n - 1, tile) + wires_at(design, nets[n - 1], tile)
    }
}

/// How many wires of a list lie in a tile, among the first `n`.
spec fn keys_at(keys: Seq<WireId>, n: int, tile: int) -> nat
    decreases n,
{
    if n <= 0 {
        0
    } else {
        keys_at(keys, n - 1, tile) + (if keys[n - 1].tile == tile {
            1nat
        } else {
            0nat
        })
    }
}

/// A number held at the largest count.
pub open spec fn as_count(n: nat) -> int {
    if n <= u32::MAX {
        n as int
    } else {
        u32::MAX as int
    }
}

/// The nets of a pass in order: those with many users first, and among each part by their users.
pub open spec fn pass_order(design: Design, to_route: Seq<NetId>, sorted: Seq<NetId>, r: Seq<NetId>) -> bool {
    &&& by_fanout(design, to_route, sorted)
    &&& r == fanout_part(design, sorted, true, sorted.len() as int) + fanout_part(
        design,
        sorted,
        false,
        sorted.len() as int,
    )
}

/// Listing wires once each counts the set of them.
proof fn lemma_keys_at(keys: Seq<WireId>, n: int, tile: int)
    requires
        keys.no_duplicates(),
        0 <= n <= keys.len(),
    ensures
        keys.take(n).to_set().filter(|w: WireId| w.tile == tile).finite(),
        keys_at(keys, n, tile) == keys.take(n).to_set().filter(|w: WireId| w.tile == tile).len(),
    decreases n,
{
    let here = |w: WireId| w.tile == tile;
    if n == 0 {
        assert(keys.take(0).to_set().filter(here) =~= Set::<WireId>::empty());
    } else {
        lemma_keys_at(keys, n - 1, tile);
        let k = keys[n - 1];
        let head = keys.take(n - 1);
        let before = head.to_set();
        let after = keys.take(n).to_set();
        assert(keys.take(n) =~= head.push(k));
        assert(after =~= before.insert(k)) by {
            assert forall|w: WireId| after.contains(w) <==> before.insert(k).contains(w) by {
                if after.contains(w) {
                    let i = choose|i: int| 0 <= i < n && keys.take(n)[i] == w;
                    if i < n - 1 {
                        assert(head[i] == w);
                    }
                }
                if before.contains(w) {
                    let i = choose|i: int| 0 <= i < n - 1 && head[i] == w;
                    assert(keys.take(n)[i] == w);
                }
                assert(keys.take(n)[n - 1] == k);
            }
        }
        assert(!before.contains(k)) by {
            if before.contains(k) {
                let i = choose|i: int| 0 <= i < n - 1 && head[i] == k;
                assert(keys[i] == keys[n - 1]);
            }
        }
        if k.tile == tile {
            assert(after.filter(here) =~= before.filter(here).insert(k));
        } else {
            assert(after.filter(here) =~= before.filter(here));
        }
    }
}

/// Counts the wires of the trees of the nets of a list by tile.
fn count_loads(ctx: &Context, nets: &Vec<NetId>) -> (r: TileUsage)
    requires
        ctx.wf(),
        forall|i: int| 0 <= i < nets@.len() ==> ctx.design.valid_net(#[trigger] nets@[i]),
    ensures
        r.wf(ctx.chipdb),
        forall|t: int|
            0 <= t < r.counts@.len() ==> #[trigger] r.counts@[t] == as_count(
                load_at(ctx.design, nets@, nets@.len() as int, t),
            ),
{
    let mut usage = TileUsage::new(&ctx.chipdb);
    for i in 0..nets.len()
        invariant
            ctx.wf(),
            forall|i: int| 0 <= i < nets@.len() ==> ctx.design.valid_net(#[trigger] nets@[i]),
            usage.wf(ctx.chipdb),
            forall|t: int|
                0 <= t < usage.counts@.len() ==> #[trigger] usage.counts@[t] == as_count(
                    load_at(ctx.design, nets@, i as int, t),
                ),
    {
        let net: NetId = nets[i];
        assert(ctx.design.valid_net(nets@[i as int]));
        let keys = ctx.net(net).wires.keys();
        let total: usize = keys.len();
        let ghost dom = ctx.design.net_of(net).wires@.dom();
        for j in 0..total
            invariant
                ctx.wf(),
                ctx.design.valid_net(net),
                total == keys@.len(),
                dom == ctx.design.net_of(net).wires@.dom(),
                forall|k: WireId| #[trigger] keys@.contains(k) <==> dom.contains(k),
                usage.wf(ctx.chipdb),
                forall|t: int|
                    0 <= t < usage.counts@.len() ==> #[trigger] usage.counts@[t] == as_count(
                        load_at(ctx.design, nets@, i as int, t) + keys_at(keys@, j as int, t),
                    ),
        {
            let w: WireId = keys[j];
            assert(keys@.contains(keys@[j as int]));
            assert(ctx.routing_ok(ctx.design.nets@[net.0 as int].wires@));
            assert(ctx.design.net_of(net).wires@.contains_key(w));
            usage.add(&ctx.chipdb, w.tile);
        }
        proof {
            assert forall|t: int| 0 <= t < usage.counts@.len() implies #[trigger] usage.counts@[t] == as_count(
                load_at(ctx.design, nets@, i + 1, t),
            ) by {
                lemma_keys_at(keys@, keys@.len() as int, t);
                assert(keys@.take(keys@.len() as int) =~= keys@);
                assert(keys@.to_set() =~= dom);
            }
        }
    }
    usage
}

impl RasterPasses {
    /// The nets are nets of the design, and the counts are those of its device.
    pub open spec fn wf(self, ctx: Context) -> bool {
        &&& self.usage.wf(ctx.chipdb)
        &&& forall|i: int| 0 <= i < self.nets@.len() ==> ctx.design.valid_net(#[trigger] self.nets@[i])
    }

    /// Nothing but the routing of nets differs between two states of a run.
    pub open spec fn same_job(self, other: RasterPasses) -> bool {
        self.nets == other.nets && self.pass == other.pass
    }

    /// Before the first pass.
    pub fn new(ctx: &Context, nets: Vec<NetId>) -> (r: Self)
        requires
            forall|i: int| 0 <= i < nets@.len() ==> ctx.design.valid_net(#[trigger] nets@[i]),
        ensures
            r.wf(*ctx),
            r.nets == nets,
            r.state.cfg.sticky_ripup_threshold == 1,
            r.state.wire_usage@ == Map::<WireId, u32>::empty(),
            r.state.wire_owner@ == Map::<WireId, NetId>::empty(),
            r.state.rip_up_count@ == Map::<NetId, u32>::empty(),
            r.state.ever_seen_partial@ == Map::<NetId, ()>::empty(),
            forall|t: int| 0 <= t < r.usage.counts@.len() ==> #[trigger] r.usage.counts@[t] == 0,
            r.budget == MAX_RIPUP_ATTEMPTS_PER_RUN,
            r.pass == 0,
            r.routed == 0,
            r.failed == 0,
    {
        RasterPasses {
            nets,
            state: NegotiationState::new(NegotiationCfg::default()),
            usage: TileUsage::new(&ctx.chipdb),
            budget: MAX_RIPUP_ATTEMPTS_PER_RUN,
            pass: 0,
            routed: 0,
            failed: 0,
        }
    }

    /// Decides what the pass begins with. Before a pass after the first, nets that share wires are
    /// taken apart.
    pub fn begin(&mut self, ctx: &mut Context) -> (r: PassChoice)
        requires
            old(ctx).wf(),
            old(self).wf(*old(ctx)),
        ensures
            final(ctx).wf(),
            final(ctx).same_base(*old(ctx)),
            final(ctx).design.nets@.len() == old(ctx).design.nets@.len(),
            final(self).wf(*final(ctx)),
            final(self).same_job(*old(self)),
            final(self).usage == old(self).usage,
            final(self).budget == old(self).budget,
            final(self).routed == old(self).routed,
            final(self).failed == old(self).failed,
            match r {
                PassChoice::First => {
                    &&& old(self).pass == 0
                    &&& *final(ctx) == *old(ctx)
                    &&& final(self).state == old(self).state
                },
                PassChoice::Again(plan) => {
                    &&& old(self).pass > 0
                    &&& plan.to_retry@.len() > 0 || plan.sticky_skipped > 0
                    &&& exists|list: Seq<NetId>, flags: Seq<bool>| #[trigger]
                        pass_chosen(
                            *old(ctx),
                            old(self).state,
                            list,
                            flags,
                            plan,
                            *final(ctx),
                            final(self).state,
                        )
                    &&& forall|i: int|
                        0 <= i < plan.to_retry@.len() ==> final(ctx).design.valid_net(#[trigger] plan.to_retry@[i])
                },
                PassChoice::Nothing(plan) => {
                    &&& old(self).pass > 0
                    &&& plan.to_retry@.len() == 0 && plan.sticky_skipped == 0
                    &&& exists|list: Seq<NetId>, flags: Seq<bool>| #[trigger]
                        pass_chosen(
                            *old(ctx),
                            old(self).state,
                            list,
                            flags,
                            plan,
                            *final(ctx),
                            final(self).state,
                        )
                },
            },
    {
        if self.pass == 0 {
            return PassChoice::First;
        }
        let plan = choose_nets(ctx, &mut self.state);
        proof {
            let (list, flags) = choose|list: Seq<NetId>, flags: Seq<bool>| #[trigger]
                pass_chosen(*old(ctx), old(self).state, list, flags, plan, *ctx, self.state);
            assert(pass_chosen(*old(ctx), old(self).state, list, flags, plan, *ctx, self.state));
        }
        if nothing_to_route(&plan) {
            PassChoice::Nothing(plan)
        } else {
            PassChoice::Again(plan)
        }
    }

    /// Counts the tiles anew, from what is routed before the pass, and puts the nets of the pass in
    /// order. Nothing counts before the first pass.
    pub fn prepare(&mut self, ctx: &Context, to_route: &Vec<NetId>) -> (r: Vec<NetId>)
        requires
            ctx.wf(),
            old(self).wf(*ctx),
            forall|i: int| 0 <= i < to_route@.len() ==> ctx.design.valid_net(#[trigger] to_route@[i]),
        ensures
            final(self).wf(*ctx),
            final(self).same_job(*old(self)),
            final(self).state == old(self).state,
            final(self).budget == old(self).budget,
            final(self).routed == 0,
            final(self).failed == 0,
            forall|t: int|
                0 <= t < final(self).usage.counts@.len() ==> #[trigger] final(self).usage.counts@[t] == if old(
                    self,
                ).pass == 0 {
                    0
                } else {
                    as_count(load_at(ctx.design, old(self).nets@, old(self).nets@.len() as int, t))
                },
            exists|sorted: Seq<NetId>| #[trigger] pass_order(ctx.design, to_route@, sorted, r@),
            forall|i: int| 0 <= i < r@.len() ==> ctx.design.valid_net(#[trigger] r@[i]),
    {
        self.usage = if self.pass == 0 {
            TileUsage::new(&ctx.chipdb)
        } else {
            count_loads(ctx, &self.nets)
        };
        self.routed = 0;
        self.failed = 0;
        let sorted = order_by_fanout(ctx, to_route);
        let (high, low) = split_by_fanout(ctx, &sorted);
        let mut out = high;
        let total: usize = low.len();
        for i in 0..total
            invariant
                total == low@.len(),
                out@ == high@ + low@.take(i as int),
                forall|j: int| 0 <= j < low@.len() ==> ctx.design.valid_net(#[trigger] low@[j]),
                forall|j: int| 0 <= j < out@.len() ==> ctx.design.valid_net(#[trigger] out@[j]),
        {
            let net: NetId = low[i];
            assert(ctx.design.valid_net(low@[i as int]));
            out.push(net);
            assert(low@.take(i + 1) =~= low@.take(i as int).push(net));
        }
        proof {
            assert(low@.take(low@.len() as int) =~= low@);
            assert(pass_order(ctx.design, to_route@, sorted@, out@));
        }
        out
    }

    /// Binds the plan that was made for a net of the pass, if one was made and no other net is in its
    /// way, and counts the net as routed or as failed.
    pub fn take(&mut self, ctx: &mut Context, plan: Option<RoutePlan>) -> (r: bool)
        requires
            old(ctx).wf(),
            old(self).wf(*old(ctx)),
            plan is Some ==> {
                &&& old(ctx).design.valid_net(plan->0.net)
                &&& plan->0.pips_ok(old(ctx).chipdb)
                &&& plan->0.source_wire == WireId::nowhere() || old(ctx).chipdb.valid_wire(plan->0.source_wire)
            },
        ensures
            final(ctx).wf(),
            final(ctx).same_base(*old(ctx)),
            final(ctx).design.nets@.len() == old(ctx).design.nets@.len(),
            final(self).wf(*final(ctx)),
            final(self).same_job(*old(self)),
            final(self).state == old(self).state,
            final(self).budget == old(self).budget,
            r == (plan is Some && plan->0.source_wire != WireId::nowhere() && plan->0.sink_routes@.len() > 0
                && plan_conflict(*old(ctx), plan->0.net, plan->0.steps(old(ctx).chipdb)) is None),
            r ==> {
                let steps = plan->0.steps(old(ctx).chipdb);
                let pips = pips_upto(plan->0.sink_routes@, plan->0.sink_routes@.len() as int);
                &&& steps_bound(*old(ctx), plan->0.net, steps, steps.len() as int, *final(ctx))
                &&& final(self).usage.counts@ == counted_upto(
                    old(ctx).chipdb,
                    old(self).usage.counts@,
                    pips,
                    pips.len() as int,
                )
                &&& final(self).routed == if old(self).routed < usize::MAX {
                    old(self).routed + 1
                } else {
                    usize::MAX as int
                }
                &&& final(self).failed == old(self).failed
            },
            !r ==> {
                &&& *final(ctx) == *old(ctx)
                &&& final(self).usage == old(self).usage
                &&& final(self).routed == old(self).routed
                &&& final(self).failed == if old(self).failed < usize::MAX {
                    old(self).failed + 1
                } else {
                    usize::MAX as int
                }
            },
    {
        let bound: bool = match plan {
            Some(p) => bind_and_count(ctx, &p, &mut self.usage),
            None => false,
        };
        if bound {
            self.routed = self.routed.saturating_add(1);
        } else {
            self.failed = self.failed.saturating_add(1);
        }
        bound
    }

    /// Counts the wires of all nets, after the nets of the pass were taken, and decides how to go on.
    pub fn close_routing(&mut self, ctx: &Context) -> (r: PassEnd)
        requires
            ctx.wf(),
            old(self).wf(*ctx),
        ensures
            final(self).wf(*ctx),
            final(self).same_job(*old(self)),
            final(self).usage == old(self).usage,
            final(self).budget == old(self).budget,
            final(self).routed == old(self).routed,
            final(self).failed == old(self).failed,
            counts_users(
                final(self).state.wire_usage@,
                ctx.design,
                first_nets(ctx.design.nets@.len() as int),
            ),
            owned_by_last(final(self).state.wire_owner@, ctx.design, ctx.design.nets@.len() as int),
            final(self).state.same_nets(old(self).state),
            r == (if crowded(old(self).usage.counts@, old(self).usage.counts@.len() as int) == 0
                && overused_set(final(self).state.wire_usage@).len() == 0 && old(self).failed == 0 {
                PassEnd::Converged
            } else {
                PassEnd::GoOn
            }),
    {
        self.state.update_usage(&ctx.design);
        end_of_routing(
            self.usage.num_congested_tiles(),
            self.state.count_congested_wires(),
            self.failed,
        )
    }

    /// The nets that lack sinks after the nets of the pass were taken, in the order in which they are
    /// cleaned up, and the wires of the clock network, if one of them needs those.
    pub fn left_over(&self, ctx: &Context) -> (r: (Vec<NetId>, Vec<WireId>))
        requires
            ctx.wf(),
        ensures
            by_rank(*ctx, unfinished_upto(*ctx, ctx.design.nets@.len() as int), r.0@),
            r.1@ == (if has_clock(*ctx, r.0@) {
                ctx.chipdb.all_wires().filter(on_clock_network(ctx.chipdb))
            } else {
                Seq::empty()
            }),
            forall|i: int| 0 <= i < r.0@.len() ==> ctx.design.valid_net(#[trigger] r.0@[i]),
            forall|i: int| 0 <= i < r.1@.len() ==> ctx.chipdb.valid_wire(#[trigger] r.1@[i]),
    {
        let nets = order_by_rank(ctx, &unfinished_nets(ctx));
        let backbone = clock_backbone(ctx, &nets);
        (nets, backbone)
    }

    /// Cleans up a net.
    pub fn clean(
        &mut self,
        ctx: &mut Context,
        net: NetId,
        wire_penalty: &IdMap<WireId, DelayT>,
        lookahead: &Lookahead,
        backbone: &Vec<WireId>,
    ) -> (r: CleanupResult)
        requires
            old(ctx).wf(),
            old(self).wf(*old(ctx)),
            old(ctx).design.valid_net(net),
            penalties_ok(wire_penalty@),
            lookahead.wf(),
            forall|i: int| 0 <= i < backbone@.len() ==> old(ctx).chipdb.valid_wire(#[trigger] backbone@[i]),
        ensures
            final(ctx).wf(),
            final(ctx).same_base(*old(ctx)),
            final(ctx).design.nets@.len() == old(ctx).design.nets@.len(),
            final(self).wf(*final(ctx)),
            final(self).same_job(*old(self)),
            final(self).usage == old(self).usage,
            final(self).routed == old(self).routed,
            final(self).failed == old(self).failed,
            final(self).budget == old(self).budget || final(self).budget + 1 == old(self).budget,
            final(self).state.cfg == old(self).state.cfg,
            final(self).state.wire_usage == old(self).state.wire_usage,
            final(self).state.wire_owner == old(self).state.wire_owner,
            final(self).state.ever_seen_partial == old(self).state.ever_seen_partial,
            cleanup_done(
                *old(ctx),
                old(self).state.rip_up_count@,
                net,
                wire_penalty@,
                *lookahead,
                backbone@,
                old(self).budget,
                r,
                final(self).budget + 1 == old(self).budget,
                *final(ctx),
                final(self).state.rip_up_count@,
            ),
            forall|i: int| 0 <= i < r.missed@.len() ==> final(ctx).chipdb.valid_wire(#[trigger] r.missed@[i]),
    {
        cleanup_net(ctx, net, wire_penalty, lookahead, backbone, &mut self.budget, &mut self.state)
    }

    /// Ends the pass after its clean-up and decides how to go on. If nets were cleaned up, those that
    /// still lack sinks have failed.
    pub fn close_cleanup(&mut self, ctx: &Context, cleaned: &Vec<NetId>) -> (r: PassEnd)
        requires
            ctx.wf(),
            old(self).wf(*ctx),
        ensures
            final(self).wf(*ctx),
            final(self).nets == old(self).nets,
            final(self).state == old(self).state,
            final(self).usage == old(self).usage,
            final(self).budget == old(self).budget,
            final(self).routed == old(self).routed,
            final(self).failed == if cleaned@.len() > 0 {
                unfinished_upto(*ctx, ctx.design.nets@.len() as int).len() as int
            } else {
                old(self).failed as int
            },
            final(self).pass == if old(self).pass < usize::MAX {
                old(self).pass + 1
            } else {
                usize::MAX as int
            },
            r == (if final(self).failed == 0 {
                PassEnd::Validate
            } else {
                PassEnd::GoOn
            }),
    {
        if cleaned.len() > 0 {
            self.failed = unfinished_nets(ctx).len();
        }
        self.pass = self.pass.saturating_add(1);
        end_of_cleanup(self.failed)
    }
}

} // verus!
