//! What the raster router decides between its passes: which pins are reserved, which nets are routed
//! again and in which order, and when it is done.

use crate::chipdb::WireId;
use crate::context::Context;
use crate::metrics::pin_wires;
use crate::netlist::{Design, NetId};
use crate::order::{orders, stable_order};
use crate::router::common::{
    collect_sink_wires, held, is_global_clock_wire, global_clock_type, resolve_source_wire,
    source_wire_const_value,
};
use crate::router::error::RouterError;
use crate::router::negotiation::{bumped, NegotiationState};
use crate::router::raster::{crowded, RasterRouterCfg, TileUsage, HIGH_FANOUT};
use crate::router::ripup::{fully_routed, net_fully_routed};
use crate::router::rounds::{take_apart, taken_apart};
use crate::router::router2::{fewer_upto, given_up_upto};
use crate::router::scoped::bumped_upto;
use crate::router::usage::touches;
use crate::router::validate::clip;
use crate::types::enums::PlaceStrength;
use vstd::prelude::*;

verus! {

/// A wire that is to be kept for a net.
#[derive(Clone, Copy, PartialEq, Eq, Debug, Structural)]
pub struct Reservation {
    pub wire: WireId,
    pub net: NetId,
}

/// The reservations of a net: the wires of its pins, if it is alive and has a driver.
pub open spec fn reservations_of(ctx: Context, net: NetId) -> Seq<Reservation> {
    let n = ctx.design.net_of(net);
    if n.alive && n.driver.connected() {
        let wires = pin_wires(ctx, net);
        Seq::new(wires.len(), |i: int| Reservation { wire: wires[i], net })
    } else {
        Seq::empty()
    }
}

/// The reservations of the first `n` nets of a list.
pub open spec fn reservations_upto(ctx: Context, nets: Seq<NetId>, n: int) -> Seq<Reservation>
    decreases n,
{
    if n <= 0 {
        Seq::empty()
    } else {
        reservations_upto(ctx, nets, n - 1) + reservations_of(ctx, nets[n - 1])
    }
}

/// The wires of the pins of the nets of a list, with the net that each is kept for.
pub fn pin_reservations(ctx: &Context, nets: &Vec<NetId>) -> (r: Vec<Reservation>)
    requires
        ctx.wf(),
        forall|i: int| 0 <= i < nets@.len() ==> ctx.design.valid_net(#[trigger] nets@[i]),
    ensures
        r@ == reservations_upto(*ctx, nets@, nets@.len() as int),
        forall|i: int|
            0 <= i < r@.len() ==> ctx.chipdb.valid_wire((#[trigger] r@[i]).wire) && ctx.design.valid_net(
                r@[i].net,
            ),
{
    let mut out: Vec<Reservation> = Vec::new();
    for i in 0..nets.len()
        invariant
            ctx.wf(),
            forall|i: int| 0 <= i < nets@.len() ==> ctx.design.valid_net(#[trigger] nets@[i]),
            out@ == reservations_upto(*ctx, nets@, i as int),
            forall|j: int|
                0 <= j < out@.len() ==> ctx.chipdb.valid_wire((#[trigger] out@[j]).wire)
                    && ctx.design.valid_net(out@[j].net),
    {
        let net: NetId = nets[i];
        assert(ctx.design.valid_net(nets@[i as int]));
        let n = ctx.net(net);
        let ghost before = out@;
        let ghost part = reservations_of(*ctx, net);
        if n.alive && n.has_driver() {
            assert(ctx.design.net_ok(ctx.design.nets@[net.0 as int]));
            if let Some(w) = ctx.pin_wire(n.driver) {
                out.push(Reservation { wire: w, net });
            }
            let sinks = collect_sink_wires(ctx, net);
            let ghost head = out@;
            for j in 0..sinks.len()
                invariant
                    ctx.design.valid_net(net),
                    forall|i: int| 0 <= i < sinks@.len() ==> ctx.chipdb.valid_wire(#[trigger] sinks@[i]),
                    out@ == head + Seq::new(j as nat, |k: int| Reservation { wire: sinks@[k], net }),
                    forall|j: int|
                        0 <= j < out@.len() ==> ctx.chipdb.valid_wire((#[trigger] out@[j]).wire)
                            && ctx.design.valid_net(out@[j].net),
            {
                assert(ctx.chipdb.valid_wire(sinks@[j as int]));
                out.push(Reservation { wire: sinks[j], net });
                assert(out@ =~= head + Seq::new(
                    (j + 1) as nat,
                    |k: int| Reservation { wire: sinks@[k], net },
                ));
            }
            proof {
                let wires = pin_wires(*ctx, net);
                assert(out@ =~= before + part);
            }
        } else {
            assert(out@ =~= before + part);
        }
    }
    out
}

/// Whether a reservation leads from one state of a trail to the next: the conductor is given to the
/// net, unless another net holds a wire of it.
pub open spec fn reserved_at(trail: Seq<Context>, list: Seq<Reservation>, i: int) -> bool {
    let c = trail[i];
    let v = list[i];
    if c.first_taken(v.net, c.conductor_of(v.wire)) is None {
        c.rebound_wires(c.node_bound(c.wire_bindings@, v.wire, held(v.net)), trail[i + 1])
    } else {
        trail[i + 1] == c
    }
}

/// The reservation at a position was made.
pub open spec fn granted(trail: Seq<Context>, list: Seq<Reservation>, i: int) -> bool {
    trail[i].first_taken(list[i].net, trail[i].conductor_of(list[i].wire)) is None
}

/// How many of the first `n` reservations were made.
pub open spec fn count_granted(trail: Seq<Context>, list: Seq<Reservation>, n: int) -> nat
    decreases n,
{
    if n <= 0 {
        0
    } else {
        count_granted(trail, list, n - 1) + (if granted(trail, list, n - 1) {
            1nat
        } else {
            0nat
        })
    }
}

/// The states that the first `n` reservations lead through.
pub open spec fn reserved_along(trail: Seq<Context>, list: Seq<Reservation>, n: int) -> bool {
    &&& trail.len() == n + 1
    &&& forall|i: int| 0 <= i < n ==> #[trigger] reserved_at(trail, list, i)
}

proof fn lemma_granted_prefix(a: Seq<Context>, b: Seq<Context>, list: Seq<Reservation>, n: int)
    requires
        0 <= n <= a.len() <= b.len(),
        forall|i: int| 0 <= i < a.len() ==> #[trigger] b[i] == a[i],
    ensures
        count_granted(b, list, n) == count_granted(a, list, n),
    decreases n,
{
    if n > 0 {
        lemma_granted_prefix(a, b, list, n - 1);
        assert(b[n - 1] == a[n - 1]);
    }
}

/// Makes reservations one after the other; how many were made and how many were not.
pub fn reserve_pins(ctx: &mut Context, list: &Vec<Reservation>) -> (r: (usize, usize))
    requires
        old(ctx).wf(),
        forall|i: int|
            0 <= i < list@.len() ==> old(ctx).chipdb.valid_wire((#[trigger] list@[i]).wire)
                && old(ctx).design.valid_net(list@[i].net),
    ensures
        final(ctx).wf(),
        final(ctx).same_base(*old(ctx)),
        final(ctx).design == old(ctx).design,
        r.0 + r.1 == list@.len(),
        exists|trail: Seq<Context>| #[trigger]
            reserved_along(trail, list@, list@.len() as int) && trail[0] == *old(ctx)
                && trail[list@.len() as int] == *final(ctx) && r.0 == count_granted(
                trail,
                list@,
                list@.len() as int,
            ),
{
    let mut made: usize = 0;
    let mut refused: usize = 0;
    let ghost mut trail: Seq<Context> = seq![*ctx];
    for i in 0..list.len()
        invariant
            old(ctx).wf(),
            ctx.wf(),
            ctx.same_base(*old(ctx)),
            ctx.design == old(ctx).design,
            forall|i: int|
                0 <= i < list@.len() ==> old(ctx).chipdb.valid_wire((#[trigger] list@[i]).wire)
                    && old(ctx).design.valid_net(list@[i].net),
            made + refused == i,
            trail.len() == i + 1,
            trail[0] == *old(ctx),
            trail[i as int] == *ctx,
            reserved_along(trail, list@, i as int),
            made == count_granted(trail, list@, i as int),
    {
        let v: Reservation = list[i];
        let ghost before = *ctx;
        let ghost shorter = trail;
        assert(old(ctx).design.valid_net(list@[i as int].net));
        match ctx.try_bind_wire_node(v.wire, v.net, PlaceStrength::Strong) {
            Ok(_) => {
                made = made + 1;
                proof {
                    before.lemma_node_bound(before.wire_bindings@, v.wire, held(v.net));
                    before.lemma_rerouted_wf(
                        v.net,
                        before.design.net_of(v.net).wires@,
                        *ctx,
                    );
                }
            },
            Err(_) => {
                refused = refused + 1;
            },
        }
        proof {
            trail = trail.push(*ctx);
            assert forall|k: int| 0 <= k < i + 1 implies #[trigger] reserved_at(trail, list@, k) by {
                if k < i {
                    assert(reserved_at(shorter, list@, k));
                }
            }
            lemma_granted_prefix(shorter, trail, list@, i as int);
        }
    }
    (made, refused)
}

/// The nets with the given flags, in order.
pub open spec fn flagged_upto(flags: Seq<bool>, n: int) -> Seq<NetId>
    decreases n,
{
    if n <= 0 {
        Seq::empty()
    } else if flags[n - 1] {
        flagged_upto(flags, n - 1).push(NetId((n - 1) as u32))
    } else {
        flagged_upto(flags, n - 1)
    }
}

/// A net that has no routing and takes part in routing.
pub open spec fn unrouted_net(design: Design, i: int) -> bool {
    design.nets@[i].routable() && design.nets@[i].wires@.dom() == Set::<WireId>::empty()
}

/// A net with some routing that does not reach all its sinks.
pub open spec fn partial_net(ctx: Context, i: int) -> bool {
    ctx.design.nets@[i].routable() && ctx.design.nets@[i].wires@.dom() != Set::<WireId>::empty()
        && !fully_routed(ctx, NetId(i as u32))
}

/// The nets of a list that were not taken apart too often, in order.
pub open spec fn loose_upto(state: NegotiationState, nets: Seq<NetId>, n: int) -> Seq<NetId>
    decreases n,
{
    if n <= 0 {
        Seq::empty()
    } else if state.ripped(nets[n - 1]) >= state.cfg.sticky_ripup_threshold {
        loose_upto(state, nets, n - 1)
    } else {
        loose_upto(state, nets, n - 1).push(nets[n - 1])
    }
}

/// What stands among them.
pub proof fn lemma_loose(state: NegotiationState, nets: Seq<NetId>, n: int, x: NetId)
    requires
        nets.no_duplicates(),
        0 <= n <= nets.len(),
    ensures
        loose_upto(state, nets, n).contains(x) <==> nets.take(n).contains(x) && state.ripped(x)
            < state.cfg.sticky_ripup_threshold,
        loose_upto(state, nets, n).no_duplicates(),
        loose_upto(state, nets, n).len() <= n,
    decreases n,
{
    if n > 0 {
        lemma_loose(state, nets, n - 1, x);
        lemma_loose(state, nets, n - 1, nets[n - 1]);
        let part = nets.take(n - 1);
        let whole = nets.take(n);
        let fewer = loose_upto(state, nets, n - 1);
        let all = loose_upto(state, nets, n);
        assert(whole[n - 1] == nets[n - 1]);
        if part.contains(x) {
            let i = choose|i: int| 0 <= i < part.len() && part[i] == x;
            assert(whole[i] == x);
        }
        if whole.contains(x) {
            let i = choose|i: int| 0 <= i < whole.len() && whole[i] == x;
            if i < n - 1 {
                assert(part[i] == x);
            }
        }
        if part.contains(nets[n - 1]) {
            let i = choose|i: int| 0 <= i < part.len() && part[i] == nets[n - 1];
            assert(nets[i] == nets[n - 1]);
        }
        if all.len() > fewer.len() {
            assert(all[fewer.len() as int] == nets[n - 1]);
            if fewer.contains(x) {
                let i = choose|i: int| 0 <= i < fewer.len() && fewer[i] == x;
                assert(all[i] == x);
            }
            if all.contains(x) {
                let i = choose|i: int| 0 <= i < all.len() && all[i] == x;
                if i < fewer.len() {
                    assert(fewer[i] == x);
                }
            }
        }
    }
}

/// What a pass of the raster router begins with.
pub struct PassPlan {
    /// The nets to route, in order.
    pub to_retry: Vec<NetId>,
    /// How many nets keep their routing though they share wires or lack sinks.
    pub sticky_skipped: usize,
    /// How many nets were taken apart.
    pub bumped: usize,
}

/// The nets with a wire that is counted more than once, each once.
pub open spec fn lists_touching(design: Design, usage: Map<WireId, u32>, list: Seq<NetId>) -> bool {
    &&& list.no_duplicates()
    &&& forall|n: NetId| #[trigger] list.contains(n) <==> design.valid_net(n) && touches(design, usage, n)
}

/// How many of the first `n` nets have some routing but not all.
pub open spec fn count_partial(ctx: Context, n: int) -> nat
    decreases n,
{
    if n <= 0 {
        0
    } else {
        count_partial(ctx, n - 1) + (if partial_net(ctx, n - 1) {
            1nat
        } else {
            0nat
        })
    }
}

/// The nets with some routing but not all, among the first `n`.
pub open spec fn partial_nets(ctx: Context, n: int) -> Set<NetId> {
    Set::new(|x: NetId| x.0 < n && partial_net(ctx, x.0 as int))
}

/// The flags of the nets to route: those that were taken apart, and those without routing.
pub open spec fn retry_flags(ctx: Context, apart: Seq<NetId>, flags: Seq<bool>) -> bool {
    &&& flags.len() == ctx.design.nets@.len()
    &&& forall|i: int|
        0 <= i < flags.len() ==> #[trigger] flags[i] == (apart.contains(NetId(i as u32)) || unrouted_net(
            ctx.design,
            i,
        ))
}

/// What the decision before a pass does.
pub open spec fn pass_chosen(
    old_ctx: Context,
    old_state: NegotiationState,
    list: Seq<NetId>,
    flags: Seq<bool>,
    r: PassPlan,
    new: Context,
    new_state: NegotiationState,
) -> bool {
    let loose = loose_upto(old_state, list, list.len() as int);
    let n = loose.len() as int;
    let total = old_ctx.design.nets@.len() as int;
    &&& lists_touching(old_ctx.design, old_state.wire_usage@, list)
    &&& taken_apart(old_ctx, loose, n, new)
    &&& new_state.cfg == old_state.cfg
    &&& new_state.wire_usage@ == fewer_upto(old_state.wire_usage@, old_ctx.design, loose, n)
    &&& new_state.wire_owner@ == given_up_upto(
        old_state.wire_owner@,
        old_state.wire_usage@,
        old_ctx.design,
        loose,
        n,
    )
    &&& new_state.rip_up_count@ == bumped_upto(old_state.rip_up_count@, loose, n)
    &&& new_state.ever_seen_partial@.dom() == old_state.ever_seen_partial@.dom().union(
        partial_nets(new, total),
    )
    &&& r.bumped == n
    &&& r.sticky_skipped == clip((list.len() - n + count_partial(new, total)) as nat)
    &&& retry_flags(new, loose, flags)
    &&& r.to_retry@ == flagged_upto(flags, total)
}

/// Decides what a pass after the first begins with: nets that share wires are taken apart, unless
/// that was done too often; they are routed again, and so are nets without any routing. Nets with a
/// part of their routing keep it.
#[verifier::rlimit(80)]
#[verifier::spinoff_prover]
pub fn choose_nets(ctx: &mut Context, state: &mut NegotiationState) -> (r: PassPlan)
    requires
        old(ctx).wf(),
    ensures
        final(ctx).wf(),
        final(ctx).same_base(*old(ctx)),
        final(ctx).design.nets@.len() == old(ctx).design.nets@.len(),
        exists|list: Seq<NetId>, flags: Seq<bool>| #[trigger]
            pass_chosen(*old(ctx), *old(state), list, flags, r, *final(ctx), *final(state)),
        forall|i: int| 0 <= i < r.to_retry@.len() ==> final(ctx).design.valid_net(#[trigger] r.to_retry@[i]),
{
    let ghost start = *ctx;
    let ghost start_state = *state;
    let total: usize = ctx.design.nets.len();
    let list = state.find_congested_nets(&ctx.design);
    let mut loose: Vec<NetId> = Vec::new();
    for i in 0..list.len()
        invariant
            *state == start_state,
            list@.no_duplicates(),
            lists_touching(start.design, start_state.wire_usage@, list@),
            loose@ == loose_upto(start_state, list@, i as int),
            forall|j: int| 0 <= j < loose@.len() ==> start.design.valid_net(#[trigger] loose@[j]),
    {
        let net: NetId = list[i];
        assert(list@.contains(net));
        if !state.is_sticky(net) {
            loose.push(net);
        }
    }
    let count: usize = loose.len();
    proof {
        lemma_loose(start_state, list@, list@.len() as int, NetId(0));
    }
    for i in 0..count
        invariant
            *ctx == start,
            count == loose@.len(),
            forall|j: int| 0 <= j < loose@.len() ==> start.design.valid_net(#[trigger] loose@[j]),
            state.cfg == start_state.cfg,
            state.ever_seen_partial == start_state.ever_seen_partial,
            state.wire_usage@ == fewer_upto(
                start_state.wire_usage@,
                start.design,
                loose@,
                i as int,
            ),
            state.wire_owner@ == given_up_upto(
                start_state.wire_owner@,
                start_state.wire_usage@,
                start.design,
                loose@,
                i as int,
            ),
            state.rip_up_count@ == bumped_upto(start_state.rip_up_count@, loose@, i as int),
    {
        let net: NetId = loose[i];
        assert(start.design.valid_net(loose@[i as int]));
        state.remove_net_usage(&ctx.design, net);
        state.bump_rip_up(net);
    }
    take_apart(ctx, &loose);
    let mut flags: Vec<bool> = Vec::new();
    let mut partial: usize = 0;
    for i in 0..total
        invariant
            ctx.wf(),
            total == ctx.design.nets@.len(),
            flags@.len() == i,
            forall|j: int| 0 <= j < i ==> #[trigger] flags@[j] == unrouted_net(ctx.design, j),
            partial <= i,
            partial == count_partial(*ctx, i as int),
            state.cfg == start_state.cfg,
            state.wire_usage@ == fewer_upto(
                start_state.wire_usage@,
                start.design,
                loose@,
                count as int,
            ),
            state.wire_owner@ == given_up_upto(
                start_state.wire_owner@,
                start_state.wire_usage@,
                start.design,
                loose@,
                count as int,
            ),
            state.rip_up_count@ == bumped_upto(start_state.rip_up_count@, loose@, count as int),
            state.ever_seen_partial@.dom() == start_state.ever_seen_partial@.dom().union(
                partial_nets(*ctx, i as int),
            ),
    {
        let net: NetId = NetId(i as u32);
        let n = ctx.net(net);
        let ghost before = state.ever_seen_partial@.dom();
        let mut flag: bool = false;
        let mut note: bool = false;
        if n.alive && n.has_driver() && n.num_users() > 0 {
            let empty: bool = n.wires.len() == 0;
            proof {
                if n.wires@.dom().len() == 0 {
                    assert(n.wires@.dom() =~= Set::<WireId>::empty());
                }
            }
            if empty {
                flag = true;
            } else if !net_fully_routed(ctx, net) {
                note = true;
            }
        }
        assert(flag == unrouted_net(ctx.design, i as int));
        assert(note == partial_net(*ctx, i as int));
        flags.push(flag);
        if note {
            state.note_partial(net);
            partial = partial + 1;
        }
        proof {
            assert forall|x: NetId| #[trigger] partial_nets(*ctx, i + 1).contains(x) <==> partial_nets(
                *ctx,
                i as int,
            ).contains(x) || (note && x == net) by {
                if x.0 == i {
                    assert(x == net);
                }
            }
            assert(state.ever_seen_partial@.dom() =~= start_state.ever_seen_partial@.dom().union(
                partial_nets(*ctx, i + 1),
            ));
        }
    }
    for i in 0..count
        invariant
            count == loose@.len(),
            total == flags@.len(),
            total == start.design.nets@.len(),
            total == ctx.design.nets@.len(),
            total < u32::MAX,
            forall|j: int| 0 <= j < loose@.len() ==> start.design.valid_net(#[trigger] loose@[j]),
            forall|j: int|
                0 <= j < total ==> #[trigger] flags@[j] == (loose@.take(i as int).contains(NetId(j as u32))
                    || unrouted_net(ctx.design, j)),
    {
        let k: usize = loose[i].0 as usize;
        assert(start.design.valid_net(loose@[i as int]));
        flags.set(k, true);
        proof {
            crate::router::plan::lemma_take_more(loose@, i as int);
            assert forall|j: int| 0 <= j < total implies #[trigger] flags@[j] == (loose@.take(
                i + 1,
            ).contains(NetId(j as u32)) || unrouted_net(ctx.design, j)) by {
                assert(loose@.take(i + 1).contains(NetId(j as u32)) <==> loose@.take(i as int).contains(
                    NetId(j as u32),
                ) || NetId(j as u32) == loose@[i as int]);
            }
        }
    }
    assert(loose@.take(count as int) =~= loose@);
    let mut to_retry: Vec<NetId> = Vec::new();
    for i in 0..total
        invariant
            total == flags@.len(),
            total == ctx.design.nets@.len(),
            total < u32::MAX,
            to_retry@ == flagged_upto(flags@, i as int),
            forall|j: int| 0 <= j < to_retry@.len() ==> ctx.design.valid_net(#[trigger] to_retry@[j]),
    {
        if flags[i] {
            to_retry.push(NetId(i as u32));
        }
    }
    let kept: usize = list.len() - count;
    let skipped: usize = kept.saturating_add(partial);
    let r = PassPlan { to_retry, sticky_skipped: skipped, bumped: count };
    proof {
        lemma_few_listed(start.design, list@);
        assert(pass_chosen(start, start_state, list@, flags@, r, *ctx, *state));
    }
    r
}

/// A list of nets without repetition is no longer than the list of all nets.
proof fn lemma_few_listed(design: Design, list: Seq<NetId>)
    requires
        list.no_duplicates(),
        forall|n: NetId| #[trigger] list.contains(n) ==> design.valid_net(n),
        design.nets@.len() < u32::MAX,
    ensures
        list.len() <= design.nets@.len() < u32::MAX,
{
    let ints = list.map_values(|n: NetId| n.0 as int);
    assert(ints.no_duplicates()) by {
        assert forall|i: int, j: int| 0 <= i < ints.len() && 0 <= j < ints.len() && i != j implies ints[i]
            != ints[j] by {
            assert(list[i] != list[j]);
        }
    }
    ints.unique_seq_to_set();
    let range = vstd::set_lib::set_int_range(0, design.nets@.len() as int);
    vstd::set_lib::lemma_int_range(0, design.nets@.len() as int);
    assert(ints.to_set().subset_of(range)) by {
        assert forall|x: int| ints.to_set().contains(x) implies range.contains(x) by {
            let i = choose|i: int| 0 <= i < ints.len() && ints[i] == x;
            assert(list.contains(list[i]));
        }
    }
    vstd::set_lib::lemma_len_subset(ints.to_set(), range);
}

/// The key by which nets are put in order: those with more users come first.
pub open spec fn fanout_key(design: Design, net: NetId) -> int {
    let users = design.net_of(net).users@.len() as int;
    if users > i64::MAX {
        -i64::MAX as int
    } else {
        -users
    }
}

/// A list is put in order by keys; items with the same key keep their order.
pub open spec fn ordered_by(keys: Seq<i64>, nets: Seq<NetId>, order: Seq<usize>, r: Seq<NetId>) -> bool {
    &&& orders(keys, 0, nets.len() as int, order)
    &&& r.len() == nets.len()
    &&& forall|i: int| 0 <= i < r.len() ==> #[trigger] r[i] == nets[order[i] as int]
}

fn order_by_keys(nets: &Vec<NetId>, keys: &Vec<i64>) -> (r: Vec<NetId>)
    requires
        keys@.len() == nets@.len(),
    ensures
        exists|order: Seq<usize>| #[trigger] ordered_by(keys@, nets@, order, r@),
{
    let order = stable_order(keys);
    let mut out: Vec<NetId> = Vec::new();
    for i in 0..order.len()
        invariant
            orders(keys@, 0, nets@.len() as int, order@),
            keys@.len() == nets@.len(),
            out@.len() == i,
            forall|j: int| 0 <= j < i ==> #[trigger] out@[j] == nets@[order@[j] as int],
    {
        assert(0 <= order@[i as int] < nets@.len());
        out.push(nets[order[i]]);
    }
    assert(ordered_by(keys@, nets@, order@, out@));
    out
}

/// The nets are in order of their users, most first; nets with as many users keep their order.
pub open spec fn by_fanout(design: Design, nets: Seq<NetId>, r: Seq<NetId>) -> bool {
    exists|keys: Seq<i64>, order: Seq<usize>|
        {
            &&& keys.len() == nets.len()
            &&& forall|i: int| 0 <= i < keys.len() ==> #[trigger] keys[i] == fanout_key(design, nets[i])
            &&& #[trigger] ordered_by(keys, nets, order, r)
        }
}

/// Puts nets in order of their users, most first.
pub fn order_by_fanout(ctx: &Context, nets: &Vec<NetId>) -> (r: Vec<NetId>)
    requires
        forall|i: int| 0 <= i < nets@.len() ==> ctx.design.valid_net(#[trigger] nets@[i]),
    ensures
        by_fanout(ctx.design, nets@, r@),
        forall|i: int| 0 <= i < r@.len() ==> ctx.design.valid_net(#[trigger] r@[i]),
{
    let mut keys: Vec<i64> = Vec::new();
    for i in 0..nets.len()
        invariant
            forall|i: int| 0 <= i < nets@.len() ==> ctx.design.valid_net(#[trigger] nets@[i]),
            keys@.len() == i,
            forall|j: int| 0 <= j < i ==> #[trigger] keys@[j] == fanout_key(ctx.design, nets@[j]),
    {
        assert(ctx.design.valid_net(nets@[i as int]));
        let users: usize = ctx.net(nets[i]).num_users();
        let key: i64 = if users as u64 > i64::MAX as u64 {
            -i64::MAX
        } else {
            -(users as i64)
        };
        keys.push(key);
    }
    let r = order_by_keys(nets, &keys);
    proof {
        let order = choose|order: Seq<usize>| #[trigger] ordered_by(keys@, nets@, order, r@);
        assert forall|i: int| 0 <= i < r@.len() implies ctx.design.valid_net(#[trigger] r@[i]) by {
            assert(0 <= order[i] < nets@.len());
            assert(ctx.design.valid_net(nets@[order[i] as int]));
        }
    }
    r
}

/// The nets of a list with many users, or those with few, among the first `n`.
pub open spec fn fanout_part(design: Design, nets: Seq<NetId>, high: bool, n: int) -> Seq<NetId>
    decreases n,
{
    if n <= 0 {
        Seq::empty()
    } else if (design.net_of(nets[n - 1]).users@.len() >= HIGH_FANOUT) == high {
        fanout_part(design, nets, high, n - 1).push(nets[n - 1])
    } else {
        fanout_part(design, nets, high, n - 1)
    }
}

/// Parts a list into the nets with many users and those with few.
pub fn split_by_fanout(ctx: &Context, nets: &Vec<NetId>) -> (r: (Vec<NetId>, Vec<NetId>))
    requires
        forall|i: int| 0 <= i < nets@.len() ==> ctx.design.valid_net(#[trigger] nets@[i]),
    ensures
        r.0@ == fanout_part(ctx.design, nets@, true, nets@.len() as int),
        r.1@ == fanout_part(ctx.design, nets@, false, nets@.len() as int),
        forall|i: int| 0 <= i < r.0@.len() ==> ctx.design.valid_net(#[trigger] r.0@[i]),
        forall|i: int| 0 <= i < r.1@.len() ==> ctx.design.valid_net(#[trigger] r.1@[i]),
{
    let mut high: Vec<NetId> = Vec::new();
    let mut low: Vec<NetId> = Vec::new();
    for i in 0..nets.len()
        invariant
            forall|i: int| 0 <= i < nets@.len() ==> ctx.design.valid_net(#[trigger] nets@[i]),
            high@ == fanout_part(ctx.design, nets@, true, i as int),
            low@ == fanout_part(ctx.design, nets@, false, i as int),
            forall|j: int| 0 <= j < high@.len() ==> ctx.design.valid_net(#[trigger] high@[j]),
            forall|j: int| 0 <= j < low@.len() ==> ctx.design.valid_net(#[trigger] low@[j]),
    {
        let net: NetId = nets[i];
        assert(ctx.design.valid_net(nets@[i as int]));
        if ctx.net(net).num_users() >= HIGH_FANOUT {
            high.push(net);
        } else {
            low.push(net);
        }
    }
    (high, low)
}

/// The nets among the first `n` that take part in routing and lack a sink.
pub open spec fn unfinished_upto(ctx: Context, n: int) -> Seq<NetId>
    decreases n,
{
    if n <= 0 {
        Seq::empty()
    } else if ctx.design.nets@[n - 1].routable() && !fully_routed(ctx, NetId((n - 1) as u32)) {
        unfinished_upto(ctx, n - 1).push(NetId((n - 1) as u32))
    } else {
        unfinished_upto(ctx, n - 1)
    }
}

/// The nets that take part in routing and lack a sink, in order.
pub fn unfinished_nets(ctx: &Context) -> (r: Vec<NetId>)
    requires
        ctx.wf(),
    ensures
        r@ == unfinished_upto(*ctx, ctx.design.nets@.len() as int),
        forall|i: int| 0 <= i < r@.len() ==> ctx.design.valid_net(#[trigger] r@[i]),
{
    let mut out: Vec<NetId> = Vec::new();
    for i in 0..ctx.design.nets.len()
        invariant
            ctx.wf(),
            out@ == unfinished_upto(*ctx, i as int),
            forall|j: int| 0 <= j < out@.len() ==> ctx.design.valid_net(#[trigger] out@[j]),
    {
        let net: NetId = NetId(i as u32);
        let n = ctx.net(net);
        if n.alive && n.has_driver() && n.num_users() > 0 {
            if !net_fully_routed(ctx, net) {
                out.push(net);
            }
        }
    }
    out
}

/// The wire that a net starts from, if its driver has one.
pub open spec fn source_of(ctx: Context, net: NetId) -> Option<WireId> {
    let d = ctx.design.net_of(net).driver;
    if d.connected() {
        ctx.wire_of_pin(d)
    } else {
        None
    }
}

/// The wire that a net starts from, if its driver has one.
pub fn source_wire(ctx: &Context, net: NetId) -> (r: Option<WireId>)
    requires
        ctx.wf(),
        ctx.design.valid_net(net),
    ensures
        r == source_of(*ctx, net),
        r is Some ==> ctx.chipdb.valid_wire(r->0),
{
    match resolve_source_wire(ctx, net) {
        Ok(w) => w,
        Err(_) => None,
    }
}

/// The rank of a net in the clean-up: nets with a constant first, then those on the global clock
/// network, then all others.
pub open spec fn rank_of(ctx: Context, net: NetId) -> int {
    match source_of(ctx, net) {
        Some(w) => if ctx.chipdb.wire(w).const_value != 0 {
            0
        } else if global_clock_type(ctx.chipdb.wire(w).wire_type@) {
            1
        } else {
            2
        },
        None => 2,
    }
}

/// The nets are in order of their rank; nets of one rank keep their order.
pub open spec fn by_rank(ctx: Context, nets: Seq<NetId>, r: Seq<NetId>) -> bool {
    exists|keys: Seq<i64>, order: Seq<usize>|
        {
            &&& keys.len() == nets.len()
            &&& forall|i: int| 0 <= i < keys.len() ==> #[trigger] keys[i] == rank_of(ctx, nets[i])
            &&& #[trigger] ordered_by(keys, nets, order, r)
        }
}

/// Puts nets in the order in which they are cleaned up.
pub fn order_by_rank(ctx: &Context, nets: &Vec<NetId>) -> (r: Vec<NetId>)
    requires
        ctx.wf(),
        forall|i: int| 0 <= i < nets@.len() ==> ctx.design.valid_net(#[trigger] nets@[i]),
    ensures
        by_rank(*ctx, nets@, r@),
        forall|i: int| 0 <= i < r@.len() ==> ctx.design.valid_net(#[trigger] r@[i]),
{
    let mut keys: Vec<i64> = Vec::new();
    for i in 0..nets.len()
        invariant
            ctx.wf(),
            forall|i: int| 0 <= i < nets@.len() ==> ctx.design.valid_net(#[trigger] nets@[i]),
            keys@.len() == i,
            forall|j: int| 0 <= j < i ==> #[trigger] keys@[j] == rank_of(*ctx, nets@[j]),
    {
        assert(ctx.design.valid_net(nets@[i as int]));
        let key: i64 = match source_wire(ctx, nets[i]) {
            Some(w) => if source_wire_const_value(ctx, w) != 0 {
                0
            } else if is_global_clock_wire(ctx, w) {
                1
            } else {
                2
            },
            None => 2,
        };
        keys.push(key);
    }
    let r = order_by_keys(nets, &keys);
    proof {
        let order = choose|order: Seq<usize>| #[trigger] ordered_by(keys@, nets@, order, r@);
        assert forall|i: int| 0 <= i < r@.len() implies ctx.design.valid_net(#[trigger] r@[i]) by {
            assert(0 <= order[i] < nets@.len());
            assert(ctx.design.valid_net(nets@[order[i] as int]));
        }
    }
    r
}

/// Holds of the wires of the global clock network.
pub open spec fn on_clock_network(chip: crate::chipdb::ChipDb) -> spec_fn(WireId) -> bool {
    |w: WireId| global_clock_type(chip.wire(w).wire_type@)
}

/// Whether some net of a list starts on the global clock network.
pub open spec fn has_clock(ctx: Context, nets: Seq<NetId>) -> bool {
    exists|i: int|
        0 <= i < nets.len() && source_of(ctx, #[trigger] nets[i]) is Some && global_clock_type(
            ctx.chipdb.wire(source_of(ctx, nets[i])->0).wire_type@,
        )
}

/// All wires of the global clock network, if some net of a list starts there; else none.
pub fn clock_backbone(ctx: &Context, nets: &Vec<NetId>) -> (r: Vec<WireId>)
    requires
        ctx.wf(),
        forall|i: int| 0 <= i < nets@.len() ==> ctx.design.valid_net(#[trigger] nets@[i]),
    ensures
        r@ == (if has_clock(*ctx, nets@) {
            ctx.chipdb.all_wires().filter(on_clock_network(ctx.chipdb))
        } else {
            Seq::empty()
        }),
        forall|i: int| 0 <= i < r@.len() ==> ctx.chipdb.valid_wire(#[trigger] r@[i]),
{
    let mut needed: bool = false;
    for i in 0..nets.len()
        invariant
            ctx.wf(),
            forall|i: int| 0 <= i < nets@.len() ==> ctx.design.valid_net(#[trigger] nets@[i]),
            needed == exists|j: int|
                0 <= j < i && source_of(*ctx, #[trigger] nets@[j]) is Some && global_clock_type(
                    ctx.chipdb.wire(source_of(*ctx, nets@[j])->0).wire_type@,
                ),
    {
        assert(ctx.design.valid_net(nets@[i as int]));
        let ghost before = needed;
        if let Some(w) = source_wire(ctx, nets[i]) {
            if is_global_clock_wire(ctx, w) {
                assert(source_of(*ctx, nets@[i as int]) is Some);
                needed = true;
            }
        }
    }
    let mut out: Vec<WireId> = Vec::new();
    if !needed {
        assert(!has_clock(*ctx, nets@));
        return out;
    }
    let all = ctx.chipdb.wires();
    let ghost pred = on_clock_network(ctx.chipdb);
    assert(all@.take(0).filter(pred) =~= Seq::<WireId>::empty()) by {
        reveal(Seq::filter);
    }
    for i in 0..all.len()
        invariant
            ctx.wf(),
            all@ == ctx.chipdb.all_wires(),
            pred == on_clock_network(ctx.chipdb),
            out@ == all@.take(i as int).filter(pred),
            forall|j: int| 0 <= j < out@.len() ==> ctx.chipdb.valid_wire(#[trigger] out@[j]),
    {
        let w: WireId = all[i];
        proof {
            assert(all@.contains(w));
            ctx.chipdb.lemma_wires_upto(ctx.chipdb.tiles@.len() as int, w);
            assert(all@.take(i + 1).drop_last() =~= all@.take(i as int));
            reveal(Seq::filter);
        }
        if is_global_clock_wire(ctx, w) {
            out.push(w);
        }
    }
    assert(all@.take(all@.len() as int) =~= all@);
    out
}

/// How the raster router goes on after a pass.
#[derive(Clone, Copy, PartialEq, Eq, Debug, Structural)]
pub enum PassEnd {
    /// All nets are routed and nothing is crowded.
    Converged,
    /// All nets are routed; that is to be checked.
    Validate,
    /// Nets are left.
    GoOn,
}

/// How to go on after the nets of a pass were routed: nothing is left to do if no tile and no wire is
/// used twice and no net failed.
pub fn end_of_routing(congested_tiles: usize, congested_wires: usize, failed: usize) -> (r: PassEnd)
    ensures
        r == (if congested_tiles == 0 && congested_wires == 0 && failed == 0 {
            PassEnd::Converged
        } else {
            PassEnd::GoOn
        }),
{
    if congested_tiles == 0 && congested_wires == 0 && failed == 0 {
        PassEnd::Converged
    } else {
        PassEnd::GoOn
    }
}

/// How to go on after the clean-up: the routing is checked if no net is left.
pub fn end_of_cleanup(failed: usize) -> (r: PassEnd)
    ensures
        r == (if failed == 0 {
            PassEnd::Validate
        } else {
            PassEnd::GoOn
        }),
{
    if failed == 0 {
        PassEnd::Validate
    } else {
        PassEnd::GoOn
    }
}

/// Whether a pass has nothing to do: no net is to be routed, and none was passed over.
pub fn nothing_to_route(plan: &PassPlan) -> (r: bool)
    ensures
        r == (plan.to_retry@.len() == 0 && plan.sticky_skipped == 0),
{
    plan.to_retry.len() == 0 && plan.sticky_skipped == 0
}

/// The router that routes along lines and cleans up.
pub struct RasterRouter;

impl RasterRouter {
    /// The error for passes that are used up: how many tiles are still crowded.
    pub fn gave_up(cfg: &RasterRouterCfg, usage: &TileUsage) -> (r: RouterError)
        ensures
            r is Congestion,
            r->Congestion_0 == cfg.max_iterations,
            r->Congestion_1 == crowded(usage.counts@, usage.counts@.len() as int),
    {
        RouterError::Congestion(cfg.max_iterations, usage.num_congested_tiles())
    }
}

} // verus!
