//! Which nets the lists of the routers hold, and what the counts over them come to.

use crate::chipdb::{ChipDb, PipId, WireId};
use crate::context::Context;
use crate::netlist::{Design, NetId};
use crate::router::common::{firsts_upto, routable_upto, SinkRoute};
use crate::router::gate::{count_partial, fanout_part, flagged_upto, loose_upto, unfinished_upto};
use crate::router::negotiation::{last_user, NegotiationState};
use crate::router::passes::load_at;
use crate::router::plan_laws::{pins_have_the_wires_of_their_sites, user_wired};
use crate::router::raster::{counted_upto, crowded, pips_upto};
use crate::router::ripup::fully_routed;
use crate::router::rounds::{all_sharing, raised, sharing};
use crate::router::router2::{claimed_upto, fewer_upto};
use crate::router::scoped::bumped_upto;
use crate::router::usage::{congested, one_fewer, one_more, touching, users_of};
use crate::router::validate::{first_in_tree, in_tree};
use crate::timing::delay::DelayT;
use vstd::prelude::*;

verus! {

/// The first `n` nets.
pub open spec fn net_ids(n: nat) -> Seq<NetId> {
    Seq::new(n, |i: int| NetId(i as u32))
}

/// What is picked from a list that is one longer.
pub proof fn lemma_picked<T>(s: Seq<T>, k: int, p: spec_fn(T) -> bool)
    requires
        0 <= k <= s.len(),
    ensures
        k > 0 ==> s.take(k).filter(p) == (if p(s[k - 1]) {
            s.take(k - 1).filter(p).push(s[k - 1])
        } else {
            s.take(k - 1).filter(p)
        }),
        k == 0 ==> s.take(k).filter(p) == Seq::<T>::empty(),
{
    reveal(Seq::filter);
    if k > 0 {
        assert(s.take(k).drop_last() =~= s.take(k - 1));
    }
}

/// What is picked from one net more.
pub proof fn lemma_picked_net(n: nat, p: spec_fn(NetId) -> bool)
    requires
        n <= u32::MAX,
    ensures
        n > 0 ==> net_ids(n).filter(p) == (if p(NetId((n - 1) as u32)) {
            net_ids((n - 1) as nat).filter(p).push(NetId((n - 1) as u32))
        } else {
            net_ids((n - 1) as nat).filter(p)
        }),
        n == 0 ==> net_ids(n).filter(p) == Seq::<NetId>::empty(),
{
    reveal(Seq::filter);
    if n > 0 {
        assert(net_ids(n).drop_last() =~= net_ids((n - 1) as nat));
    }
}

/// Holds of a net that is alive and has a driver and users.
pub open spec fn takes_part(design: Design) -> spec_fn(NetId) -> bool {
    |id: NetId|
        design.nets@[id.0 as int].alive && design.nets@[id.0 as int].driver.cell.0 != u32::MAX
            && design.nets@[id.0 as int].users@.len() > 0
}

/// The nets that are routed are all those that are alive and have a driver and users, in order.
pub proof fn every_net_that_takes_part_is_listed(design: Design, n: nat)
    requires
        n <= design.nets@.len() <= u32::MAX,
    ensures
        routable_upto(design, n as int) == net_ids(n).filter(takes_part(design)),
    decreases n,
{
    lemma_picked_net(n, takes_part(design));
    if n > 0 {
        every_net_that_takes_part_is_listed(design, (n - 1) as nat);
    }
}

/// A user of the net has a wire that no wire of the net's tree is joined to.
pub open spec fn lacks_user(ctx: Context, id: NetId, j: int, w: WireId) -> bool {
    &&& user_wired(ctx, id, j, w)
    &&& forall|x: WireId|
        ctx.chipdb.joined(w, x) && ctx.chipdb.valid_wire(x) ==> !(
        #[trigger] ctx.design.nets@[id.0 as int].wires@.contains_key(x))
}

/// Holds of a net with a user that is not reached.
pub open spec fn lacks_some_user(ctx: Context) -> spec_fn(NetId) -> bool {
    |id: NetId| exists|j: int, w: WireId| lacks_user(ctx, id, j, w)
}

/// Some wire of a list is found in a tree exactly if the tree has one of them.
pub proof fn lemma_in_tree(
    ctx: Context,
    tree: Map<WireId, crate::netlist::PipMap>,
    wires: Seq<WireId>,
)
    ensures
        first_in_tree(tree, wires) is Some <==> exists|i: int|
            0 <= i < wires.len() && tree.contains_key(#[trigger] wires[i]),
    decreases wires.len(),
{
    if wires.len() > 0 {
        let rest = wires.skip(1);
        lemma_in_tree(ctx, tree, rest);
        if tree.contains_key(wires[0]) {
        } else {
            if first_in_tree(tree, rest) is Some {
                let i = choose|i: int| 0 <= i < rest.len() && tree.contains_key(#[trigger] rest[i]);
                assert(wires[i + 1] == rest[i]);
            }
            if exists|i: int| 0 <= i < wires.len() && tree.contains_key(#[trigger] wires[i]) {
                let i = choose|i: int| 0 <= i < wires.len() && tree.contains_key(#[trigger] wires[i]);
                assert(rest[i - 1] == wires[i]);
            }
        }
    }
}

/// A net is fully routed exactly if none of its users with a wire lacks a joined wire in its tree.
pub proof fn fully_routed_nets_lack_no_user(ctx: Context, id: NetId)
    requires
        ctx.wf(),
        ctx.design.valid_net(id),
    ensures
        fully_routed(ctx, id) <==> !lacks_some_user(ctx)(id),
{
    let n = ctx.design.nets@[id.0 as int];
    assert(ctx.design.net_ok(n));
    if fully_routed(ctx, id) {
        assert forall|j: int, w: WireId| !lacks_user(ctx, id, j, w) by {
            if lacks_user(ctx, id, j, w) {
                let u = n.users@[j];
                assert(ctx.design.pin_ok(n.users@[j]));
                pins_have_the_wires_of_their_sites(ctx, u, w);
                ctx.lemma_wire_of_pin(u);
                assert(in_tree(ctx, n.wires@, w));
                ctx.chipdb.lemma_peers(w);
                lemma_in_tree(ctx, n.wires@, ctx.chipdb.peers(w));
                if n.wires@.contains_key(w) {
                    assert(ctx.chipdb.joined(w, w));
                } else {
                    let i = choose|i: int|
                        0 <= i < ctx.chipdb.peers(w).len() && n.wires@.contains_key(
                            #[trigger] ctx.chipdb.peers(w)[i],
                        );
                    assert(ctx.chipdb.joined(w, ctx.chipdb.peers(w)[i]));
                }
            }
        }
    } else {
        let j = choose|i: int|
            0 <= i < n.users@.len() && (#[trigger] n.users@[i]).connected() && ctx.wire_of_pin(n.users@[i]) is Some
                && !in_tree(ctx, n.wires@, ctx.wire_of_pin(n.users@[i])->0);
        let u = n.users@[j];
        let w = ctx.wire_of_pin(u)->0;
        assert(ctx.design.pin_ok(n.users@[j]));
        pins_have_the_wires_of_their_sites(ctx, u, w);
        ctx.lemma_wire_of_pin(u);
        ctx.chipdb.lemma_peers(w);
        lemma_in_tree(ctx, n.wires@, ctx.chipdb.peers(w));
        assert forall|x: WireId|
            ctx.chipdb.joined(w, x) && ctx.chipdb.valid_wire(x) implies !(#[trigger] n.wires@.contains_key(x)) by {
            if x != w {
                assert(ctx.chipdb.peers(w).contains(x));
            }
        }
        assert(lacks_user(ctx, id, j, w));
    }
}

/// Holds of a net that takes part and lacks a user.
pub open spec fn open_net(ctx: Context) -> spec_fn(NetId) -> bool {
    |id: NetId| takes_part(ctx.design)(id) && lacks_some_user(ctx)(id)
}

/// Holds of such a net that has some routing.
pub open spec fn open_net_with_wires(ctx: Context) -> spec_fn(NetId) -> bool {
    |id: NetId|
        takes_part(ctx.design)(id) && lacks_some_user(ctx)(id) && exists|w: WireId| #[trigger]
            ctx.design.nets@[id.0 as int].wires@.contains_key(w)
}

/// The nets that are not finished are all those that take part and lack a user, in order; and the
/// number of partial ones is that of those among them with some routing.
pub proof fn every_open_net_is_listed(ctx: Context, n: nat)
    requires
        ctx.wf(),
        n <= ctx.design.nets@.len(),
    ensures
        unfinished_upto(ctx, n as int) == net_ids(n).filter(open_net(ctx)),
        count_partial(ctx, n as int) == net_ids(n).filter(open_net_with_wires(ctx)).len(),
    decreases n,
{
    lemma_picked_net(n, open_net(ctx));
    lemma_picked_net(n, open_net_with_wires(ctx));
    if n > 0 {
        every_open_net_is_listed(ctx, (n - 1) as nat);
        let id = NetId((n - 1) as u32);
        fully_routed_nets_lack_no_user(ctx, id);
        let tree = ctx.design.nets@[n - 1].wires@;
        if exists|w: WireId| #[trigger] tree.contains_key(w) {
            let w = choose|w: WireId| #[trigger] tree.contains_key(w);
            assert(tree.dom().contains(w));
        } else {
            assert(tree.dom() =~= Set::<WireId>::empty());
        }
    }
}

/// Each net of a list is kept once, where it stands first: a net is left out exactly if it stood
/// before.
pub proof fn nets_are_kept_once(nets: Seq<NetId>, n: int)
    requires
        0 <= n <= nets.len(),
    ensures
        firsts_upto(nets, n).no_duplicates(),
        forall|x: NetId| #[trigger] firsts_upto(nets, n).contains(x) <==> nets.take(n).contains(x),
        n > 0 && nets.take(n - 1).contains(nets[n - 1]) ==> firsts_upto(nets, n) == firsts_upto(nets, n - 1),
        n > 0 && !nets.take(n - 1).contains(nets[n - 1]) ==> firsts_upto(nets, n) == firsts_upto(nets, n - 1).push(
            nets[n - 1],
        ),
    decreases n,
{
    if n > 0 {
        nets_are_kept_once(nets, n - 1);
        let old_list = firsts_upto(nets, n - 1);
        let list = firsts_upto(nets, n);
        let y = nets[n - 1];
        assert(nets.take(n) =~= nets.take(n - 1).push(y));
        assert forall|x: NetId| #[trigger] list.contains(x) <==> nets.take(n).contains(x) by {
            assert(old_list.contains(x) <==> nets.take(n - 1).contains(x));
            if nets.take(n).contains(x) {
                let i = choose|i: int| 0 <= i < nets.take(n).len() && nets.take(n)[i] == x;
                if i < n - 1 {
                    assert(nets.take(n - 1)[i] == x);
                    let j = choose|j: int| 0 <= j < old_list.len() && old_list[j] == x;
                    assert(list[j] == x);
                } else if old_list.contains(y) {
                    assert(list == old_list);
                } else {
                    assert(list[old_list.len() as int] == y);
                }
            }
            if list.contains(x) {
                let j = choose|j: int| 0 <= j < list.len() && list[j] == x;
                if j < old_list.len() {
                    assert(old_list[j] == x);
                    let part = nets.take(n - 1);
                    let i = choose|i: int| 0 <= i < part.len() && part[i] == x;
                    assert(nets.take(n)[i] == x);
                } else {
                    assert(nets.take(n)[n - 1] == x);
                }
            }
        }
        assert(old_list.contains(y) <==> nets.take(n - 1).contains(y));
    }
}

/// Holds of a net with at least twenty users, or of one with fewer.
pub open spec fn of_fanout(design: Design, high: bool) -> spec_fn(NetId) -> bool {
    |id: NetId| (design.nets@[id.0 as int].users@.len() >= 20) == high
}

/// A list is split into the nets with at least twenty users and the others, each part in order.
pub proof fn fanout_splits_a_list(design: Design, nets: Seq<NetId>, high: bool, n: int)
    requires
        0 <= n <= nets.len(),
    ensures
        fanout_part(design, nets, high, n) == nets.take(n).filter(of_fanout(design, high)),
    decreases n,
{
    lemma_picked(nets, n, of_fanout(design, high));
    if n > 0 {
        fanout_splits_a_list(design, nets, high, n - 1);
    }
}

/// Holds of a net that was taken apart less often than nets are.
pub open spec fn not_sticky(state: NegotiationState) -> spec_fn(NetId) -> bool {
    |id: NetId|
        if state.rip_up_count@.contains_key(id) {
            state.rip_up_count@[id] < state.cfg.sticky_ripup_threshold
        } else {
            0 < state.cfg.sticky_ripup_threshold
        }
}

/// The nets of a list that may be taken apart are all those that were not taken apart too often.
pub proof fn only_sticky_nets_are_kept(state: NegotiationState, nets: Seq<NetId>, n: int)
    requires
        0 <= n <= nets.len(),
    ensures
        loose_upto(state, nets, n) == nets.take(n).filter(not_sticky(state)),
    decreases n,
{
    lemma_picked(nets, n, not_sticky(state));
    if n > 0 {
        only_sticky_nets_are_kept(state, nets, n - 1);
    }
}

/// Holds of a net with a flag.
pub open spec fn has_flag(flags: Seq<bool>) -> spec_fn(NetId) -> bool {
    |id: NetId| flags[id.0 as int]
}

/// The nets with a flag are listed in order.
pub proof fn every_flagged_net_is_listed(flags: Seq<bool>, n: nat)
    requires
        n <= flags.len() <= u32::MAX,
    ensures
        flagged_upto(flags, n as int) == net_ids(n).filter(has_flag(flags)),
    decreases n,
{
    lemma_picked_net(n, has_flag(flags));
    if n > 0 {
        every_flagged_net_is_listed(flags, (n - 1) as nat);
    }
}

/// The net is alive and has the wire in its tree.
pub open spec fn net_has(design: Design, id: NetId, w: WireId) -> bool {
    id.0 < design.nets@.len() && design.nets@[id.0 as int].alive && design.nets@[id.0 as int].wires@.contains_key(w)
}

/// Holds of a net with a wire that another net of the list has too.
pub open spec fn meets_another(design: Design, nets: Seq<NetId>) -> spec_fn(NetId) -> bool {
    |id: NetId|
        exists|w: WireId, i: int|
            #![trigger net_has(design, id, w), nets[i]]
            0 <= i < nets.len() && nets[i] != id && net_has(design, id, w) && net_has(design, nets[i], w)
}

/// More than one net of a list uses a wire exactly if two different ones have it in their trees.
pub proof fn congestion_takes_two(design: Design, nets: Seq<NetId>, w: WireId)
    ensures
        congested(design, nets.to_set(), w) <==> exists|i: int, j: int|
            #![trigger nets[i], nets[j]]
            0 <= i < nets.len() && 0 <= j < nets.len() && nets[i] != nets[j] && net_has(design, nets[i], w)
                && net_has(design, nets[j], w),
{
    let users = users_of(design, nets.to_set(), w);
    vstd::seq_lib::seq_to_set_is_finite(nets);
    assert(users.subset_of(nets.to_set()));
    vstd::set_lib::lemma_set_subset_finite(nets.to_set(), users);
    if users.len() > 1 {
        let a = users.choose();
        let rest = users.remove(a);
        assert(rest.len() > 0);
        let b = rest.choose();
        assert(rest.contains(b));
        let i = choose|i: int| 0 <= i < nets.len() && nets[i] == a;
        let j = choose|j: int| 0 <= j < nets.len() && nets[j] == b;
        assert(nets[i] != nets[j]);
    }
    if exists|i: int, j: int|
        #![trigger nets[i], nets[j]]
        0 <= i < nets.len() && 0 <= j < nets.len() && nets[i] != nets[j] && net_has(design, nets[i], w) && net_has(
            design,
            nets[j],
            w,
        ) {
        let (i, j) = choose|i: int, j: int|
            #![trigger nets[i], nets[j]]
            0 <= i < nets.len() && 0 <= j < nets.len() && nets[i] != nets[j] && net_has(design, nets[i], w)
                && net_has(design, nets[j], w);
        assert(nets.to_set().contains(nets[i]) && nets.to_set().contains(nets[j]));
        assert(users.contains(nets[i]) && users.contains(nets[j]));
        let rest = users.remove(nets[i]);
        assert(rest.contains(nets[j]));
        assert(rest.len() > 0) by {
            if rest.len() == 0 {
                assert(rest =~= Set::<NetId>::empty());
            }
        }
    }
}

/// The nets of a list that share wires are all those with a wire that another net of the list has.
pub proof fn every_net_that_meets_another_is_listed(design: Design, nets: Seq<NetId>, n: int)
    requires
        0 <= n <= nets.len(),
    ensures
        sharing(design, nets, n) == nets.take(n).filter(meets_another(design, nets)),
        n == nets.len() ==> all_sharing(design, nets) == nets.filter(meets_another(design, nets)),
    decreases n,
{
    lemma_picked(nets, n, meets_another(design, nets));
    if n > 0 {
        every_net_that_meets_another_is_listed(design, nets, n - 1);
        let id = nets[n - 1];
        if crate::router::rounds::shares(design, nets, id) {
            let w = choose|w: WireId| #[trigger]
                crate::router::usage::uses(design, id, w) && congested(design, nets.to_set(), w);
            congestion_takes_two(design, nets, w);
            let (i, j) = choose|i: int, j: int|
                #![trigger nets[i], nets[j]]
                0 <= i < nets.len() && 0 <= j < nets.len() && nets[i] != nets[j] && net_has(design, nets[i], w)
                    && net_has(design, nets[j], w);
            assert(net_has(design, id, w));
            assert(nets[i] != id || nets[j] != id);
        }
        if meets_another(design, nets)(id) {
            let (w, i) = choose|w: WireId, i: int|
                #![trigger net_has(design, id, w), nets[i]]
                0 <= i < nets.len() && nets[i] != id && net_has(design, id, w) && net_has(design, nets[i], w);
            congestion_takes_two(design, nets, w);
            assert(nets[i] != nets[n - 1]);
            assert(crate::router::usage::uses(design, id, w));
        }
    }
    assert(nets.take(nets.len() as int) =~= nets);
}

/// The wires that get dearer are all those that two nets of the list have: each by the given amount,
/// up to the largest number; no other penalty changes.
pub proof fn shared_wires_get_dearer(
    pen: Map<WireId, DelayT>,
    design: Design,
    nets: Seq<NetId>,
    by: DelayT,
    w: WireId,
)
    requires
        by >= 0,
        pen.contains_key(w) ==> pen[w] >= 0,
    ensures
        ({
            let before = if pen.contains_key(w) {
                pen[w] as int
            } else {
                0
            };
            let shared = exists|i: int, j: int|
                #![trigger nets[i], nets[j]]
                0 <= i < nets.len() && 0 <= j < nets.len() && nets[i] != nets[j] && net_has(design, nets[i], w)
                    && net_has(design, nets[j], w);
            let new = raised(pen, design, nets, by);
            &&& shared ==> new.contains_key(w) && new[w] == (if before + by <= i32::MAX {
                before + by
            } else {
                i32::MAX as int
            })
            &&& !shared ==> (new.contains_key(w) <==> pen.contains_key(w)) && (pen.contains_key(w) ==> new[w]
                == pen[w])
        }),
{
    congestion_takes_two(design, nets, w);
}

/// Holds of a net with a wire that is counted more than once.
pub open spec fn has_overused(design: Design, usage: Map<WireId, u32>) -> spec_fn(NetId) -> bool {
    |id: NetId| exists|w: WireId| #[trigger] net_has(design, id, w) && usage.contains_key(w) && usage[w] >= 2
}

/// The nets of a list that are congested are all those with a wire that is counted more than once.
pub proof fn every_congested_net_is_listed(design: Design, usage: Map<WireId, u32>, nets: Seq<NetId>, n: int)
    requires
        0 <= n <= nets.len(),
    ensures
        touching(design, usage, nets, n) == nets.take(n).filter(has_overused(design, usage)),
    decreases n,
{
    lemma_picked(nets, n, has_overused(design, usage));
    if n > 0 {
        every_congested_net_is_listed(design, usage, nets, n - 1);
        let id = nets[n - 1];
        if crate::router::usage::touches(design, usage, id) {
            let w = choose|w: WireId| #[trigger]
                crate::router::usage::uses(design, id, w) && usage.contains_key(w) && usage[w] > 1;
            assert(net_has(design, id, w));
        }
        if has_overused(design, usage)(id) {
            let w = choose|w: WireId| #[trigger]
                net_has(design, id, w) && usage.contains_key(w) && usage[w] >= 2;
            assert(crate::router::usage::uses(design, id, w));
        }
    }
}

/// One net more on a set of wires counts each of them once more and no other, and one net fewer
/// counts each of them once less: a wire that nobody is left on has no count.
pub proof fn usage_goes_up_and_down_by_one(usage: Map<WireId, u32>, wires: Set<WireId>, w: WireId)
    ensures
        usage.contains_key(w) && wires.contains(w) && usage[w] < u32::MAX ==> one_more(usage, wires)[w] == usage[w]
            + 1,
        !usage.contains_key(w) && wires.contains(w) ==> one_more(usage, wires).contains_key(w) && one_more(
            usage,
            wires,
        )[w] == 1,
        !wires.contains(w) ==> (one_more(usage, wires).contains_key(w) <==> usage.contains_key(w)) && (one_fewer(
            usage,
            wires,
        ).contains_key(w) <==> usage.contains_key(w)),
        usage.contains_key(w) && !wires.contains(w) ==> one_more(usage, wires)[w] == usage[w] && one_fewer(
            usage,
            wires,
        )[w] == usage[w],
        usage.contains_key(w) && wires.contains(w) && usage[w] >= 2 ==> one_fewer(usage, wires).contains_key(w)
            && one_fewer(usage, wires)[w] == usage[w] - 1,
        wires.contains(w) && (!usage.contains_key(w) || usage[w] <= 1) ==> !one_fewer(usage, wires).contains_key(w),
{
}

/// The owner of a wire is the last of the first `n` nets that has it.
pub proof fn the_last_net_owns(design: Design, n: int, w: WireId)
    requires
        0 <= n <= design.nets@.len() <= u32::MAX,
    ensures
        ({
            let last = last_user(design, n, w);
            &&& last is Some ==> (last->0).0 < n && net_has(design, last->0, w) && forall|i: int|
                (last->0).0 < i < n ==> !(#[trigger] net_has(design, NetId(i as u32), w))
            &&& last is None ==> forall|i: int| 0 <= i < n ==> !(#[trigger] net_has(design, NetId(i as u32), w))
        }),
    decreases n,
{
    if n > 0 {
        the_last_net_owns(design, n - 1, w);
    }
}

/// After the nets of a list claimed their wires, each wire belongs to the last net of the list that
/// has it, and to its owner before where none has.
pub proof fn the_last_claim_counts(
    owner: Map<WireId, NetId>,
    design: Design,
    nets: Seq<NetId>,
    n: int,
    w: WireId,
)
    requires
        0 <= n <= nets.len(),
        forall|i: int| 0 <= i < nets.len() ==> (#[trigger] nets[i]).0 < design.nets@.len(),
    ensures
        forall|i: int|
            0 <= i < n && net_has(design, #[trigger] nets[i], w) && (forall|j: int|
                i < j < n ==> !net_has(design, #[trigger] nets[j], w)) ==> claimed_upto(owner, design, nets, n).contains_key(
                w,
            ) && claimed_upto(owner, design, nets, n)[w] == nets[i],
        (forall|i: int| 0 <= i < n ==> !net_has(design, #[trigger] nets[i], w)) ==> (claimed_upto(
            owner,
            design,
            nets,
            n,
        ).contains_key(w) <==> owner.contains_key(w)) && (owner.contains_key(w) ==> claimed_upto(
            owner,
            design,
            nets,
            n,
        )[w] == owner[w]),
    decreases n,
{
    if n > 0 {
        the_last_claim_counts(owner, design, nets, n - 1, w);
        assert(nets[n - 1].0 < design.nets@.len());
    }
}

/// Holds of a net that has the wire.
pub open spec fn on_wire(design: Design, w: WireId) -> spec_fn(NetId) -> bool {
    |id: NetId| net_has(design, id, w)
}

/// Taking the nets of a list out lowers the count of a wire by as many of them as have it; a wire that
/// nobody is left on has no count.
pub proof fn counts_fall_by_the_nets_taken_out(
    usage: Map<WireId, u32>,
    design: Design,
    nets: Seq<NetId>,
    n: int,
    w: WireId,
)
    requires
        0 <= n <= nets.len(),
        usage.contains_key(w) ==> usage[w] >= 1,
        forall|i: int| 0 <= i < nets.len() ==> (#[trigger] nets[i]).0 < design.nets@.len(),
    ensures
        ({
            let many = nets.take(n).filter(on_wire(design, w)).len();
            let left = fewer_upto(usage, design, nets, n);
            &&& left.contains_key(w) <==> usage.contains_key(w) && usage[w] > many
            &&& left.contains_key(w) ==> left[w] == usage[w] - many
        }),
    decreases n,
{
    lemma_picked(nets, n, on_wire(design, w));
    if n > 0 {
        counts_fall_by_the_nets_taken_out(usage, design, nets, n - 1, w);
        assert(nets[n - 1].0 < design.nets@.len());
    }
}

/// Holds of one net.
pub open spec fn is_net(net: NetId) -> spec_fn(NetId) -> bool {
    |id: NetId| id == net
}

/// A net that stands in a list of nets taken apart is counted once more each time, up to the largest
/// number; the counts of other nets stay.
pub proof fn nets_taken_apart_are_counted(counts: Map<NetId, u32>, nets: Seq<NetId>, n: int, net: NetId)
    requires
        0 <= n <= nets.len(),
    ensures
        ({
            let times = nets.take(n).filter(is_net(net)).len();
            let before = if counts.contains_key(net) {
                counts[net] as int
            } else {
                0
            };
            let new = bumped_upto(counts, nets, n);
            &&& new.contains_key(net) <==> counts.contains_key(net) || times > 0
            &&& new.contains_key(net) ==> new[net] == (if before + times <= u32::MAX {
                before + times
            } else {
                u32::MAX as int
            })
        }),
    decreases n,
{
    lemma_picked(nets, n, is_net(net));
    if n > 0 {
        nets_taken_apart_are_counted(counts, nets, n - 1, net);
    }
}

/// Holds of a pip that drives a wire of the tile.
pub open spec fn drives_into(chip: ChipDb, tile: int) -> spec_fn(PipId) -> bool {
    |p: PipId| chip.dst(p).tile == tile
}

/// A tile is counted once more for each pip of a list that drives a wire of it, up to the largest
/// number.
pub proof fn tiles_are_counted_pip_by_pip(chip: ChipDb, counts: Seq<u32>, pips: Seq<PipId>, n: int, tile: int)
    requires
        chip.wf(),
        counts.len() == chip.tiles@.len(),
        0 <= n <= pips.len(),
        0 <= tile < counts.len(),
        forall|i: int| 0 <= i < pips.len() ==> chip.valid_pip(#[trigger] pips[i]),
    ensures
        counted_upto(chip, counts, pips, n).len() == counts.len(),
        ({
            let more = counts[tile] + pips.take(n).filter(drives_into(chip, tile)).len();
            counted_upto(chip, counts, pips, n)[tile] == (if more <= u32::MAX {
                more
            } else {
                u32::MAX as int
            })
        }),
    decreases n,
{
    lemma_picked(pips, n, drives_into(chip, tile));
    if n > 0 {
        tiles_are_counted_pip_by_pip(chip, counts, pips, n - 1, tile);
        assert(chip.valid_pip(pips[n - 1]));
    }
}

/// Holds of a count above one.
pub open spec fn above_one() -> spec_fn(u32) -> bool {
    |c: u32| c >= 2
}

/// The crowded tiles are those that are counted twice or more.
pub proof fn crowded_tiles_are_counted_twice(counts: Seq<u32>, n: int)
    requires
        0 <= n <= counts.len(),
    ensures
        crowded(counts, n) == counts.take(n).filter(above_one()).len(),
    decreases n,
{
    lemma_picked(counts, n, above_one());
    if n > 0 {
        crowded_tiles_are_counted_twice(counts, n - 1);
    }
}

/// The pips of routes are those of each route one after the other.
pub proof fn every_pip_of_every_route_is_listed(routes: Seq<SinkRoute>, n: int)
    requires
        0 <= n <= routes.len(),
    ensures
        pips_upto(routes, n) == routes.map_values(|r: SinkRoute| r.pips@).take(n).flatten(),
    decreases n,
{
    let lists = routes.map_values(|r: SinkRoute| r.pips@);
    if n > 0 {
        every_pip_of_every_route_is_listed(routes, n - 1);
        assert(lists.take(n) =~= lists.take(n - 1).push(routes[n - 1].pips@));
        lists.take(n - 1).lemma_flatten_push(routes[n - 1].pips@);
    } else {
        assert(lists.take(0) =~= Seq::<Seq<PipId>>::empty());
    }
}

/// How many wires of a net lie in the tile, added to a sum.
pub open spec fn plus_wires_in(design: Design, tile: int) -> spec_fn(int, NetId) -> int {
    |sum: int, id: NetId|
        sum + design.nets@[id.0 as int].wires@.dom().filter(|w: WireId| w.tile == tile).len()
}

/// The load of a tile is the sum over the nets of a list of their wires in it.
pub proof fn loads_add_up(design: Design, nets: Seq<NetId>, n: int, tile: int)
    requires
        0 <= n <= nets.len(),
    ensures
        load_at(design, nets, n, tile) == nets.take(n).fold_left(0, plus_wires_in(design, tile)),
    decreases n,
{
    if n > 0 {
        loads_add_up(design, nets, n - 1, tile);
        assert(nets.take(n).drop_last() =~= nets.take(n - 1));
        let id = nets[n - 1];
        assert(design.nets@[id.0 as int].wires@.dom().filter(|w: WireId| w.tile == tile)
            =~= design.net_of(id).wires@.dom().filter(|w: WireId| w.tile == tile));
    }
}

} // verus!
