//! What validation tells of nets that are not routed as they should be.

use crate::chipdb::WireId;
use crate::context::Context;
use crate::netlist::{CellPin, Design, Net, NetId, PipMap};
use crate::router::net_laws::{lemma_in_tree, lemma_picked, lemma_picked_net, net_ids, takes_part};
use crate::router::plan_laws::{pins_have_the_wires_of_their_sites, wired_to};
use crate::router::validate::{
    at_source, climb, count_where, fault_sites, faults, first_in_tree, in_tree, leads_back, net_faults,
    net_sites, up_from, user_fault, user_faults, user_sites, wire_claimants, wire_claims, NetFault,
    Site,
};
use vstd::prelude::*;

verus! {

/// The tree has a wire that is joined to the wire.
pub open spec fn meets_tree(ctx: Context, tree: Map<WireId, PipMap>, w: WireId) -> bool {
    exists|x: WireId| #[trigger] tree.contains_key(x) && ctx.chipdb.valid_wire(x) && ctx.chipdb.joined(w, x)
}

/// A conductor is part of a tree exactly if the tree has one of its wires.
pub proof fn conductors_are_part_of_a_tree_by_any_wire(ctx: Context, tree: Map<WireId, PipMap>, w: WireId)
    requires
        ctx.wf(),
        ctx.chipdb.valid_wire(w),
    ensures
        in_tree(ctx, tree, w) <==> meets_tree(ctx, tree, w),
{
    let peers = ctx.chipdb.peers(w);
    ctx.chipdb.lemma_peers(w);
    lemma_in_tree(ctx, tree, peers);
    if in_tree(ctx, tree, w) {
        if tree.contains_key(w) {
            assert(ctx.chipdb.joined(w, w));
        } else {
            let i = choose|i: int| 0 <= i < peers.len() && tree.contains_key(#[trigger] peers[i]);
            assert(tree.contains_key(peers[i]) && ctx.chipdb.joined(w, peers[i]));
        }
    }
    if meets_tree(ctx, tree, w) {
        let x = choose|x: WireId| #[trigger]
            tree.contains_key(x) && ctx.chipdb.valid_wire(x) && ctx.chipdb.joined(w, x);
        if x != w {
            assert(peers.contains(x));
            let i = choose|i: int| 0 <= i < peers.len() && peers[i] == x;
            assert(tree.contains_key(peers[i]));
        }
    }
}

/// Peer `k` of the wire is the first that the tree has.
pub open spec fn first_peer(ctx: Context, tree: Map<WireId, PipMap>, w: WireId, k: int) -> bool {
    &&& 0 <= k < ctx.chipdb.peers(w).len()
    &&& tree.contains_key(ctx.chipdb.peers(w)[k])
    &&& forall|i: int| 0 <= i < k ==> !tree.contains_key(#[trigger] ctx.chipdb.peers(w)[i])
}

/// One step back from a wire of a tree: to where its pip starts; from a wire that the tree does not have,
/// to the first wire of the conductor that it has.
pub open spec fn steps_back(ctx: Context, tree: Map<WireId, PipMap>, a: WireId, b: WireId) -> bool {
    ||| tree.contains_key(a) && tree[a].pip is Some && b == ctx.chipdb.src(tree[a].pip->0)
    ||| !tree.contains_key(a) && exists|k: int| #[trigger]
        first_peer(ctx, tree, a, k) && b == ctx.chipdb.peers(a)[k]
}

proof fn lemma_step_back(ctx: Context, tree: Map<WireId, PipMap>, wires: Seq<WireId>, k: int)
    requires
        0 <= k < wires.len(),
        tree.contains_key(wires[k]),
        forall|i: int| 0 <= i < k ==> !tree.contains_key(#[trigger] wires[i]),
    ensures
        first_in_tree(tree, wires) == Some(wires[k]),
    decreases wires.len(),
{
    if k > 0 {
        let rest = wires.skip(1);
        assert forall|i: int| 0 <= i < k - 1 implies !tree.contains_key(#[trigger] rest[i]) by {
            assert(rest[i] == wires[i + 1]);
        }
        assert(!tree.contains_key(wires[0]));
        assert(rest[k - 1] == wires[k]);
        lemma_step_back(ctx, tree, rest, k - 1);
    }
}

proof fn lemma_some_peer(tree: Map<WireId, PipMap>, wires: Seq<WireId>) -> (k: int)
    requires
        first_in_tree(tree, wires) is Some,
    ensures
        0 <= k < wires.len(),
        first_in_tree(tree, wires) == Some(wires[k]),
        tree.contains_key(wires[k]),
        forall|i: int| 0 <= i < k ==> !tree.contains_key(#[trigger] wires[i]),
    decreases wires.len(),
{
    if tree.contains_key(wires[0]) {
        0
    } else {
        let rest = wires.skip(1);
        let j = lemma_some_peer(tree, rest);
        assert forall|i: int| 0 <= i < j + 1 implies !tree.contains_key(#[trigger] wires[i]) by {
            if i > 0 {
                assert(rest[i - 1] == wires[i]);
            }
        }
        assert(wires[j + 1] == rest[j]);
        j + 1
    }
}

proof fn lemma_up(ctx: Context, tree: Map<WireId, PipMap>, a: WireId, b: WireId)
    ensures
        up_from(ctx, tree, a) == Some(b) <==> steps_back(ctx, tree, a, b),
{
    let peers = ctx.chipdb.peers(a);
    if !tree.contains_key(a) {
        if first_in_tree(tree, peers) is Some {
            let k = lemma_some_peer(tree, peers);
            assert(first_peer(ctx, tree, a, k));
        }
        if steps_back(ctx, tree, a, b) {
            let k = choose|k: int| #[trigger] first_peer(ctx, tree, a, k) && b == peers[k];
            lemma_step_back(ctx, tree, peers, k);
        }
    }
}

/// A way back: each wire is one step behind the one before it.
pub open spec fn is_way_back(ctx: Context, tree: Map<WireId, PipMap>, w: WireId, way: Seq<WireId>) -> bool {
    &&& way.len() > 0
    &&& way[0] == w
    &&& forall|i: int, j: int|
        #![trigger way[i], way[j]]
        0 <= i && j == i + 1 && j < way.len() ==> steps_back(ctx, tree, way[i], way[j])
}

proof fn lemma_climb(ctx: Context, tree: Map<WireId, PipMap>, w: WireId, n: nat) -> (way: Seq<WireId>)
    requires
        climb(ctx, tree, w, n) is Some,
    ensures
        is_way_back(ctx, tree, w, way),
        way.len() == n + 1,
        way.last() == climb(ctx, tree, w, n)->0,
    decreases n,
{
    if n == 0 {
        seq![w]
    } else {
        let part = lemma_climb(ctx, tree, w, (n - 1) as nat);
        let b = climb(ctx, tree, w, n)->0;
        lemma_up(ctx, tree, part.last(), b);
        part.push(b)
    }
}

proof fn lemma_way(ctx: Context, tree: Map<WireId, PipMap>, w: WireId, way: Seq<WireId>, n: nat)
    requires
        is_way_back(ctx, tree, w, way),
        n < way.len(),
    ensures
        climb(ctx, tree, w, n) == Some(way[n as int]),
    decreases n,
{
    if n > 0 {
        lemma_way(ctx, tree, w, way, (n - 1) as nat);
        let i = n - 1;
        let j = n as int;
        assert(steps_back(ctx, tree, way[i], way[j]));
        lemma_up(ctx, tree, way[i], way[j]);
    }
}

/// The wire is of the conductor of the source, or is in the tree and has the same constant.
pub open spec fn of_source(ctx: Context, tree: Map<WireId, PipMap>, source: WireId, w: WireId) -> bool {
    ctx.chipdb.joined(source, w) || (ctx.chipdb.wire(source).const_value != 0 && ctx.chipdb.wire(w).const_value
        == ctx.chipdb.wire(source).const_value && tree.contains_key(w))
}

/// A wire leads back to the source exactly if some way back ends at the source.
pub proof fn wires_lead_back_step_by_step(ctx: Context, tree: Map<WireId, PipMap>, source: WireId, w: WireId)
    ensures
        leads_back(ctx, tree, source, w) <==> exists|way: Seq<WireId>| #[trigger]
            is_way_back(ctx, tree, w, way) && of_source(ctx, tree, source, way.last()),
{
    if leads_back(ctx, tree, source, w) {
        let n = choose|n: nat|
            (#[trigger] climb(ctx, tree, w, n)) is Some && at_source(ctx, tree, source, climb(ctx, tree, w, n)->0);
        let way = lemma_climb(ctx, tree, w, n);
        assert(is_way_back(ctx, tree, w, way) && of_source(ctx, tree, source, way.last()));
    }
    if exists|way: Seq<WireId>| #[trigger]
        is_way_back(ctx, tree, w, way) && of_source(ctx, tree, source, way.last()) {
        let way = choose|way: Seq<WireId>| #[trigger]
            is_way_back(ctx, tree, w, way) && of_source(ctx, tree, source, way.last());
        lemma_way(ctx, tree, w, way, (way.len() - 1) as nat);
        assert(climb(ctx, tree, w, (way.len() - 1) as nat) is Some);
    }
}

/// A user without a place, without a wire, off the tree, or cut off from the source is told apart, and a
/// user that names no cell, or has none of these faults, has none.
pub proof fn faults_of_users_are_told_apart(ctx: Context, net: Net, source: WireId, u: CellPin)
    requires
        ctx.wf(),
        ctx.design.pin_ok(u),
    ensures
        ({
            let f = user_fault(ctx, net, source, u);
            let named = u.cell.0 != u32::MAX;
            let placed = ctx.design.cells@[u.cell.0 as int].bel is Some;
            &&& f == Some(NetFault::UnplacedUser) <==> named && !placed
            &&& f == Some(NetFault::MissingSinkWire) <==> named && placed && forall|w: WireId| !wired_to(ctx, u, w)
            &&& forall|w: WireId|
                named && #[trigger] wired_to(ctx, u, w) ==> {
                    &&& f == Some(NetFault::SinkNotInTree) <==> !meets_tree(ctx, net.wires@, w)
                    &&& f == Some(NetFault::DisconnectedSink) <==> meets_tree(ctx, net.wires@, w) && !leads_back(
                        ctx,
                        net.wires@,
                        source,
                        w,
                    )
                    &&& f is None <==> meets_tree(ctx, net.wires@, w) && leads_back(ctx, net.wires@, source, w)
                }
            &&& !named ==> f is None
        }),
{
    if u.cell.0 != u32::MAX {
        assert forall|w: WireId| ctx.wire_of_pin(u) == Some(w) <==> #[trigger] wired_to(ctx, u, w) by {
            pins_have_the_wires_of_their_sites(ctx, u, w);
        }
        ctx.lemma_wire_of_pin(u);
        if ctx.wire_of_pin(u) is Some {
            let w = ctx.wire_of_pin(u)->0;
            assert(wired_to(ctx, u, w));
            conductors_are_part_of_a_tree_by_any_wire(ctx, net.wires@, w);
        }
    }
}

/// Holds of the users with the fault.
pub open spec fn at_fault(ctx: Context, net: Net, source: WireId, fault: NetFault) -> spec_fn(CellPin) -> bool {
    |u: CellPin| user_fault(ctx, net, source, u) == Some(fault)
}

/// All users with a fault are counted.
pub proof fn every_user_at_fault_counts(ctx: Context, net: Net, source: WireId, fault: NetFault, n: int)
    requires
        0 <= n <= net.users@.len(),
    ensures
        user_faults(ctx, net, source, fault, n) == net.users@.take(n).filter(at_fault(ctx, net, source, fault)).len(),
    decreases n,
{
    lemma_picked(net.users@, n, at_fault(ctx, net, source, fault));
    if n > 0 {
        every_user_at_fault_counts(ctx, net, source, fault, n - 1);
    }
}

/// The faults of a net, added to a sum.
pub open spec fn plus_faults(ctx: Context, fault: NetFault) -> spec_fn(int, NetId) -> int {
    |sum: int, id: NetId| sum + net_faults(ctx, id, fault)
}

/// The faults of all nets are added up.
pub proof fn faults_add_up(ctx: Context, fault: NetFault, n: nat)
    requires
        n <= ctx.design.nets@.len() <= u32::MAX,
    ensures
        faults(ctx, fault, n as int) == net_ids(n).fold_left(0, plus_faults(ctx, fault)),
    decreases n,
{
    if n > 0 {
        faults_add_up(ctx, fault, (n - 1) as nat);
        assert(net_ids(n).drop_last() =~= net_ids((n - 1) as nat));
    }
}

/// A net that takes part has one fault of its driver exactly if the driver has no place, no wire, or a
/// wire off the tree; its users are counted where the driver has a wire; and a net that does not take
/// part has no faults.
pub proof fn faults_of_drivers_are_told_apart(ctx: Context, id: NetId)
    requires
        ctx.wf(),
        ctx.design.valid_net(id),
    ensures
        ({
            let net = ctx.design.nets@[id.0 as int];
            let placed = ctx.design.cells@[net.driver.cell.0 as int].bel is Some;
            let part = takes_part(ctx.design)(id);
            &&& net_faults(ctx, id, NetFault::UnplacedDriver) == 1 <==> part && !placed
            &&& net_faults(ctx, id, NetFault::MissingSourceWire) == 1 <==> part && placed && forall|w: WireId|
                !wired_to(ctx, net.driver, w)
            &&& forall|w: WireId|
                part && #[trigger] wired_to(ctx, net.driver, w) ==> {
                    &&& net_faults(ctx, id, NetFault::SourceNotInTree) == 1 <==> !meets_tree(ctx, net.wires@, w)
                    &&& net_faults(ctx, id, NetFault::UnplacedUser) == net.users@.filter(
                        at_fault(ctx, net, w, NetFault::UnplacedUser),
                    ).len()
                    &&& net_faults(ctx, id, NetFault::MissingSinkWire) == net.users@.filter(
                        at_fault(ctx, net, w, NetFault::MissingSinkWire),
                    ).len()
                    &&& net_faults(ctx, id, NetFault::SinkNotInTree) == net.users@.filter(
                        at_fault(ctx, net, w, NetFault::SinkNotInTree),
                    ).len()
                    &&& net_faults(ctx, id, NetFault::DisconnectedSink) == net.users@.filter(
                        at_fault(ctx, net, w, NetFault::DisconnectedSink),
                    ).len()
                }
            &&& forall|f: NetFault| !part ==> #[trigger] net_faults(ctx, id, f) == 0
            &&& net_faults(ctx, id, NetFault::UnplacedDriver) <= 1
            &&& net_faults(ctx, id, NetFault::MissingSourceWire) <= 1
            &&& net_faults(ctx, id, NetFault::SourceNotInTree) <= 1
        }),
{
    let net = ctx.design.nets@[id.0 as int];
    assert(ctx.design.net_ok(net));
    if takes_part(ctx.design)(id) {
        assert(ctx.design.pin_ok(net.driver));
        assert forall|w: WireId| ctx.wire_of_pin(net.driver) == Some(w) <==> #[trigger] wired_to(
            ctx,
            net.driver,
            w,
        ) by {
            pins_have_the_wires_of_their_sites(ctx, net.driver, w);
        }
        ctx.lemma_wire_of_pin(net.driver);
        if ctx.wire_of_pin(net.driver) is Some {
            let w = ctx.wire_of_pin(net.driver)->0;
            assert(wired_to(ctx, net.driver, w));
            conductors_are_part_of_a_tree_by_any_wire(ctx, net.wires@, w);
            let n = net.users@.len() as int;
            assert(net.users@.take(n) =~= net.users@);
            every_user_at_fault_counts(ctx, net, w, NetFault::UnplacedUser, n);
            every_user_at_fault_counts(ctx, net, w, NetFault::MissingSinkWire, n);
            every_user_at_fault_counts(ctx, net, w, NetFault::SinkNotInTree, n);
            every_user_at_fault_counts(ctx, net, w, NetFault::DisconnectedSink, n);
        }
    }
}

/// Holds of the nets that take part and have the wire.
pub open spec fn claims(design: Design, w: WireId) -> spec_fn(NetId) -> bool {
    |id: NetId| takes_part(design)(id) && design.nets@[id.0 as int].wires@.contains_key(w)
}

/// The nets that claim a wire are all those that take part and have it in their trees, in order, and as
/// many are counted.
pub proof fn every_claim_counts(design: Design, w: WireId, n: nat)
    requires
        n <= design.nets@.len() <= u32::MAX,
    ensures
        wire_claimants(design, w, n as int) == net_ids(n).filter(claims(design, w)),
        wire_claims(design, w, n as int) == net_ids(n).filter(claims(design, w)).len(),
    decreases n,
{
    lemma_picked_net(n, claims(design, w));
    if n > 0 {
        every_claim_counts(design, w, (n - 1) as nat);
    }
}

/// Wires for which a test holds are counted one by one.
pub proof fn every_wire_that_passes_counts(s: Seq<WireId>, test: spec_fn(WireId) -> bool, n: int)
    requires
        0 <= n <= s.len(),
    ensures
        count_where(s, test, n) == s.take(n).filter(test).len(),
    decreases n,
{
    lemma_picked(s, n, test);
    if n > 0 {
        every_wire_that_passes_counts(s, test, n - 1);
    }
}

proof fn lemma_user_sites(ctx: Context, id: NetId, source: WireId, fault: NetFault, n: int)
    requires
        0 <= n <= ctx.design.nets@[id.0 as int].users@.len(),
    ensures
        ({
            let net = ctx.design.nets@[id.0 as int];
            let sites = user_sites(ctx, id, source, fault, n);
            &&& forall|j: int|
                0 <= j < n && at_fault(ctx, net, source, fault)(#[trigger] net.users@[j]) ==> sites.contains(
                    Site::User(id, j),
                )
            &&& forall|s: Site| #[trigger]
                sites.contains(s) ==> s is User && s->User_0 == id && 0 <= s->User_1 < n && at_fault(
                    ctx,
                    net,
                    source,
                    fault,
                )(net.users@[s->User_1])
        }),
    decreases n,
{
    let net = ctx.design.nets@[id.0 as int];
    if n > 0 {
        lemma_user_sites(ctx, id, source, fault, n - 1);
        let part = user_sites(ctx, id, source, fault, n - 1);
        let sites = user_sites(ctx, id, source, fault, n);
        assert forall|j: int|
            0 <= j < n && at_fault(ctx, net, source, fault)(#[trigger] net.users@[j]) implies sites.contains(
            Site::User(id, j),
        ) by {
            if j < n - 1 {
                assert(part.contains(Site::User(id, j)));
                let i = choose|i: int| 0 <= i < part.len() && part[i] == Site::User(id, j);
                assert(sites[i] == Site::User(id, j));
            } else {
                assert(sites[part.len() as int] == Site::User(id, j));
            }
        }
        assert forall|s: Site| #[trigger] sites.contains(s) implies s is User && s->User_0 == id && 0 <= s->User_1 < n
            && at_fault(ctx, net, source, fault)(net.users@[s->User_1]) by {
            let i = choose|i: int| 0 <= i < sites.len() && sites[i] == s;
            if i < part.len() {
                assert(part[i] == s);
                assert(part.contains(s));
            }
        }
    }
}

/// The fault is one of users.
pub open spec fn of_users(fault: NetFault) -> bool {
    fault is UnplacedUser || fault is MissingSinkWire || fault is SinkNotInTree || fault is DisconnectedSink
}

/// Validation names every user at fault of every net that takes part and whose driver has a wire, and
/// names no user that is not.
pub proof fn every_user_at_fault_is_named(ctx: Context, fault: NetFault, n: nat)
    requires
        ctx.wf(),
        of_users(fault),
        n <= ctx.design.nets@.len(),
    ensures
        forall|id: NetId, j: int, w: WireId|
            id.0 < n && takes_part(ctx.design)(id) && #[trigger] wired_to(
                ctx,
                ctx.design.nets@[id.0 as int].driver,
                w,
            ) && 0 <= j < ctx.design.nets@[id.0 as int].users@.len() && user_fault(
                ctx,
                ctx.design.nets@[id.0 as int],
                w,
                #[trigger] ctx.design.nets@[id.0 as int].users@[j],
            ) == Some(fault) ==> fault_sites(ctx, fault, n as int).contains(Site::User(id, j)),
        forall|s: Site| #[trigger]
            fault_sites(ctx, fault, n as int).contains(s) ==> {
                let net = ctx.design.nets@[(s->User_0).0 as int];
                &&& s is User
                &&& (s->User_0).0 < n
                &&& takes_part(ctx.design)(s->User_0)
                &&& 0 <= s->User_1 < net.users@.len()
                &&& exists|w: WireId| #[trigger] wired_to(ctx, net.driver, w) && user_fault(
                    ctx,
                    net,
                    w,
                    net.users@[s->User_1],
                ) == Some(fault)
            },
    decreases n,
{
    if n > 0 {
        every_user_at_fault_is_named(ctx, fault, (n - 1) as nat);
        let last = NetId((n - 1) as u32);
        let net = ctx.design.nets@[n - 1];
        assert(ctx.design.net_ok(net));
        let part = fault_sites(ctx, fault, n - 1);
        let own = net_sites(ctx, last, fault);
        let all = fault_sites(ctx, fault, n as int);
        let source = ctx.wire_of_pin(net.driver);
        if takes_part(ctx.design)(last) {
            assert(ctx.design.pin_ok(net.driver));
            assert forall|w: WireId| source == Some(w) <==> #[trigger] wired_to(ctx, net.driver, w) by {
                pins_have_the_wires_of_their_sites(ctx, net.driver, w);
            }
            if source is Some {
                lemma_user_sites(ctx, last, source->0, fault, net.users@.len() as int);
            }
        }
        assert forall|id: NetId, j: int, w: WireId|
            id.0 < n && takes_part(ctx.design)(id) && #[trigger] wired_to(
                ctx,
                ctx.design.nets@[id.0 as int].driver,
                w,
            ) && 0 <= j < ctx.design.nets@[id.0 as int].users@.len() && user_fault(
                ctx,
                ctx.design.nets@[id.0 as int],
                w,
                #[trigger] ctx.design.nets@[id.0 as int].users@[j],
            ) == Some(fault) implies all.contains(Site::User(id, j)) by {
            let s = Site::User(id, j);
            if id.0 < n - 1 {
                assert(part.contains(s));
                let i = choose|i: int| 0 <= i < part.len() && part[i] == s;
                assert(all[i] == s);
            } else {
                assert(id == last);
                assert(at_fault(ctx, net, w, fault)(net.users@[j]));
                assert(own.contains(s));
                let i = choose|i: int| 0 <= i < own.len() && own[i] == s;
                assert(all[part.len() + i] == s);
            }
        }
        assert forall|s: Site| #[trigger] all.contains(s) implies ({
            let net = ctx.design.nets@[(s->User_0).0 as int];
            &&& s is User
            &&& (s->User_0).0 < n
            &&& takes_part(ctx.design)(s->User_0)
            &&& 0 <= s->User_1 < net.users@.len()
            &&& exists|w: WireId| #[trigger] wired_to(ctx, net.driver, w) && user_fault(
                ctx,
                net,
                w,
                net.users@[s->User_1],
            ) == Some(fault)
        }) by {
            let i = choose|i: int| 0 <= i < all.len() && all[i] == s;
            if i < part.len() {
                assert(part[i] == s);
                assert(part.contains(s));
            } else {
                assert(own[i - part.len()] == s);
                assert(own.contains(s));
                assert(takes_part(ctx.design)(last));
                assert(wired_to(ctx, net.driver, source->0));
            }
        }
    }
}

} // verus!
