//! What a clean validation means.

use crate::chipdb::{PipId, WireId};
use crate::context::Context;
use crate::netlist::{Design, Net, NetId, PipMap};
use crate::router::validate::{
    contested_pips, contested_wires, driven_by, faults, in_tree, leads_back, net_faults, no_faults,
    pip_claims, pip_mismatch, tree_wires, user_fault, user_faults, wire_claims, wire_mismatch, NetFault,
};
use vstd::prelude::*;

verus! {

/// Net `i` uses pip `p` to drive wire `w`.
pub open spec fn uses_pip(design: Design, i: int, w: WireId, p: PipId) -> bool {
    &&& 0 <= i < design.nets@.len()
    &&& design.nets@[i].routable()
    &&& design.nets@[i].wires@.contains_key(w)
    &&& design.nets@[i].wires@[w].pip == Some(p)
}

/// Net `i` uses wire `w`.
pub open spec fn uses_wire(design: Design, i: int, w: WireId) -> bool {
    &&& 0 <= i < design.nets@.len()
    &&& design.nets@[i].routable()
    &&& design.nets@[i].wires@.contains_key(w)
}

/// One net is routed: its driver and its users have wires, these are in its tree, every user leads
/// back to the driver, and the net holds every wire and pip of the tree.
pub open spec fn net_routed(ctx: Context, id: NetId) -> bool {
    let net = ctx.design.net_of(id);
    let source = ctx.wire_of_pin(net.driver);
    &&& source is Some
    &&& in_tree(ctx, net.wires@, source->0)
    &&& forall|j: int|
        0 <= j < net.users@.len() && (#[trigger] net.users@[j]).connected() ==> {
            let sink = ctx.wire_of_pin(net.users@[j]);
            sink is Some && in_tree(ctx, net.wires@, sink->0) && leads_back(
                ctx,
                net.wires@,
                source->0,
                sink->0,
            )
        }
    &&& forall|w: WireId| #[trigger]
        net.wires@.contains_key(w) ==> ctx.owner(w) == Some(id) && (net.wires@[w].pip is Some
            ==> ctx.pip_owner(net.wires@[w].pip->0) == Some(id))
}

/// All nets that take part in routing are routed, no wire is in two trees, and no pip is used twice.
pub open spec fn fully_routed(ctx: Context) -> bool {
    &&& forall|i: int|
        0 <= i < ctx.design.nets@.len() && (#[trigger] ctx.design.nets@[i]).routable() ==> net_routed(
            ctx,
            NetId(i as u32),
        )
    &&& forall|i: int, j: int, w: WireId| #[trigger]
        uses_wire(ctx.design, i, w) && #[trigger] uses_wire(ctx.design, j, w) ==> i == j
    &&& forall|i: int, j: int, w: WireId, v: WireId, p: PipId| #[trigger]
        uses_pip(ctx.design, i, w, p) && #[trigger] uses_pip(ctx.design, j, v, p) ==> i == j && w == v
}

proof fn lemma_faults_zero(ctx: Context, fault: NetFault, n: int)
    requires
        0 <= n <= ctx.design.nets@.len() < u32::MAX,
    ensures
        faults(ctx, fault, n) == 0 <==> forall|i: int|
            0 <= i < n ==> #[trigger] net_faults(ctx, NetId(i as u32), fault) == 0,
    decreases n,
{
    if n > 0 {
        lemma_faults_zero(ctx, fault, n - 1);
        assert(faults(ctx, fault, n) == faults(ctx, fault, n - 1) + net_faults(
            ctx,
            NetId((n - 1) as u32),
            fault,
        ));
    }
}

proof fn lemma_user_faults_zero(ctx: Context, net: Net, source: WireId, fault: NetFault, n: int)
    requires
        0 <= n <= net.users@.len(),
    ensures
        user_faults(ctx, net, source, fault, n) == 0 <==> forall|j: int|
            0 <= j < n ==> user_fault(ctx, net, source, #[trigger] net.users@[j]) != Some(fault),
    decreases n,
{
    if n > 0 {
        lemma_user_faults_zero(ctx, net, source, fault, n - 1);
    }
}

proof fn lemma_tree_wires_zero(tree: Map<WireId, PipMap>, test: spec_fn(WireId) -> bool)
    requires
        tree.dom().finite(),
    ensures
        tree_wires(tree, test).finite(),
        tree_wires(tree, test).len() == 0 <==> forall|w: WireId| #[trigger]
            tree.contains_key(w) ==> !test(w),
{
    vstd::set_lib::lemma_set_subset_finite(tree.dom(), tree_wires(tree, test));
    let s = tree_wires(tree, test);
    if s.len() == 0 {
        assert forall|w: WireId| #[trigger] tree.contains_key(w) implies !test(w) by {
            if test(w) {
                assert(s.contains(w));
                s.lemma_len0_is_empty();
            }
        }
    }
    if forall|w: WireId| #[trigger] tree.contains_key(w) ==> !test(w) {
        assert(s =~= Set::empty());
    }
}

/// The faults of one net are those of an unrouted one.
proof fn lemma_net_clean(ctx: Context, i: int)
    requires
        ctx.wf(),
        0 <= i < ctx.design.nets@.len(),
        ctx.design.nets@[i].routable(),
    ensures
        net_routed(ctx, NetId(i as u32)) <==> forall|fault: NetFault| #[trigger]
            net_faults(ctx, NetId(i as u32), fault) == 0,
{
    let id = NetId(i as u32);
    let net = ctx.design.net_of(id);
    let tree = net.wires@;
    assert(ctx.routing_ok(ctx.design.nets@[i].wires@));
    lemma_tree_wires_zero(tree, wire_mismatch(ctx, id));
    lemma_tree_wires_zero(tree, pip_mismatch(ctx, tree, id));
    let source = ctx.wire_of_pin(net.driver);
    if source is Some {
        let n = net.users@.len() as int;
        lemma_user_faults_zero(ctx, net, source->0, NetFault::UnplacedUser, n);
        lemma_user_faults_zero(ctx, net, source->0, NetFault::MissingSinkWire, n);
        lemma_user_faults_zero(ctx, net, source->0, NetFault::SinkNotInTree, n);
        lemma_user_faults_zero(ctx, net, source->0, NetFault::DisconnectedSink, n);
    }
    if forall|fault: NetFault| #[trigger] net_faults(ctx, id, fault) == 0 {
        assert(net_faults(ctx, id, NetFault::UnplacedDriver) == 0);
        assert(net_faults(ctx, id, NetFault::MissingSourceWire) == 0);
        assert(net_faults(ctx, id, NetFault::SourceNotInTree) == 0);
        assert(net_faults(ctx, id, NetFault::UnplacedUser) == 0);
        assert(net_faults(ctx, id, NetFault::MissingSinkWire) == 0);
        assert(net_faults(ctx, id, NetFault::SinkNotInTree) == 0);
        assert(net_faults(ctx, id, NetFault::DisconnectedSink) == 0);
        assert(net_faults(ctx, id, NetFault::WireMismatch) == 0);
        assert(net_faults(ctx, id, NetFault::PipMismatch) == 0);
        assert(source is Some);
        assert forall|j: int| 0 <= j < net.users@.len() && (#[trigger] net.users@[j]).connected() implies {
            let sink = ctx.wire_of_pin(net.users@[j]);
            sink is Some && in_tree(ctx, net.wires@, sink->0) && leads_back(
                ctx,
                net.wires@,
                source->0,
                sink->0,
            )
        } by {
            assert(user_fault(ctx, net, source->0, net.users@[j]) != Some(NetFault::UnplacedUser));
        }
        assert forall|w: WireId| #[trigger] net.wires@.contains_key(w) implies ctx.owner(w) == Some(id) && (
        net.wires@[w].pip is Some ==> ctx.pip_owner(net.wires@[w].pip->0) == Some(id)) by {
            assert(!wire_mismatch(ctx, id)(w));
            assert(!pip_mismatch(ctx, tree, id)(w));
        }
        assert(net_routed(ctx, id));
    }
    if net_routed(ctx, id) {
        assert forall|w: WireId| #[trigger] tree.contains_key(w) implies !wire_mismatch(ctx, id)(w)
            && !pip_mismatch(ctx, tree, id)(w) by {
        }
        assert forall|fault: NetFault| #[trigger] net_faults(ctx, id, fault) == 0 by {
            assert forall|j: int| 0 <= j < net.users@.len() implies user_fault(
                ctx,
                net,
                source->0,
                #[trigger] net.users@[j],
            ) is None by {
            }
        }
    }
}

/// Claims only grow with the number of nets, and each net that uses a wire adds one.
proof fn lemma_wire_claims(design: Design, w: WireId, n: int)
    requires
        0 <= n <= design.nets@.len(),
    ensures
        wire_claims(design, w, n) > 0 <==> exists|i: int| i < n && #[trigger] uses_wire(design, i, w),
        wire_claims(design, w, n) > 1 <==> exists|i: int, j: int|
            i < j < n && #[trigger] uses_wire(design, i, w) && #[trigger] uses_wire(design, j, w),
    decreases n,
{
    if n > 0 {
        lemma_wire_claims(design, w, n - 1);
        if uses_wire(design, n - 1, w) {
            if wire_claims(design, w, n - 1) > 0 {
                let i = choose|i: int| i < n - 1 && #[trigger] uses_wire(design, i, w);
                assert(i < n - 1 < n && uses_wire(design, i, w) && uses_wire(design, n - 1, w));
            }
        }
    }
}

proof fn lemma_contested_wires_zero(ctx: Context)
    requires
        ctx.wf(),
    ensures
        contested_wires(ctx.design).len() == 0 <==> forall|i: int, j: int, w: WireId| #[trigger]
            uses_wire(ctx.design, i, w) && #[trigger] uses_wire(ctx.design, j, w) ==> i == j,
{
    let design = ctx.design;
    let n = design.nets@.len() as int;
    lemma_claimed_finite(ctx, n);
    let claimed = Set::new(|w: WireId| wire_claims(design, w, n) > 0);
    let s = contested_wires(design);
    vstd::set_lib::lemma_set_subset_finite(claimed, s);
    if s.len() == 0 {
        assert forall|i: int, j: int, w: WireId| #[trigger] uses_wire(design, i, w)
            && #[trigger] uses_wire(design, j, w) implies i == j by {
            lemma_wire_claims(design, w, n);
            if i != j {
                s.lemma_len0_is_empty();
                assert(!s.contains(w));
            }
        }
    } else {
        let w = s.choose();
        assert(s.contains(w)) by {
            if s =~= Set::empty() {
                assert(s.len() == 0);
            }
        }
        lemma_wire_claims(design, w, n);
    }
}

proof fn lemma_claimed_finite(ctx: Context, n: int)
    requires
        ctx.wf(),
        0 <= n <= ctx.design.nets@.len(),
    ensures
        Set::new(|w: WireId| wire_claims(ctx.design, w, n) > 0).finite(),
    decreases n,
{
    let now = Set::new(|w: WireId| wire_claims(ctx.design, w, n) > 0);
    if n <= 0 {
        assert(now =~= Set::empty());
    } else {
        lemma_claimed_finite(ctx, n - 1);
        let before = Set::new(|w: WireId| wire_claims(ctx.design, w, n - 1) > 0);
        let tree = ctx.design.nets@[n - 1].wires@;
        assert(ctx.routing_ok(tree));
        let all = before.union(tree.dom());
        vstd::set_lib::lemma_set_subset_finite(all, now);
    }
}

/// A pip is claimed as often as it is used.
proof fn lemma_pip_claims(ctx: Context, p: PipId, n: int)
    requires
        ctx.wf(),
        0 <= n <= ctx.design.nets@.len(),
    ensures
        pip_claims(ctx.design, p, n) > 0 <==> exists|i: int, w: WireId|
            i < n && #[trigger] uses_pip(ctx.design, i, w, p),
        pip_claims(ctx.design, p, n) > 1 <==> exists|i: int, j: int, w: WireId, v: WireId|
            i < n && j < n && (i != j || w != v) && #[trigger] uses_pip(ctx.design, i, w, p)
                && #[trigger] uses_pip(ctx.design, j, v, p),
    decreases n,
{
    let design = ctx.design;
    if n > 0 {
        lemma_pip_claims(ctx, p, n - 1);
        let tree = design.nets@[n - 1].wires@;
        assert(ctx.routing_ok(tree));
        let test = driven_by(tree, p);
        let s = tree_wires(tree, test);
        lemma_tree_wires_zero(tree, test);
        assert forall|w: WireId| design.nets@[n - 1].routable() implies (#[trigger] s.contains(w)
            <==> uses_pip(design, n - 1, w, p)) by {
        }
        if design.nets@[n - 1].routable() && s.len() > 0 {
            let w = s.choose();
            assert(s.contains(w)) by {
                if s =~= Set::empty() {
                    assert(s.len() == 0);
                }
            }
            assert(uses_pip(design, n - 1, w, p));
            if s.len() > 1 {
                let rest = s.remove(w);
                let v = rest.choose();
                assert(rest.contains(v)) by {
                    if rest =~= Set::empty() {
                        assert(rest.len() == 0);
                    }
                }
                assert(s.contains(v));
                assert(uses_pip(design, n - 1, v, p));
            }
            if pip_claims(design, p, n - 1) > 0 {
                let (i, v) = choose|i: int, v: WireId|
                    i < n - 1 && #[trigger] uses_pip(design, i, v, p);
                assert(uses_pip(design, i, v, p) && uses_pip(design, n - 1, w, p));
            }
        }
        if exists|i: int, w: WireId| i < n && #[trigger] uses_pip(design, i, w, p) {
            let (i, w) = choose|i: int, w: WireId| i < n && #[trigger] uses_pip(design, i, w, p);
            if i == n - 1 {
                assert(s.contains(w));
                if s.len() == 0 {
                    s.lemma_len0_is_empty();
                }
            }
        }
        if exists|i: int, j: int, w: WireId, v: WireId|
            i < n && j < n && (i != j || w != v) && #[trigger] uses_pip(design, i, w, p)
                && #[trigger] uses_pip(design, j, v, p) {
            let (i, j, w, v) = choose|i: int, j: int, w: WireId, v: WireId|
                i < n && j < n && (i != j || w != v) && #[trigger] uses_pip(design, i, w, p)
                    && #[trigger] uses_pip(design, j, v, p);
            if i == n - 1 && j == n - 1 {
                assert(s.contains(w) && s.contains(v));
                if s.len() <= 1 {
                    let rest = s.remove(w);
                    assert(rest.contains(v));
                    rest.lemma_len0_is_empty();
                }
            } else if i == n - 1 {
                assert(s.contains(w));
                if s.len() == 0 {
                    s.lemma_len0_is_empty();
                }
            } else if j == n - 1 {
                assert(s.contains(v));
                if s.len() == 0 {
                    s.lemma_len0_is_empty();
                }
            }
        }
        if pip_claims(design, p, n - 1) > 1 {
            let (i, j, w, v) = choose|i: int, j: int, w: WireId, v: WireId|
                i < n - 1 && j < n - 1 && (i != j || w != v) && #[trigger] uses_pip(design, i, w, p)
                    && #[trigger] uses_pip(design, j, v, p);
            assert(i < n && j < n && uses_pip(design, i, w, p) && uses_pip(design, j, v, p));
        }
    }
}

proof fn lemma_claimed_pips_finite(ctx: Context, n: int)
    requires
        ctx.wf(),
        0 <= n <= ctx.design.nets@.len(),
    ensures
        Set::new(|p: PipId| pip_claims(ctx.design, p, n) > 0).finite(),
    decreases n,
{
    let now = Set::new(|p: PipId| pip_claims(ctx.design, p, n) > 0);
    if n <= 0 {
        assert(now =~= Set::empty());
    } else {
        lemma_claimed_pips_finite(ctx, n - 1);
        let before = Set::new(|p: PipId| pip_claims(ctx.design, p, n - 1) > 0);
        let tree = ctx.design.nets@[n - 1].wires@;
        assert(ctx.routing_ok(tree));
        let f = |w: WireId| match tree[w].pip {
            Some(p) => p,
            None => PipId { tile: 0, index: 0 },
        };
        tree.dom().lemma_map_finite(f);
        let image = tree.dom().map(f);
        assert forall|p: PipId| #[trigger] now.contains(p) implies before.union(image).contains(p) by {
            if !before.contains(p) {
                let s = tree_wires(tree, driven_by(tree, p));
                lemma_tree_wires_zero(tree, driven_by(tree, p));
                let w = s.choose();
                assert(s.contains(w)) by {
                    if s =~= Set::empty() {
                        assert(s.len() == 0);
                    }
                }
                assert(f(w) == p);
                assert(image.contains(p));
            }
        }
        vstd::set_lib::lemma_set_subset_finite(before.union(image), now);
    }
}

proof fn lemma_contested_pips_zero(ctx: Context)
    requires
        ctx.wf(),
    ensures
        contested_pips(ctx.design).len() == 0 <==> forall|
            i: int,
            j: int,
            w: WireId,
            v: WireId,
            p: PipId,
        | #[trigger]
            uses_pip(ctx.design, i, w, p) && #[trigger] uses_pip(ctx.design, j, v, p) ==> i == j && w == v,
{
    let design = ctx.design;
    let n = design.nets@.len() as int;
    lemma_claimed_pips_finite(ctx, n);
    let claimed = Set::new(|p: PipId| pip_claims(design, p, n) > 0);
    let s = contested_pips(design);
    vstd::set_lib::lemma_set_subset_finite(claimed, s);
    if s.len() == 0 {
        assert forall|i: int, j: int, w: WireId, v: WireId, p: PipId| #[trigger]
            uses_pip(design, i, w, p) && #[trigger] uses_pip(design, j, v, p) implies i == j && w == v by {
            lemma_pip_claims(ctx, p, n);
            if i != j || w != v {
                s.lemma_len0_is_empty();
                assert(!s.contains(p));
            }
        }
    } else {
        let p = s.choose();
        assert(s.contains(p)) by {
            if s =~= Set::empty() {
                assert(s.len() == 0);
            }
        }
        lemma_pip_claims(ctx, p, n);
    }
}

/// Validation finds nothing exactly if the design is fully routed: every net that takes part in
/// routing connects its driver to all its users over wires and pips that it holds, and no wire or
/// pip serves twice.
pub proof fn validation_is_clean_exactly_if_fully_routed(ctx: Context)
    requires
        ctx.wf(),
    ensures
        no_faults(ctx) <==> fully_routed(ctx),
{
    let n = ctx.design.nets@.len() as int;
    lemma_contested_wires_zero(ctx);
    lemma_contested_pips_zero(ctx);
    lemma_faults_zero(ctx, NetFault::UnplacedDriver, n);
    lemma_faults_zero(ctx, NetFault::UnplacedUser, n);
    lemma_faults_zero(ctx, NetFault::MissingSourceWire, n);
    lemma_faults_zero(ctx, NetFault::MissingSinkWire, n);
    lemma_faults_zero(ctx, NetFault::SourceNotInTree, n);
    lemma_faults_zero(ctx, NetFault::SinkNotInTree, n);
    lemma_faults_zero(ctx, NetFault::DisconnectedSink, n);
    lemma_faults_zero(ctx, NetFault::WireMismatch, n);
    lemma_faults_zero(ctx, NetFault::PipMismatch, n);
    if no_faults(ctx) {
        assert forall|i: int|
            0 <= i < ctx.design.nets@.len() && (#[trigger] ctx.design.nets@[i]).routable() implies net_routed(
            ctx,
            NetId(i as u32),
        ) by {
            lemma_net_clean(ctx, i);
            assert forall|fault: NetFault| #[trigger] net_faults(ctx, NetId(i as u32), fault) == 0 by {
            }
        }
    }
    if fully_routed(ctx) {
        assert forall|i: int, fault: NetFault|
            0 <= i < n implies #[trigger] net_faults(ctx, NetId(i as u32), fault) == 0 by {
            if ctx.design.nets@[i].routable() {
                lemma_net_clean(ctx, i);
            }
        }
    }
}

} // verus!
