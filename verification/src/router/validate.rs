//! Holding a finished routing against the netlist.

use crate::chipdb::{PipId, WireId};
use crate::context::Context;
use crate::ids::{IdMap, MapKey};
use crate::netlist::{CellPin, Design, Net, NetId, PipMap};
use crate::router::error::RouterError;
use vstd::prelude::*;

verus! {

/// How many examples of one kind a report keeps.
pub const MAX_EXAMPLES: usize = 10;

/// Why a sink does not lead back to the source.
#[derive(Clone, Copy, PartialEq, Eq, Debug, Structural)]
pub enum BreakCause {
    /// A wire of the tree has no pip that drives it.
    NoParentPip,
    /// A wire on the way is not in the tree, nor is another wire of its node.
    LeftTree,
    /// The way goes round in a circle.
    Cycle,
}

/// Something that does not fit.
pub enum Issue {
    UnplacedDriver { net: NetId, pin: CellPin },
    UnplacedUser { net: NetId, pin: CellPin },
    MissingSourceWire { net: NetId, pin: CellPin },
    MissingSinkWire { net: NetId, pin: CellPin },
    SourceNotInTree { net: NetId, wire: WireId, tree_wires: usize },
    SinkNotInTree { net: NetId, wire: WireId, pin: CellPin },
    DisconnectedSink { net: NetId, wire: WireId, pin: CellPin, cause: BreakCause },
    WireConflict { wire: WireId, nets: Vec<NetId> },
    PipConflict { pip: PipId, nets: Vec<NetId> },
    WireBindingMismatch { net: NetId, wire: WireId, owner: Option<NetId> },
    PipBindingMismatch { net: NetId, pip: PipId, owner: Option<NetId> },
}

/// The issues of one kind: how many there are, and the first of them.
pub struct Bucket {
    pub total: usize,
    pub examples: Vec<Issue>,
}

/// A count as far as a `usize` can hold it.
pub open spec fn clip(n: nat) -> nat {
    if n <= usize::MAX {
        n
    } else {
        usize::MAX as nat
    }
}

impl Bucket {
    /// As many examples are kept as there are issues, up to the limit.
    pub open spec fn wf(self) -> bool {
        self.examples@.len() == if self.total < MAX_EXAMPLES {
            self.total
        } else {
            MAX_EXAMPLES
        }
    }

    /// The bucket stands for `n` issues.
    pub open spec fn counts(self, n: nat) -> bool {
        self.wf() && self.total == clip(n)
    }

    pub fn new() -> (b: Self)
        ensures
            b.counts(0),
            b.examples@.len() == 0,
    {
        Bucket { total: 0, examples: Vec::new() }
    }

    /// Counts an issue and keeps it if there is room.
    pub fn note(&mut self, issue: Issue)
        requires
            old(self).wf(),
        ensures
            final(self).wf(),
            final(self).total == clip((old(self).total + 1) as nat),
            final(self).examples@ == if old(self).examples@.len() < MAX_EXAMPLES {
                old(self).examples@.push(issue)
            } else {
                old(self).examples@
            },
    {
        if self.total < usize::MAX {
            self.total = self.total + 1;
        }
        if self.examples.len() < MAX_EXAMPLES {
            self.examples.push(issue);
        }
    }
}

/// All issues by kind.
pub struct ValidationReport {
    pub unplaced_driver: Bucket,
    pub unplaced_user: Bucket,
    pub missing_source_wire: Bucket,
    pub missing_sink_wire: Bucket,
    pub source_not_in_tree: Bucket,
    pub sink_not_in_tree: Bucket,
    pub disconnected_sink: Bucket,
    pub wire_conflict: Bucket,
    pub pip_conflict: Bucket,
    pub wire_binding_mismatch: Bucket,
    pub pip_binding_mismatch: Bucket,
}

/// The conductor of `w` is part of the tree.
pub open spec fn in_tree(ctx: Context, tree: Map<WireId, PipMap>, w: WireId) -> bool {
    tree.contains_key(w) || first_in_tree(tree, ctx.chipdb.peers(w)) is Some
}

/// The first wire of a list that is in the tree.
pub open spec fn first_in_tree(tree: Map<WireId, PipMap>, wires: Seq<WireId>) -> Option<WireId>
    decreases wires.len(),
{
    if wires.len() == 0 {
        None
    } else if tree.contains_key(wires[0]) {
        Some(wires[0])
    } else {
        first_in_tree(tree, wires.skip(1))
    }
}

/// The wire belongs to the source: it is of its conductor, or a wire of the tree with the same
/// constant.
pub open spec fn at_source(ctx: Context, tree: Map<WireId, PipMap>, source: WireId, w: WireId) -> bool {
    ||| w == source
    ||| ctx.chipdb.node(source) is Some && ctx.chipdb.node(w) == ctx.chipdb.node(source)
    ||| ctx.chipdb.wire(source).const_value != 0 && ctx.chipdb.wire(w).const_value == ctx.chipdb.wire(
        source,
    ).const_value && tree.contains_key(w)
}

/// The wire before `w` on the way back: where its pip starts, or the wire of its node that is in
/// the tree.
pub open spec fn up_from(ctx: Context, tree: Map<WireId, PipMap>, w: WireId) -> Option<WireId> {
    if tree.contains_key(w) {
        match tree[w].pip {
            Some(p) => Some(ctx.chipdb.src(p)),
            None => None,
        }
    } else {
        first_in_tree(tree, ctx.chipdb.peers(w))
    }
}

/// The wire `n` steps back from `w`.
pub open spec fn climb(ctx: Context, tree: Map<WireId, PipMap>, w: WireId, n: nat) -> Option<WireId>
    decreases n,
{
    if n == 0 {
        Some(w)
    } else {
        match climb(ctx, tree, w, (n - 1) as nat) {
            Some(x) => up_from(ctx, tree, x),
            None => None,
        }
    }
}

/// The way back from `w` comes to the source.
pub open spec fn leads_back(ctx: Context, tree: Map<WireId, PipMap>, source: WireId, w: WireId) -> bool {
    exists|n: nat|
        (#[trigger] climb(ctx, tree, w, n)) is Some && at_source(
            ctx,
            tree,
            source,
            climb(ctx, tree, w, n)->0,
        )
}

/// The cause fits the way back from `w`.
pub open spec fn breaks_by(ctx: Context, tree: Map<WireId, PipMap>, w: WireId, cause: BreakCause) -> bool {
    match cause {
        BreakCause::Cycle => forall|n: nat| (#[trigger] climb(ctx, tree, w, n)) is Some,
        BreakCause::NoParentPip => exists|n: nat|
            (#[trigger] climb(ctx, tree, w, n)) is Some && tree.contains_key(climb(ctx, tree, w, n)->0)
                && tree[climb(ctx, tree, w, n)->0].pip is None,
        BreakCause::LeftTree => exists|n: nat|
            (#[trigger] climb(ctx, tree, w, n)) is Some && !in_tree(ctx, tree, climb(ctx, tree, w, n)->0),
    }
}

fn find_in_tree(tree: &IdMap<WireId, PipMap>, wires: &Vec<WireId>) -> (r: Option<WireId>)
    ensures
        r == first_in_tree(tree@, wires@),
{
    let mut i: usize = 0;
    assert(wires@.skip(0) =~= wires@);
    while i < wires.len()
        invariant
            i <= wires@.len(),
            first_in_tree(tree@, wires@) == first_in_tree(tree@, wires@.skip(i as int)),
        decreases wires@.len() - i,
    {
        assert(wires@.skip(i as int).skip(1) =~= wires@.skip(i + 1));
        if tree.contains_key(wires[i]) {
            return Some(wires[i]);
        }
        i = i + 1;
    }
    None
}

/// A wire that was found stands in the list and in the tree.
proof fn lemma_first_in_tree(tree: Map<WireId, PipMap>, wires: Seq<WireId>)
    ensures
        match first_in_tree(tree, wires) {
            Some(w) => wires.contains(w) && tree.contains_key(w),
            None => forall|i: int| 0 <= i < wires.len() ==> !tree.contains_key(#[trigger] wires[i]),
        },
    decreases wires.len(),
{
    if wires.len() > 0 {
        if tree.contains_key(wires[0]) {
            assert(wires.contains(wires[0]));
        } else {
            let rest = wires.skip(1);
            lemma_first_in_tree(tree, rest);
            match first_in_tree(tree, rest) {
                Some(w) => {
                    let i = choose|i: int| 0 <= i < rest.len() && rest[i] == w;
                    assert(wires[i + 1] == w);
                },
                None => {
                    assert forall|i: int| 0 <= i < wires.len() implies !tree.contains_key(
                        #[trigger] wires[i],
                    ) by {
                        if i > 0 {
                            assert(rest[i - 1] == wires[i]);
                        }
                    }
                },
            }
        }
    }
}

pub(crate) fn is_in_tree(ctx: &Context, tree: &IdMap<WireId, PipMap>, w: WireId) -> (r: bool)
    requires
        ctx.wf(),
    ensures
        r == in_tree(*ctx, tree@, w),
{
    if tree.contains_key(w) {
        true
    } else {
        let peers = ctx.chipdb.node_wires(w);
        find_in_tree(tree, &peers).is_some()
    }
}

/// A way back that comes twice to one wire never ends, and never comes to anything new.
proof fn lemma_circle(ctx: Context, tree: Map<WireId, PipMap>, w: WireId, k: nat, j: nat, n: nat)
    requires
        k < j,
        climb(ctx, tree, w, j) is Some,
        climb(ctx, tree, w, k) == climb(ctx, tree, w, j),
    ensures
        exists|i: nat| i < j && #[trigger] climb(ctx, tree, w, i) == climb(ctx, tree, w, n),
    decreases n,
{
    if n < j {
        assert(climb(ctx, tree, w, n) == climb(ctx, tree, w, n));
    } else {
        lemma_circle(ctx, tree, w, k, j, (n - 1) as nat);
        let i = choose|i: nat|
            i < j && #[trigger] climb(ctx, tree, w, i) == climb(ctx, tree, w, (n - 1) as nat);
        assert(climb(ctx, tree, w, (i + 1) as nat) == climb(ctx, tree, w, n));
        if i + 1 == j {
            assert(climb(ctx, tree, w, k) == climb(ctx, tree, w, n));
        }
    }
}

/// Every step of the way back before the `n`-th exists if the `n`-th does.
proof fn lemma_climb_prefix(ctx: Context, tree: Map<WireId, PipMap>, w: WireId, i: nat, n: nat)
    requires
        i <= n,
        climb(ctx, tree, w, n) is Some,
    ensures
        climb(ctx, tree, w, i) is Some,
    decreases n,
{
    if i < n {
        lemma_climb_prefix(ctx, tree, w, i, (n - 1) as nat);
    }
}

/// Follows the way back from a sink; `None` if it comes to the source, else why it does not.
pub fn trace_to_source(ctx: &Context, tree: &IdMap<WireId, PipMap>, source: WireId, sink: WireId) -> (r:
    Option<BreakCause>)
    requires
        ctx.wf(),
        ctx.routing_ok(tree@),
        ctx.chipdb.valid_wire(source),
        ctx.chipdb.valid_wire(sink),
    ensures
        r is None <==> leads_back(*ctx, tree@, source, sink),
        r is Some ==> breaks_by(*ctx, tree@, sink, r->0),
{
    let source_const: i32 = ctx.chipdb.wire_info(source).const_value;
    let source_node: Option<u64> = ctx.chipdb.node_id(source);
    let mut cur: WireId = sink;
    let mut seen: IdMap<WireId, ()> = IdMap::new();
    let ghost all = ctx.chipdb.all_wires().to_set();
    let ghost mut n: nat = 0;
    let ghost mut met: Set<WireId> = Set::empty();
    proof {
        vstd::seq_lib::seq_to_set_is_finite(ctx.chipdb.all_wires());
    }
    loop
        invariant
            ctx.wf(),
            ctx.routing_ok(tree@),
            ctx.chipdb.valid_wire(source),
            ctx.chipdb.valid_wire(cur),
            source_const == ctx.chipdb.wire(source).const_value,
            source_node == ctx.chipdb.node(source),
            climb(*ctx, tree@, sink, n) == Some(cur),
            all == ctx.chipdb.all_wires().to_set(),
            all.finite(),
            met.finite(),
            met.subset_of(all),
            forall|w: WireId| #[trigger] seen@.contains_key(w) <==> met.contains(w),
            forall|w: WireId| #[trigger]
                met.contains(w) ==> exists|i: nat| i < n && #[trigger] climb(*ctx, tree@, sink, i) == Some(w),
            forall|i: nat|
                i < n ==> (#[trigger] climb(*ctx, tree@, sink, i)) is Some && !at_source(
                    *ctx,
                    tree@,
                    source,
                    climb(*ctx, tree@, sink, i)->0,
                ),
        decreases all.len() - met.len(),
    {
        if cur == source {
            assert(leads_back(*ctx, tree@, source, sink));
            return None;
        }
        if source_node.is_some() && ctx.chipdb.node_id(cur) == source_node {
            assert(leads_back(*ctx, tree@, source, sink));
            return None;
        }
        if source_const != 0 && ctx.chipdb.wire_info(cur).const_value == source_const
            && tree.contains_key(cur) {
            assert(leads_back(*ctx, tree@, source, sink));
            return None;
        }
        assert(!at_source(*ctx, tree@, source, cur));
        if seen.contains_key(cur) {
            proof {
                let k = choose|i: nat| i < n && #[trigger] climb(*ctx, tree@, sink, i) == Some(cur);
                assert forall|m: nat| (#[trigger] climb(*ctx, tree@, sink, m)) is Some && !at_source(
                    *ctx,
                    tree@,
                    source,
                    climb(*ctx, tree@, sink, m)->0,
                ) by {
                    lemma_circle(*ctx, tree@, sink, k, n, m);
                }
            }
            return Some(BreakCause::Cycle);
        }
        proof {
            ctx.chipdb.lemma_wires_upto(ctx.chipdb.tiles@.len() as int, cur);
            vstd::set_lib::lemma_len_subset(met.insert(cur), all);
        }
        let _ = seen.insert(cur, ());
        let ghost old_met = met;
        proof {
            met = met.insert(cur);
        }
        let up: Option<WireId> = match tree.get(cur) {
            Some(pm) => match pm.pip {
                Some(p) => Some(ctx.chipdb.pip_src_wire(p)),
                None => None,
            },
            None => {
                let peers = ctx.chipdb.node_wires(cur);
                proof {
                    lemma_first_in_tree(tree@, peers@);
                    ctx.chipdb.lemma_peers(cur);
                }
                find_in_tree(tree, &peers)
            },
        };
        assert(up == up_from(*ctx, tree@, cur));
        match up {
            Some(x) => {
                proof {
                    assert(climb(*ctx, tree@, sink, (n + 1) as nat) == Some(x));
                    assert forall|w: WireId| #[trigger] met.contains(w) implies exists|i: nat|
                        i < n + 1 && #[trigger] climb(*ctx, tree@, sink, i) == Some(w) by {
                        if w == cur {
                            assert(climb(*ctx, tree@, sink, n) == Some(w));
                        } else {
                            let i = choose|i: nat|
                                i < n && #[trigger] climb(*ctx, tree@, sink, i) == Some(w);
                            assert(i < n + 1);
                        }
                    }
                    n = n + 1;
                }
                cur = x;
            },
            None => {
                proof {
                    assert forall|m: nat| (#[trigger] climb(*ctx, tree@, sink, m)) is Some implies !at_source(
                        *ctx,
                        tree@,
                        source,
                        climb(*ctx, tree@, sink, m)->0,
                    ) by {
                        if m > n {
                            lemma_climb_prefix(*ctx, tree@, sink, (n + 1) as nat, m);
                            assert(climb(*ctx, tree@, sink, (n + 1) as nat) is None);
                        }
                    }
                }
                if tree.contains_key(cur) {
                    assert(breaks_by(*ctx, tree@, sink, BreakCause::NoParentPip));
                    return Some(BreakCause::NoParentPip);
                }
                assert(breaks_by(*ctx, tree@, sink, BreakCause::LeftTree));
                return Some(BreakCause::LeftTree);
            },
        }
    }
}

/// The number of the first `n` wires of a list for which a test holds.
pub open spec fn count_where(s: Seq<WireId>, test: spec_fn(WireId) -> bool, n: int) -> nat
    decreases n,
{
    if n <= 0 {
        0
    } else if test(s[n - 1]) {
        count_where(s, test, n - 1) + 1
    } else {
        count_where(s, test, n - 1)
    }
}

/// The wires of a tree for which a test holds.
pub open spec fn tree_wires(tree: Map<WireId, PipMap>, test: spec_fn(WireId) -> bool) -> Set<WireId> {
    Set::new(|w: WireId| tree.contains_key(w) && test(w))
}

/// Counting along a list without repetition counts a set.
proof fn lemma_count_where(s: Seq<WireId>, test: spec_fn(WireId) -> bool, n: int)
    requires
        s.no_duplicates(),
        0 <= n <= s.len(),
    ensures
        Set::new(|w: WireId| s.take(n).contains(w) && test(w)).finite(),
        Set::new(|w: WireId| s.take(n).contains(w) && test(w)).len() == count_where(s, test, n),
    decreases n,
{
    let set = Set::new(|w: WireId| s.take(n).contains(w) && test(w));
    if n == 0 {
        assert(set =~= Set::empty());
    } else {
        lemma_count_where(s, test, n - 1);
        let part = s.take(n - 1);
        let whole = s.take(n);
        let before = Set::new(|w: WireId| part.contains(w) && test(w));
        let x = s[n - 1];
        assert(whole[n - 1] == x);
        assert(!part.contains(x)) by {
            if part.contains(x) {
                let i = choose|i: int| 0 <= i < part.len() && part[i] == x;
                assert(s[i] == s[n - 1]);
            }
        }
        assert forall|w: WireId| #[trigger] whole.contains(w) <==> part.contains(w) || w == x by {
            if part.contains(w) {
                let i = choose|i: int| 0 <= i < part.len() && part[i] == w;
                assert(whole[i] == w);
            }
            if whole.contains(w) {
                let i = choose|i: int| 0 <= i < whole.len() && whole[i] == w;
                if i < n - 1 {
                    assert(part[i] == w);
                }
            }
        }
        if test(x) {
            assert(set =~= before.insert(x));
        } else {
            assert(set =~= before);
        }
    }
}

/// Counting along the keys of a tree counts the wires of the tree.
proof fn lemma_count_tree(tree: Map<WireId, PipMap>, keys: Seq<WireId>, test: spec_fn(WireId) -> bool)
    requires
        keys.no_duplicates(),
        forall|w: WireId| #[trigger] keys.contains(w) <==> tree.contains_key(w),
    ensures
        tree_wires(tree, test).finite(),
        tree_wires(tree, test).len() == count_where(keys, test, keys.len() as int),
{
    lemma_count_where(keys, test, keys.len() as int);
    assert(keys.take(keys.len() as int) =~= keys);
    assert(tree_wires(tree, test) =~= Set::new(
        |w: WireId| keys.take(keys.len() as int).contains(w) && test(w),
    ));
}

/// Holds of the wires that the net does not hold.
pub open spec fn wire_mismatch(ctx: Context, net: NetId) -> spec_fn(WireId) -> bool {
    |w: WireId| ctx.owner(w) != Some(net)
}

/// Holds of the wires that are driven by a pip that the net does not hold.
pub open spec fn pip_mismatch(ctx: Context, tree: Map<WireId, PipMap>, net: NetId) -> spec_fn(WireId) -> bool {
    |w: WireId| tree[w].pip is Some && ctx.pip_owner(tree[w].pip->0) != Some(net)
}

/// Holds of the wires that a pip drives.
pub open spec fn driven_by(tree: Map<WireId, PipMap>, p: PipId) -> spec_fn(WireId) -> bool {
    |w: WireId| tree[w].pip == Some(p)
}

/// How many of the first `n` nets claim a wire.
pub open spec fn wire_claims(design: Design, w: WireId, n: int) -> nat
    decreases n,
{
    if n <= 0 {
        0
    } else {
        wire_claims(design, w, n - 1) + if design.nets@[n - 1].routable()
            && design.nets@[n - 1].wires@.contains_key(w) {
            1nat
        } else {
            0nat
        }
    }
}

/// How often the first `n` nets claim a pip.
pub open spec fn pip_claims(design: Design, p: PipId, n: int) -> nat
    decreases n,
{
    if n <= 0 {
        0
    } else {
        let tree = design.nets@[n - 1].wires@;
        pip_claims(design, p, n - 1) + if design.nets@[n - 1].routable() {
            tree_wires(tree, driven_by(tree, p)).len()
        } else {
            0nat
        }
    }
}

/// What can be wrong with one net.
pub enum NetFault {
    UnplacedDriver,
    MissingSourceWire,
    SourceNotInTree,
    UnplacedUser,
    MissingSinkWire,
    SinkNotInTree,
    DisconnectedSink,
    WireMismatch,
    PipMismatch,
}

/// What is wrong with a user of a net whose source wire is known.
pub open spec fn user_fault(ctx: Context, net: Net, source: WireId, u: CellPin) -> Option<NetFault> {
    if !u.connected() {
        None
    } else if ctx.design.cell_of(u.cell).bel is None {
        Some(NetFault::UnplacedUser)
    } else if ctx.wire_of_pin(u) is None {
        Some(NetFault::MissingSinkWire)
    } else if !in_tree(ctx, net.wires@, ctx.wire_of_pin(u)->0) {
        Some(NetFault::SinkNotInTree)
    } else if !leads_back(ctx, net.wires@, source, ctx.wire_of_pin(u)->0) {
        Some(NetFault::DisconnectedSink)
    } else {
        None
    }
}

/// How many of the first `n` users of a net have a fault.
pub open spec fn user_faults(ctx: Context, net: Net, source: WireId, fault: NetFault, n: int) -> nat
    decreases n,
{
    if n <= 0 {
        0
    } else {
        user_faults(ctx, net, source, fault, n - 1) + if user_fault(ctx, net, source, net.users@[n - 1])
            == Some(fault) {
            1nat
        } else {
            0nat
        }
    }
}

/// How often a net has a fault.
pub open spec fn net_faults(ctx: Context, id: NetId, fault: NetFault) -> nat {
    let net = ctx.design.net_of(id);
    let source = ctx.wire_of_pin(net.driver);
    if !net.routable() {
        0
    } else {
        match fault {
            NetFault::WireMismatch => tree_wires(net.wires@, wire_mismatch(ctx, id)).len(),
            NetFault::PipMismatch => tree_wires(net.wires@, pip_mismatch(ctx, net.wires@, id)).len(),
            NetFault::UnplacedDriver => if ctx.design.cell_of(net.driver.cell).bel is None {
                1
            } else {
                0
            },
            NetFault::MissingSourceWire => if ctx.design.cell_of(net.driver.cell).bel is Some && source is None {
                1
            } else {
                0
            },
            NetFault::SourceNotInTree => if source is Some && !in_tree(ctx, net.wires@, source->0) {
                1
            } else {
                0
            },
            _ => if source is Some {
                user_faults(ctx, net, source->0, fault, net.users@.len() as int)
            } else {
                0
            },
        }
    }
}

/// How often the first `n` nets have a fault.
pub open spec fn faults(ctx: Context, fault: NetFault, n: int) -> nat
    decreases n,
{
    if n <= 0 {
        0
    } else {
        faults(ctx, fault, n - 1) + net_faults(ctx, NetId((n - 1) as u32), fault)
    }
}

/// A place where something is wrong with a net: its driver, one of its users, or a wire of its tree.
pub enum Site {
    Driver(NetId),
    User(NetId, int),
    TreeWire(NetId, WireId),
}

/// The users among the first `n` of a net that have a fault.
pub open spec fn user_sites(ctx: Context, id: NetId, source: WireId, fault: NetFault, n: int) -> Seq<Site>
    decreases n,
{
    let net = ctx.design.net_of(id);
    if n <= 0 {
        Seq::empty()
    } else if user_fault(ctx, net, source, net.users@[n - 1]) == Some(fault) {
        user_sites(ctx, id, source, fault, n - 1).push(Site::User(id, n - 1))
    } else {
        user_sites(ctx, id, source, fault, n - 1)
    }
}

/// Where a net has a fault of its driver or of its users.
pub open spec fn net_sites(ctx: Context, id: NetId, fault: NetFault) -> Seq<Site> {
    let net = ctx.design.net_of(id);
    let source = ctx.wire_of_pin(net.driver);
    match fault {
        NetFault::UnplacedDriver | NetFault::MissingSourceWire | NetFault::SourceNotInTree => if net_faults(
            ctx,
            id,
            fault,
        ) > 0 {
            seq![Site::Driver(id)]
        } else {
            Seq::empty()
        },
        _ => if net.routable() && source is Some {
            user_sites(ctx, id, source->0, fault, net.users@.len() as int)
        } else {
            Seq::empty()
        },
    }
}

/// Where the first `n` nets have a fault of their drivers or of their users, in order.
pub open spec fn fault_sites(ctx: Context, fault: NetFault, n: int) -> Seq<Site>
    decreases n,
{
    if n <= 0 {
        Seq::empty()
    } else {
        fault_sites(ctx, fault, n - 1) + net_sites(ctx, NetId((n - 1) as u32), fault)
    }
}

/// The wire of the tree of a net, or the pip that drives it, is not held by the net.
pub open spec fn mismatch_at(ctx: Context, fault: NetFault, id: NetId, w: WireId) -> bool {
    match fault {
        NetFault::WireMismatch => wire_mismatch(ctx, id)(w),
        NetFault::PipMismatch => pip_mismatch(ctx, ctx.design.net_of(id).wires@, id)(w),
        _ => false,
    }
}

/// The place is a wire of the tree of one of the first `n` nets that does not hold it or its pip.
pub open spec fn mismatched(ctx: Context, fault: NetFault, site: Site, n: int) -> bool {
    match site {
        Site::TreeWire(id, w) => id.0 < n && ctx.design.net_of(id).routable() && ctx.design.net_of(
            id,
        ).wires@.contains_key(w) && mismatch_at(ctx, fault, id, w),
        _ => false,
    }
}

/// The places are those where the first `n` nets do not hold what they list, once each.
pub open spec fn all_mismatches(ctx: Context, fault: NetFault, sites: Seq<Site>, n: int) -> bool {
    &&& sites.no_duplicates()
    &&& forall|s: Site| #[trigger] sites.contains(s) <==> mismatched(ctx, fault, s, n)
}

/// The issue tells what is wrong at a place.
pub open spec fn tells(ctx: Context, fault: NetFault, site: Site, issue: Issue) -> bool {
    match site {
        Site::Driver(id) => {
            let net = ctx.design.net_of(id);
            match fault {
                NetFault::UnplacedDriver => issue == (Issue::UnplacedDriver { net: id, pin: net.driver }),
                NetFault::MissingSourceWire => issue == (Issue::MissingSourceWire {
                    net: id,
                    pin: net.driver,
                }),
                NetFault::SourceNotInTree => issue == (Issue::SourceNotInTree {
                    net: id,
                    wire: ctx.wire_of_pin(net.driver)->0,
                    tree_wires: net.wires@.dom().len() as usize,
                }),
                _ => false,
            }
        },
        Site::User(id, j) => {
            let net = ctx.design.net_of(id);
            let pin = net.users@[j];
            let sink = ctx.wire_of_pin(pin)->0;
            match fault {
                NetFault::UnplacedUser => issue == (Issue::UnplacedUser { net: id, pin }),
                NetFault::MissingSinkWire => issue == (Issue::MissingSinkWire { net: id, pin }),
                NetFault::SinkNotInTree => issue == (Issue::SinkNotInTree { net: id, wire: sink, pin }),
                NetFault::DisconnectedSink => {
                    &&& issue is DisconnectedSink
                    &&& issue == (Issue::DisconnectedSink {
                        net: id,
                        wire: sink,
                        pin,
                        cause: issue->cause,
                    })
                    &&& breaks_by(ctx, net.wires@, sink, issue->cause)
                },
                _ => false,
            }
        },
        Site::TreeWire(id, w) => match fault {
            NetFault::WireMismatch => issue == (Issue::WireBindingMismatch {
                net: id,
                wire: w,
                owner: ctx.owner(w),
            }),
            NetFault::PipMismatch => {
                let pip = ctx.design.net_of(id).wires@[w].pip->0;
                issue == (Issue::PipBindingMismatch { net: id, pip, owner: ctx.pip_owner(pip) })
            },
            _ => false,
        },
    }
}

impl Bucket {
    /// The bucket stands for the faults at the places, and its examples tell of the first of them.
    pub open spec fn lists(self, ctx: Context, fault: NetFault, sites: Seq<Site>) -> bool {
        &&& self.counts(sites.len())
        &&& forall|k: int|
            0 <= k < self.examples@.len() ==> tells(ctx, fault, sites[k], #[trigger] self.examples@[k])
    }

    /// The bucket stands for contested wires, and its examples tell of the first of them.
    pub open spec fn lists_wires(self, design: Design, wires: Seq<WireId>) -> bool {
        &&& self.counts(wires.len())
        &&& forall|k: int|
            0 <= k < self.examples@.len() ==> wire_contest(design, wires[k], #[trigger] self.examples@[k])
    }

    /// The bucket stands for contested pips, and its examples tell of the first of them.
    pub open spec fn lists_pips(self, design: Design, pips: Seq<PipId>) -> bool {
        &&& self.counts(pips.len())
        &&& forall|k: int|
            0 <= k < self.examples@.len() ==> pip_contest(design, pips[k], #[trigger] self.examples@[k])
    }
}

/// The nets among the first `n` that claim a wire, in order.
pub open spec fn wire_claimants(design: Design, w: WireId, n: int) -> Seq<NetId>
    decreases n,
{
    if n <= 0 {
        Seq::empty()
    } else if design.nets@[n - 1].routable() && design.nets@[n - 1].wires@.contains_key(w) {
        wire_claimants(design, w, n - 1).push(NetId((n - 1) as u32))
    } else {
        wire_claimants(design, w, n - 1)
    }
}

/// The nets among the first `n` that claim a pip, in order, each as often as it claims the pip.
pub open spec fn pip_claimants(design: Design, p: PipId, n: int) -> Seq<NetId>
    decreases n,
{
    if n <= 0 {
        Seq::empty()
    } else {
        let tree = design.nets@[n - 1].wires@;
        pip_claimants(design, p, n - 1) + if design.nets@[n - 1].routable() {
            repeated(NetId((n - 1) as u32), tree_wires(tree, driven_by(tree, p)).len())
        } else {
            Seq::empty()
        }
    }
}

/// One net, a number of times.
pub open spec fn repeated(id: NetId, n: nat) -> Seq<NetId> {
    Seq::new(n, |i: int| id)
}

/// The issue names a wire and all nets that claim it.
pub open spec fn wire_contest(design: Design, w: WireId, issue: Issue) -> bool {
    &&& issue is WireConflict
    &&& issue->WireConflict_wire == w
    &&& issue->WireConflict_nets@ == wire_claimants(design, w, design.nets@.len() as int)
}

/// The issue names a pip and all nets that claim it.
pub open spec fn pip_contest(design: Design, p: PipId, issue: Issue) -> bool {
    &&& issue is PipConflict
    &&& issue->PipConflict_pip == p
    &&& issue->PipConflict_nets@ == pip_claimants(design, p, design.nets@.len() as int)
}

proof fn lemma_wire_claimants(design: Design, w: WireId, n: int)
    ensures
        wire_claimants(design, w, n).len() == wire_claims(design, w, n),
    decreases n,
{
    if n > 0 {
        lemma_wire_claimants(design, w, n - 1);
    }
}

proof fn lemma_pip_claimants(design: Design, p: PipId, n: int)
    ensures
        pip_claimants(design, p, n).len() == pip_claims(design, p, n),
    decreases n,
{
    if n > 0 {
        lemma_pip_claimants(design, p, n - 1);
    }
}

proof fn lemma_user_sites(ctx: Context, id: NetId, source: WireId, fault: NetFault, n: int)
    ensures
        user_sites(ctx, id, source, fault, n).len() == user_faults(
            ctx,
            ctx.design.net_of(id),
            source,
            fault,
            n,
        ),
    decreases n,
{
    if n > 0 {
        lemma_user_sites(ctx, id, source, fault, n - 1);
    }
}

/// There are as many places as faults.
proof fn lemma_fault_sites(ctx: Context, fault: NetFault, n: int)
    requires
        !(fault is WireMismatch),
        !(fault is PipMismatch),
    ensures
        fault_sites(ctx, fault, n).len() == faults(ctx, fault, n),
    decreases n,
{
    if n > 0 {
        lemma_fault_sites(ctx, fault, n - 1);
        let id = NetId((n - 1) as u32);
        let net = ctx.design.net_of(id);
        let source = ctx.wire_of_pin(net.driver);
        if source is Some {
            lemma_user_sites(ctx, id, source->0, fault, net.users@.len() as int);
        }
    }
}

/// The wires that more than one net claims.
pub open spec fn contested_wires(design: Design) -> Set<WireId> {
    Set::new(|w: WireId| wire_claims(design, w, design.nets@.len() as int) > 1)
}

/// The pips that are claimed more than once.
pub open spec fn contested_pips(design: Design) -> Set<PipId> {
    Set::new(|p: PipId| pip_claims(design, p, design.nets@.len() as int) > 1)
}

impl ValidationReport {
    /// The report lists the faults of the drivers and the users of the first `n` nets.
    pub open spec fn lists_ends(self, ctx: Context, n: int) -> bool {
        &&& self.unplaced_driver.lists(
            ctx,
            NetFault::UnplacedDriver,
            fault_sites(ctx, NetFault::UnplacedDriver, n),
        )
        &&& self.unplaced_user.lists(
            ctx,
            NetFault::UnplacedUser,
            fault_sites(ctx, NetFault::UnplacedUser, n),
        )
        &&& self.missing_source_wire.lists(
            ctx,
            NetFault::MissingSourceWire,
            fault_sites(ctx, NetFault::MissingSourceWire, n),
        )
        &&& self.missing_sink_wire.lists(
            ctx,
            NetFault::MissingSinkWire,
            fault_sites(ctx, NetFault::MissingSinkWire, n),
        )
        &&& self.source_not_in_tree.lists(
            ctx,
            NetFault::SourceNotInTree,
            fault_sites(ctx, NetFault::SourceNotInTree, n),
        )
        &&& self.sink_not_in_tree.lists(
            ctx,
            NetFault::SinkNotInTree,
            fault_sites(ctx, NetFault::SinkNotInTree, n),
        )
        &&& self.disconnected_sink.lists(
            ctx,
            NetFault::DisconnectedSink,
            fault_sites(ctx, NetFault::DisconnectedSink, n),
        )
    }

    /// The report of a state: the faults of drivers and users in the order of the nets, and the
    /// other faults in some order.
    pub open spec fn describes(self, ctx: Context) -> bool {
        let n = ctx.design.nets@.len() as int;
        &&& self.lists_ends(ctx, n)
        &&& lists_mismatches(ctx, NetFault::WireMismatch, self.wire_binding_mismatch, n)
        &&& lists_mismatches(ctx, NetFault::PipMismatch, self.pip_binding_mismatch, n)
        &&& lists_wire_contests(ctx.design, self.wire_conflict)
        &&& lists_pip_contests(ctx.design, self.pip_conflict)
    }
}

/// The places, and the bucket that lists them.
pub open spec fn mismatches_in(ctx: Context, fault: NetFault, b: Bucket, n: int, sites: Seq<Site>) -> bool {
    all_mismatches(ctx, fault, sites, n) && b.lists(ctx, fault, sites) && sites.len() == faults(
        ctx,
        fault,
        n,
    )
}

/// The bucket lists, in some order, where the first `n` nets do not hold what they list.
pub open spec fn lists_mismatches(ctx: Context, fault: NetFault, b: Bucket, n: int) -> bool {
    exists|sites: Seq<Site>| #[trigger] mismatches_in(ctx, fault, b, n, sites)
}

/// The wires, and the bucket that lists them.
pub open spec fn wire_contests_in(design: Design, b: Bucket, wires: Seq<WireId>) -> bool {
    wires.no_duplicates() && wires.to_set() == contested_wires(design) && b.lists_wires(design, wires)
}

/// The bucket lists the contested wires, in some order.
pub open spec fn lists_wire_contests(design: Design, b: Bucket) -> bool {
    exists|wires: Seq<WireId>| #[trigger] wire_contests_in(design, b, wires)
}

/// The pips, and the bucket that lists them.
pub open spec fn pip_contests_in(design: Design, b: Bucket, pips: Seq<PipId>) -> bool {
    pips.no_duplicates() && pips.to_set() == contested_pips(design) && b.lists_pips(design, pips)
}

/// The bucket lists the contested pips, in some order.
pub open spec fn lists_pip_contests(design: Design, b: Bucket) -> bool {
    exists|pips: Seq<PipId>| #[trigger] pip_contests_in(design, b, pips)
}

/// Nothing is wrong with the state.
pub open spec fn no_faults(ctx: Context) -> bool {
    let n = ctx.design.nets@.len() as int;
    &&& faults(ctx, NetFault::UnplacedDriver, n) == 0
    &&& faults(ctx, NetFault::UnplacedUser, n) == 0
    &&& faults(ctx, NetFault::MissingSourceWire, n) == 0
    &&& faults(ctx, NetFault::MissingSinkWire, n) == 0
    &&& faults(ctx, NetFault::SourceNotInTree, n) == 0
    &&& faults(ctx, NetFault::SinkNotInTree, n) == 0
    &&& faults(ctx, NetFault::DisconnectedSink, n) == 0
    &&& faults(ctx, NetFault::WireMismatch, n) == 0
    &&& faults(ctx, NetFault::PipMismatch, n) == 0
    &&& contested_wires(ctx.design).len() == 0
    &&& contested_pips(ctx.design).len() == 0
}

/// The claims that were noted are those of the first `n` nets.
pub open spec fn claims_noted(ctx: Context, noted: Map<WireId, Vec<NetId>>, n: int) -> bool {
    forall|w: WireId|
        (#[trigger] noted.contains_key(w) <==> wire_claims(ctx.design, w, n) > 0) && (noted.contains_key(w)
            ==> noted[w]@ == wire_claimants(ctx.design, w, n))
}

/// The claims on pips that were noted are those of the first `n` nets.
pub open spec fn pip_claims_noted(ctx: Context, noted: Map<PipId, Vec<NetId>>, n: int) -> bool {
    forall|p: PipId|
        (#[trigger] noted.contains_key(p) <==> pip_claims(ctx.design, p, n) > 0) && (noted.contains_key(p)
            ==> noted[p]@ == pip_claimants(ctx.design, p, n))
}

/// The claims on a key, none where none are noted.
spec fn noted_at<K>(noted: Map<K, Vec<NetId>>, k: K) -> Seq<NetId> {
    if noted.contains_key(k) {
        noted[k]@
    } else {
        Seq::empty()
    }
}

/// Notes one more claim.
fn claim<K: MapKey>(noted: &mut IdMap<K, Vec<NetId>>, k: K, net: NetId)
    ensures
        final(noted)@.dom() == old(noted)@.dom().insert(k),
        forall|x: K| x != k && #[trigger] old(noted)@.contains_key(x) ==> final(noted)@[x] == old(noted)@[x],
        final(noted)@[k]@ == noted_at(old(noted)@, k).push(net),
{
    let mut list: Vec<NetId> = match noted.remove(k) {
        Some(v) => v,
        None => Vec::new(),
    };
    list.push(net);
    let _ = noted.insert(k, list);
    assert(noted@.dom() =~= old(noted)@.dom().insert(k));
}

impl Bucket {
    /// Counts an issue at one more place.
    fn note_at(
        &mut self,
        ctx: &Context,
        issue: Issue,
        Ghost(fault): Ghost<NetFault>,
        Ghost(sites): Ghost<Seq<Site>>,
        Ghost(site): Ghost<Site>,
    )
        requires
            old(self).lists(*ctx, fault, sites),
            tells(*ctx, fault, site, issue),
        ensures
            final(self).lists(*ctx, fault, sites.push(site)),
    {
        self.note(issue);
        proof {
            let was = *old(self);
            let now = *self;
            assert forall|k: int| 0 <= k < now.examples@.len() implies tells(
                *ctx,
                fault,
                sites.push(site)[k],
                #[trigger] now.examples@[k],
            ) by {
                if k < was.examples@.len() {
                    assert(now.examples@[k] == was.examples@[k]);
                    assert(sites.push(site)[k] == sites[k]);
                }
            }
        }
    }
}

/// The place is among those of the nets before `id`, or a wire of a part of the tree of `id`.
spec fn mismatched_so_far(ctx: Context, fault: NetFault, s: Site, id: NetId, part: Seq<WireId>) -> bool {
    ||| mismatched(ctx, fault, s, id.0 as int)
    ||| s is TreeWire && s->TreeWire_0 == id && part.contains(s->TreeWire_1) && mismatch_at(
        ctx,
        fault,
        id,
        s->TreeWire_1,
    )
}

/// The places so far are known, once each.
spec fn mismatches_so_far(ctx: Context, fault: NetFault, sites: Seq<Site>, id: NetId, part: Seq<WireId>) -> bool {
    &&& sites.no_duplicates()
    &&& forall|s: Site| #[trigger] sites.contains(s) <==> mismatched_so_far(ctx, fault, s, id, part)
}

/// One more wire of the tree is looked at.
proof fn lemma_mismatch_step(
    ctx: Context,
    fault: NetFault,
    sites: Seq<Site>,
    id: NetId,
    part: Seq<WireId>,
    w: WireId,
)
    requires
        mismatches_so_far(ctx, fault, sites, id, part),
        !part.contains(w),
    ensures
        mismatch_at(ctx, fault, id, w) ==> mismatches_so_far(
            ctx,
            fault,
            sites.push(Site::TreeWire(id, w)),
            id,
            part.push(w),
        ),
        !mismatch_at(ctx, fault, id, w) ==> mismatches_so_far(ctx, fault, sites, id, part.push(w)),
{
    let site = Site::TreeWire(id, w);
    let whole = part.push(w);
    assert forall|x: WireId| #[trigger] whole.contains(x) <==> part.contains(x) || x == w by {
        lemma_push_contains(part, w, x);
    }
    assert(!mismatched_so_far(ctx, fault, site, id, part));
    assert(!sites.contains(site));
    let more = sites.push(site);
    assert forall|s: Site| #[trigger] more.contains(s) <==> sites.contains(s) || s == site by {
        lemma_push_contains(sites, site, s);
    }
    assert(more.no_duplicates()) by {
        assert forall|i: int, j: int| 0 <= i < more.len() && 0 <= j < more.len() && i != j implies more[i]
            != more[j] by {
            if i < sites.len() {
                assert(sites.contains(sites[i]));
            }
            if j < sites.len() {
                assert(sites.contains(sites[j]));
            }
        }
    }
    if mismatch_at(ctx, fault, id, w) {
        assert forall|s: Site| #[trigger] more.contains(s) <==> mismatched_so_far(ctx, fault, s, id, whole) by {
            assert(sites.contains(s) <==> mismatched_so_far(ctx, fault, s, id, part));
        }
    } else {
        assert forall|s: Site| #[trigger] sites.contains(s) <==> mismatched_so_far(ctx, fault, s, id, whole) by {
        }
    }
}

/// The whole tree is looked at.
proof fn lemma_mismatch_end(ctx: Context, fault: NetFault, sites: Seq<Site>, id: NetId, keys: Seq<WireId>)
    requires
        mismatches_so_far(ctx, fault, sites, id, keys),
        ctx.design.net_of(id).routable(),
        forall|w: WireId| #[trigger] keys.contains(w) <==> ctx.design.net_of(id).wires@.contains_key(w),
    ensures
        all_mismatches(ctx, fault, sites, id.0 + 1),
{
    assert forall|s: Site| #[trigger] sites.contains(s) <==> mismatched(ctx, fault, s, id.0 + 1) by {
        assert(sites.contains(s) <==> mismatched_so_far(ctx, fault, s, id, keys));
    }
}

/// Looks at the tree of a net: which wires and pips it claims, and which of them it does not hold.
#[verifier::spinoff_prover]
#[verifier::rlimit(60)]
fn check_tree(
    ctx: &Context,
    id: NetId,
    wire_bucket: &mut Bucket,
    pip_bucket: &mut Bucket,
    wires: &mut IdMap<WireId, Vec<NetId>>,
    pips: &mut IdMap<PipId, Vec<NetId>>,
)
    requires
        ctx.wf(),
        ctx.design.valid_net(id),
        ctx.design.net_of(id).routable(),
        lists_mismatches(*ctx, NetFault::WireMismatch, *old(wire_bucket), id.0 as int),
        lists_mismatches(*ctx, NetFault::PipMismatch, *old(pip_bucket), id.0 as int),
        claims_noted(*ctx, old(wires)@, id.0 as int),
        pip_claims_noted(*ctx, old(pips)@, id.0 as int),
    ensures
        lists_mismatches(*ctx, NetFault::WireMismatch, *final(wire_bucket), id.0 + 1),
        lists_mismatches(*ctx, NetFault::PipMismatch, *final(pip_bucket), id.0 + 1),
        claims_noted(*ctx, final(wires)@, id.0 + 1),
        pip_claims_noted(*ctx, final(pips)@, id.0 + 1),
{
    let net = ctx.net(id);
    let keys = net.wires.keys();
    let ghost tree = net.wires@;
    let ghost wm = wire_mismatch(*ctx, id);
    let ghost pm = pip_mismatch(*ctx, tree, id);
    let ghost w0 = faults(*ctx, NetFault::WireMismatch, id.0 as int);
    let ghost p0 = faults(*ctx, NetFault::PipMismatch, id.0 as int);
    let ghost mut ws: Seq<Site> = choose|sites: Seq<Site>| #[trigger]
        mismatches_in(*ctx, NetFault::WireMismatch, *wire_bucket, id.0 as int, sites);
    let ghost mut ps: Seq<Site> = choose|sites: Seq<Site>| #[trigger]
        mismatches_in(*ctx, NetFault::PipMismatch, *pip_bucket, id.0 as int, sites);
    proof {
        assert forall|w: WireId| !(#[trigger] keys@.take(0).contains(w)) by {
        }
        assert(mismatches_so_far(*ctx, NetFault::WireMismatch, ws, id, keys@.take(0)));
        assert(mismatches_so_far(*ctx, NetFault::PipMismatch, ps, id, keys@.take(0)));
        assert forall|w: WireId| wires@.contains_key(w) implies noted_at(wires@, w) == wire_claimants(
            ctx.design,
            w,
            id.0 as int,
        ) by {
        }
        assert forall|w: WireId| #[trigger] noted_at(wires@, w) == wire_claimants(ctx.design, w, id.0 as int) by {
            lemma_wire_claimants(ctx.design, w, id.0 as int);
        }
        assert forall|p: PipId| #[trigger] noted_at(pips@, p) =~= pip_claimants(ctx.design, p, id.0 as int)
            + repeated(id, count_where(keys@, driven_by(tree, p), 0)) by {
            lemma_pip_claimants(ctx.design, p, id.0 as int);
        }
    }
    for i in 0..keys.len()
        invariant
            ctx.wf(),
            *net == ctx.design.net_of(id),
            tree == net.wires@,
            wm == wire_mismatch(*ctx, id),
            pm == pip_mismatch(*ctx, tree, id),
            keys@.no_duplicates(),
            forall|w: WireId| #[trigger] keys@.contains(w) <==> tree.contains_key(w),
            ws.len() == w0 + count_where(keys@, wm, i as int),
            ps.len() == p0 + count_where(keys@, pm, i as int),
            wire_bucket.lists(*ctx, NetFault::WireMismatch, ws),
            pip_bucket.lists(*ctx, NetFault::PipMismatch, ps),
            mismatches_so_far(*ctx, NetFault::WireMismatch, ws, id, keys@.take(i as int)),
            mismatches_so_far(*ctx, NetFault::PipMismatch, ps, id, keys@.take(i as int)),
            forall|w: WireId| #[trigger]
                wires@.contains_key(w) <==> wire_claims(ctx.design, w, id.0 as int) > 0 || keys@.take(
                    i as int,
                ).contains(w),
            forall|w: WireId| #[trigger]
                noted_at(wires@, w) == if keys@.take(i as int).contains(w) {
                    wire_claimants(ctx.design, w, id.0 as int).push(id)
                } else {
                    wire_claimants(ctx.design, w, id.0 as int)
                },
            forall|p: PipId| #[trigger]
                pips@.contains_key(p) <==> pip_claims(ctx.design, p, id.0 as int) + count_where(
                    keys@,
                    driven_by(tree, p),
                    i as int,
                ) > 0,
            forall|p: PipId| #[trigger]
                noted_at(pips@, p) == pip_claimants(ctx.design, p, id.0 as int) + repeated(
                    id,
                    count_where(keys@, driven_by(tree, p), i as int),
                ),
    {
        let w: WireId = keys[i];
        let ghost part = keys@.take(i as int);
        let ghost whole = keys@.take(i + 1);
        proof {
            assert(keys@.contains(w));
            assert(whole =~= part.push(w));
            assert(!part.contains(w)) by {
                if part.contains(w) {
                    let j = choose|j: int| 0 <= j < part.len() && part[j] == w;
                    assert(keys@[j] == keys@[i as int]);
                }
            }
            assert forall|x: WireId| #[trigger] whole.contains(x) <==> part.contains(x) || x == w by {
                lemma_push_contains(part, w, x);
            }
            lemma_mismatch_step(*ctx, NetFault::WireMismatch, ws, id, part, w);
            lemma_mismatch_step(*ctx, NetFault::PipMismatch, ps, id, part, w);
        }
        let ghost wires0 = wires@;
        claim(wires, w, id);
        proof {
            assert forall|x: WireId| #[trigger] noted_at(wires@, x) == (if whole.contains(x) {
                wire_claimants(ctx.design, x, id.0 as int).push(id)
            } else {
                wire_claimants(ctx.design, x, id.0 as int)
            }) by {
                assert(noted_at(wires0, x) == if part.contains(x) {
                    wire_claimants(ctx.design, x, id.0 as int).push(id)
                } else {
                    wire_claimants(ctx.design, x, id.0 as int)
                });
                assert(wires@.contains_key(x) <==> wires0.contains_key(x) || x == w);
            }
        }
        let owner: Option<NetId> = match ctx.wire_binding(w) {
            Some(b) => Some(b.net),
            None => None,
        };
        assert(owner == ctx.owner(w));
        assert(wm(w) == (owner != Some(id)));
        let holds: bool = match owner {
            Some(n) => n == id,
            None => false,
        };
        if !holds {
            wire_bucket.note_at(
                ctx,
                Issue::WireBindingMismatch { net: id, wire: w, owner },
                Ghost(NetFault::WireMismatch),
                Ghost(ws),
                Ghost(Site::TreeWire(id, w)),
            );
            proof {
                ws = ws.push(Site::TreeWire(id, w));
            }
        }
        let pip: Option<PipId> = match net.wires.get(w) {
            Some(pm) => pm.pip,
            None => None,
        };
        assert(pip == tree[w].pip);
        let ghost pips0 = pips@;
        if let Some(p) = pip {
            claim(pips, p, id);
            let powner: Option<NetId> = match ctx.pip_binding(p) {
                Some(b) => Some(b.net),
                None => None,
            };
            assert(powner == ctx.pip_owner(p));
            assert(pm(w) == (powner != Some(id)));
            let pholds: bool = match powner {
                Some(n) => n == id,
                None => false,
            };
            if !pholds {
                pip_bucket.note_at(
                    ctx,
                    Issue::PipBindingMismatch { net: id, pip: p, owner: powner },
                    Ghost(NetFault::PipMismatch),
                    Ghost(ps),
                    Ghost(Site::TreeWire(id, w)),
                );
                proof {
                    ps = ps.push(Site::TreeWire(id, w));
                }
            }
        } else {
            assert(!pm(w));
        }
        proof {
            assert forall|p: PipId| #[trigger] driven_by(tree, p)(w) == (pip == Some(p)) by {
            }
            assert forall|p: PipId| #[trigger] noted_at(pips@, p) == pip_claimants(
                ctx.design,
                p,
                id.0 as int,
            ) + repeated(id, count_where(keys@, driven_by(tree, p), i + 1)) by {
                let n = count_where(keys@, driven_by(tree, p), i as int);
                assert(noted_at(pips0, p) == pip_claimants(ctx.design, p, id.0 as int) + repeated(id, n));
                assert(driven_by(tree, p)(w) == (pip == Some(p)));
                if pip == Some(p) {
                    assert(repeated(id, n).push(id) =~= repeated(id, n + 1));
                    assert(noted_at(pips@, p) =~= pip_claimants(ctx.design, p, id.0 as int) + repeated(
                        id,
                        n + 1,
                    ));
                } else {
                    assert(pips@.contains_key(p) <==> pips0.contains_key(p));
                    assert(noted_at(pips@, p) == noted_at(pips0, p));
                }
            }
        }
    }
    proof {
        assert(keys@.take(keys@.len() as int) =~= keys@);
        lemma_count_tree(tree, keys@, wm);
        lemma_count_tree(tree, keys@, pm);
        lemma_mismatch_end(*ctx, NetFault::WireMismatch, ws, id, keys@);
        lemma_mismatch_end(*ctx, NetFault::PipMismatch, ps, id, keys@);
        assert(NetId((id.0 + 1 - 1) as u32) == id);
        assert(mismatches_in(*ctx, NetFault::WireMismatch, *wire_bucket, id.0 + 1, ws));
        assert(mismatches_in(*ctx, NetFault::PipMismatch, *pip_bucket, id.0 + 1, ps));
        assert forall|w: WireId| wires@.contains_key(w) implies #[trigger] wires@[w]@ == wire_claimants(
            ctx.design,
            w,
            id.0 + 1,
        ) by {
            assert(noted_at(wires@, w) == wires@[w]@);
        }
        assert forall|p: PipId| #[trigger] pip_claims(ctx.design, p, id.0 + 1) == pip_claims(
            ctx.design,
            p,
            id.0 as int,
        ) + count_where(keys@, driven_by(tree, p), keys@.len() as int) && (pips@.contains_key(p)
            ==> pips@[p]@ == pip_claimants(ctx.design, p, id.0 + 1)) by {
            lemma_count_tree(tree, keys@, driven_by(tree, p));
            assert(noted_at(pips@, p) == pip_claimants(ctx.design, p, id.0 as int) + repeated(
                id,
                count_where(keys@, driven_by(tree, p), keys@.len() as int),
            ));
        }
    }
}

/// The places of a fault among the users of a net, one after those of the nets before.
spec fn sites_upto(ctx: Context, id: NetId, source: WireId, fault: NetFault, n: int) -> Seq<Site> {
    fault_sites(ctx, fault, id.0 as int) + user_sites(ctx, id, source, fault, n)
}

/// A user with a fault adds its place, and no other changes anything.
proof fn lemma_user_step(ctx: Context, id: NetId, source: WireId, fault: NetFault, n: int)
    requires
        n >= 0,
    ensures
        sites_upto(ctx, id, source, fault, n + 1) == if user_fault(
            ctx,
            ctx.design.net_of(id),
            source,
            ctx.design.net_of(id).users@[n],
        ) == Some(fault) {
            sites_upto(ctx, id, source, fault, n).push(Site::User(id, n))
        } else {
            sites_upto(ctx, id, source, fault, n)
        },
{
    let all = sites_upto(ctx, id, source, fault, n);
    if user_fault(ctx, ctx.design.net_of(id), source, ctx.design.net_of(id).users@[n]) == Some(fault) {
        assert(sites_upto(ctx, id, source, fault, n + 1) =~= all.push(Site::User(id, n)));
    }
}

/// Looks at the users of a net whose source wire is known.
#[verifier::spinoff_prover]
#[verifier::rlimit(30)]
fn check_users(
    ctx: &Context,
    id: NetId,
    source: WireId,
    unplaced: &mut Bucket,
    missing: &mut Bucket,
    absent: &mut Bucket,
    cut_off: &mut Bucket,
)
    requires
        ctx.wf(),
        ctx.design.valid_net(id),
        ctx.chipdb.valid_wire(source),
        old(unplaced).lists(
            *ctx,
            NetFault::UnplacedUser,
            sites_upto(*ctx, id, source, NetFault::UnplacedUser, 0),
        ),
        old(missing).lists(
            *ctx,
            NetFault::MissingSinkWire,
            sites_upto(*ctx, id, source, NetFault::MissingSinkWire, 0),
        ),
        old(absent).lists(
            *ctx,
            NetFault::SinkNotInTree,
            sites_upto(*ctx, id, source, NetFault::SinkNotInTree, 0),
        ),
        old(cut_off).lists(
            *ctx,
            NetFault::DisconnectedSink,
            sites_upto(*ctx, id, source, NetFault::DisconnectedSink, 0),
        ),
    ensures
        ({
            let n = ctx.design.net_of(id).users@.len() as int;
            &&& final(unplaced).lists(
                *ctx,
                NetFault::UnplacedUser,
                sites_upto(*ctx, id, source, NetFault::UnplacedUser, n),
            )
            &&& final(missing).lists(
                *ctx,
                NetFault::MissingSinkWire,
                sites_upto(*ctx, id, source, NetFault::MissingSinkWire, n),
            )
            &&& final(absent).lists(
                *ctx,
                NetFault::SinkNotInTree,
                sites_upto(*ctx, id, source, NetFault::SinkNotInTree, n),
            )
            &&& final(cut_off).lists(
                *ctx,
                NetFault::DisconnectedSink,
                sites_upto(*ctx, id, source, NetFault::DisconnectedSink, n),
            )
        }),
{
    let net = ctx.net(id);
    for i in 0..net.users.len()
        invariant
            ctx.wf(),
            ctx.design.valid_net(id),
            ctx.chipdb.valid_wire(source),
            *net == ctx.design.net_of(id),
            unplaced.lists(
                *ctx,
                NetFault::UnplacedUser,
                sites_upto(*ctx, id, source, NetFault::UnplacedUser, i as int),
            ),
            missing.lists(
                *ctx,
                NetFault::MissingSinkWire,
                sites_upto(*ctx, id, source, NetFault::MissingSinkWire, i as int),
            ),
            absent.lists(
                *ctx,
                NetFault::SinkNotInTree,
                sites_upto(*ctx, id, source, NetFault::SinkNotInTree, i as int),
            ),
            cut_off.lists(
                *ctx,
                NetFault::DisconnectedSink,
                sites_upto(*ctx, id, source, NetFault::DisconnectedSink, i as int),
            ),
    {
        proof {
            assert(ctx.design.net_ok(ctx.design.nets@[id.0 as int]));
            assert(ctx.design.pin_ok(net.users@[i as int]));
            assert(ctx.routing_ok(ctx.design.nets@[id.0 as int].wires@));
            lemma_user_step(*ctx, id, source, NetFault::UnplacedUser, i as int);
            lemma_user_step(*ctx, id, source, NetFault::MissingSinkWire, i as int);
            lemma_user_step(*ctx, id, source, NetFault::SinkNotInTree, i as int);
            lemma_user_step(*ctx, id, source, NetFault::DisconnectedSink, i as int);
        }
        let u: CellPin = net.users[i];
        let ghost site = Site::User(id, i as int);
        if u.is_valid() {
            if ctx.cell(u.cell).bel.is_none() {
                unplaced.note_at(
                    ctx,
                    Issue::UnplacedUser { net: id, pin: u },
                    Ghost(NetFault::UnplacedUser),
                    Ghost(sites_upto(*ctx, id, source, NetFault::UnplacedUser, i as int)),
                    Ghost(site),
                );
            } else {
                match ctx.pin_wire(u) {
                    None => {
                        missing.note_at(
                            ctx,
                            Issue::MissingSinkWire { net: id, pin: u },
                            Ghost(NetFault::MissingSinkWire),
                            Ghost(sites_upto(*ctx, id, source, NetFault::MissingSinkWire, i as int)),
                            Ghost(site),
                        );
                    },
                    Some(w) => {
                        if !is_in_tree(ctx, &net.wires, w) {
                            absent.note_at(
                                ctx,
                                Issue::SinkNotInTree { net: id, wire: w, pin: u },
                                Ghost(NetFault::SinkNotInTree),
                                Ghost(sites_upto(*ctx, id, source, NetFault::SinkNotInTree, i as int)),
                                Ghost(site),
                            );
                        } else if let Some(cause) = trace_to_source(ctx, &net.wires, source, w) {
                            cut_off.note_at(
                                ctx,
                                Issue::DisconnectedSink { net: id, wire: w, pin: u, cause },
                                Ghost(NetFault::DisconnectedSink),
                                Ghost(sites_upto(*ctx, id, source, NetFault::DisconnectedSink, i as int)),
                                Ghost(site),
                            );
                        }
                    },
                }
            }
        }
    }
}

/// What the places of a fault of one more net are.
proof fn lemma_net_step(ctx: Context, id: NetId, fault: NetFault)
    ensures
        fault_sites(ctx, fault, id.0 + 1) == fault_sites(ctx, fault, id.0 as int) + net_sites(ctx, id, fault),
        net_sites(ctx, id, fault).len() == 0 ==> fault_sites(ctx, fault, id.0 + 1) == fault_sites(
            ctx,
            fault,
            id.0 as int,
        ),
        net_sites(ctx, id, fault) == seq![Site::Driver(id)] ==> fault_sites(ctx, fault, id.0 + 1)
            == fault_sites(ctx, fault, id.0 as int).push(Site::Driver(id)),
{
    assert(NetId((id.0 + 1 - 1) as u32) == id);
    let before = fault_sites(ctx, fault, id.0 as int);
    if net_sites(ctx, id, fault).len() == 0 {
        assert(before + net_sites(ctx, id, fault) =~= before);
    }
    if net_sites(ctx, id, fault) == seq![Site::Driver(id)] {
        assert(before + net_sites(ctx, id, fault) =~= before.push(Site::Driver(id)));
    }
}

/// Looks at the driver and the users of a net.
#[verifier::spinoff_prover]
#[verifier::rlimit(40)]
fn check_net(ctx: &Context, id: NetId, report: &mut ValidationReport)
    requires
        ctx.wf(),
        ctx.design.valid_net(id),
        ctx.design.net_of(id).routable(),
        old(report).lists_ends(*ctx, id.0 as int),
    ensures
        final(report).lists_ends(*ctx, id.0 + 1),
        final(report).wire_binding_mismatch == old(report).wire_binding_mismatch,
        final(report).pip_binding_mismatch == old(report).pip_binding_mismatch,
        final(report).wire_conflict == old(report).wire_conflict,
        final(report).pip_conflict == old(report).pip_conflict,
{
    let net = ctx.net(id);
    proof {
        assert(ctx.design.net_ok(ctx.design.nets@[id.0 as int]));
        lemma_net_step(*ctx, id, NetFault::UnplacedDriver);
        lemma_net_step(*ctx, id, NetFault::MissingSourceWire);
        lemma_net_step(*ctx, id, NetFault::SourceNotInTree);
        lemma_net_step(*ctx, id, NetFault::UnplacedUser);
        lemma_net_step(*ctx, id, NetFault::MissingSinkWire);
        lemma_net_step(*ctx, id, NetFault::SinkNotInTree);
        lemma_net_step(*ctx, id, NetFault::DisconnectedSink);
    }
    let driver: CellPin = net.driver;
    if ctx.cell(driver.cell).bel.is_none() {
        report.unplaced_driver.note_at(
            ctx,
            Issue::UnplacedDriver { net: id, pin: driver },
            Ghost(NetFault::UnplacedDriver),
            Ghost(fault_sites(*ctx, NetFault::UnplacedDriver, id.0 as int)),
            Ghost(Site::Driver(id)),
        );
        return ;
    }
    let source: WireId = match ctx.pin_wire(driver) {
        Some(w) => w,
        None => {
            report.missing_source_wire.note_at(
                ctx,
                Issue::MissingSourceWire { net: id, pin: driver },
                Ghost(NetFault::MissingSourceWire),
                Ghost(fault_sites(*ctx, NetFault::MissingSourceWire, id.0 as int)),
                Ghost(Site::Driver(id)),
            );
            return ;
        },
    };
    if !is_in_tree(ctx, &net.wires, source) {
        report.source_not_in_tree.note_at(
            ctx,
            Issue::SourceNotInTree { net: id, wire: source, tree_wires: net.wires.len() },
            Ghost(NetFault::SourceNotInTree),
            Ghost(fault_sites(*ctx, NetFault::SourceNotInTree, id.0 as int)),
            Ghost(Site::Driver(id)),
        );
    }
    proof {
        assert(sites_upto(*ctx, id, source, NetFault::UnplacedUser, 0) =~= fault_sites(
            *ctx,
            NetFault::UnplacedUser,
            id.0 as int,
        ));
        assert(sites_upto(*ctx, id, source, NetFault::MissingSinkWire, 0) =~= fault_sites(
            *ctx,
            NetFault::MissingSinkWire,
            id.0 as int,
        ));
        assert(sites_upto(*ctx, id, source, NetFault::SinkNotInTree, 0) =~= fault_sites(
            *ctx,
            NetFault::SinkNotInTree,
            id.0 as int,
        ));
        assert(sites_upto(*ctx, id, source, NetFault::DisconnectedSink, 0) =~= fault_sites(
            *ctx,
            NetFault::DisconnectedSink,
            id.0 as int,
        ));
    }
    check_users(
        ctx,
        id,
        source,
        &mut report.unplaced_user,
        &mut report.missing_sink_wire,
        &mut report.sink_not_in_tree,
        &mut report.disconnected_sink,
    );
}

/// Those of the first `n` items of a list for which a test holds.
spec fn kept<K>(s: Seq<K>, test: spec_fn(K) -> bool, n: int) -> Seq<K>
    decreases n,
{
    if n <= 0 {
        Seq::empty()
    } else if test(s[n - 1]) {
        kept(s, test, n - 1).push(s[n - 1])
    } else {
        kept(s, test, n - 1)
    }
}

/// What is kept of a list without repetition.
proof fn lemma_kept<K>(s: Seq<K>, test: spec_fn(K) -> bool, n: int)
    requires
        s.no_duplicates(),
        0 <= n <= s.len(),
    ensures
        kept(s, test, n).no_duplicates(),
        forall|x: K| #[trigger] kept(s, test, n).contains(x) <==> s.take(n).contains(x) && test(x),
    decreases n,
{
    if n > 0 {
        lemma_kept(s, test, n - 1);
        let before = kept(s, test, n - 1);
        let now = kept(s, test, n);
        let part = s.take(n - 1);
        let whole = s.take(n);
        let x = s[n - 1];
        assert(whole =~= part.push(x));
        assert(!part.contains(x)) by {
            if part.contains(x) {
                let i = choose|i: int| 0 <= i < part.len() && part[i] == x;
                assert(s[i] == s[n - 1]);
            }
        }
        assert(!before.contains(x));
        assert forall|y: K| #[trigger] whole.contains(y) <==> part.contains(y) || y == x by {
            lemma_push_contains(part, x, y);
        }
        assert forall|y: K| #[trigger] now.contains(y) <==> whole.contains(y) && test(y) by {
            lemma_push_contains(before, x, y);
        }
        assert(now.no_duplicates()) by {
            assert forall|i: int, j: int| 0 <= i < now.len() && 0 <= j < now.len() && i != j implies now[i]
                != now[j] by {
                if i < before.len() {
                    assert(before.contains(before[i]));
                }
                if j < before.len() {
                    assert(before.contains(before[j]));
                }
            }
        }
    }
}

/// What a list with one more item contains.
proof fn lemma_push_contains<K>(s: Seq<K>, x: K, y: K)
    ensures
        s.push(x).contains(y) <==> s.contains(y) || y == x,
{
    if s.contains(y) {
        let j = choose|j: int| 0 <= j < s.len() && s[j] == y;
        assert(s.push(x)[j] == y);
    }
    assert(s.push(x)[s.len() as int] == x);
}

/// Lists the wires that are claimed more than once.
fn check_wire_conflicts(ctx: &Context, noted: &IdMap<WireId, Vec<NetId>>, bucket: &mut Bucket)
    requires
        ctx.wf(),
        claims_noted(*ctx, noted@, ctx.design.nets@.len() as int),
        old(bucket).counts(0),
    ensures
        lists_wire_contests(ctx.design, *final(bucket)),
{
    let keys = noted.keys();
    let ghost test = |w: WireId| wire_claims(ctx.design, w, ctx.design.nets@.len() as int) > 1;
    for i in 0..keys.len()
        invariant
            ctx.wf(),
            claims_noted(*ctx, noted@, ctx.design.nets@.len() as int),
            keys@.no_duplicates(),
            forall|w: WireId| #[trigger] keys@.contains(w) <==> noted@.contains_key(w),
            test == (|w: WireId| wire_claims(ctx.design, w, ctx.design.nets@.len() as int) > 1),
            bucket.lists_wires(ctx.design, kept(keys@, test, i as int)),
    {
        let w: WireId = keys[i];
        let ghost was = *bucket;
        let ghost before = kept(keys@, test, i as int);
        proof {
            assert(keys@.contains(w));
            lemma_wire_claimants(ctx.design, w, ctx.design.nets@.len() as int);
        }
        if let Some(owners) = noted.get(w) {
            if owners.len() > 1 {
                let nets = copy_nets(owners);
                bucket.note(Issue::WireConflict { wire: w, nets });
                proof {
                    let now = *bucket;
                    assert forall|k: int| 0 <= k < now.examples@.len() implies wire_contest(
                        ctx.design,
                        before.push(w)[k],
                        #[trigger] now.examples@[k],
                    ) by {
                        if k < was.examples@.len() {
                            assert(now.examples@[k] == was.examples@[k]);
                            assert(before.push(w)[k] == before[k]);
                        }
                    }
                }
            }
        }
    }
    proof {
        let all = kept(keys@, test, keys@.len() as int);
        lemma_kept(keys@, test, keys@.len() as int);
        assert(keys@.take(keys@.len() as int) =~= keys@);
        assert forall|w: WireId| test(w) implies keys@.contains(w) by {
            assert(noted@.contains_key(w));
        }
        assert(all.to_set() =~= contested_wires(ctx.design));
        assert(wire_contests_in(ctx.design, *bucket, all));
    }
}

/// Lists the pips that are claimed more than once.
fn check_pip_conflicts(ctx: &Context, noted: &IdMap<PipId, Vec<NetId>>, bucket: &mut Bucket)
    requires
        ctx.wf(),
        pip_claims_noted(*ctx, noted@, ctx.design.nets@.len() as int),
        old(bucket).counts(0),
    ensures
        lists_pip_contests(ctx.design, *final(bucket)),
{
    let keys = noted.keys();
    let ghost test = |p: PipId| pip_claims(ctx.design, p, ctx.design.nets@.len() as int) > 1;
    for i in 0..keys.len()
        invariant
            ctx.wf(),
            pip_claims_noted(*ctx, noted@, ctx.design.nets@.len() as int),
            keys@.no_duplicates(),
            forall|p: PipId| #[trigger] keys@.contains(p) <==> noted@.contains_key(p),
            test == (|p: PipId| pip_claims(ctx.design, p, ctx.design.nets@.len() as int) > 1),
            bucket.lists_pips(ctx.design, kept(keys@, test, i as int)),
    {
        let p: PipId = keys[i];
        let ghost was = *bucket;
        let ghost before = kept(keys@, test, i as int);
        proof {
            assert(keys@.contains(p));
            lemma_pip_claimants(ctx.design, p, ctx.design.nets@.len() as int);
        }
        if let Some(owners) = noted.get(p) {
            if owners.len() > 1 {
                let nets = copy_nets(owners);
                bucket.note(Issue::PipConflict { pip: p, nets });
                proof {
                    let now = *bucket;
                    assert forall|k: int| 0 <= k < now.examples@.len() implies pip_contest(
                        ctx.design,
                        before.push(p)[k],
                        #[trigger] now.examples@[k],
                    ) by {
                        if k < was.examples@.len() {
                            assert(now.examples@[k] == was.examples@[k]);
                            assert(before.push(p)[k] == before[k]);
                        }
                    }
                }
            }
        }
    }
    proof {
        let all = kept(keys@, test, keys@.len() as int);
        lemma_kept(keys@, test, keys@.len() as int);
        assert(keys@.take(keys@.len() as int) =~= keys@);
        assert forall|p: PipId| test(p) implies keys@.contains(p) by {
            assert(noted@.contains_key(p));
        }
        assert(all.to_set() =~= contested_pips(ctx.design));
        assert(pip_contests_in(ctx.design, *bucket, all));
    }
}

fn copy_nets(nets: &Vec<NetId>) -> (r: Vec<NetId>)
    ensures
        r@ == nets@,
{
    let mut out: Vec<NetId> = Vec::new();
    for i in 0..nets.len()
        invariant
            out@ == nets@.take(i as int),
    {
        out.push(nets[i]);
        assert(nets@.take(i + 1) =~= nets@.take(i as int).push(nets@[i as int]));
    }
    assert(nets@.take(nets@.len() as int) =~= nets@);
    out
}

/// A net that takes no part in routing changes nothing.
proof fn lemma_idle_net(ctx: Context, id: NetId, wires: Bucket, pips: Bucket)
    requires
        !ctx.design.net_of(id).routable(),
        lists_mismatches(ctx, NetFault::WireMismatch, wires, id.0 as int),
        lists_mismatches(ctx, NetFault::PipMismatch, pips, id.0 as int),
    ensures
        forall|fault: NetFault| #[trigger] fault_sites(ctx, fault, id.0 + 1) == fault_sites(
            ctx,
            fault,
            id.0 as int,
        ),
        lists_mismatches(ctx, NetFault::WireMismatch, wires, id.0 + 1),
        lists_mismatches(ctx, NetFault::PipMismatch, pips, id.0 + 1),
{
    assert forall|fault: NetFault| #[trigger] fault_sites(ctx, fault, id.0 + 1) == fault_sites(
        ctx,
        fault,
        id.0 as int,
    ) by {
        lemma_net_step(ctx, id, fault);
    }
    assert(NetId((id.0 + 1 - 1) as u32) == id);
    let ws = choose|sites: Seq<Site>| #[trigger]
        mismatches_in(ctx, NetFault::WireMismatch, wires, id.0 as int, sites);
    let ps = choose|sites: Seq<Site>| #[trigger]
        mismatches_in(ctx, NetFault::PipMismatch, pips, id.0 as int, sites);
    assert forall|s: Site| mismatched(ctx, NetFault::WireMismatch, s, id.0 + 1) == #[trigger] mismatched(
        ctx,
        NetFault::WireMismatch,
        s,
        id.0 as int,
    ) by {
    }
    assert forall|s: Site| mismatched(ctx, NetFault::PipMismatch, s, id.0 + 1) == #[trigger] mismatched(
        ctx,
        NetFault::PipMismatch,
        s,
        id.0 as int,
    ) by {
    }
    assert(mismatches_in(ctx, NetFault::WireMismatch, wires, id.0 + 1, ws));
    assert(mismatches_in(ctx, NetFault::PipMismatch, pips, id.0 + 1, ps));
}

/// A report is empty exactly if nothing is wrong.
proof fn lemma_report(ctx: Context, report: ValidationReport)
    requires
        report.describes(ctx),
    ensures
        no_faults(ctx) <==> {
            &&& report.unplaced_driver.total == 0
            &&& report.unplaced_user.total == 0
            &&& report.missing_source_wire.total == 0
            &&& report.missing_sink_wire.total == 0
            &&& report.source_not_in_tree.total == 0
            &&& report.sink_not_in_tree.total == 0
            &&& report.disconnected_sink.total == 0
            &&& report.wire_conflict.total == 0
            &&& report.pip_conflict.total == 0
            &&& report.wire_binding_mismatch.total == 0
            &&& report.pip_binding_mismatch.total == 0
        },
{
    let n = ctx.design.nets@.len() as int;
    lemma_fault_sites(ctx, NetFault::UnplacedDriver, n);
    lemma_fault_sites(ctx, NetFault::UnplacedUser, n);
    lemma_fault_sites(ctx, NetFault::MissingSourceWire, n);
    lemma_fault_sites(ctx, NetFault::MissingSinkWire, n);
    lemma_fault_sites(ctx, NetFault::SourceNotInTree, n);
    lemma_fault_sites(ctx, NetFault::SinkNotInTree, n);
    lemma_fault_sites(ctx, NetFault::DisconnectedSink, n);
    let wires = choose|wires: Seq<WireId>| #[trigger]
        wire_contests_in(ctx.design, report.wire_conflict, wires);
    let pips = choose|pips: Seq<PipId>| #[trigger] pip_contests_in(ctx.design, report.pip_conflict, pips);
    wires.unique_seq_to_set();
    pips.unique_seq_to_set();
}

/// Holds the routing of all nets against the netlist: succeeds exactly if nothing is wrong, and
/// otherwise reports how often each fault occurs, and where.
pub fn validate_all_routed(ctx: &Context) -> (r: Result<(), RouterError>)
    requires
        ctx.wf(),
    ensures
        r is Ok <==> no_faults(*ctx),
        r is Err ==> r->Err_0 is ValidationFailed && r->Err_0->ValidationFailed_0.describes(*ctx),
{
    let mut report = ValidationReport {
        unplaced_driver: Bucket::new(),
        unplaced_user: Bucket::new(),
        missing_source_wire: Bucket::new(),
        missing_sink_wire: Bucket::new(),
        source_not_in_tree: Bucket::new(),
        sink_not_in_tree: Bucket::new(),
        disconnected_sink: Bucket::new(),
        wire_conflict: Bucket::new(),
        pip_conflict: Bucket::new(),
        wire_binding_mismatch: Bucket::new(),
        pip_binding_mismatch: Bucket::new(),
    };
    let mut wires: IdMap<WireId, Vec<NetId>> = IdMap::new();
    let mut pips: IdMap<PipId, Vec<NetId>> = IdMap::new();
    proof {
        assert(all_mismatches(*ctx, NetFault::WireMismatch, Seq::empty(), 0));
        assert(all_mismatches(*ctx, NetFault::PipMismatch, Seq::empty(), 0));
        assert(mismatches_in(
            *ctx,
            NetFault::WireMismatch,
            report.wire_binding_mismatch,
            0,
            Seq::empty(),
        ));
        assert(mismatches_in(*ctx, NetFault::PipMismatch, report.pip_binding_mismatch, 0, Seq::empty()));
    }
    for i in 0..ctx.design.nets.len()
        invariant
            ctx.wf(),
            report.lists_ends(*ctx, i as int),
            lists_mismatches(*ctx, NetFault::WireMismatch, report.wire_binding_mismatch, i as int),
            lists_mismatches(*ctx, NetFault::PipMismatch, report.pip_binding_mismatch, i as int),
            report.wire_conflict.counts(0),
            report.pip_conflict.counts(0),
            claims_noted(*ctx, wires@, i as int),
            pip_claims_noted(*ctx, pips@, i as int),
    {
        let id: NetId = NetId(i as u32);
        let net = &ctx.design.nets[i];
        if net.alive && net.has_driver() && net.num_users() > 0 {
            check_tree(
                ctx,
                id,
                &mut report.wire_binding_mismatch,
                &mut report.pip_binding_mismatch,
                &mut wires,
                &mut pips,
            );
            check_net(ctx, id, &mut report);
        } else {
            proof {
                lemma_idle_net(*ctx, id, report.wire_binding_mismatch, report.pip_binding_mismatch);
                assert forall|w: WireId| #[trigger] wire_claims(ctx.design, w, i + 1) == wire_claims(
                    ctx.design,
                    w,
                    i as int,
                ) && wire_claimants(ctx.design, w, i + 1) == wire_claimants(ctx.design, w, i as int) by {
                }
                assert forall|p: PipId| #[trigger] pip_claims(ctx.design, p, i + 1) == pip_claims(
                    ctx.design,
                    p,
                    i as int,
                ) && pip_claimants(ctx.design, p, i + 1) == pip_claimants(ctx.design, p, i as int) by {
                    assert(pip_claimants(ctx.design, p, i + 1) =~= pip_claimants(ctx.design, p, i as int));
                }
            }
        }
    }
    check_wire_conflicts(ctx, &wires, &mut report.wire_conflict);
    check_pip_conflicts(ctx, &pips, &mut report.pip_conflict);
    proof {
        lemma_report(*ctx, report);
    }
    let clean: bool = report.unplaced_driver.total == 0 && report.unplaced_user.total == 0
        && report.missing_source_wire.total == 0 && report.missing_sink_wire.total == 0
        && report.source_not_in_tree.total == 0 && report.sink_not_in_tree.total == 0
        && report.disconnected_sink.total == 0 && report.wire_conflict.total == 0
        && report.pip_conflict.total == 0 && report.wire_binding_mismatch.total == 0
        && report.pip_binding_mismatch.total == 0;
    if clean {
        Ok(())
    } else {
        Err(RouterError::ValidationFailed(report))
    }
}

} // verus!
