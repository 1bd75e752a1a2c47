//! Which wires more than one net uses.

use crate::chipdb::WireId;
use crate::context::Context;
use crate::ids::IdMap;
use crate::netlist::{Design, NetId};
use vstd::prelude::*;

verus! {

/// The net is alive and the wire is in its tree.
pub open spec fn uses(design: Design, net: NetId, w: WireId) -> bool {
    design.valid_net(net) && design.net_of(net).alive && design.net_of(net).wires@.contains_key(w)
}

/// The nets of a set that use a wire.
pub open spec fn users_of(design: Design, nets: Set<NetId>, w: WireId) -> Set<NetId> {
    Set::new(|n: NetId| nets.contains(n) && uses(design, n, w))
}

/// The first `n` nets.
pub open spec fn first_nets(n: int) -> Set<NetId> {
    Set::new(|x: NetId| x.0 < n)
}

/// The counts are those of the nets of a set: a wire that none of them uses has no count.
pub open spec fn counts_users(usage: Map<WireId, u32>, design: Design, nets: Set<NetId>) -> bool {
    &&& nets.finite()
    &&& forall|n: NetId| #[trigger] nets.contains(n) ==> design.valid_net(n)
    &&& forall|w: WireId|
        (#[trigger] usage.contains_key(w) <==> users_of(design, nets, w).len() > 0) && (usage.contains_key(w)
            ==> usage[w] == users_of(design, nets, w).len())
}

/// A set of nets of a design is finite and smaller than the design.
proof fn lemma_few_nets(design: Design, nets: Set<NetId>)
    requires
        nets.finite(),
        forall|n: NetId| #[trigger] nets.contains(n) ==> design.valid_net(n),
        design.nets@.len() < u32::MAX,
    ensures
        nets.len() <= design.nets@.len(),
{
    let f = |n: NetId| n.0 as int;
    let image = nets.map(f);
    vstd::set_lib::lemma_int_range(0, design.nets@.len() as int);
    vstd::set_lib::lemma_map_size(nets, image, f);
    assert(image.subset_of(vstd::set_lib::set_int_range(0, design.nets@.len() as int)));
    vstd::set_lib::lemma_len_subset(
        image,
        vstd::set_lib::set_int_range(0, design.nets@.len() as int),
    );
}

/// The users of a wire are a finite set.
proof fn lemma_users_finite(design: Design, nets: Set<NetId>, w: WireId)
    requires
        nets.finite(),
    ensures
        users_of(design, nets, w).finite(),
        users_of(design, nets, w).len() <= nets.len(),
{
    vstd::set_lib::lemma_set_subset_finite(nets, users_of(design, nets, w));
    vstd::set_lib::lemma_len_subset(users_of(design, nets, w), nets);
}

/// One more net: its wires have one more user.
proof fn lemma_users_insert(design: Design, nets: Set<NetId>, net: NetId, w: WireId)
    requires
        nets.finite(),
        !nets.contains(net),
    ensures
        users_of(design, nets.insert(net), w).len() == users_of(design, nets, w).len() + (if uses(
            design,
            net,
            w,
        ) {
            1nat
        } else {
            0nat
        }),
{
    lemma_users_finite(design, nets, w);
    if uses(design, net, w) {
        assert(users_of(design, nets.insert(net), w) =~= users_of(design, nets, w).insert(net));
    } else {
        assert(users_of(design, nets.insert(net), w) =~= users_of(design, nets, w));
    }
}

/// The wires that a net counts for: those of its tree, if it is alive.
pub open spec fn wires_of(design: Design, net: NetId) -> Set<WireId> {
    if design.net_of(net).alive {
        design.net_of(net).wires@.dom()
    } else {
        Set::empty()
    }
}

/// The count of a wire; zero where there is none.
pub open spec fn count_of(usage: Map<WireId, u32>, w: WireId) -> int {
    if usage.contains_key(w) {
        usage[w] as int
    } else {
        0
    }
}

/// The counts with one more user for each wire of a set.
pub open spec fn one_more(usage: Map<WireId, u32>, wires: Set<WireId>) -> Map<WireId, u32> {
    Map::new(
        |w: WireId| usage.contains_key(w) || wires.contains(w),
        |w: WireId|
            if wires.contains(w) {
                (count_of(usage, w) + 1) as u32
            } else {
                usage[w]
            },
    )
}

/// The counts with one user fewer for each wire of a set; a wire without users has no count.
pub open spec fn one_fewer(usage: Map<WireId, u32>, wires: Set<WireId>) -> Map<WireId, u32> {
    Map::new(
        |w: WireId| usage.contains_key(w) && (wires.contains(w) ==> usage[w] > 1),
        |w: WireId|
            if wires.contains(w) {
                (usage[w] - 1) as u32
            } else {
                usage[w]
            },
    )
}

/// The counts of these wires can grow.
pub open spec fn countable(usage: Map<WireId, u32>, wires: Set<WireId>) -> bool {
    forall|w: WireId| #[trigger] wires.contains(w) ==> count_of(usage, w) < u32::MAX
}

/// Counts the wires of a net.
pub fn add_wire_usage(design: &Design, usage: &mut IdMap<WireId, u32>, net: NetId)
    requires
        design.valid_net(net),
        countable(old(usage)@, wires_of(*design, net)),
    ensures
        final(usage)@ == one_more(old(usage)@, wires_of(*design, net)),
{
    let n = design.net(net);
    if !n.alive {
        assert(usage@ =~= one_more(old(usage)@, wires_of(*design, net)));
        return ;
    }
    let keys = n.wires.keys();
    for i in 0..keys.len()
        invariant
            *n == design.net_of(net),
            n.alive,
            countable(old(usage)@, wires_of(*design, net)),
            keys@.no_duplicates(),
            forall|w: WireId| #[trigger] keys@.contains(w) <==> n.wires@.contains_key(w),
            forall|w: WireId|
                (#[trigger] usage@.contains_key(w) <==> old(usage)@.contains_key(w) || keys@.take(
                    i as int,
                ).contains(w)) && (usage@.contains_key(w) ==> usage@[w] == count_of(old(usage)@, w) + (
                if keys@.take(i as int).contains(w) {
                    1int
                } else {
                    0int
                })),
    {
        let w: WireId = keys[i];
        proof {
            assert(keys@.contains(w));
            lemma_take_step(keys@, i as int);
            assert(wires_of(*design, net).contains(w));
        }
        let c: u32 = match usage.get(w) {
            Some(c) => *c,
            None => 0,
        };
        let _ = usage.insert(w, c + 1);
    }
    proof {
        assert(keys@.take(keys@.len() as int) =~= keys@);
        assert(usage@ =~= one_more(old(usage)@, wires_of(*design, net)));
    }
}

/// What the counts of a set of nets are when one more net is counted.
pub proof fn lemma_count_more(usage: Map<WireId, u32>, design: Design, nets: Set<NetId>, net: NetId)
    requires
        counts_users(usage, design, nets),
        !nets.contains(net),
        design.valid_net(net),
        design.nets@.len() < u32::MAX,
    ensures
        countable(usage, wires_of(design, net)),
        counts_users(one_more(usage, wires_of(design, net)), design, nets.insert(net)),
{
    let wires = wires_of(design, net);
    let more = one_more(usage, wires);
    let all = nets.insert(net);
    assert forall|n: NetId| #[trigger] all.contains(n) implies design.valid_net(n) by {
    }
    lemma_few_nets(design, all);
    assert forall|w: WireId|
        (#[trigger] more.contains_key(w) <==> users_of(design, all, w).len() > 0) && (more.contains_key(w)
            ==> more[w] == users_of(design, all, w).len()) && count_of(usage, w) < u32::MAX by {
        lemma_users_insert(design, nets, net, w);
        lemma_users_finite(design, all, w);
        lemma_users_finite(design, nets, w);
        assert(usage.contains_key(w) <==> users_of(design, nets, w).len() > 0);
        assert(wires.contains(w) <==> uses(design, net, w));
    }
    assert forall|w: WireId| #[trigger] wires.contains(w) implies count_of(usage, w) < u32::MAX by {
        assert(more.contains_key(w));
    }
}

/// What a longer part of a list without repetition holds.
pub proof fn lemma_take_step(s: Seq<WireId>, i: int)
    requires
        s.no_duplicates(),
        0 <= i < s.len(),
    ensures
        !s.take(i).contains(s[i]),
        forall|x: WireId| #[trigger] s.take(i + 1).contains(x) <==> s.take(i).contains(x) || x == s[i],
{
    let part = s.take(i);
    let whole = s.take(i + 1);
    assert(whole[i] == s[i]);
    if part.contains(s[i]) {
        let j = choose|j: int| 0 <= j < part.len() && part[j] == s[i];
        assert(s[j] == s[i]);
    }
    assert forall|x: WireId| #[trigger] whole.contains(x) <==> part.contains(x) || x == s[i] by {
        if part.contains(x) {
            let j = choose|j: int| 0 <= j < part.len() && part[j] == x;
            assert(whole[j] == x);
        }
        if whole.contains(x) {
            let j = choose|j: int| 0 <= j < whole.len() && whole[j] == x;
            if j < i {
                assert(part[j] == x);
            }
        }
    }
}

/// Takes the wires of a net out of the count.
pub fn remove_wire_usage(design: &Design, usage: &mut IdMap<WireId, u32>, net: NetId)
    requires
        design.valid_net(net),
    ensures
        final(usage)@ == one_fewer(old(usage)@, wires_of(*design, net)),
{
    let n = design.net(net);
    if !n.alive {
        assert(usage@ =~= one_fewer(old(usage)@, wires_of(*design, net)));
        return ;
    }
    let keys = n.wires.keys();
    for i in 0..keys.len()
        invariant
            *n == design.net_of(net),
            n.alive,
            keys@.no_duplicates(),
            forall|w: WireId| #[trigger] keys@.contains(w) <==> n.wires@.contains_key(w),
            forall|w: WireId|
                (#[trigger] usage@.contains_key(w) <==> old(usage)@.contains_key(w) && (keys@.take(
                    i as int,
                ).contains(w) ==> old(usage)@[w] > 1)) && (usage@.contains_key(w) ==> usage@[w] == old(
                    usage,
                )@[w] - (if keys@.take(i as int).contains(w) {
                    1int
                } else {
                    0int
                })),
    {
        let w: WireId = keys[i];
        proof {
            assert(keys@.contains(w));
            lemma_take_step(keys@, i as int);
        }
        let c: u32 = match usage.get(w) {
            Some(c) => *c,
            None => 0,
        };
        if c > 1 {
            let _ = usage.insert(w, c - 1);
        } else {
            let _ = usage.remove(w);
        }
    }
    proof {
        assert(keys@.take(keys@.len() as int) =~= keys@);
        assert(usage@ =~= one_fewer(old(usage)@, wires_of(*design, net)));
    }
}

/// What the counts of a set of nets are when one net is taken out.
pub proof fn lemma_count_fewer(usage: Map<WireId, u32>, design: Design, nets: Set<NetId>, net: NetId)
    requires
        counts_users(usage, design, nets),
        nets.contains(net),
    ensures
        counts_users(one_fewer(usage, wires_of(design, net)), design, nets.remove(net)),
{
    let wires = wires_of(design, net);
    let fewer = one_fewer(usage, wires);
    let rest = nets.remove(net);
    assert(rest.insert(net) =~= nets);
    assert forall|w: WireId|
        (#[trigger] fewer.contains_key(w) <==> users_of(design, rest, w).len() > 0) && (fewer.contains_key(w)
            ==> fewer[w] == users_of(design, rest, w).len()) by {
        lemma_users_insert(design, rest, net, w);
        assert(usage.contains_key(w) <==> users_of(design, nets, w).len() > 0);
        assert(wires.contains(w) <==> uses(design, net, w));
    }
}

/// Adding the wires of a net to the count and taking them out again leads back, if no wire was
/// counted with zero.
pub proof fn usage_is_undone(usage: Map<WireId, u32>, wires: Set<WireId>)
    requires
        countable(usage, wires),
        forall|w: WireId| #[trigger] usage.contains_key(w) ==> usage[w] > 0,
    ensures
        one_fewer(one_more(usage, wires), wires) == usage,
{
    let more = one_more(usage, wires);
    let back = one_fewer(more, wires);
    assert forall|w: WireId| #[trigger] back.contains_key(w) <==> usage.contains_key(w) by {
        if wires.contains(w) {
            assert(more[w] == count_of(usage, w) + 1);
        }
    }
    assert forall|w: WireId| #[trigger] back.contains_key(w) implies back[w] == usage[w] by {
        if wires.contains(w) {
            assert(more[w] == count_of(usage, w) + 1);
        }
    }
    assert(back =~= usage);
}

/// Counts the users of all wires.
pub fn count_usage(ctx: &Context) -> (usage: IdMap<WireId, u32>)
    requires
        ctx.wf(),
    ensures
        counts_users(usage@, ctx.design, first_nets(ctx.design.nets@.len() as int)),
{
    let mut usage: IdMap<WireId, u32> = IdMap::new();
    proof {
        assert(first_nets(0) =~= Set::<NetId>::empty());
        assert forall|w: WireId| (#[trigger] users_of(ctx.design, first_nets(0), w)).len() == 0 by {
            assert(users_of(ctx.design, first_nets(0), w) =~= Set::<NetId>::empty());
        }
    }
    for i in 0..ctx.design.nets.len()
        invariant
            ctx.wf(),
            counts_users(usage@, ctx.design, first_nets(i as int)),
    {
        let net: NetId = NetId(i as u32);
        proof {
            lemma_count_more(usage@, ctx.design, first_nets(i as int), net);
        }
        add_wire_usage(&ctx.design, &mut usage, net);
        proof {
            assert(first_nets(i as int).insert(net) =~= first_nets(i + 1));
        }
    }
    usage
}

/// More than one net of a set uses the wire.
pub open spec fn congested(design: Design, nets: Set<NetId>, w: WireId) -> bool {
    users_of(design, nets, w).len() > 1
}

/// The wires that are counted more than once.
pub fn overused(usage: &IdMap<WireId, u32>) -> (r: Vec<WireId>)
    ensures
        r@.no_duplicates(),
        forall|w: WireId| #[trigger] r@.contains(w) <==> usage@.contains_key(w) && usage@[w] > 1,
{
    let keys = usage.keys();
    let mut out: Vec<WireId> = Vec::new();
    for i in 0..keys.len()
        invariant
            keys@.no_duplicates(),
            forall|w: WireId| #[trigger] keys@.contains(w) <==> usage@.contains_key(w),
            out@.no_duplicates(),
            forall|w: WireId| #[trigger] out@.contains(w) <==> keys@.take(i as int).contains(w)
                && usage@[w] > 1,
    {
        let w: WireId = keys[i];
        proof {
            assert(keys@.contains(w));
            lemma_take_step(keys@, i as int);
        }
        let ghost before = out@;
        if let Some(c) = usage.get(w) {
            if *c > 1 {
                out.push(w);
                proof {
                    assert(out@[before.len() as int] == w);
                    assert forall|x: WireId| #[trigger] out@.contains(x) <==> before.contains(x) || x == w by {
                        if before.contains(x) {
                            let j = choose|j: int| 0 <= j < before.len() && before[j] == x;
                            assert(out@[j] == x);
                        }
                    }
                    assert(!before.contains(w));
                }
            }
        }
    }
    assert(keys@.take(keys@.len() as int) =~= keys@);
    out
}

/// The wires that are counted more than once, as a set.
pub open spec fn overused_set(usage: Map<WireId, u32>) -> Set<WireId> {
    Set::new(|w: WireId| usage.contains_key(w) && usage[w] > 1)
}

/// The wires that more than one net uses.
pub fn find_congested_wires(ctx: &Context) -> (r: Vec<WireId>)
    requires
        ctx.wf(),
    ensures
        r@.no_duplicates(),
        forall|w: WireId| #[trigger] r@.contains(w) <==> congested(
            ctx.design,
            first_nets(ctx.design.nets@.len() as int),
            w,
        ),
{
    let usage = count_usage(ctx);
    overused(&usage)
}

/// A wire of the net is among those counted more than once.
pub open spec fn touches(design: Design, usage: Map<WireId, u32>, net: NetId) -> bool {
    exists|w: WireId| #[trigger] uses(design, net, w) && usage.contains_key(w) && usage[w] > 1
}

/// Whether a wire of the net is among those counted more than once.
pub fn touches_overused(design: &Design, usage: &IdMap<WireId, u32>, net: NetId) -> (r: bool)
    requires
        design.valid_net(net),
    ensures
        r == touches(*design, usage@, net),
{
    let n = design.net(net);
    if !n.alive {
        return false;
    }
    let keys = n.wires.keys();
    for i in 0..keys.len()
        invariant
            design.valid_net(net),
            *n == design.net_of(net),
            n.alive,
            forall|w: WireId| #[trigger] keys@.contains(w) <==> n.wires@.contains_key(w),
            forall|j: int|
                0 <= j < i ==> !(usage@.contains_key(#[trigger] keys@[j]) && usage@[keys@[j]] > 1),
    {
        assert(keys@.contains(keys@[i as int]));
        if let Some(c) = usage.get(keys[i]) {
            if *c > 1 {
                assert(uses(*design, net, keys@[i as int]));
                return true;
            }
        }
    }
    proof {
        assert forall|w: WireId| !(#[trigger] uses(*design, net, w) && usage@.contains_key(w) && usage@[w]
            > 1) by {
            if uses(*design, net, w) {
                assert(keys@.contains(w));
                let j = choose|j: int| 0 <= j < keys@.len() && keys@[j] == w;
                assert(!(usage@.contains_key(keys@[j]) && usage@[keys@[j]] > 1));
            }
        }
    }
    false
}

/// The nets of a list with a wire among those counted more than once.
pub open spec fn touching(design: Design, usage: Map<WireId, u32>, nets: Seq<NetId>, n: int) -> Seq<NetId>
    decreases n,
{
    if n <= 0 {
        Seq::empty()
    } else if touches(design, usage, nets[n - 1]) {
        touching(design, usage, nets, n - 1).push(nets[n - 1])
    } else {
        touching(design, usage, nets, n - 1)
    }
}

/// A net is picked exactly if it stands in the list and has such a wire.
pub proof fn lemma_touching(design: Design, usage: Map<WireId, u32>, nets: Seq<NetId>, n: int, x: NetId)
    requires
        0 <= n <= nets.len(),
    ensures
        touching(design, usage, nets, n).contains(x) <==> nets.take(n).contains(x) && touches(
            design,
            usage,
            x,
        ),
        nets.no_duplicates() ==> touching(design, usage, nets, n).no_duplicates(),
    decreases n,
{
    if n > 0 {
        lemma_touching(design, usage, nets, n - 1, x);
        lemma_touching(design, usage, nets, n - 1, nets[n - 1]);
        let part = nets.take(n - 1);
        let whole = nets.take(n);
        let before = touching(design, usage, nets, n - 1);
        let all = touching(design, usage, nets, n);
        assert(whole[n - 1] == nets[n - 1]);
        if part.contains(x) {
            let i = choose|i: int| 0 <= i < part.len() && part[i] == x;
            assert(whole[i] == x);
        }
        if whole.contains(x) {
            let i = choose|i: int| 0 <= i < whole.len() && whole[i] == x;
            if i < n - 1 {
                assert(part[i] == x);
            }
        }
        if touches(design, usage, nets[n - 1]) {
            assert(all.last() == nets[n - 1]);
            assert(all[before.len() as int] == nets[n - 1]);
            if before.contains(x) {
                let i = choose|i: int| 0 <= i < before.len() && before[i] == x;
                assert(all[i] == x);
            }
            if all.contains(x) {
                let i = choose|i: int| 0 <= i < all.len() && all[i] == x;
                if i < before.len() {
                    assert(before[i] == x);
                }
            }
            if nets.no_duplicates() {
                assert(!part.contains(nets[n - 1])) by {
                    if part.contains(nets[n - 1]) {
                        let i = choose|i: int| 0 <= i < part.len() && part[i] == nets[n - 1];
                        assert(nets[i] == nets[n - 1]);
                    }
                }
            }
        }
    }
}

/// The nets of a list with a wire among those counted more than once, in the order of the list.
pub fn nets_touching(design: &Design, usage: &IdMap<WireId, u32>, nets: &Vec<NetId>) -> (r: Vec<NetId>)
    requires
        forall|i: int| 0 <= i < nets@.len() ==> design.valid_net(#[trigger] nets@[i]),
    ensures
        r@ == touching(*design, usage@, nets@, nets@.len() as int),
        forall|i: int| 0 <= i < r@.len() ==> design.valid_net(#[trigger] r@[i]),
{
    let mut out: Vec<NetId> = Vec::new();
    for i in 0..nets.len()
        invariant
                forall|i: int| 0 <= i < nets@.len() ==> design.valid_net(#[trigger] nets@[i]),
            out@ == touching(*design, usage@, nets@, i as int),
            forall|j: int| 0 <= j < out@.len() ==> design.valid_net(#[trigger] out@[j]),
    {
        assert(design.valid_net(nets@[i as int]));
        if touches_overused(design, usage, nets[i]) {
            out.push(nets[i]);
        }
    }
    out
}

/// All nets, in order.
pub fn all_nets(design: &Design) -> (r: Vec<NetId>)
    requires
        design.nets@.len() < u32::MAX,
    ensures
        r@ == Seq::new(design.nets@.len(), |i: int| NetId(i as u32)),
{
    let mut out: Vec<NetId> = Vec::new();
    for i in 0..design.nets.len()
        invariant
            design.nets@.len() < u32::MAX,
            out@ == Seq::new(i as nat, |i: int| NetId(i as u32)),
    {
        out.push(NetId(i as u32));
        assert(out@ =~= Seq::new((i + 1) as nat, |i: int| NetId(i as u32)));
    }
    out
}

/// The nets that share a wire with another net.
pub fn find_congested_nets(ctx: &Context) -> (r: Vec<NetId>)
    requires
        ctx.wf(),
    ensures
        r@.no_duplicates(),
        forall|n: NetId| #[trigger] r@.contains(n) <==> exists|w: WireId| #[trigger]
            uses(ctx.design, n, w) && congested(
                ctx.design,
                first_nets(ctx.design.nets@.len() as int),
                w,
            ),
{
    let usage = count_usage(ctx);
    let nets = all_nets(&ctx.design);
    let r = nets_touching(&ctx.design, &usage, &nets);
    proof {
        let total = ctx.design.nets@.len() as int;
        assert(nets@.no_duplicates());
        assert(nets@.take(nets@.len() as int) =~= nets@);
        lemma_touching(ctx.design, usage@, nets@, nets@.len() as int, NetId(0));
        assert forall|n: NetId| #[trigger] r@.contains(n) <==> exists|w: WireId| #[trigger]
            uses(ctx.design, n, w) && congested(ctx.design, first_nets(total), w) by {
            lemma_touching(ctx.design, usage@, nets@, nets@.len() as int, n);
            if r@.contains(n) {
                let w = choose|w: WireId| #[trigger]
                    uses(ctx.design, n, w) && usage@.contains_key(w) && usage@[w] > 1;
                assert(uses(ctx.design, n, w) && congested(ctx.design, first_nets(total), w));
            }
            if exists|w: WireId| #[trigger]
                uses(ctx.design, n, w) && congested(ctx.design, first_nets(total), w) {
                let w = choose|w: WireId| #[trigger]
                    uses(ctx.design, n, w) && congested(ctx.design, first_nets(total), w);
                assert(usage@.contains_key(w));
                assert(touches(ctx.design, usage@, n));
                assert(nets@[n.0 as int] == n);
                assert(nets@.contains(n));
            }
        }
    }
    r
}

} // verus!
