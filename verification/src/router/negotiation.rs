//! What negotiating routers keep of the nets: how many use each wire, which one claimed it last, and
//! how often each net was taken apart.

use crate::chipdb::WireId;
use crate::ids::IdMap;
use crate::netlist::{Design, NetId};
use crate::router::usage::{
    add_wire_usage, all_nets, countable, counts_users, first_nets, lemma_count_more, lemma_take_step,
    nets_touching, one_fewer, one_more, overused, overused_set, remove_wire_usage, touches, lemma_touching,
    users_of, wires_of,
};
use vstd::prelude::*;

verus! {

/// How often a net may be taken apart before it is kept.
#[derive(Clone, Copy, PartialEq, Eq, Hash, Debug, Structural)]
pub struct NegotiationCfg {
    pub sticky_ripup_threshold: u32,
}

impl Default for NegotiationCfg {
    fn default() -> (r: Self)
        ensures
            r.sticky_ripup_threshold == 1,
    {
        NegotiationCfg { sticky_ripup_threshold: 1 }
    }
}

/// The state of a negotiation.
pub struct NegotiationState {
    pub cfg: NegotiationCfg,
    /// How many nets use each wire.
    pub wire_usage: IdMap<WireId, u32>,
    /// The net that claimed each wire last.
    pub wire_owner: IdMap<WireId, NetId>,
    /// How often each net was taken apart.
    pub rip_up_count: IdMap<NetId, u32>,
    /// The nets that were seen with a part of their routing.
    pub ever_seen_partial: IdMap<NetId, ()>,
}

/// The owners after a net claimed the wires of a set.
pub open spec fn claimed(owner: Map<WireId, NetId>, wires: Set<WireId>, net: NetId) -> Map<WireId, NetId> {
    Map::new(
        |w: WireId| owner.contains_key(w) || wires.contains(w),
        |w: WireId|
            if wires.contains(w) {
                net
            } else {
                owner[w]
            },
    )
}

/// The owners after a net gave up the wires of a set: a wire without users has no owner.
pub open spec fn given_up(
    owner: Map<WireId, NetId>,
    usage: Map<WireId, u32>,
    wires: Set<WireId>,
) -> Map<WireId, NetId> {
    owner.remove_keys(
        Set::new(|w: WireId| wires.contains(w) && usage.contains_key(w) && usage[w] <= 1),
    )
}

/// The last of the first `n` nets that uses a wire.
pub open spec fn last_user(design: Design, n: int, w: WireId) -> Option<NetId>
    decreases n,
{
    if n <= 0 {
        None
    } else if wires_of(design, NetId((n - 1) as u32)).contains(w) {
        Some(NetId((n - 1) as u32))
    } else {
        last_user(design, n - 1, w)
    }
}

/// The owners are the last users among the first `n` nets.
pub open spec fn owned_by_last(owner: Map<WireId, NetId>, design: Design, n: int) -> bool {
    forall|w: WireId|
        #![trigger owner.contains_key(w)]
        #![trigger last_user(design, n, w)]
        match last_user(design, n, w) {
            Some(net) => owner.contains_key(w) && owner[w] == net,
            None => !owner.contains_key(w),
        }
}

/// The counts after a net was taken apart once more; the largest number stays.
pub open spec fn bumped(counts: Map<NetId, u32>, net: NetId) -> Map<NetId, u32> {
    let c = if counts.contains_key(net) {
        counts[net]
    } else {
        0
    };
    counts.insert(
        net,
        if c < u32::MAX {
            (c + 1) as u32
        } else {
            c
        },
    )
}

impl NegotiationState {
    /// How often a net was taken apart.
    pub open spec fn ripped(self, net: NetId) -> int {
        if self.rip_up_count@.contains_key(net) {
            self.rip_up_count@[net] as int
        } else {
            0
        }
    }

    /// Everything but the use of the wires is as in `other`.
    pub open spec fn same_nets(self, other: NegotiationState) -> bool {
        &&& self.cfg == other.cfg
        &&& self.rip_up_count == other.rip_up_count
        &&& self.ever_seen_partial == other.ever_seen_partial
    }

    pub fn new(cfg: NegotiationCfg) -> (r: Self)
        ensures
            r.cfg == cfg,
            r.wire_usage@ == Map::<WireId, u32>::empty(),
            r.wire_owner@ == Map::<WireId, NetId>::empty(),
            r.rip_up_count@ == Map::<NetId, u32>::empty(),
            r.ever_seen_partial@ == Map::<NetId, ()>::empty(),
    {
        NegotiationState {
            cfg,
            wire_usage: IdMap::new(),
            wire_owner: IdMap::new(),
            rip_up_count: IdMap::new(),
            ever_seen_partial: IdMap::new(),
        }
    }

    /// Notes that a net was taken apart; the count stays at the largest number.
    pub fn bump_rip_up(&mut self, net: NetId)
        ensures
            final(self).rip_up_count@ == bumped(old(self).rip_up_count@, net),
            final(self).cfg == old(self).cfg,
            final(self).wire_usage == old(self).wire_usage,
            final(self).wire_owner == old(self).wire_owner,
            final(self).ever_seen_partial == old(self).ever_seen_partial,
    {
        let c: u32 = match self.rip_up_count.get(net) {
            Some(c) => *c,
            None => 0,
        };
        let _ = self.rip_up_count.insert(net, if c < u32::MAX { c + 1 } else { c });
    }

    /// Whether a net was taken apart so often that it is kept.
    pub fn is_sticky(&self, net: NetId) -> (r: bool)
        ensures
            r == (self.ripped(net) >= self.cfg.sticky_ripup_threshold),
    {
        let c: u32 = match self.rip_up_count.get(net) {
            Some(c) => *c,
            None => 0,
        };
        c >= self.cfg.sticky_ripup_threshold
    }

    /// Notes that a net was seen with a part of its routing.
    pub fn note_partial(&mut self, net: NetId)
        ensures
            final(self).ever_seen_partial@ == old(self).ever_seen_partial@.insert(net, ()),
            final(self).cfg == old(self).cfg,
            final(self).wire_usage == old(self).wire_usage,
            final(self).wire_owner == old(self).wire_owner,
            final(self).rip_up_count == old(self).rip_up_count,
    {
        let _ = self.ever_seen_partial.insert(net, ());
    }

    /// Counts the wires of a net, which claims them.
    pub fn add_net_usage(&mut self, design: &Design, net: NetId)
        requires
            design.valid_net(net),
            countable(old(self).wire_usage@, wires_of(*design, net)),
        ensures
            final(self).wire_usage@ == one_more(old(self).wire_usage@, wires_of(*design, net)),
            final(self).wire_owner@ == claimed(old(self).wire_owner@, wires_of(*design, net), net),
            final(self).same_nets(*old(self)),
    {
        add_wire_usage(design, &mut self.wire_usage, net);
        let n = design.net(net);
        if !n.alive {
            assert(self.wire_owner@ =~= claimed(old(self).wire_owner@, wires_of(*design, net), net));
            return ;
        }
        let keys = n.wires.keys();
        for i in 0..keys.len()
            invariant
                *n == design.net_of(net),
                n.alive,
                keys@.no_duplicates(),
                forall|w: WireId| #[trigger] keys@.contains(w) <==> n.wires@.contains_key(w),
                self.wire_usage@ == one_more(old(self).wire_usage@, wires_of(*design, net)),
                self.same_nets(*old(self)),
                self.wire_owner@ == claimed(
                    old(self).wire_owner@,
                    keys@.take(i as int).to_set(),
                    net,
                ),
        {
            let w: WireId = keys[i];
            let ghost before = self.wire_owner@;
            let _ = self.wire_owner.insert(w, net);
            proof {
                lemma_take_step(keys@, i as int);
                assert forall|x: WireId| #[trigger] keys@.take(i + 1).to_set().contains(x)
                    <==> keys@.take(i as int).to_set().contains(x) || x == w by {
                    assert(keys@.take(i + 1).contains(x) <==> keys@.take(i as int).contains(x) || x == w);
                }
                assert(self.wire_owner@ =~= claimed(
                    old(self).wire_owner@,
                    keys@.take(i + 1).to_set(),
                    net,
                ));
            }
        }
        proof {
            assert(keys@.take(keys@.len() as int) =~= keys@);
            assert(keys@.to_set() =~= wires_of(*design, net));
        }
    }

    /// Takes the wires of a net out of the count; a wire that nobody uses then has no owner.
    pub fn remove_net_usage(&mut self, design: &Design, net: NetId)
        requires
            design.valid_net(net),
        ensures
            final(self).wire_usage@ == one_fewer(old(self).wire_usage@, wires_of(*design, net)),
            final(self).wire_owner@ == given_up(
                old(self).wire_owner@,
                old(self).wire_usage@,
                wires_of(*design, net),
            ),
            final(self).same_nets(*old(self)),
    {
        let n = design.net(net);
        if n.alive {
            let keys = n.wires.keys();
            for i in 0..keys.len()
                invariant
                    *n == design.net_of(net),
                    n.alive,
                    keys@.no_duplicates(),
                    forall|w: WireId| #[trigger] keys@.contains(w) <==> n.wires@.contains_key(w),
                    self.wire_usage == old(self).wire_usage,
                    self.same_nets(*old(self)),
                    self.wire_owner@ == given_up(
                        old(self).wire_owner@,
                        old(self).wire_usage@,
                        keys@.take(i as int).to_set(),
                    ),
            {
                let w: WireId = keys[i];
                if let Some(c) = self.wire_usage.get(w) {
                    if *c <= 1 {
                        let _ = self.wire_owner.remove(w);
                    }
                }
                proof {
                    lemma_take_step(keys@, i as int);
                    assert forall|x: WireId| #[trigger] keys@.take(i + 1).to_set().contains(x)
                        <==> keys@.take(i as int).to_set().contains(x) || x == w by {
                        assert(keys@.take(i + 1).contains(x) <==> keys@.take(i as int).contains(x) || x == w);
                    }
                    assert(self.wire_owner@ =~= given_up(
                        old(self).wire_owner@,
                        old(self).wire_usage@,
                        keys@.take(i + 1).to_set(),
                    ));
                }
            }
            proof {
                assert(keys@.take(keys@.len() as int) =~= keys@);
                assert(keys@.to_set() =~= wires_of(*design, net));
            }
        } else {
            assert(self.wire_owner@ =~= given_up(
                old(self).wire_owner@,
                old(self).wire_usage@,
                wires_of(*design, net),
            ));
        }
        remove_wire_usage(design, &mut self.wire_usage, net);
    }

    /// Counts the wires of all nets anew.
    pub fn update_usage(&mut self, design: &Design)
        requires
            design.nets@.len() < u32::MAX,
        ensures
            counts_users(
                final(self).wire_usage@,
                *design,
                first_nets(design.nets@.len() as int),
            ),
            owned_by_last(final(self).wire_owner@, *design, design.nets@.len() as int),
            final(self).same_nets(*old(self)),
    {
        self.wire_usage = IdMap::new();
        self.wire_owner = IdMap::new();
        proof {
            assert(first_nets(0) =~= Set::<NetId>::empty());
            assert forall|w: WireId| (#[trigger] users_of(*design, first_nets(0), w)).len() == 0 by {
                assert(users_of(*design, first_nets(0), w) =~= Set::<NetId>::empty());
            }
        }
        for i in 0..design.nets.len()
            invariant
                design.nets@.len() < u32::MAX,
                self.same_nets(*old(self)),
                counts_users(self.wire_usage@, *design, first_nets(i as int)),
                owned_by_last(self.wire_owner@, *design, i as int),
        {
            let net: NetId = NetId(i as u32);
            let ghost before = self.wire_owner@;
            proof {
                lemma_count_more(self.wire_usage@, *design, first_nets(i as int), net);
            }
            self.add_net_usage(design, net);
            proof {
                assert(first_nets(i as int).insert(net) =~= first_nets(i + 1));
                assert forall|w: WireId| #![trigger self.wire_owner@.contains_key(w)]
                    match last_user(*design, i + 1, w) {
                        Some(x) => self.wire_owner@.contains_key(w) && self.wire_owner@[w] == x,
                        None => !self.wire_owner@.contains_key(w),
                    } by {
                    let earlier = last_user(*design, i as int, w);
                    assert(earlier is Some ==> before.contains_key(w));
                }
            }
        }
    }

    /// The nets with a wire that is counted more than once, in order.
    pub fn find_congested_nets(&self, design: &Design) -> (r: Vec<NetId>)
        requires
            design.nets@.len() < u32::MAX,
        ensures
            r@.no_duplicates(),
            forall|n: NetId| #[trigger]
                r@.contains(n) <==> design.valid_net(n) && touches(*design, self.wire_usage@, n),
    {
        let nets = all_nets(design);
        let r = nets_touching(design, &self.wire_usage, &nets);
        proof {
            assert(nets@.no_duplicates());
            assert(nets@.take(nets@.len() as int) =~= nets@);
            lemma_touching(*design, self.wire_usage@, nets@, nets@.len() as int, NetId(0));
            assert forall|n: NetId| #[trigger] r@.contains(n) <==> design.valid_net(n) && touches(
                *design,
                self.wire_usage@,
                n,
            ) by {
                lemma_touching(*design, self.wire_usage@, nets@, nets@.len() as int, n);
                if design.valid_net(n) {
                    assert(nets@[n.0 as int] == n);
                }
            }
        }
        r
    }

    /// How many wires are counted more than once.
    pub fn count_congested_wires(&self) -> (r: usize)
        ensures
            overused_set(self.wire_usage@).finite(),
            r == overused_set(self.wire_usage@).len(),
    {
        let list = overused(&self.wire_usage);
        proof {
            assert(list@.to_set() =~= overused_set(self.wire_usage@));
            list@.unique_seq_to_set();
            vstd::seq_lib::seq_to_set_is_finite(list@);
        }
        list.len()
    }
}

} // verus!
