//! Clock domains, their registry, and the timing arcs of cells.

use crate::ids::{offset_of, pack, pack_halves, unpack_halves, IdMap, ListedKey, MapKey};
use crate::timing::delay::{DelayQuad, DelayT};
use crate::timing::kinds::ClockEdge;
use crate::types::id_string::IdString;
use vstd::prelude::*;

verus! {

/// The number of a clock domain.
#[derive(Clone, Copy, PartialEq, Eq, Hash, Debug, Structural)]
pub struct ClockDomainId(pub u32);

/// A clock domain: a clock net and the edge that registers react to.
#[derive(Clone, Copy, PartialEq, Eq, Hash, Debug, Structural)]
pub struct ClockDomain {
    /// The name of the clock net; the empty name for none.
    pub clock_net: IdString,
    pub edge: ClockEdge,
    /// The period in picoseconds; zero where none is asked for.
    pub period: DelayT,
}

impl ClockDomain {
    /// The domain without a clock, as a mathematical value.
    pub open spec fn without_clock() -> ClockDomain {
        ClockDomain { clock_net: IdString(0), edge: ClockEdge::Rising, period: 0 }
    }

    /// The domain has a clock.
    pub open spec fn clocked(self) -> bool {
        self.clock_net != IdString(0)
    }

    /// The domain without a clock, for paths that are combinational only.
    pub fn unclocked() -> (r: Self)
        ensures
            r == Self::without_clock(),
            !r.clocked(),
    {
        ClockDomain { clock_net: IdString(0), edge: ClockEdge::Rising, period: 0 }
    }

    /// Whether the domain has a clock.
    pub fn is_clocked(&self) -> (r: bool)
        ensures
            r == self.clocked(),
    {
        !self.clock_net.is_empty()
    }
}

impl Default for ClockDomain {
    fn default() -> (r: Self)
        ensures
            r == Self::without_clock(),
    {
        Self::unclocked()
    }
}

/// The domain that launches a signal and the domain that captures it.
#[derive(Clone, Copy, PartialEq, Eq, Hash, Debug, Structural)]
pub struct ClockDomainPair {
    pub launch: ClockDomainId,
    pub capture: ClockDomainId,
}

impl MapKey for ClockDomainPair {
    open spec fn key_of(self) -> u64 {
        pack(self.launch.0 as int, self.capture.0 as int) as u64
    }

    proof fn key_injective(a: Self, b: Self) {
    }

    fn to_key(self) -> (k: u64) {
        pack_halves(self.launch.0, self.capture.0)
    }
}

impl ListedKey for ClockDomainPair {
    fn from_key(k: u64) -> (r: Self) {
        let (hi, lo) = unpack_halves(k);
        let r = ClockDomainPair { launch: ClockDomainId(hi), capture: ClockDomainId(lo) };
        proof {
            assert forall|a: Self| #[trigger] a.key_of() == k implies a == r by {
                Self::key_injective(a, r);
            }
        }
        r
    }
}

/// What tells one domain from another: the clock net and the edge.
#[derive(Clone, Copy, PartialEq, Eq, Hash, Debug, Structural)]
pub struct DomainKey {
    pub clock_net: IdString,
    pub edge: ClockEdge,
}

impl MapKey for DomainKey {
    open spec fn key_of(self) -> u64 {
        pack(
            if self.edge is Rising {
                0
            } else {
                1
            },
            self.clock_net.0 + 0x8000_0000,
        ) as u64
    }

    proof fn key_injective(a: Self, b: Self) {
    }

    fn to_key(self) -> (k: u64) {
        let hi: u32 = match self.edge {
            ClockEdge::Rising => 0,
            ClockEdge::Falling => 1,
        };
        pack_halves(hi, offset_of(self.clock_net.0))
    }
}

/// The clock domains of a design, each with a number of its own.
pub struct DomainRegistry {
    pub domains: Vec<ClockDomain>,
    pub domain_map: IdMap<DomainKey, ClockDomainId>,
    /// The domain of paths without a clock.
    pub async_domain: ClockDomainId,
}

/// What tells a domain from others.
pub open spec fn domain_key(d: ClockDomain) -> DomainKey {
    DomainKey { clock_net: d.clock_net, edge: d.edge }
}

impl DomainRegistry {
    /// The first domain has no clock, and the map finds every domain by its clock net and edge.
    pub open spec fn wf(self) -> bool {
        &&& 0 < self.domains@.len() <= u32::MAX
        &&& self.domains@[0] == ClockDomain::without_clock()
        &&& self.async_domain == ClockDomainId(0)
        &&& forall|k: DomainKey| #[trigger]
            self.domain_map@.contains_key(k) ==> {
                &&& self.domain_map@[k].0 < self.domains@.len()
                &&& domain_key(self.domains@[self.domain_map@[k].0 as int]) == k
            }
        &&& forall|i: int|
            0 <= i < self.domains@.len() ==> {
                &&& self.domain_map@.contains_key(domain_key(#[trigger] self.domains@[i]))
                &&& self.domain_map@[domain_key(self.domains@[i])].0 == i
            }
    }

    /// Some domain has the clock net and the edge.
    pub open spec fn has(self, clock_net: IdString, edge: ClockEdge) -> bool {
        self.domain_map@.contains_key(DomainKey { clock_net, edge })
    }

    /// The number of the domain with the clock net and the edge.
    pub open spec fn number(self, clock_net: IdString, edge: ClockEdge) -> ClockDomainId {
        self.domain_map@[DomainKey { clock_net, edge }]
    }

    /// The number names a domain.
    pub open spec fn valid(self, id: ClockDomainId) -> bool {
        id.0 < self.domains@.len()
    }

    /// The domain with a number.
    pub open spec fn domain(self, id: ClockDomainId) -> ClockDomain {
        self.domains@[id.0 as int]
    }

    /// A registry with the domain without a clock alone.
    pub fn new() -> (r: Self)
        ensures
            r.wf(),
            r.domains@ == seq![ClockDomain::without_clock()],
    {
        let mut domains: Vec<ClockDomain> = Vec::new();
        domains.push(ClockDomain::unclocked());
        let mut domain_map: IdMap<DomainKey, ClockDomainId> = IdMap::new();
        let _ = domain_map.insert(
            DomainKey { clock_net: IdString::empty(), edge: ClockEdge::Rising },
            ClockDomainId(0),
        );
        DomainRegistry { domains, domain_map, async_domain: ClockDomainId(0) }
    }

    /// The number of the domain with a clock net and an edge; a new domain gets the period, one
    /// that is there keeps its own.
    pub fn domain_id(&mut self, clock_net: IdString, edge: ClockEdge, period: DelayT) -> (r: ClockDomainId)
        requires
            old(self).wf(),
            old(self).has(clock_net, edge) || old(self).domains@.len() < u32::MAX,
        ensures
            final(self).wf(),
            final(self).has(clock_net, edge),
            r == final(self).number(clock_net, edge),
            old(self).has(clock_net, edge) ==> final(self).domains@ == old(self).domains@ && r == old(
                self,
            ).number(clock_net, edge),
            !old(self).has(clock_net, edge) ==> {
                &&& r.0 == old(self).domains@.len()
                &&& final(self).domains@ == old(self).domains@.push(ClockDomain { clock_net, edge, period })
            },
    {
        let key = DomainKey { clock_net, edge };
        if let Some(id) = self.domain_map.get(key) {
            return *id;
        }
        let id = ClockDomainId(self.domains.len() as u32);
        self.domains.push(ClockDomain { clock_net, edge, period });
        let _ = self.domain_map.insert(key, id);
        proof {
            let new = *self;
            let was = *old(self);
            assert forall|k: DomainKey| #[trigger] new.domain_map@.contains_key(k) implies ({
                &&& new.domain_map@[k].0 < new.domains@.len()
                &&& domain_key(new.domains@[new.domain_map@[k].0 as int]) == k
            }) by {
                if k != key {
                    assert(was.domain_map@.contains_key(k));
                }
            }
            assert forall|i: int| 0 <= i < new.domains@.len() implies ({
                &&& new.domain_map@.contains_key(domain_key(#[trigger] new.domains@[i]))
                &&& new.domain_map@[domain_key(new.domains@[i])].0 == i
            }) by {
                if i < was.domains@.len() {
                    assert(new.domains@[i] == was.domains@[i]);
                }
            }
        }
        id
    }

    /// The domain with a number.
    pub fn get(&self, id: ClockDomainId) -> (r: ClockDomain)
        requires
            self.valid(id),
        ensures
            r == self.domain(id),
    {
        self.domains[id.0 as usize]
    }

    /// The number of domains.
    pub fn len(&self) -> (r: usize)
        ensures
            r == self.domains@.len(),
    {
        self.domains.len()
    }

    /// Every domain with its number, in the order of the numbers.
    pub fn iter(&self) -> (r: Vec<(ClockDomainId, ClockDomain)>)
        requires
            self.wf(),
        ensures
            r@ == Seq::new(
                self.domains@.len(),
                |i: int| (ClockDomainId(i as u32), self.domains@[i]),
            ),
    {
        let mut out: Vec<(ClockDomainId, ClockDomain)> = Vec::new();
        let n: usize = self.domains.len();
        for i in 0..n
            invariant
                self.wf(),
                n == self.domains@.len(),
                out@ == Seq::new(i as nat, |k: int| (ClockDomainId(k as u32), self.domains@[k])),
        {
            out.push((ClockDomainId(i as u32), self.domains[i]));
        }
        out
    }

    /// The domain that a number stands for keeps the clock net and the edge that it was asked
    /// for, and asking again gives the same number.
    pub proof fn numbers_stand_for_domains(self, clock_net: IdString, edge: ClockEdge)
        requires
            self.wf(),
            self.has(clock_net, edge),
        ensures
            self.valid(self.number(clock_net, edge)),
            self.domain(self.number(clock_net, edge)).clock_net == clock_net,
            self.domain(self.number(clock_net, edge)).edge == edge,
    {
    }

    /// Two numbers stand for different clock nets or different edges.
    pub proof fn numbers_differ(self, a: ClockDomainId, b: ClockDomainId)
        requires
            self.wf(),
            self.valid(a),
            self.valid(b),
            domain_key(self.domain(a)) == domain_key(self.domain(b)),
        ensures
            a == b,
    {
        assert(self.domain_map@[domain_key(self.domains@[a.0 as int])].0 == a.0);
        assert(self.domain_map@[domain_key(self.domains@[b.0 as int])].0 == b.0);
    }
}

impl Default for DomainRegistry {
    fn default() -> (r: Self)
        ensures
            r.wf(),
            r.domains@ == seq![ClockDomain::without_clock()],
    {
        Self::new()
    }
}

/// What a timing arc of a cell relates.
#[derive(Clone, Copy, PartialEq, Eq, Hash, Debug, Structural)]
pub enum CellArcType {
    /// A combinational path between an input and an output.
    Combinational,
    /// The setup time of a data input before a clock port.
    Setup,
    /// The hold time of a data input after a clock port.
    Hold,
    /// The delay from a clock port to a data output.
    ClockToQ,
}

/// A timing arc at a port of a cell.
#[derive(Clone, Copy, PartialEq, Eq, Hash, Debug, Structural)]
pub struct CellArc {
    pub arc_type: CellArcType,
    /// The port at the other end: a data port for a combinational arc, else a clock port.
    pub other_port: IdString,
    pub value: DelayQuad,
    /// The clock edge; of a combinational arc it says nothing.
    pub edge: ClockEdge,
}

impl CellArc {
    pub fn combinational(other_port: IdString, delay: DelayQuad) -> (r: Self)
        ensures
            r == (CellArc {
                arc_type: CellArcType::Combinational,
                other_port,
                value: delay,
                edge: ClockEdge::Rising,
            }),
    {
        CellArc { arc_type: CellArcType::Combinational, other_port, value: delay, edge: ClockEdge::Rising }
    }

    pub fn setup(clock_port: IdString, delay: DelayQuad, edge: ClockEdge) -> (r: Self)
        ensures
            r == (CellArc { arc_type: CellArcType::Setup, other_port: clock_port, value: delay, edge }),
    {
        CellArc { arc_type: CellArcType::Setup, other_port: clock_port, value: delay, edge }
    }

    pub fn hold(clock_port: IdString, delay: DelayQuad, edge: ClockEdge) -> (r: Self)
        ensures
            r == (CellArc { arc_type: CellArcType::Hold, other_port: clock_port, value: delay, edge }),
    {
        CellArc { arc_type: CellArcType::Hold, other_port: clock_port, value: delay, edge }
    }

    pub fn clock_to_q(clock_port: IdString, delay: DelayQuad, edge: ClockEdge) -> (r: Self)
        ensures
            r == (CellArc { arc_type: CellArcType::ClockToQ, other_port: clock_port, value: delay, edge }),
    {
        CellArc { arc_type: CellArcType::ClockToQ, other_port: clock_port, value: delay, edge }
    }
}

} // verus!
