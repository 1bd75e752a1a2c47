//! The netlist: cells with ports, and the nets that connect them.

use crate::chipdb::{PipId, WireId};
use crate::ids::{at_offset, offset_of, pack, pack_halves, unpack_halves, IdMap, MapKey, ListedKey};
use crate::timing::delay::DelayT;
use crate::types::enums::{PlaceStrength, PortType};
use crate::types::id_string::IdString;
use vstd::prelude::*;

verus! {

/// The index of a net.
#[derive(Clone, Copy, PartialEq, Eq, Hash, Debug, Structural)]
pub struct NetId(pub u32);

/// The index of a cell.
#[derive(Clone, Copy, PartialEq, Eq, Hash, Debug, Structural)]
pub struct CellId(pub u32);

/// A port of a cell. The largest cell index stands for no cell.
#[derive(Clone, Copy, PartialEq, Eq, Hash, Debug, Structural)]
pub struct CellPin {
    pub cell: CellId,
    pub port: IdString,
}

impl NetId {
    /// The index that no net has.
    pub fn none() -> (r: NetId)
        ensures
            r == NetId(u32::MAX),
    {
        NetId(u32::MAX)
    }
}

impl CellPin {
    /// The pin names a cell.
    pub open spec fn connected(self) -> bool {
        self.cell.0 != u32::MAX
    }

    pub fn new(cell: CellId, port: IdString) -> (r: Self)
        ensures
            r == (CellPin { cell, port }),
    {
        CellPin { cell, port }
    }

    /// A pin of no cell.
    pub fn invalid() -> (r: Self)
        ensures
            !r.connected(),
    {
        CellPin { cell: CellId(u32::MAX), port: IdString(0) }
    }

    /// Whether the pin names a cell.
    pub fn is_valid(self) -> (r: bool)
        ensures
            r == self.connected(),
    {
        self.cell.0 != u32::MAX
    }
}

impl MapKey for NetId {
    open spec fn key_of(self) -> u64 {
        self.0 as u64
    }

    proof fn key_injective(a: Self, b: Self) {
    }

    fn to_key(self) -> (k: u64) {
        self.0 as u64
    }
}

impl MapKey for CellId {
    open spec fn key_of(self) -> u64 {
        self.0 as u64
    }

    proof fn key_injective(a: Self, b: Self) {
    }

    fn to_key(self) -> (k: u64) {
        self.0 as u64
    }
}

impl ListedKey for NetId {
    fn from_key(k: u64) -> (r: Self) {
        if k <= u32::MAX as u64 {
            NetId(k as u32)
        } else {
            NetId(0)
        }
    }
}

impl MapKey for CellPin {
    open spec fn key_of(self) -> u64 {
        pack(self.cell.0 as int, self.port.0 + 0x8000_0000) as u64
    }

    proof fn key_injective(a: Self, b: Self) {
    }

    fn to_key(self) -> (k: u64) {
        pack_halves(self.cell.0, offset_of(self.port.0))
    }
}

impl ListedKey for CellPin {
    fn from_key(k: u64) -> (r: Self) {
        let (hi, lo) = unpack_halves(k);
        let r = CellPin { cell: CellId(hi), port: IdString(at_offset(lo)) };
        proof {
            assert forall|a: Self| #[trigger] a.key_of() == k implies a == r by {
                Self::key_injective(a, r);
            }
        }
        r
    }
}

/// How a net holds a wire: the pip that drives it, if one does, and how firmly.
#[derive(Clone, Copy, PartialEq, Eq, Hash, Debug, Structural)]
pub struct PipMap {
    pub pip: Option<PipId>,
    pub strength: PlaceStrength,
}

/// A net: one driver, its users, and the wires that route it.
pub struct Net {
    pub name: IdString,
    pub alive: bool,
    pub driver: CellPin,
    pub users: Vec<CellPin>,
    pub wires: IdMap<WireId, PipMap>,
    /// The period that a clock constraint on the net asks for; not positive for none.
    pub clock_constraint: DelayT,
}

/// A port of a cell.
#[derive(Clone, Copy, PartialEq, Eq, Hash, Debug, Structural)]
pub struct CellPort {
    pub name: IdString,
    pub port_type: PortType,
    pub net: Option<NetId>,
}

/// A cell.
pub struct Cell {
    pub name: IdString,
    pub cell_type: IdString,
    pub alive: bool,
    /// The index of the site that the cell is placed on.
    pub bel: Option<usize>,
    pub ports: Vec<CellPort>,
    /// The row of the timing tables, where the cell names it itself.
    pub timing_index: Option<usize>,
}

impl Net {
    /// The net takes part in routing.
    pub open spec fn routable(self) -> bool {
        self.alive && self.driver.connected() && self.users@.len() > 0
    }

    pub fn new(name: IdString) -> (r: Net)
        ensures
            r.name == name,
            r.alive,
            !r.driver.connected(),
            r.users@.len() == 0,
            r.wires@ == Map::<WireId, PipMap>::empty(),
            r.clock_constraint == 0,
    {
        Net {
            name,
            alive: true,
            driver: CellPin::invalid(),
            users: Vec::new(),
            wires: IdMap::new(),
            clock_constraint: 0,
        }
    }

    pub fn has_driver(&self) -> (r: bool)
        ensures
            r == self.driver.connected(),
    {
        self.driver.is_valid()
    }

    pub fn num_users(&self) -> (r: usize)
        ensures
            r == self.users@.len(),
    {
        self.users.len()
    }

    /// The net with other wires.
    pub open spec fn with_wires(self, wires: Map<WireId, PipMap>, new: Net) -> bool {
        &&& new.name == self.name
        &&& new.alive == self.alive
        &&& new.driver == self.driver
        &&& new.users == self.users
        &&& new.clock_constraint == self.clock_constraint
        &&& new.wires@ == wires
    }
}

impl Cell {
    /// The position of the first port with a name, or the number of ports.
    pub open spec fn port_index(self, name: IdString) -> int
        decreases self.ports@.len(),
    {
        first_port(self.ports@, name)
    }

    /// The net at a port.
    pub open spec fn net_at(self, name: IdString) -> Option<NetId> {
        if self.port_index(name) < self.ports@.len() {
            self.ports@[self.port_index(name)].net
        } else {
            None
        }
    }

    pub fn new(name: IdString, cell_type: IdString) -> (r: Cell)
        ensures
            r.name == name,
            r.cell_type == cell_type,
            r.alive,
            r.bel is None,
            r.ports@.len() == 0,
            r.timing_index is None,
    {
        Cell { name, cell_type, alive: true, bel: None, ports: Vec::new(), timing_index: None }
    }

    /// The first port with the name.
    pub fn port(&self, name: IdString) -> (r: Option<CellPort>)
        ensures
            match r {
                Some(p) => {
                    &&& self.port_index(name) < self.ports@.len()
                    &&& p == self.ports@[self.port_index(name)]
                },
                None => self.port_index(name) >= self.ports@.len(),
            },
    {
        let mut i: usize = 0;
        assert(self.ports@.skip(0) =~= self.ports@);
        while i < self.ports.len()
            invariant
                i <= self.ports@.len(),
                first_port(self.ports@, name) == i + first_port(self.ports@.skip(i as int), name),
            decreases self.ports@.len() - i,
        {
            proof {
                assert(self.ports@.skip(i as int).skip(1) =~= self.ports@.skip(i + 1));
            }
            if self.ports[i].name == name {
                return Some(self.ports[i]);
            }
            i = i + 1;
        }
        None
    }

    /// The net at the first port with the name.
    pub fn port_net(&self, name: IdString) -> (r: Option<NetId>)
        ensures
            r == self.net_at(name),
    {
        match self.port(name) {
            Some(p) => p.net,
            None => None,
        }
    }
}

/// The position of the first port with a name, or the number of ports.
pub open spec fn first_port(ports: Seq<CellPort>, name: IdString) -> int
    decreases ports.len(),
{
    if ports.len() == 0 {
        0
    } else if ports[0].name == name {
        0
    } else {
        1 + first_port(ports.skip(1), name)
    }
}

/// What `first_port` finds: the first port with the name, if there is one.
pub proof fn lemma_first_port(ports: Seq<CellPort>, name: IdString)
    ensures
        0 <= first_port(ports, name) <= ports.len(),
        first_port(ports, name) < ports.len() ==> ports[first_port(ports, name)].name == name,
        forall|i: int| 0 <= i < first_port(ports, name) ==> (#[trigger] ports[i]).name != name,
    decreases ports.len(),
{
    if ports.len() > 0 && ports[0].name != name {
        lemma_first_port(ports.skip(1), name);
        let k = first_port(ports.skip(1), name);
        if k < ports.skip(1).len() {
            assert(ports.skip(1)[k] == ports[k + 1]);
        }
        assert forall|i: int| 0 <= i < 1 + k implies (#[trigger] ports[i]).name != name by {
            if i > 0 {
                assert(ports.skip(1)[i - 1] == ports[i]);
            }
        }
    }
}

/// All nets and cells.
pub struct Design {
    pub nets: Vec<Net>,
    pub cells: Vec<Cell>,
}

impl Design {
    pub open spec fn valid_net(self, n: NetId) -> bool {
        n.0 < self.nets@.len()
    }

    pub open spec fn valid_cell(self, c: CellId) -> bool {
        c.0 < self.cells@.len()
    }

    pub open spec fn net_of(self, n: NetId) -> Net {
        self.nets@[n.0 as int]
    }

    pub open spec fn cell_of(self, c: CellId) -> Cell {
        self.cells@[c.0 as int]
    }

    /// The pin names a cell of the design, or none.
    pub open spec fn pin_ok(self, p: CellPin) -> bool {
        p.connected() ==> self.valid_cell(p.cell)
    }

    /// The ports of a cell name nets of the design, and no name stands twice.
    pub open spec fn cell_ok(self, c: Cell) -> bool {
        &&& forall|j: int|
            0 <= j < c.ports@.len() && (#[trigger] c.ports@[j]).net is Some ==> self.valid_net(
                c.ports@[j].net->0,
            )
        &&& forall|i: int, j: int|
            0 <= i < j < c.ports@.len() ==> (#[trigger] c.ports@[i]).name != (#[trigger] c.ports@[j]).name
    }

    pub open spec fn net_ok(self, n: Net) -> bool {
        &&& self.pin_ok(n.driver)
        &&& forall|j: int| 0 <= j < n.users@.len() ==> self.pin_ok(#[trigger] n.users@[j])
    }

    /// Nets name cells and cells name nets that exist.
    pub open spec fn wf(self) -> bool {
        &&& self.nets@.len() < u32::MAX
        &&& self.cells@.len() < u32::MAX
        &&& forall|i: int| 0 <= i < self.nets@.len() ==> self.net_ok(#[trigger] self.nets@[i])
        &&& forall|i: int| 0 <= i < self.cells@.len() ==> self.cell_ok(#[trigger] self.cells@[i])
    }

    fn check_pin(&self, p: CellPin) -> (r: bool)
        ensures
            r == self.pin_ok(p),
    {
        !p.is_valid() || (p.cell.0 as usize) < self.cells.len()
    }

    /// Tests the invariant.
    pub fn check(&self) -> (r: bool)
        ensures
            r == self.wf(),
    {
        if self.nets.len() >= u32::MAX as usize || self.cells.len() >= u32::MAX as usize {
            return false;
        }
        for i in 0..self.nets.len()
            invariant
                forall|k: int| 0 <= k < i ==> self.net_ok(#[trigger] self.nets@[k]),
        {
            let net = &self.nets[i];
            if !self.check_pin(net.driver) {
                return false;
            }
            for j in 0..net.users.len()
                invariant
                    net == self.nets@[i as int],
                    i < self.nets@.len(),
                    forall|k: int| 0 <= k < j ==> self.pin_ok(#[trigger] net.users@[k]),
            {
                if !self.check_pin(net.users[j]) {
                    return false;
                }
            }
        }
        for i in 0..self.cells.len()
            invariant
                self.nets@.len() < u32::MAX,
                forall|k: int| 0 <= k < i ==> self.cell_ok(#[trigger] self.cells@[k]),
        {
            let cell = &self.cells[i];
            for j in 0..cell.ports.len()
                invariant
                    self.nets@.len() < u32::MAX,
                    cell == self.cells@[i as int],
                    i < self.cells@.len(),
                    forall|k: int|
                        0 <= k < j && (#[trigger] cell.ports@[k]).net is Some ==> self.valid_net(
                            cell.ports@[k].net->0,
                        ),
                    forall|a: int, b: int|
                        0 <= a < b < j ==> (#[trigger] cell.ports@[a]).name != (#[trigger] cell.ports@[b]).name,
            {
                if let Some(n) = cell.ports[j].net {
                    if n.0 as usize >= self.nets.len() {
                        assert(!self.valid_net(cell.ports@[j as int].net->0));
                        return false;
                    }
                }
                for k in 0..j
                    invariant
                        cell == self.cells@[i as int],
                        i < self.cells@.len(),
                        j < cell.ports@.len(),
                        forall|a: int| 0 <= a < k ==> (#[trigger] cell.ports@[a]).name != cell.ports@[j as int].name,
                {
                    if cell.ports[k].name == cell.ports[j].name {
                        return false;
                    }
                }
            }
        }
        true
    }

    pub fn net(&self, n: NetId) -> (r: &Net)
        requires
            self.valid_net(n),
        ensures
            *r == self.net_of(n),
    {
        &self.nets[n.0 as usize]
    }

    pub fn cell(&self, c: CellId) -> (r: &Cell)
        requires
            self.valid_cell(c),
        ensures
            *r == self.cell_of(c),
    {
        &self.cells[c.0 as usize]
    }

    /// The first net with the name.
    pub fn net_by_name(&self, name: IdString) -> (r: Option<NetId>)
        requires
            self.wf(),
        ensures
            match r {
                Some(n) => {
                    &&& self.valid_net(n)
                    &&& self.net_of(n).name == name
                    &&& forall|i: int| 0 <= i < n.0 ==> (#[trigger] self.nets@[i]).name != name
                },
                None => forall|i: int| 0 <= i < self.nets@.len() ==> (#[trigger] self.nets@[i]).name != name,
            },
    {
        for i in 0..self.nets.len()
            invariant
                self.wf(),
                forall|k: int| 0 <= k < i ==> (#[trigger] self.nets@[k]).name != name,
        {
            if self.nets[i].name == name {
                return Some(NetId(i as u32));
            }
        }
        None
    }

    /// Only the wires of net `n` differ between two designs, and those are `wires` afterwards.
    pub open spec fn rerouted(self, n: NetId, wires: Map<WireId, PipMap>, new: Design) -> bool {
        &&& new.cells == self.cells
        &&& new.nets@.len() == self.nets@.len()
        &&& forall|i: int| 0 <= i < self.nets@.len() && i != n.0 ==> #[trigger] new.nets@[i] == self.nets@[i]
        &&& self.net_of(n).with_wires(wires, new.net_of(n))
    }

    /// Only the routing of nets of the set differs between two designs.
    pub open spec fn rerouted_within(self, nets: Set<NetId>, new: Design) -> bool {
        &&& new.cells == self.cells
        &&& new.nets@.len() == self.nets@.len()
        &&& forall|i: int|
            0 <= i < self.nets@.len() ==> self.nets@[i].with_wires(
                (#[trigger] new.nets@[i]).wires@,
                new.nets@[i],
            )
        &&& forall|i: int|
            0 <= i < self.nets@.len() && !nets.contains(NetId(i as u32)) ==> #[trigger] new.nets@[i]
                == self.nets@[i]
    }

    /// Rerouting one net of a set after others is rerouting within the set.
    pub proof fn lemma_reroute_one(
        self,
        nets: Set<NetId>,
        mid: Design,
        n: NetId,
        wires: Map<WireId, PipMap>,
        new: Design,
    )
        requires
            self.rerouted_within(nets, mid),
            mid.valid_net(n),
            nets.contains(n),
            mid.rerouted(n, wires, new),
        ensures
            self.rerouted_within(nets, new),
    {
        assert forall|i: int| 0 <= i < self.nets@.len() implies self.nets@[i].with_wires(
            (#[trigger] new.nets@[i]).wires@,
            new.nets@[i],
        ) by {
            assert(self.nets@[i].with_wires(mid.nets@[i].wires@, mid.nets@[i]));
        }
        assert forall|i: int|
            0 <= i < self.nets@.len() && !nets.contains(NetId(i as u32)) implies #[trigger] new.nets@[i]
            == self.nets@[i] by {
            assert(mid.nets@[i] == self.nets@[i]);
            assert(NetId(n.0 as int as u32) == n);
        }
    }

    /// Makes `w` a wire of the net, driven by `pip`.
    pub fn add_wire(&mut self, n: NetId, w: WireId, pip: Option<PipId>, strength: PlaceStrength)
        requires
            old(self).valid_net(n),
        ensures
            old(self).rerouted(
                n,
                old(self).net_of(n).wires@.insert(w, PipMap { pip, strength }),
                *final(self),
            ),
    {
        let _ = self.nets[n.0 as usize].wires.insert(w, PipMap { pip, strength });
    }

    /// Gives the net other wires.
    pub fn set_wires(&mut self, n: NetId, wires: IdMap<WireId, PipMap>)
        requires
            old(self).valid_net(n),
        ensures
            old(self).rerouted(n, wires@, *final(self)),
    {
        self.nets[n.0 as usize].wires = wires;
    }

    /// Takes all wires out of the net.
    pub fn clear_wires(&mut self, n: NetId)
        requires
            old(self).valid_net(n),
        ensures
            old(self).rerouted(n, Map::<WireId, PipMap>::empty(), *final(self)),
    {
        self.nets[n.0 as usize].wires = IdMap::new();
    }
}

} // verus!
