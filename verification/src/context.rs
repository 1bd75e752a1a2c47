//! The state that placement and routing work on: the device, the netlist, and which net holds
//! which wire and pip.

use crate::chipdb::{ChipDb, PipId, WireId};
use crate::ids::IdMap;
use crate::netlist::{Cell, CellId, CellPin, Design, Net, NetId, PipMap};
use crate::timing::delay::DelayT;
use crate::timing::tables::TimingTables;
use crate::types::enums::PlaceStrength;
use crate::types::id_string::{IdString, IdStringPool};
use vstd::prelude::*;

verus! {

/// The wire behind a pin of a site.
#[derive(Clone, Copy, PartialEq, Eq, Hash, Debug, Structural)]
pub struct BelPin {
    pub port: IdString,
    pub wire: WireId,
}

/// A site that a cell can be placed on.
pub struct Bel {
    pub name: IdString,
    pub pins: Vec<BelPin>,
}

/// The first wire that a pin list gives for a port.
pub open spec fn wire_in_pins(pins: Seq<BelPin>, port: IdString) -> Option<WireId>
    decreases pins.len(),
{
    if pins.len() == 0 {
        None
    } else if pins[0].port == port {
        Some(pins[0].wire)
    } else {
        wire_in_pins(pins.skip(1), port)
    }
}

/// A wire that a pin list gives stands in the list.
pub proof fn lemma_wire_in_pins(pins: Seq<BelPin>, port: IdString)
    ensures
        wire_in_pins(pins, port) is Some ==> exists|i: int|
            0 <= i < pins.len() && (#[trigger] pins[i]).wire == wire_in_pins(pins, port)->0,
    decreases pins.len(),
{
    if pins.len() > 0 {
        if pins[0].port == port {
            assert(pins[0].wire == wire_in_pins(pins, port)->0);
        } else {
            lemma_wire_in_pins(pins.skip(1), port);
            if wire_in_pins(pins, port) is Some {
                let i = choose|i: int|
                    0 <= i < pins.skip(1).len() && (#[trigger] pins.skip(1)[i]).wire == wire_in_pins(
                        pins.skip(1),
                        port,
                    )->0;
                assert(pins[i + 1].wire == wire_in_pins(pins, port)->0);
            }
        }
    }
}

impl Bel {
    /// The wire behind a pin.
    pub open spec fn wire_at(self, port: IdString) -> Option<WireId> {
        wire_in_pins(self.pins@, port)
    }

    /// The wire behind a pin.
    pub fn pin_wire(&self, port: IdString) -> (r: Option<WireId>)
        ensures
            r == self.wire_at(port),
    {
        let mut i: usize = 0;
        assert(self.pins@.skip(0) =~= self.pins@);
        while i < self.pins.len()
            invariant
                i <= self.pins@.len(),
                self.wire_at(port) == wire_in_pins(self.pins@.skip(i as int), port),
            decreases self.pins@.len() - i,
        {
            assert(self.pins@.skip(i as int).skip(1) =~= self.pins@.skip(i + 1));
            if self.pins[i].port == port {
                return Some(self.pins[i].wire);
            }
            i = i + 1;
        }
        None
    }
}

/// The net that holds a wire or a pip, and how firmly.
#[derive(Clone, Copy, PartialEq, Eq, Hash, Debug, Structural)]
pub struct Binding {
    pub net: NetId,
    pub strength: PlaceStrength,
}

/// The state of placement and routing.
pub struct Context {
    pub chipdb: ChipDb,
    pub bels: Vec<Bel>,
    pub design: Design,
    pub pool: IdStringPool,
    pub wire_bindings: IdMap<WireId, Binding>,
    pub pip_bindings: IdMap<PipId, Binding>,
    /// The timing tables of the speed grade, if one is chosen.
    pub timing: Option<TimingTables>,
    /// The estimated delay per tile of distance.
    pub delay_per_tile: DelayT,
    /// The estimated delay of each net.
    pub net_delays: Vec<DelayT>,
}

impl Context {
    /// The wires that route a net are wires of the device, driven by pips of the device.
    pub open spec fn routing_ok(self, wires: Map<WireId, PipMap>) -> bool {
        &&& wires.dom().finite()
        &&& forall|w: WireId| #[trigger]
            wires.contains_key(w) ==> self.chipdb.valid_wire(w) && (wires[w].pip is Some
                ==> self.chipdb.valid_pip(wires[w].pip->0))
    }

    /// Sites have wires of the device at their pins.
    pub open spec fn bel_ok(self, b: Bel) -> bool {
        forall|j: int| 0 <= j < b.pins@.len() ==> self.chipdb.valid_wire((#[trigger] b.pins@[j]).wire)
    }

    /// Cells are placed on sites that exist.
    pub open spec fn placement_ok(self) -> bool {
        &&& forall|i: int| 0 <= i < self.bels@.len() ==> self.bel_ok(#[trigger] self.bels@[i])
        &&& forall|i: int|
            0 <= i < self.design.cells@.len() && (#[trigger] self.design.cells@[i]).bel is Some
                ==> self.design.cells@[i].bel->0 < self.bels@.len()
    }

    /// Wires and pips are bound to nets that exist.
    pub open spec fn bindings_ok(self) -> bool {
        &&& forall|w: WireId| #[trigger]
            self.wire_bindings@.contains_key(w) ==> self.design.valid_net(self.wire_bindings@[w].net)
        &&& forall|p: PipId| #[trigger]
            self.pip_bindings@.contains_key(p) ==> self.design.valid_net(self.pip_bindings@[p].net)
    }

    pub open spec fn wf(self) -> bool {
        &&& self.chipdb.wf()
        &&& self.design.wf()
        &&& self.placement_ok()
        &&& self.bindings_ok()
        &&& self.net_delays@.len() == self.design.nets@.len()
        &&& forall|i: int|
            0 <= i < self.design.nets@.len() ==> self.routing_ok((#[trigger] self.design.nets@[i]).wires@)
    }

    /// The wire behind a pin of a placed cell.
    pub open spec fn wire_of_pin(self, p: CellPin) -> Option<WireId> {
        match self.design.cell_of(p.cell).bel {
            Some(b) => self.bels@[b as int].wire_at(p.port),
            None => None,
        }
    }

    /// The wire behind a pin is a wire of the device.
    pub proof fn lemma_wire_of_pin(self, p: CellPin)
        requires
            self.wf(),
            self.design.valid_cell(p.cell),
        ensures
            self.wire_of_pin(p) is Some ==> self.chipdb.valid_wire(self.wire_of_pin(p)->0),
    {
        assert(self.design.cells@[p.cell.0 as int] == self.design.cell_of(p.cell));
        if let Some(b) = self.design.cell_of(p.cell).bel {
            let bel = self.bels@[b as int];
            lemma_wire_in_pins(bel.pins@, p.port);
            assert(self.bel_ok(bel));
        }
    }

    /// The text of a name; nothing for a name that is not in the pool.
    pub open spec fn name_text(self, id: IdString) -> Seq<char> {
        if 0 <= id.0 < self.pool@.len() {
            self.pool@[id.0 as int]
        } else {
            Seq::empty()
        }
    }

    /// The text of a name; nothing for a name that is not in the pool.
    pub fn name_of(&self, id: IdString) -> (r: &str)
        ensures
            r@ == self.name_text(id),
    {
        match self.pool.lookup(id) {
            Some(s) => s,
            None => {
                proof {
                    reveal_strlit("");
                    assert(""@ =~= Seq::<char>::empty());
                }
                ""
            },
        }
    }

    /// The net that holds a wire.
    pub open spec fn owner(self, w: WireId) -> Option<NetId> {
        if self.wire_bindings@.contains_key(w) {
            Some(self.wire_bindings@[w].net)
        } else {
            None
        }
    }

    /// The net that holds a pip.
    pub open spec fn pip_owner(self, p: PipId) -> Option<NetId> {
        if self.pip_bindings@.contains_key(p) {
            Some(self.pip_bindings@[p].net)
        } else {
            None
        }
    }

    /// Builds the state for a device and a netlist with nothing bound; `None` if the parts do not
    /// fit together.
    pub fn new(
        chipdb: ChipDb,
        bels: Vec<Bel>,
        design: Design,
        pool: IdStringPool,
        timing: Option<TimingTables>,
        delay_per_tile: DelayT,
        net_delays: Vec<DelayT>,
    ) -> (r: Option<Context>)
        requires
            chipdb.wf(),
        ensures
            match r {
                Some(c) => {
                    &&& c.wf()
                    &&& c.chipdb == chipdb && c.bels == bels && c.design == design
                    &&& c.pool == pool && c.timing == timing
                    &&& c.delay_per_tile == delay_per_tile && c.net_delays == net_delays
                    &&& c.wire_bindings@.dom() == Set::<WireId>::empty()
                    &&& c.pip_bindings@.dom() == Set::<PipId>::empty()
                },
                None => forall|c: Context|
                    c.chipdb == chipdb && c.bels == bels && c.design == design && c.net_delays
                        == net_delays ==> !#[trigger] c.wf(),
            },
    {
        let ctx = Context {
            chipdb,
            bels,
            design,
            pool,
            wire_bindings: IdMap::new(),
            pip_bindings: IdMap::new(),
            timing,
            delay_per_tile,
            net_delays,
        };
        if !ctx.design.check() || ctx.net_delays.len() != ctx.design.nets.len() {
            return None;
        }
        if !ctx.check_placement() || !ctx.check_routing() {
            return None;
        }
        Some(ctx)
    }

    fn check_placement(&self) -> (r: bool)
        requires
            self.chipdb.wf(),
        ensures
            r == self.placement_ok(),
    {
        for i in 0..self.bels.len()
            invariant
                self.chipdb.wf(),
                forall|k: int| 0 <= k < i ==> self.bel_ok(#[trigger] self.bels@[k]),
        {
            let bel = &self.bels[i];
            for j in 0..bel.pins.len()
                invariant
                    self.chipdb.wf(),
                    i < self.bels@.len(),
                    bel == self.bels@[i as int],
                    forall|k: int| 0 <= k < j ==> self.chipdb.valid_wire((#[trigger] bel.pins@[k]).wire),
            {
                if !self.chipdb.is_valid_wire(bel.pins[j].wire) {
                    assert(!self.bel_ok(self.bels@[i as int]));
                    return false;
                }
            }
        }
        for i in 0..self.design.cells.len()
            invariant
                forall|k: int|
                    0 <= k < i && (#[trigger] self.design.cells@[k]).bel is Some
                        ==> self.design.cells@[k].bel->0 < self.bels@.len(),
        {
            if let Some(b) = self.design.cells[i].bel {
                if b >= self.bels.len() {
                    assert(self.design.cells@[i as int].bel is Some);
                    return false;
                }
            }
        }
        true
    }

    fn check_routing(&self) -> (r: bool)
        requires
            self.chipdb.wf(),
        ensures
            r == (forall|i: int|
                0 <= i < self.design.nets@.len() ==> self.routing_ok(
                    (#[trigger] self.design.nets@[i]).wires@,
                )),
    {
        for i in 0..self.design.nets.len()
            invariant
                self.chipdb.wf(),
                forall|k: int| 0 <= k < i ==> self.routing_ok((#[trigger] self.design.nets@[k]).wires@),
        {
            let net = &self.design.nets[i];
            let keys = net.wires.keys();
            for j in 0..keys.len()
                invariant
                    self.chipdb.wf(),
                    i < self.design.nets@.len(),
                    net == self.design.nets@[i as int],
                    forall|w: WireId| #[trigger] keys@.contains(w) <==> net.wires@.contains_key(w),
                    forall|k: int|
                        0 <= k < j ==> self.chipdb.valid_wire(#[trigger] keys@[k]) && (
                        net.wires@[keys@[k]].pip is Some ==> self.chipdb.valid_pip(
                            net.wires@[keys@[k]].pip->0,
                        )),
            {
                let w: WireId = keys[j];
                assert(keys@.contains(w));
                let good: bool = if !self.chipdb.is_valid_wire(w) {
                    false
                } else {
                    match net.wires.get(w) {
                        Some(pm) => match pm.pip {
                            Some(p) => self.chipdb.is_valid_pip(p),
                            None => true,
                        },
                        None => true,
                    }
                };
                if !good {
                    assert(net.wires@.contains_key(w));
                    assert(!self.routing_ok(self.design.nets@[i as int].wires@));
                    return false;
                }
            }
            assert forall|w: WireId| #[trigger] net.wires@.contains_key(w) implies self.chipdb.valid_wire(
                w,
            ) && (net.wires@[w].pip is Some ==> self.chipdb.valid_pip(net.wires@[w].pip->0)) by {
                assert(keys@.contains(w));
                let k = choose|k: int| 0 <= k < keys@.len() && keys@[k] == w;
                assert(self.chipdb.valid_wire(keys@[k]));
            }
        }
        true
    }

    pub fn net(&self, n: NetId) -> (r: &Net)
        requires
            self.design.valid_net(n),
        ensures
            *r == self.design.net_of(n),
    {
        self.design.net(n)
    }

    pub fn cell(&self, c: CellId) -> (r: &Cell)
        requires
            self.design.valid_cell(c),
        ensures
            *r == self.design.cell_of(c),
    {
        self.design.cell(c)
    }

    /// The site of a cell, if it is placed.
    pub fn bel_of(&self, c: CellId) -> (r: Option<&Bel>)
        requires
            self.wf(),
            self.design.valid_cell(c),
        ensures
            match r {
                Some(b) => self.design.cell_of(c).bel is Some && *b
                    == self.bels@[self.design.cell_of(c).bel->0 as int],
                None => self.design.cell_of(c).bel is None,
            },
    {
        assert(self.design.cells@[c.0 as int] == self.design.cell_of(c));
        match self.design.cell(c).bel {
            Some(b) => Some(&self.bels[b]),
            None => None,
        }
    }

    /// The wire behind a pin of a placed cell.
    pub fn pin_wire(&self, p: CellPin) -> (r: Option<WireId>)
        requires
            self.wf(),
            self.design.valid_cell(p.cell),
        ensures
            r == self.wire_of_pin(p),
            r is Some ==> self.chipdb.valid_wire(r->0),
    {
        proof {
            self.lemma_wire_of_pin(p);
        }
        match self.bel_of(p.cell) {
            Some(b) => b.pin_wire(p.port),
            None => None,
        }
    }

    /// The net that holds a wire.
    pub fn wire_binding(&self, w: WireId) -> (r: Option<Binding>)
        ensures
            r == (if self.wire_bindings@.contains_key(w) {
                Some(self.wire_bindings@[w])
            } else {
                None
            }),
    {
        match self.wire_bindings.get(w) {
            Some(b) => Some(*b),
            None => None,
        }
    }

    /// The net that holds a pip.
    pub fn pip_binding(&self, p: PipId) -> (r: Option<Binding>)
        ensures
            r == (if self.pip_bindings@.contains_key(p) {
                Some(self.pip_bindings@[p])
            } else {
                None
            }),
    {
        match self.pip_bindings.get(p) {
            Some(b) => Some(*b),
            None => None,
        }
    }

    /// Everything but the bindings and the routing of the nets is as in `other`.
    pub open spec fn same_base(self, other: Context) -> bool {
        &&& self.chipdb == other.chipdb
        &&& self.bels == other.bels
        &&& self.pool == other.pool
        &&& self.timing == other.timing
        &&& self.delay_per_tile == other.delay_per_tile
        &&& self.net_delays == other.net_delays
    }

    /// Only the bindings of wires differ between two states; they are `wires` in the second.
    pub open spec fn rebound_wires(self, wires: Map<WireId, Binding>, new: Context) -> bool {
        &&& new.same_base(self)
        &&& new.design == self.design
        &&& new.pip_bindings == self.pip_bindings
        &&& new.wire_bindings@ == wires
    }

    /// Only the bindings of pips differ between two states; they are `pips` in the second.
    pub open spec fn rebound_pips(self, pips: Map<PipId, Binding>, new: Context) -> bool {
        &&& new.same_base(self)
        &&& new.design == self.design
        &&& new.wire_bindings == self.wire_bindings
        &&& new.pip_bindings@ == pips
    }

    /// Gives a wire to a net.
    pub fn bind_wire(&mut self, w: WireId, net: NetId, strength: PlaceStrength)
        ensures
            old(self).rebound_wires(
                old(self).wire_bindings@.insert(w, Binding { net, strength }),
                *final(self),
            ),
    {
        let _ = self.wire_bindings.insert(w, Binding { net, strength });
    }

    /// Takes a wire from the net that holds it.
    pub fn unbind_wire(&mut self, w: WireId)
        ensures
            old(self).rebound_wires(old(self).wire_bindings@.remove(w), *final(self)),
    {
        let _ = self.wire_bindings.remove(w);
    }

    /// Gives a pip to a net.
    pub fn bind_pip(&mut self, p: PipId, net: NetId, strength: PlaceStrength)
        ensures
            old(self).rebound_pips(
                old(self).pip_bindings@.insert(p, Binding { net, strength }),
                *final(self),
            ),
    {
        let _ = self.pip_bindings.insert(p, Binding { net, strength });
    }

    /// Takes a pip from the net that holds it.
    pub fn unbind_pip(&mut self, p: PipId)
        ensures
            old(self).rebound_pips(old(self).pip_bindings@.remove(p), *final(self)),
    {
        let _ = self.pip_bindings.remove(p);
    }

    /// The wires of the conductor of `w`, that wire first.
    pub open spec fn conductor_of(self, w: WireId) -> Seq<WireId> {
        seq![w] + self.chipdb.peers(w)
    }

    /// The first wire of a list that another net holds.
    pub open spec fn first_taken(self, net: NetId, wires: Seq<WireId>) -> Option<WireId>
        decreases wires.len(),
    {
        if wires.len() == 0 {
            None
        } else if self.owner(wires[0]) is Some && self.owner(wires[0]) != Some(net) {
            Some(wires[0])
        } else {
            self.first_taken(net, wires.skip(1))
        }
    }

    /// The bindings after the first `n` wires of a list were given to a net.
    pub open spec fn bound_upto(
        bindings: Map<WireId, Binding>,
        wires: Seq<WireId>,
        b: Binding,
        n: int,
    ) -> Map<WireId, Binding>
        decreases n,
    {
        if n <= 0 {
            bindings
        } else {
            Self::bound_upto(bindings, wires, b, n - 1).insert(wires[n - 1], b)
        }
    }

    /// The bindings after a conductor was given to a net.
    pub open spec fn node_bound(
        self,
        bindings: Map<WireId, Binding>,
        w: WireId,
        b: Binding,
    ) -> Map<WireId, Binding> {
        Self::bound_upto(bindings, self.conductor_of(w), b, self.conductor_of(w).len() as int)
    }

    /// The wires of the conductor of `w`, that wire first.
    pub fn conductor(&self, w: WireId) -> (r: Vec<WireId>)
        requires
            self.chipdb.wf(),
        ensures
            r@ == self.conductor_of(w),
    {
        let mut out: Vec<WireId> = Vec::new();
        out.push(w);
        let mut peers = self.chipdb.node_wires(w);
        out.append(&mut peers);
        assert(out@ =~= self.conductor_of(w));
        out
    }

    /// The first wire of the conductor of `w` that another net holds.
    pub fn node_conflict(&self, w: WireId, net: NetId) -> (r: Option<WireId>)
        requires
            self.chipdb.wf(),
        ensures
            r == self.first_taken(net, self.conductor_of(w)),
    {
        let wires = self.conductor(w);
        let mut i: usize = 0;
        assert(wires@.skip(0) =~= wires@);
        while i < wires.len()
            invariant
                i <= wires@.len(),
                wires@ == self.conductor_of(w),
                self.first_taken(net, wires@) == self.first_taken(net, wires@.skip(i as int)),
            decreases wires@.len() - i,
        {
            assert(wires@.skip(i as int).skip(1) =~= wires@.skip(i + 1));
            if let Some(b) = self.wire_binding(wires[i]) {
                if b.net != net {
                    return Some(wires[i]);
                }
            }
            i = i + 1;
        }
        None
    }

    /// Gives all wires of the conductor of `w` to a net, unless another net holds one of them; the
    /// first such wire is then returned and nothing changes.
    pub fn try_bind_wire_node(&mut self, w: WireId, net: NetId, strength: PlaceStrength) -> (r: Result<
        (),
        WireId,
    >)
        requires
            old(self).chipdb.wf(),
        ensures
            match r {
                Ok(_) => {
                    &&& old(self).first_taken(net, old(self).conductor_of(w)) is None
                    &&& old(self).rebound_wires(
                        old(self).node_bound(old(self).wire_bindings@, w, Binding { net, strength }),
                        *final(self),
                    )
                },
                Err(x) => {
                    &&& old(self).first_taken(net, old(self).conductor_of(w)) == Some(x)
                    &&& *final(self) == *old(self)
                },
            },
    {
        if let Some(x) = self.node_conflict(w, net) {
            return Err(x);
        }
        self.bind_wire_node(w, net, strength);
        Ok(())
    }

    /// Gives all wires of the conductor of `w` to a net.
    pub fn bind_wire_node(&mut self, w: WireId, net: NetId, strength: PlaceStrength)
        requires
            old(self).chipdb.wf(),
        ensures
            old(self).rebound_wires(
                old(self).node_bound(old(self).wire_bindings@, w, Binding { net, strength }),
                *final(self),
            ),
    {
        let wires = self.conductor(w);
        let n: usize = wires.len();
        for i in 0..n
            invariant
                n == wires@.len(),
                wires@ == old(self).conductor_of(w),
                old(self).rebound_wires(
                    Self::bound_upto(
                        old(self).wire_bindings@,
                        wires@,
                        Binding { net, strength },
                        i as int,
                    ),
                    *self,
                ),
        {
            self.bind_wire(wires[i], net, strength);
        }
    }

    /// What the bindings of a conductor that was given to a net are.
    pub proof fn lemma_bound_upto(
        bindings: Map<WireId, Binding>,
        wires: Seq<WireId>,
        b: Binding,
        n: int,
        x: WireId,
    )
        requires
            0 <= n <= wires.len(),
        ensures
            ({
                let after = Self::bound_upto(bindings, wires, b, n);
                if wires.take(n).contains(x) {
                    after.contains_key(x) && after[x] == b
                } else {
                    (after.contains_key(x) <==> bindings.contains_key(x)) && (after.contains_key(x)
                        ==> after[x] == bindings[x])
                }
            }),
        decreases n,
    {
        if n > 0 {
            Self::lemma_bound_upto(bindings, wires, b, n - 1, x);
            let part = wires.take(n - 1);
            let whole = wires.take(n);
            if x == wires[n - 1] {
                assert(whole[n - 1] == x);
            } else if part.contains(x) {
                let i = choose|i: int| 0 <= i < part.len() && part[i] == x;
                assert(whole[i] == x);
            } else if whole.contains(x) {
                let i = choose|i: int| 0 <= i < whole.len() && whole[i] == x;
                assert(part[i] == x);
            }
        }
    }

    /// Bindings to a net of a design name that net or a net that was named before.
    pub proof fn lemma_node_bound(self, bindings: Map<WireId, Binding>, w: WireId, b: Binding)
        ensures
            forall|x: WireId| #[trigger]
                self.node_bound(bindings, w, b).contains_key(x) ==> self.node_bound(bindings, w, b)[x] == b
                    || (bindings.contains_key(x) && self.node_bound(bindings, w, b)[x] == bindings[x]),
            forall|x: WireId|
                bindings.contains_key(x) ==> #[trigger] self.node_bound(bindings, w, b).contains_key(x),
            self.node_bound(bindings, w, b).contains_key(w),
            self.node_bound(bindings, w, b)[w] == b,
    {
        let wires = self.conductor_of(w);
        let n = wires.len() as int;
        assert(wires.take(n) =~= wires);
        assert(wires[0] == w);
        assert(wires.contains(w));
        Self::lemma_bound_upto(bindings, wires, b, n, w);
        assert forall|x: WireId| #[trigger]
            self.node_bound(bindings, w, b).contains_key(x) implies self.node_bound(bindings, w, b)[x] == b
            || (bindings.contains_key(x) && self.node_bound(bindings, w, b)[x] == bindings[x]) by {
            Self::lemma_bound_upto(bindings, wires, b, n, x);
        }
        assert forall|x: WireId| bindings.contains_key(x) implies #[trigger] self.node_bound(
            bindings,
            w,
            b,
        ).contains_key(x) by {
            Self::lemma_bound_upto(bindings, wires, b, n, x);
        }
    }

    /// A state that differs in bindings and in the routing of one net is well-formed, if those are.
    pub proof fn lemma_rerouted_wf(self, net: NetId, tree: Map<WireId, PipMap>, new: Context)
        requires
            self.wf(),
            new.same_base(self),
            self.design.valid_net(net),
            self.design.rerouted(net, tree, new.design),
            self.routing_ok(tree),
            new.bindings_ok(),
        ensures
            new.wf(),
    {
        assert forall|i: int| 0 <= i < new.design.nets@.len() implies new.design.net_ok(
            #[trigger] new.design.nets@[i],
        ) && new.routing_ok(new.design.nets@[i].wires@) by {
            assert(self.design.net_ok(self.design.nets@[i]));
            assert(self.routing_ok(self.design.nets@[i].wires@));
            let n = new.design.nets@[i];
            assert forall|j: int| 0 <= j < n.users@.len() implies new.design.pin_ok(
                #[trigger] n.users@[j],
            ) by {
                assert(self.design.pin_ok(self.design.nets@[i].users@[j]));
            }
        }
        assert forall|i: int| 0 <= i < new.design.cells@.len() implies new.design.cell_ok(
            #[trigger] new.design.cells@[i],
        ) by {
            assert(self.design.cell_ok(self.design.cells@[i]));
        }
        assert forall|i: int| 0 <= i < new.bels@.len() implies new.bel_ok(#[trigger] new.bels@[i]) by {
            assert(self.bel_ok(self.bels@[i]));
        }
    }

    /// The estimated delay between two wires.
    pub open spec fn estimate(self, a: WireId, b: WireId) -> int {
        let d = self.chipdb.distance(a.tile as int, b.tile as int);
        let per = if self.delay_per_tile < 0 { 0 } else { self.delay_per_tile as int };
        if d * per > i32::MAX {
            i32::MAX as int
        } else {
            d * per
        }
    }

    /// The estimated delay between two wires: their distance times the delay per tile.
    pub fn estimate_delay(&self, a: WireId, b: WireId) -> (r: DelayT)
        requires
            self.chipdb.wf(),
            self.chipdb.valid_wire(a),
            self.chipdb.valid_wire(b),
        ensures
            r == self.estimate(a, b),
            r >= 0,
    {
        let d: i32 = self.chipdb.manhattan(a.tile, b.tile);
        let per: i32 = if self.delay_per_tile < 0 { 0 } else { self.delay_per_tile };
        proof {
            vstd::arithmetic::mul::lemma_mul_upper_bound(
                d as int,
                i32::MAX as int,
                per as int,
                i32::MAX as int,
            );
            vstd::arithmetic::mul::lemma_mul_nonnegative(d as int, per as int);
        }
        let product: i64 = (d as i64) * (per as i64);
        if product > i32::MAX as i64 {
            i32::MAX
        } else {
            product as i32
        }
    }

    /// The estimated delay of a net.
    pub fn estimate_delay_for_net(&self, n: NetId) -> (r: DelayT)
        requires
            self.wf(),
            self.design.valid_net(n),
        ensures
            r == self.net_delays@[n.0 as int],
    {
        self.net_delays[n.0 as usize]
    }
}

} // verus!
