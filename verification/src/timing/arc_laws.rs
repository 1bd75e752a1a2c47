//! Which arcs the timing tables give to the ports of cells, and which delays routes have.

use crate::netlist::{Cell, CellPin, Design, NetId};
use crate::router::net_laws::lemma_picked;
use crate::timing::analyser::PortFacts;
use crate::timing::cell_delays::{
    clock_port, comb_arcs, guessed_class, has_clock, input_arcs, last_net_to, output_arcs, row_for,
    timed_by,
};
use crate::timing::delay::{DelayQuad, DelayT};
use crate::timing::domain::{CellArc, CellArcType};
use crate::timing::kinds::ClockEdge;
use crate::timing::tables::{first_index, lemma_first_index, CellTiming, PathDelay, PortTiming, RegArc, TimingTables};
use crate::types::id_string::IdString;
use vstd::prelude::*;

verus! {

/// Port `k` of the cell is the first with the name.
pub open spec fn is_named(cell: Cell, name: IdString, k: int) -> bool {
    &&& 0 <= k < cell.ports@.len()
    &&& cell.ports@[k].name == name
    &&& forall|i: int| 0 <= i < k ==> (#[trigger] cell.ports@[i]).name != name
}

proof fn lemma_first_port(ports: Seq<crate::netlist::CellPort>, name: IdString)
    ensures
        ({
            let k = crate::netlist::first_port(ports, name);
            &&& 0 <= k <= ports.len()
            &&& k < ports.len() ==> ports[k].name == name
            &&& forall|i: int| 0 <= i < k ==> (#[trigger] ports[i]).name != name
        }),
    decreases ports.len(),
{
    if ports.len() > 0 && ports[0].name != name {
        let rest = ports.skip(1);
        lemma_first_port(rest, name);
        let k = crate::netlist::first_port(rest, name);
        assert forall|i: int| 0 <= i < k + 1 implies (#[trigger] ports[i]).name != name by {
            if i > 0 {
                assert(rest[i - 1] == ports[i]);
            }
        }
        if k < rest.len() {
            assert(rest[k] == ports[k + 1]);
        }
    }
}

/// The net at a name is that of the first port with the name, and there is none where no port has it.
pub proof fn ports_are_found_by_name(cell: Cell, name: IdString)
    ensures
        forall|k: int| #[trigger] is_named(cell, name, k) ==> cell.net_at(name) == cell.ports@[k].net
            && cell.port_index(name) == k,
        (forall|k: int| 0 <= k < cell.ports@.len() ==> (#[trigger] cell.ports@[k]).name != name) ==> cell.net_at(name)
            is None,
{
    lemma_first_port(cell.ports@, name);
    let j = cell.port_index(name);
    assert forall|k: int| #[trigger] is_named(cell, name, k) implies cell.net_at(name) == cell.ports@[k].net
        && cell.port_index(name) == k by {
        if j < k {
            assert(cell.ports@[j].name != name);
        }
    }
}

/// Holds of a register time whose clock port has a net.
pub open spec fn has_clock_net(cell: Cell) -> spec_fn(RegArc) -> bool {
    |a: RegArc| cell.net_at(IdString(a.clock_port)) is Some
}

/// The arc of a kind that a register time gives.
pub open spec fn arc_of(kind: CellArcType, a: RegArc, value: DelayQuad) -> CellArc {
    CellArc { arc_type: kind, other_port: IdString(a.clock_port), value, edge: a.edge }
}

/// A register input has a setup and a hold arc for each of its register times whose clock port is
/// connected, with the times and the edge of that entry, one pair after the other; and no other arcs.
pub proof fn register_inputs_have_all_their_arcs(cell: Cell, arcs: Seq<RegArc>, k: int)
    requires
        0 <= k <= arcs.len(),
    ensures
        ({
            let timed = arcs.take(k).filter(has_clock_net(cell));
            let list = input_arcs(cell, arcs, k);
            &&& list.len() == 2 * timed.len()
            &&& forall|i: int|
                0 <= i < timed.len() ==> list[2 * i] == arc_of(
                    CellArcType::Setup,
                    #[trigger] timed[i],
                    DelayQuad { rise: timed[i].setup, fall: timed[i].setup },
                ) && list[2 * i + 1] == arc_of(
                    CellArcType::Hold,
                    timed[i],
                    DelayQuad { rise: timed[i].hold, fall: timed[i].hold },
                )
        }),
    decreases k,
{
    lemma_picked(arcs, k, has_clock_net(cell));
    if k > 0 {
        register_inputs_have_all_their_arcs(cell, arcs, k - 1);
    }
}

/// A register output has a clock arc for each of its register times whose clock port is connected, in
/// order; and no other arcs.
pub proof fn register_outputs_have_all_their_arcs(cell: Cell, arcs: Seq<RegArc>, k: int)
    requires
        0 <= k <= arcs.len(),
    ensures
        ({
            let timed = arcs.take(k).filter(has_clock_net(cell));
            let list = output_arcs(cell, arcs, k);
            &&& list.len() == timed.len()
            &&& forall|i: int|
                0 <= i < timed.len() ==> list[i] == arc_of(
                    CellArcType::ClockToQ,
                    #[trigger] timed[i],
                    timed[i].clock_to_q,
                )
        }),
    decreases k,
{
    lemma_picked(arcs, k, has_clock_net(cell));
    if k > 0 {
        register_outputs_have_all_their_arcs(cell, arcs, k - 1);
    }
}

/// Entry `j` of the row is the first for the delay from one port to the other.
pub open spec fn is_delay(row: CellTiming, from: i32, to: i32, j: int) -> bool {
    &&& 0 <= j < row.delays@.len()
    &&& row.delays@[j].from == from
    &&& row.delays@[j].to == to
    &&& forall|i: int| 0 <= i < j ==> (#[trigger] row.delays@[i]).from != from || row.delays@[i].to != to
}

proof fn lemma_index_of<T>(s: Seq<T>, test: spec_fn(T) -> bool)
    ensures
        0 <= first_index(s, test) <= s.len(),
        first_index(s, test) < s.len() ==> test(s[first_index(s, test)]),
        forall|i: int| 0 <= i < first_index(s, test) ==> !test(#[trigger] s[i]),
    decreases s.len(),
{
    if s.len() > 0 && !test(s[0]) {
        let rest = s.skip(1);
        lemma_index_of(rest, test);
        let k = first_index(rest, test);
        assert forall|i: int| 0 <= i < k + 1 implies !test(#[trigger] s[i]) by {
            if i > 0 {
                assert(rest[i - 1] == s[i]);
            }
        }
        if k < rest.len() {
            assert(rest[k] == s[k + 1]);
        }
    }
}

/// The delay from one port to another is that of the first entry of the row for the two, in that
/// direction, and there is none without such an entry.
pub proof fn delays_are_found_by_both_ports(row: CellTiming, from: i32, to: i32)
    ensures
        forall|j: int| #[trigger] is_delay(row, from, to, j) ==> row.delay_of(from, to) == Some(row.delays@[j].delay),
        (forall|j: int|
            0 <= j < row.delays@.len() ==> (#[trigger] row.delays@[j]).from != from || row.delays@[j].to != to)
            ==> row.delay_of(from, to) is None,
{
    let test = |d: PathDelay| d.from == from && d.to == to;
    lemma_index_of(row.delays@, test);
    let k = first_index(row.delays@, test);
    assert forall|j: int| #[trigger] is_delay(row, from, to, j) implies row.delay_of(from, to) == Some(
        row.delays@[j].delay,
    ) by {
        assert(test(row.delays@[j]));
        if k < j {
            assert(test(row.delays@[k]));
        } else if j < k {
            assert(!test(row.delays@[j]));
        }
        assert(k == j);
    }
    if forall|j: int|
        0 <= j < row.delays@.len() ==> (#[trigger] row.delays@[j]).from != from || row.delays@[j].to != to {
        if k < row.delays@.len() {
            assert(test(row.delays@[k]));
        }
    }
}

/// The class and the register times of a port are those of the first row for it; a port without a row
/// is combinational and has none.
pub proof fn classes_are_found_by_port(row: CellTiming, port: i32, j: int)
    requires
        0 <= j <= row.ports@.len(),
        forall|i: int| 0 <= i < j ==> (#[trigger] row.ports@[i]).port != port,
        j < row.ports@.len() ==> row.ports@[j].port == port,
    ensures
        j < row.ports@.len() ==> row.class_of(port) == row.ports@[j].class && row.arcs_of(port)
            == row.ports@[j].reg_arcs@,
        j == row.ports@.len() ==> row.class_of(port) is Combinational && row.arcs_of(port).len() == 0,
{
    lemma_first_index(row.ports@, |p: PortTiming| p.port == port, j);
}

/// The row of a cell is the one that it names; for a cell that names none it is the first of its type;
/// and there is none where that is missing.
pub proof fn rows_are_found_by_type(tables: TimingTables, cell: Cell, j: int)
    requires
        0 <= j <= tables.cells@.len(),
        forall|i: int| 0 <= i < j ==> (#[trigger] tables.cells@[i]).cell_type != cell.cell_type.0,
        j < tables.cells@.len() ==> tables.cells@[j].cell_type == cell.cell_type.0,
    ensures
        cell.timing_index is Some && cell.timing_index->0 < tables.cells@.len() ==> row_for(tables, cell) == Some(
            cell.timing_index->0 as int,
        ),
        cell.timing_index is Some && cell.timing_index->0 >= tables.cells@.len() ==> row_for(tables, cell) is None,
        cell.timing_index is None && j < tables.cells@.len() ==> row_for(tables, cell) == Some(j),
        cell.timing_index is None && j == tables.cells@.len() ==> row_for(tables, cell) is None,
{
    lemma_first_index(tables.cells@, |c: CellTiming| c.cell_type == cell.cell_type.0, j);
}

/// Port `j` of the cell stands opposite, is connected, and has a delay from or to the port.
pub open spec fn stands_opposite(cell: Cell, row: CellTiming, port: IdString, is_input: bool, j: int) -> bool {
    &&& 0 <= j < cell.ports@.len()
    &&& cell.ports@[j].net is Some
    &&& is_input ==> cell.ports@[j].port_type is Out && row.delay_of(port.0, cell.ports@[j].name.0) is Some
    &&& !is_input ==> cell.ports@[j].port_type is In && row.delay_of(cell.ports@[j].name.0, port.0) is Some
}

/// The combinational arc between the port and port `j` of the cell.
pub open spec fn arc_between(cell: Cell, row: CellTiming, port: IdString, is_input: bool, j: int) -> CellArc {
    CellArc {
        arc_type: CellArcType::Combinational,
        other_port: cell.ports@[j].name,
        value: if is_input {
            row.delay_of(port.0, cell.ports@[j].name.0)->0
        } else {
            row.delay_of(cell.ports@[j].name.0, port.0)->0
        },
        edge: ClockEdge::Rising,
    }
}

/// Some port below `k` stands opposite and has the arc.
pub open spec fn some_opposite(cell: Cell, row: CellTiming, port: IdString, is_input: bool, k: int, arc: CellArc) -> bool {
    exists|j: int|
        0 <= j < k && #[trigger] stands_opposite(cell, row, port, is_input, j) && arc == arc_between(
            cell,
            row,
            port,
            is_input,
            j,
        )
}

/// A port has a combinational arc for every connected port of the other direction that the row has a
/// delay for, with that delay; and no others.
pub proof fn ports_have_all_their_combinational_arcs(
    cell: Cell,
    row: CellTiming,
    port: IdString,
    is_input: bool,
    k: int,
)
    requires
        0 <= k <= cell.ports@.len(),
    ensures
        ({
            let list = comb_arcs(cell, row, port, is_input, k);
            &&& forall|j: int|
                0 <= j < k && #[trigger] stands_opposite(cell, row, port, is_input, j) ==> list.contains(
                    arc_between(cell, row, port, is_input, j),
                )
            &&& forall|i: int|
                0 <= i < list.len() ==> some_opposite(cell, row, port, is_input, k, #[trigger] list[i])
        }),
    decreases k,
{
    if k > 0 {
        ports_have_all_their_combinational_arcs(cell, row, port, is_input, k - 1);
        let part = comb_arcs(cell, row, port, is_input, k - 1);
        let list = comb_arcs(cell, row, port, is_input, k);
        let last = k - 1;
        assert forall|j: int|
            0 <= j < k && #[trigger] stands_opposite(cell, row, port, is_input, j) implies list.contains(
            arc_between(cell, row, port, is_input, j),
        ) by {
            let a = arc_between(cell, row, port, is_input, j);
            if j < last {
                assert(part.contains(a));
                let i = choose|i: int| 0 <= i < part.len() && part[i] == a;
                assert(list[i] == a);
            } else {
                assert(list[part.len() as int] == a);
            }
        }
        assert forall|i: int| 0 <= i < list.len() implies some_opposite(
            cell,
            row,
            port,
            is_input,
            k,
            #[trigger] list[i],
        ) by {
            if i < part.len() {
                assert(part[i] == list[i]);
                assert(some_opposite(cell, row, port, is_input, last, part[i]));
                let j = choose|j: int|
                    0 <= j < last && #[trigger] stands_opposite(cell, row, port, is_input, j) && part[i] == arc_between(
                        cell,
                        row,
                        port,
                        is_input,
                        j,
                    );
                assert(stands_opposite(cell, row, port, is_input, j));
            } else {
                assert(stands_opposite(cell, row, port, is_input, last));
            }
        }
    }
}

/// A clock input, a generated clock and an ignored port have no arcs; a register input has its setup and
/// hold arcs and a register output its clock arcs, each followed by the combinational ones; any other
/// port has the combinational ones alone. A port without a net, or whose cell has no row, stays as it
/// was.
pub proof fn ports_are_timed_by_their_class(tables: TimingTables, design: Design, pin: CellPin, was: PortFacts)
    ensures
        ({
            let cell = design.cells@[pin.cell.0 as int];
            let new = timed_by(tables, design, pin, was);
            let r = row_for(tables, cell);
            &&& r is None || cell.net_at(pin.port) is None ==> new == was
            &&& r is Some && cell.net_at(pin.port) is Some ==> {
                let row = tables.cells@[r->0];
                let regs = row.arcs_of(pin.port.0);
                let comb = comb_arcs(cell, row, pin.port, was.port_type is In, cell.ports@.len() as int);
                &&& new.port_class == row.class_of(pin.port.0)
                &&& new.port_type == was.port_type
                &&& new.route == was.route
                &&& new.port_class is ClockInput || new.port_class is GenClock || new.port_class is Ignore
                    ==> new.arcs.len() == 0
                &&& new.port_class is RegisterInput && was.port_type is In ==> new.arcs == input_arcs(
                    cell,
                    regs,
                    regs.len() as int,
                ) + comb
                &&& new.port_class is RegisterOutput && !(was.port_type is In) ==> new.arcs == output_arcs(
                    cell,
                    regs,
                    regs.len() as int,
                ) + comb
                &&& new.port_class is Combinational ==> new.arcs =~= comb
            }
        }),
{
}

/// A period is asked for on the net, or for its name.
pub open spec fn asked_for(design: Design, clocks: Map<IdString, DelayT>, n: NetId) -> bool {
    design.nets@[n.0 as int].clock_constraint > 0 || (clocks.contains_key(design.nets@[n.0 as int].name)
        && clocks[design.nets@[n.0 as int].name] > 0)
}

/// Port `j` of the cell is an input on a net that a period is asked for.
pub open spec fn takes_clock(design: Design, clocks: Map<IdString, DelayT>, cell: Cell, j: int) -> bool {
    &&& 0 <= j < cell.ports@.len()
    &&& cell.ports@[j].port_type is In
    &&& cell.ports@[j].net is Some
    &&& asked_for(design, clocks, cell.ports@[j].net->0)
}

/// Without tables an input on a clock is a clock input; of a cell with such an input every other input
/// is a register input and every output a register output; all else is combinational.
pub proof fn clocks_make_registers(design: Design, clocks: Map<IdString, DelayT>, pin: CellPin, k: int)
    requires
        is_named(design.cells@[pin.cell.0 as int], pin.port, k),
    ensures
        ({
            let cell = design.cells@[pin.cell.0 as int];
            let class = guessed_class(design, clocks, pin);
            let some = exists|j: int| takes_clock(design, clocks, cell, j);
            &&& takes_clock(design, clocks, cell, k) <==> class is ClockInput
            &&& some && !takes_clock(design, clocks, cell, k) && cell.ports@[k].port_type is In
                <==> class is RegisterInput
            &&& some && cell.ports@[k].port_type is Out <==> class is RegisterOutput
            &&& !some ==> class is Combinational
        }),
{
    let cell = design.cells@[pin.cell.0 as int];
    ports_are_found_by_name(cell, pin.port);
    if has_clock(design, clocks, cell) {
        let j = choose|j: int| 0 <= j < cell.ports@.len() && clock_port(design, clocks, #[trigger] cell.ports@[j]);
        assert(takes_clock(design, clocks, cell, j));
    }
    if exists|j: int| takes_clock(design, clocks, cell, j) {
        let j = choose|j: int| takes_clock(design, clocks, cell, j);
        assert(clock_port(design, clocks, cell.ports@[j]));
    }
}

/// The net is alive, its driver and the pin belong to placed cells, and the pin is one of its users.
pub open spec fn leads_to_pin(design: Design, n: int, pin: CellPin) -> bool {
    let net = design.nets@[n];
    &&& net.alive
    &&& net.driver.cell.0 != u32::MAX
    &&& design.cells@[net.driver.cell.0 as int].bel is Some
    &&& pin.cell.0 != u32::MAX
    &&& design.cells@[pin.cell.0 as int].bel is Some
    &&& exists|j: int| 0 <= j < net.users@.len() && #[trigger] net.users@[j] == pin
}

/// The route to a pin has the delay of the last net that leads there between placed cells.
pub proof fn the_last_net_times_a_pin(design: Design, pin: CellPin, n: int)
    requires
        0 <= n <= design.nets@.len() <= u32::MAX,
    ensures
        forall|i: int|
            0 <= i < n && #[trigger] leads_to_pin(design, i, pin) && (forall|j: int|
                i < j < n ==> !(#[trigger] leads_to_pin(design, j, pin))) ==> last_net_to(design, pin, n) == Some(
                NetId(i as u32),
            ),
        (forall|i: int| 0 <= i < n ==> !(#[trigger] leads_to_pin(design, i, pin))) ==> last_net_to(design, pin, n)
            is None,
    decreases n,
{
    if n > 0 {
        the_last_net_times_a_pin(design, pin, n - 1);
        let last = n - 1;
        let net = design.nets@[last];
        if leads_to_pin(design, last, pin) {
            let j = choose|j: int| 0 <= j < net.users@.len() && #[trigger] net.users@[j] == pin;
            assert(net.users@.contains(pin));
        }
        if net.users@.contains(pin) {
            let j = choose|j: int| 0 <= j < net.users@.len() && net.users@[j] == pin;
            assert(net.users@[j] == pin);
        }
    }
}

} // verus!
