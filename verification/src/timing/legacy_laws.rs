//! How times pass through cells where only the nets are known.

use crate::netlist::{CellId, CellPin, Design};
use crate::timing::analyser::PortFacts;
use crate::timing::arc_laws::{is_named, ports_are_found_by_name};
use crate::timing::delay::DelayT;
use crate::timing::legacy::{
    cell_backed, cell_passed, cells_backed, cells_passed, comb_port, data_driver, inputs_due,
    inputs_taken, legacy_end, legacy_start, outputs_reached, outputs_taken, users_taken, Outputs,
};
use vstd::prelude::*;

verus! {

/// Nothing is lost and no time gets earlier.
pub open spec fn later_or_same(a: Map<CellPin, DelayT>, b: Map<CellPin, DelayT>) -> bool {
    forall|p: CellPin| #[trigger] a.contains_key(p) ==> b.contains_key(p) && b[p] >= a[p]
}

/// Nothing is lost and no time gets later.
pub open spec fn earlier_or_same(a: Map<CellPin, DelayT>, b: Map<CellPin, DelayT>) -> bool {
    forall|p: CellPin| #[trigger] a.contains_key(p) ==> b.contains_key(p) && b[p] <= a[p]
}

/// Both have the same time at the pin, or neither has one.
pub open spec fn same_at(a: Map<CellPin, DelayT>, b: Map<CellPin, DelayT>, p: CellPin) -> bool {
    (a.contains_key(p) <==> b.contains_key(p)) && (a.contains_key(p) ==> a[p] == b[p])
}

/// The pin of port `j` of the cell.
pub open spec fn pin_of(design: Design, id: CellId, j: int) -> CellPin {
    CellPin { cell: id, port: design.cells@[id.0 as int].ports@[j].name }
}

/// Port `j` of the cell is an input, no clock input, of a net with the driver.
pub open spec fn driven_by(
    design: Design,
    ports: Map<CellPin, PortFacts>,
    id: CellId,
    j: int,
    driver: CellPin,
) -> bool {
    let port = design.cells@[id.0 as int].ports@[j];
    let pin = pin_of(design, id, j);
    &&& 0 <= j < design.cells@[id.0 as int].ports@.len()
    &&& port.port_type is In
    &&& !(ports.contains_key(pin) && ports[pin].port_class is ClockInput)
    &&& port.net is Some
    &&& design.nets@[(port.net->0).0 as int].driver == driver
    &&& driver.cell.0 != u32::MAX
}

/// Port `j` of the cell is a combinational one of the direction.
pub open spec fn passes_at(
    design: Design,
    ports: Map<CellPin, PortFacts>,
    id: CellId,
    j: int,
    is_input: bool,
) -> bool {
    let port = design.cells@[id.0 as int].ports@[j];
    let pin = pin_of(design, id, j);
    &&& 0 <= j < design.cells@[id.0 as int].ports@.len()
    &&& is_input ==> port.port_type is In
    &&& !is_input ==> port.port_type is Out
    &&& ports.contains_key(pin) ==> ports[pin].port_class is Combinational
}

proof fn lemma_inputs(
    design: Design,
    ports: Map<CellPin, PortFacts>,
    id: CellId,
    times: Map<CellPin, DelayT>,
    k: int,
)
    requires
        0 <= k <= design.cells@[id.0 as int].ports@.len(),
    ensures
        ({
            let st = inputs_taken(design, ports, id, times, k);
            &&& later_or_same(times, st.times)
            &&& forall|p: CellPin| p.cell != id ==> #[trigger] same_at(times, st.times, p)
            &&& forall|j: int, d: CellPin|
                0 <= j < k && #[trigger] driven_by(design, ports, id, j, d) && times.contains_key(d) ==> {
                    &&& st.times.contains_key(pin_of(design, id, j))
                    &&& st.times[pin_of(design, id, j)] >= times[d]
                    &&& st.latest is Some
                    &&& st.latest->0 >= times[d]
                }
        }),
    decreases k,
{
    if k > 0 {
        lemma_inputs(design, ports, id, times, k - 1);
        let before = inputs_taken(design, ports, id, times, k - 1);
        let st = inputs_taken(design, ports, id, times, k);
        let port = design.cells@[id.0 as int].ports@[k - 1];
        let driver = data_driver(design, ports, id, port);
        assert forall|p: CellPin| p.cell != id implies #[trigger] same_at(times, st.times, p) by {
            assert(same_at(times, before.times, p));
        }
        assert forall|j: int, d: CellPin|
            0 <= j < k && #[trigger] driven_by(design, ports, id, j, d) && times.contains_key(d) implies {
            &&& st.times.contains_key(pin_of(design, id, j))
            &&& st.times[pin_of(design, id, j)] >= times[d]
            &&& st.latest is Some
            &&& st.latest->0 >= times[d]
        } by {
            if j == k - 1 {
                assert(driver == Some(d));
                assert(before.times.contains_key(d) && before.times[d] >= times[d]);
            }
        }
    }
}

proof fn lemma_outputs(
    design: Design,
    ports: Map<CellPin, PortFacts>,
    id: CellId,
    times: Map<CellPin, DelayT>,
    t: DelayT,
    k: int,
)
    requires
        0 <= k <= design.cells@[id.0 as int].ports@.len(),
    ensures
        ({
            let new = outputs_reached(design, ports, id, times, t, k);
            &&& later_or_same(times, new)
            &&& forall|p: CellPin| p.cell != id ==> #[trigger] same_at(times, new, p)
            &&& forall|j: int|
                0 <= j < k && #[trigger] passes_at(design, ports, id, j, false) ==> new.contains_key(
                    pin_of(design, id, j),
                ) && new[pin_of(design, id, j)] >= t
            &&& forall|p: CellPin| #[trigger]
                new.contains_key(p) ==> new[p] == t || (times.contains_key(p) && new[p] == times[p])
        }),
    decreases k,
{
    if k > 0 {
        lemma_outputs(design, ports, id, times, t, k - 1);
        let before = outputs_reached(design, ports, id, times, t, k - 1);
        let new = outputs_reached(design, ports, id, times, t, k);
        let port = design.cells@[id.0 as int].ports@[k - 1];
        assert forall|p: CellPin| p.cell != id implies #[trigger] same_at(times, new, p) by {
            assert(same_at(times, before, p));
        }
        assert forall|j: int|
            0 <= j < k && #[trigger] passes_at(design, ports, id, j, false) implies new.contains_key(
            pin_of(design, id, j),
        ) && new[pin_of(design, id, j)] >= t by {
            if j == k - 1 {
                assert(comb_port(ports, id, port, false));
            }
        }
    }
}

/// When a cell passes arrival times through, no time gets earlier and no pin of another cell changes.
/// Every input takes the time of its driver over, and every combinational output is reached a hundred
/// picoseconds after every driver of an input, or when delays end.
pub proof fn cells_pass_the_latest_input_on(
    design: Design,
    ports: Map<CellPin, PortFacts>,
    times: Map<CellPin, DelayT>,
    id: CellId,
)
    ensures
        ({
            let new = cell_passed(design, ports, times, id);
            &&& later_or_same(times, new)
            &&& forall|p: CellPin| p.cell != id ==> #[trigger] same_at(times, new, p)
            &&& forall|j: int, d: CellPin| #[trigger]
                driven_by(design, ports, id, j, d) && times.contains_key(d) ==> new.contains_key(
                    pin_of(design, id, j),
                ) && new[pin_of(design, id, j)] >= times[d]
            &&& forall|j: int, d: CellPin, o: int| #[trigger]
                driven_by(design, ports, id, j, d) && times.contains_key(d) && #[trigger] passes_at(
                    design,
                    ports,
                    id,
                    o,
                    false,
                ) ==> new.contains_key(pin_of(design, id, o)) && (new[pin_of(design, id, o)] >= times[d] + 100
                    || new[pin_of(design, id, o)] == i32::MAX)
        }),
{
    let n = design.cells@[id.0 as int].ports@.len() as int;
    let new = cell_passed(design, ports, times, id);
    lemma_inputs(design, ports, id, times, n);
    let st = inputs_taken(design, ports, id, times, n);
    let out = crate::timing::legacy::output_time(
        st.latest,
        crate::timing::legacy::has_comb_input(design, ports, id),
    );
    if out is Some {
        lemma_outputs(design, ports, id, st.times, out->0, n);
    }
    assert forall|p: CellPin| p.cell != id implies #[trigger] same_at(times, new, p) by {
        assert(same_at(times, st.times, p));
        assert(out is Some ==> same_at(st.times, new, p));
    }
}

/// Passing arrival times through a list of cells makes no time earlier.
pub proof fn arrival_times_only_get_later(
    design: Design,
    ports: Map<CellPin, PortFacts>,
    times: Map<CellPin, DelayT>,
    cells: Seq<CellId>,
    i: int,
)
    requires
        0 <= i <= cells.len(),
    ensures
        later_or_same(times, cells_passed(design, ports, times, cells, i)),
    decreases i,
{
    if i > 0 {
        arrival_times_only_get_later(design, ports, times, cells, i - 1);
        let before = cells_passed(design, ports, times, cells, i - 1);
        cells_pass_the_latest_input_on(design, ports, before, cells[i - 1]);
    }
}

proof fn lemma_users(st: Outputs, pin: CellPin, users: Seq<CellPin>, k: int)
    requires
        0 <= k <= users.len(),
    ensures
        ({
            let new = users_taken(st, pin, users, k);
            &&& earlier_or_same(st.times, new.times)
            &&& forall|p: CellPin| p != pin ==> #[trigger] same_at(st.times, new.times, p)
            &&& st.earliest is Some ==> new.earliest is Some && new.earliest->0 <= st.earliest->0
            &&& forall|j: int|
                0 <= j < k && (#[trigger] users[j]).cell.0 != u32::MAX && st.times.contains_key(users[j]) ==> {
                    &&& new.times.contains_key(pin)
                    &&& new.times[pin] <= st.times[users[j]]
                    &&& new.earliest is Some
                    &&& new.earliest->0 <= st.times[users[j]]
                }
        }),
    decreases k,
{
    if k > 0 {
        lemma_users(st, pin, users, k - 1);
        let before = users_taken(st, pin, users, k - 1);
        let new = users_taken(st, pin, users, k);
        assert forall|p: CellPin| p != pin implies #[trigger] same_at(st.times, new.times, p) by {
            assert(same_at(st.times, before.times, p));
        }
        assert forall|j: int|
            0 <= j < k && (#[trigger] users[j]).cell.0 != u32::MAX && st.times.contains_key(users[j]) implies {
            &&& new.times.contains_key(pin)
            &&& new.times[pin] <= st.times[users[j]]
            &&& new.earliest is Some
            &&& new.earliest->0 <= st.times[users[j]]
        } by {
            if j == k - 1 {
                assert(before.times.contains_key(users[j]) && before.times[users[j]] <= st.times[users[j]]);
            }
        }
    }
}

/// Port `o` of the cell is a combinational output of a net with the user.
pub open spec fn drives(
    design: Design,
    ports: Map<CellPin, PortFacts>,
    id: CellId,
    o: int,
    j: int,
    user: CellPin,
) -> bool {
    let port = design.cells@[id.0 as int].ports@[o];
    &&& passes_at(design, ports, id, o, false)
    &&& port.net is Some
    &&& 0 <= j < design.nets@[(port.net->0).0 as int].users@.len()
    &&& design.nets@[(port.net->0).0 as int].users@[j] == user
    &&& user.cell.0 != u32::MAX
}

proof fn lemma_taken(
    design: Design,
    ports: Map<CellPin, PortFacts>,
    id: CellId,
    times: Map<CellPin, DelayT>,
    k: int,
)
    requires
        0 <= k <= design.cells@[id.0 as int].ports@.len(),
    ensures
        ({
            let st = outputs_taken(design, ports, id, times, k);
            &&& earlier_or_same(times, st.times)
            &&& forall|p: CellPin| p.cell != id ==> #[trigger] same_at(times, st.times, p)
            &&& forall|o: int, j: int, u: CellPin|
                0 <= o < k && #[trigger] drives(design, ports, id, o, j, u) && times.contains_key(u) ==> {
                    &&& st.times.contains_key(pin_of(design, id, o))
                    &&& st.times[pin_of(design, id, o)] <= times[u]
                    &&& st.earliest is Some
                    &&& st.earliest->0 <= times[u]
                }
        }),
    decreases k,
{
    if k > 0 {
        lemma_taken(design, ports, id, times, k - 1);
        let before = outputs_taken(design, ports, id, times, k - 1);
        let st = outputs_taken(design, ports, id, times, k);
        let port = design.cells@[id.0 as int].ports@[k - 1];
        let pin = pin_of(design, id, k - 1);
        if comb_port(ports, id, port, false) && port.net is Some {
            let users = design.nets@[(port.net->0).0 as int].users@;
            lemma_users(before, pin, users, users.len() as int);
        }
        assert forall|p: CellPin| p.cell != id implies #[trigger] same_at(times, st.times, p) by {
            assert(same_at(times, before.times, p));
            if comb_port(ports, id, port, false) && port.net is Some {
                assert(same_at(before.times, st.times, p));
            }
        }
        assert forall|o: int, j: int, u: CellPin|
            0 <= o < k && #[trigger] drives(design, ports, id, o, j, u) && times.contains_key(u) implies {
            &&& st.times.contains_key(pin_of(design, id, o))
            &&& st.times[pin_of(design, id, o)] <= times[u]
            &&& st.earliest is Some
            &&& st.earliest->0 <= times[u]
        } by {
            if o == k - 1 {
                assert(comb_port(ports, id, port, false));
                let users = design.nets@[(port.net->0).0 as int].users@;
                assert(users[j] == u);
                assert(before.times.contains_key(u) && before.times[u] <= times[u]);
            } else {
                assert(before.times.contains_key(pin_of(design, id, o)));
            }
        }
    }
}

proof fn lemma_due(
    design: Design,
    ports: Map<CellPin, PortFacts>,
    id: CellId,
    times: Map<CellPin, DelayT>,
    t: DelayT,
    k: int,
)
    requires
        0 <= k <= design.cells@[id.0 as int].ports@.len(),
    ensures
        ({
            let new = inputs_due(design, ports, id, times, t, k);
            &&& earlier_or_same(times, new)
            &&& forall|p: CellPin| p.cell != id ==> #[trigger] same_at(times, new, p)
            &&& forall|j: int|
                0 <= j < k && #[trigger] passes_at(design, ports, id, j, true) ==> new.contains_key(
                    pin_of(design, id, j),
                ) && new[pin_of(design, id, j)] <= t
            &&& forall|p: CellPin| #[trigger]
                new.contains_key(p) ==> new[p] == t || (times.contains_key(p) && new[p] == times[p])
        }),
    decreases k,
{
    if k > 0 {
        lemma_due(design, ports, id, times, t, k - 1);
        let before = inputs_due(design, ports, id, times, t, k - 1);
        let new = inputs_due(design, ports, id, times, t, k);
        let port = design.cells@[id.0 as int].ports@[k - 1];
        assert forall|p: CellPin| p.cell != id implies #[trigger] same_at(times, new, p) by {
            assert(same_at(times, before, p));
        }
        assert forall|j: int|
            0 <= j < k && #[trigger] passes_at(design, ports, id, j, true) implies new.contains_key(
            pin_of(design, id, j),
        ) && new[pin_of(design, id, j)] <= t by {
            if j == k - 1 {
                assert(comb_port(ports, id, port, true));
            }
        }
    }
}

/// When a cell passes required times back, no time gets later and no pin of another cell changes. Every
/// combinational output is due when the earliest of its users is, and every combinational input a
/// hundred picoseconds before every user of an output, or when delays begin.
pub proof fn cells_pass_the_earliest_user_back(
    design: Design,
    ports: Map<CellPin, PortFacts>,
    times: Map<CellPin, DelayT>,
    id: CellId,
)
    ensures
        ({
            let new = cell_backed(design, ports, times, id);
            &&& earlier_or_same(times, new)
            &&& forall|p: CellPin| p.cell != id ==> #[trigger] same_at(times, new, p)
            &&& forall|o: int, j: int, u: CellPin| #[trigger]
                drives(design, ports, id, o, j, u) && times.contains_key(u) ==> new.contains_key(
                    pin_of(design, id, o),
                ) && new[pin_of(design, id, o)] <= times[u]
            &&& forall|o: int, j: int, u: CellPin, i: int| #[trigger]
                drives(design, ports, id, o, j, u) && times.contains_key(u) && #[trigger] passes_at(
                    design,
                    ports,
                    id,
                    i,
                    true,
                ) ==> new.contains_key(pin_of(design, id, i)) && (new[pin_of(design, id, i)] <= times[u] - 100
                    || new[pin_of(design, id, i)] == i32::MIN)
        }),
{
    let n = design.cells@[id.0 as int].ports@.len() as int;
    let new = cell_backed(design, ports, times, id);
    lemma_taken(design, ports, id, times, n);
    let st = outputs_taken(design, ports, id, times, n);
    if st.earliest is Some {
        lemma_due(
            design,
            ports,
            id,
            st.times,
            crate::timing::delay::held(st.earliest->0 - crate::timing::analyser::DEFAULT_COMB_DELAY),
            n,
        );
    }
    assert forall|p: CellPin| p.cell != id implies #[trigger] same_at(times, new, p) by {
        assert(same_at(times, st.times, p));
        assert(st.earliest is Some ==> same_at(st.times, new, p));
    }
}

/// Passing required times back through a list of cells makes no time later.
pub proof fn required_times_only_get_earlier(
    design: Design,
    ports: Map<CellPin, PortFacts>,
    times: Map<CellPin, DelayT>,
    cells: Seq<CellId>,
    i: int,
)
    requires
        0 <= i <= cells.len(),
    ensures
        earlier_or_same(times, cells_backed(design, ports, times, cells, i)),
    decreases cells.len() - i,
{
    if i < cells.len() {
        required_times_only_get_earlier(design, ports, times, cells, i + 1);
        let before = cells_backed(design, ports, times, cells, i + 1);
        cells_pass_the_earliest_user_back(design, ports, before, cells[i]);
    }
}

/// Port `j` of a listed cell is the first with the name of the pin.
pub open spec fn is_listed(design: Design, cells: Seq<CellId>, pin: CellPin, j: int) -> bool {
    cells.contains(pin.cell) && is_named(design.cells@[pin.cell.0 as int], pin.port, j)
}

/// Signals start at every register output of the listed cells, a hundred picoseconds after the clock, and
/// at once at every combinational input that nothing drives; and nowhere else.
pub proof fn signals_start_at_registers_and_open_inputs(
    design: Design,
    ports: Map<CellPin, PortFacts>,
    cells: Seq<CellId>,
    pin: CellPin,
    j: int,
)
    requires
        is_listed(design, cells, pin, j),
    ensures
        ({
            let start = legacy_start(design, ports, cells);
            let port = design.cells@[pin.cell.0 as int].ports@[j];
            let output = ports.contains_key(pin) && ports[pin].port_class is RegisterOutput;
            let comb = !ports.contains_key(pin) || ports[pin].port_class is Combinational;
            let undriven = port.net is None || design.nets@[(port.net->0).0 as int].driver.cell.0 == u32::MAX;
            &&& output ==> start.contains_key(pin) && start[pin] == 100
            &&& comb && port.port_type is In && undriven ==> start.contains_key(pin) && start[pin] == 0
            &&& start.contains_key(pin) ==> output || (comb && port.port_type is In && undriven)
        }),
{
    ports_are_found_by_name(design.cells@[pin.cell.0 as int], pin.port);
}

/// Signals are due at every register input of the listed cells fifty picoseconds before its period is
/// over, and at every combinational output that nothing uses when the default period is; and nowhere
/// else.
pub proof fn signals_are_due_at_registers_and_open_outputs(
    design: Design,
    ports: Map<CellPin, PortFacts>,
    cells: Seq<CellId>,
    periods: spec_fn(CellPin) -> DelayT,
    default_period: DelayT,
    pin: CellPin,
    j: int,
)
    requires
        is_listed(design, cells, pin, j),
    ensures
        ({
            let end = legacy_end(design, ports, cells, periods, default_period);
            let port = design.cells@[pin.cell.0 as int].ports@[j];
            let input = ports.contains_key(pin) && ports[pin].port_class is RegisterInput;
            let comb = !ports.contains_key(pin) || ports[pin].port_class is Combinational;
            let unused = port.net is None || design.nets@[(port.net->0).0 as int].users@.len() == 0;
            &&& input ==> end.contains_key(pin) && (end[pin] == periods(pin) - 50 || end[pin] == i32::MIN)
            &&& comb && port.port_type is Out && unused ==> end.contains_key(pin) && end[pin] == default_period
            &&& end.contains_key(pin) ==> input || (comb && port.port_type is Out && unused)
        }),
{
    ports_are_found_by_name(design.cells@[pin.cell.0 as int], pin.port);
}

/// The cell is driven by other cells, and no two of its ports have one name.
pub open spec fn stands_alone(design: Design, ports: Map<CellPin, PortFacts>, id: CellId) -> bool {
    &&& forall|j: int, d: CellPin| #[trigger] driven_by(design, ports, id, j, d) ==> d.cell != id
    &&& forall|i: int, j: int|
        0 <= i < design.cells@[id.0 as int].ports@.len() && 0 <= j < design.cells@[id.0 as int].ports@.len() && (
        #[trigger] design.cells@[id.0 as int].ports@[i]).name == (#[trigger] design.cells@[id.0 as int].ports@[j]).name
            ==> i == j
}

/// Some input below `k` is driven by a pin that is reached at the time.
pub open spec fn some_driver_at(
    design: Design,
    ports: Map<CellPin, PortFacts>,
    id: CellId,
    times: Map<CellPin, DelayT>,
    k: int,
    t: DelayT,
) -> bool {
    exists|j: int, d: CellPin|
        j < k && #[trigger] driven_by(design, ports, id, j, d) && times.contains_key(d) && times[d] == t
}

proof fn lemma_latest(
    design: Design,
    ports: Map<CellPin, PortFacts>,
    id: CellId,
    times: Map<CellPin, DelayT>,
    k: int,
)
    requires
        0 <= k <= design.cells@[id.0 as int].ports@.len(),
        stands_alone(design, ports, id),
    ensures
        ({
            let st = inputs_taken(design, ports, id, times, k);
            &&& st.latest is Some ==> some_driver_at(design, ports, id, times, k, st.latest->0)
            &&& forall|o: int|
                0 <= o < design.cells@[id.0 as int].ports@.len() && !((
                #[trigger] design.cells@[id.0 as int].ports@[o]).port_type is In) ==> same_at(
                    times,
                    st.times,
                    pin_of(design, id, o),
                )
        }),
    decreases k,
{
    if k > 0 {
        lemma_latest(design, ports, id, times, k - 1);
        lemma_inputs(design, ports, id, times, k - 1);
        let before = inputs_taken(design, ports, id, times, k - 1);
        let st = inputs_taken(design, ports, id, times, k);
        let port = design.cells@[id.0 as int].ports@[k - 1];
        let driver = data_driver(design, ports, id, port);
        if driver is Some && before.times.contains_key(driver->0) {
            let d = driver->0;
            assert(driven_by(design, ports, id, k - 1, d));
            assert(same_at(times, before.times, d));
            assert(some_driver_at(design, ports, id, times, k, times[d]));
        }
        if before.latest is Some {
            let part = k - 1;
            let (j, d) = choose|j: int, d: CellPin|
                j < part && #[trigger] driven_by(design, ports, id, j, d) && times.contains_key(d) && times[d]
                    == before.latest->0;
            assert(driven_by(design, ports, id, j, d));
            assert(some_driver_at(design, ports, id, times, k, before.latest->0));
        }
        assert forall|o: int|
            0 <= o < design.cells@[id.0 as int].ports@.len() && !((
            #[trigger] design.cells@[id.0 as int].ports@[o]).port_type is In) implies same_at(
            times,
            st.times,
            pin_of(design, id, o),
        ) by {
            assert(same_at(times, before.times, pin_of(design, id, o)));
            if driver is Some {
                assert(design.cells@[id.0 as int].ports@[o].name != port.name);
            }
        }
    }
}

/// A combinational output of a cell that other cells drive keeps the time that it has, or is reached a
/// hundred picoseconds after a driver of an input, or when delays end, or, where no driver has a time, at
/// once.
pub proof fn outputs_wait_for_nothing_but_inputs(
    design: Design,
    ports: Map<CellPin, PortFacts>,
    times: Map<CellPin, DelayT>,
    id: CellId,
    o: int,
)
    requires
        stands_alone(design, ports, id),
        passes_at(design, ports, id, o, false),
        cell_passed(design, ports, times, id).contains_key(pin_of(design, id, o)),
    ensures
        ({
            let n = design.cells@[id.0 as int].ports@.len() as int;
            let pin = pin_of(design, id, o);
            let t = cell_passed(design, ports, times, id)[pin];
            ||| times.contains_key(pin) && t == times[pin]
            ||| exists|at: DelayT| #[trigger]
                some_driver_at(design, ports, id, times, n, at) && (t == at + 100 || (at + 100 > i32::MAX && t
                    == i32::MAX))
            ||| t == 0 && forall|j: int, d: CellPin| #[trigger]
                driven_by(design, ports, id, j, d) ==> !times.contains_key(d)
        }),
{
    let n = design.cells@[id.0 as int].ports@.len() as int;
    let pin = pin_of(design, id, o);
    lemma_inputs(design, ports, id, times, n);
    lemma_latest(design, ports, id, times, n);
    let st = inputs_taken(design, ports, id, times, n);
    assert(!(design.cells@[id.0 as int].ports@[o].port_type is In));
    assert(same_at(times, st.times, pin));
    let out = crate::timing::legacy::output_time(
        st.latest,
        crate::timing::legacy::has_comb_input(design, ports, id),
    );
    if out is Some {
        lemma_outputs(design, ports, id, st.times, out->0, n);
    }
    if st.latest is Some {
        assert(some_driver_at(design, ports, id, times, n, st.latest->0));
    } else {
        assert forall|j: int, d: CellPin| #[trigger] driven_by(design, ports, id, j, d) implies !times.contains_key(
            d,
        ) by {
            if times.contains_key(d) {
                assert(0 <= j < n);
            }
        }
    }
}

/// The cell drives other cells, and no two of its ports have one name.
pub open spec fn feeds_others(design: Design, ports: Map<CellPin, PortFacts>, id: CellId) -> bool {
    &&& forall|o: int, j: int, u: CellPin| #[trigger] drives(design, ports, id, o, j, u) ==> u.cell != id
    &&& forall|i: int, j: int|
        0 <= i < design.cells@[id.0 as int].ports@.len() && 0 <= j < design.cells@[id.0 as int].ports@.len() && (
        #[trigger] design.cells@[id.0 as int].ports@[i]).name == (#[trigger] design.cells@[id.0 as int].ports@[j]).name
            ==> i == j
}

/// Some user of an output below `k` is due at the time.
pub open spec fn some_user_due(
    design: Design,
    ports: Map<CellPin, PortFacts>,
    id: CellId,
    times: Map<CellPin, DelayT>,
    k: int,
    t: DelayT,
) -> bool {
    exists|o: int, j: int, u: CellPin|
        o < k && #[trigger] drives(design, ports, id, o, j, u) && times.contains_key(u) && times[u] == t
}

proof fn lemma_earliest_user(st: Outputs, pin: CellPin, users: Seq<CellPin>, k: int)
    requires
        0 <= k <= users.len(),
        forall|j: int| 0 <= j < users.len() && (#[trigger] users[j]).cell.0 != u32::MAX ==> users[j] != pin,
    ensures
        ({
            let new = users_taken(st, pin, users, k);
            new.earliest is Some ==> new.earliest == st.earliest || exists|j: int|
                0 <= j < k && (#[trigger] users[j]).cell.0 != u32::MAX && st.times.contains_key(users[j])
                    && st.times[users[j]] == new.earliest->0
        }),
    decreases k,
{
    if k > 0 {
        lemma_earliest_user(st, pin, users, k - 1);
        lemma_users(st, pin, users, k - 1);
        let before = users_taken(st, pin, users, k - 1);
        assert(users[k - 1].cell.0 != u32::MAX ==> same_at(st.times, before.times, users[k - 1]));
    }
}

proof fn lemma_earliest(
    design: Design,
    ports: Map<CellPin, PortFacts>,
    id: CellId,
    times: Map<CellPin, DelayT>,
    k: int,
)
    requires
        0 <= k <= design.cells@[id.0 as int].ports@.len(),
        feeds_others(design, ports, id),
    ensures
        ({
            let st = outputs_taken(design, ports, id, times, k);
            &&& st.earliest is Some ==> some_user_due(design, ports, id, times, k, st.earliest->0)
            &&& forall|i: int|
                0 <= i < design.cells@[id.0 as int].ports@.len() && !((
                #[trigger] design.cells@[id.0 as int].ports@[i]).port_type is Out) ==> same_at(
                    times,
                    st.times,
                    pin_of(design, id, i),
                )
        }),
    decreases k,
{
    if k > 0 {
        lemma_earliest(design, ports, id, times, k - 1);
        lemma_taken(design, ports, id, times, k - 1);
        let before = outputs_taken(design, ports, id, times, k - 1);
        let st = outputs_taken(design, ports, id, times, k);
        let port = design.cells@[id.0 as int].ports@[k - 1];
        let pin = pin_of(design, id, k - 1);
        let last = k - 1;
        if before.earliest is Some {
            let (o, j, u) = choose|o: int, j: int, u: CellPin|
                o < last && #[trigger] drives(design, ports, id, o, j, u) && times.contains_key(u) && times[u]
                    == before.earliest->0;
            assert(drives(design, ports, id, o, j, u));
            assert(some_user_due(design, ports, id, times, k, before.earliest->0));
        }
        if comb_port(ports, id, port, false) && port.net is Some {
            let users = design.nets@[(port.net->0).0 as int].users@;
            assert forall|j: int| 0 <= j < users.len() && (#[trigger] users[j]).cell.0 != u32::MAX implies users[j]
                != pin by {
                assert(drives(design, ports, id, last, j, users[j]));
            }
            lemma_users(before, pin, users, users.len() as int);
            lemma_earliest_user(before, pin, users, users.len() as int);
            if st.earliest is Some && st.earliest != before.earliest {
                let j = choose|j: int|
                    0 <= j < users.len() && (#[trigger] users[j]).cell.0 != u32::MAX && before.times.contains_key(
                        users[j],
                    ) && before.times[users[j]] == st.earliest->0;
                assert(drives(design, ports, id, last, j, users[j]));
                assert(same_at(times, before.times, users[j]));
                assert(some_user_due(design, ports, id, times, k, st.earliest->0));
            }
        }
        assert forall|i: int|
            0 <= i < design.cells@[id.0 as int].ports@.len() && !((
            #[trigger] design.cells@[id.0 as int].ports@[i]).port_type is Out) implies same_at(
            times,
            st.times,
            pin_of(design, id, i),
        ) by {
            let p = pin_of(design, id, i);
            assert(same_at(times, before.times, p));
            if comb_port(ports, id, port, false) && port.net is Some {
                assert(design.cells@[id.0 as int].ports@[i].name != port.name);
                assert(same_at(before.times, st.times, p));
            }
        }
    }
}

/// A combinational input of a cell that drives other cells keeps the time that it has, or is due a hundred
/// picoseconds before a user of an output, or when delays begin.
pub proof fn inputs_are_due_for_nothing_but_outputs(
    design: Design,
    ports: Map<CellPin, PortFacts>,
    times: Map<CellPin, DelayT>,
    id: CellId,
    i: int,
)
    requires
        feeds_others(design, ports, id),
        passes_at(design, ports, id, i, true),
        cell_backed(design, ports, times, id).contains_key(pin_of(design, id, i)),
    ensures
        ({
            let n = design.cells@[id.0 as int].ports@.len() as int;
            let pin = pin_of(design, id, i);
            let t = cell_backed(design, ports, times, id)[pin];
            ||| times.contains_key(pin) && t == times[pin]
            ||| exists|at: DelayT| #[trigger]
                some_user_due(design, ports, id, times, n, at) && (t == at - 100 || (at - 100 < i32::MIN && t
                    == i32::MIN))
        }),
{
    let n = design.cells@[id.0 as int].ports@.len() as int;
    let pin = pin_of(design, id, i);
    lemma_earliest(design, ports, id, times, n);
    let st = outputs_taken(design, ports, id, times, n);
    assert(!(design.cells@[id.0 as int].ports@[i].port_type is Out));
    assert(same_at(times, st.times, pin));
    if st.earliest is Some {
        lemma_due(
            design,
            ports,
            id,
            st.times,
            crate::timing::delay::held(st.earliest->0 - crate::timing::analyser::DEFAULT_COMB_DELAY),
            n,
        );
        assert(some_user_due(design, ports, id, times, n, st.earliest->0));
    }
}

} // verus!
