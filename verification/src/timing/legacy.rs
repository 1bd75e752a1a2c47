//! Propagation from cell to cell with one delay for every cell, for designs without timing tables.

use crate::ids::IdMap;
use crate::netlist::{lemma_first_port, CellId, CellPin, CellPort, Design};
use crate::timing::analyser::{
    class_in, facts_of, lower, lowered, port_class_or_comb, raise, raised, PerDomain, PerPort, PortFacts,
    DEFAULT_COMB_DELAY,
};
use crate::timing::cell_delays::lemma_port_at;
use crate::timing::delay::{greater, held, held_add, held_sub, lesser, max_of, min_of, DelayT};
use crate::timing::domain::{ClockDomain, DomainRegistry};
use crate::timing::kinds::TimingPortClass;
use crate::types::enums::PortType;
use crate::types::id_string::IdString;
use vstd::prelude::*;

verus! {

/// The pin is an endpoint of the domain.
pub open spec fn ends_at(domain: PerDomain, pin: CellPin) -> bool {
    exists|i: int| 0 <= i < domain.endpoints@.len() && (#[trigger] domain.endpoints@[i]).pin == pin
}

/// The first domain from number `d` on that the pin is an endpoint of; without a clock if there
/// is none.
pub open spec fn domain_from(
    domains: Seq<ClockDomain>,
    per_domain: Seq<PerDomain>,
    pin: CellPin,
    d: int,
) -> ClockDomain
    decreases domains.len() - d,
{
    if d >= domains.len() {
        ClockDomain::without_clock()
    } else if d < per_domain.len() && ends_at(per_domain[d], pin) {
        domains[d]
    } else {
        domain_from(domains, per_domain, pin, d + 1)
    }
}

/// The clock domain that a pin is an endpoint of. The domain without a clock is passed over.
pub fn port_domain_from_data(registry: &DomainRegistry, per_domain: &Vec<PerDomain>, pin: CellPin) -> (r: ClockDomain)
    requires
        registry.wf(),
    ensures
        r == domain_from(registry.domains@, per_domain@, pin, 1),
{
    let mut d: usize = 1;
    while d < registry.domains.len()
        invariant
            registry.wf(),
            1 <= d <= registry.domains@.len(),
            domain_from(registry.domains@, per_domain@, pin, 1) == domain_from(
                registry.domains@,
                per_domain@,
                pin,
                d as int,
            ),
        decreases registry.domains@.len() - d,
    {
        if d < per_domain.len() {
            let ends = &per_domain[d].endpoints;
            for i in 0..ends.len()
                invariant
                    1 <= d < registry.domains@.len(),
                    d < per_domain@.len(),
                    *ends == per_domain@[d as int].endpoints,
                    domain_from(registry.domains@, per_domain@, pin, 1) == domain_from(
                        registry.domains@,
                        per_domain@,
                        pin,
                        d as int,
                    ),
                    forall|k: int| 0 <= k < i ==> (#[trigger] ends@[k]).pin != pin,
            {
                if ends[i].pin == pin {
                    assert(per_domain@[d as int].endpoints@[i as int].pin == pin);
                    assert(ends_at(per_domain@[d as int], pin));
                    return registry.domains[d];
                }
            }
            assert(!ends_at(per_domain@[d as int], pin));
        }
        d = d + 1;
    }
    ClockDomain::unclocked()
}

/// The period of a domain: its own, or that of the constraint on its clock, or the default one.
pub open spec fn period_in(
    domain: ClockDomain,
    clocks: Map<IdString, DelayT>,
    default_period: DelayT,
) -> DelayT {
    if domain.period > 0 {
        domain.period
    } else if domain.clocked() && clocks.contains_key(domain.clock_net) {
        clocks[domain.clock_net]
    } else {
        default_period
    }
}

fn domain_period(domain: ClockDomain, clocks: &IdMap<IdString, DelayT>, default_period: DelayT) -> (r: DelayT)
    ensures
        r == period_in(domain, clocks@, default_period),
{
    if domain.period > 0 {
        return domain.period;
    }
    if domain.is_clocked() {
        if let Some(p) = clocks.get(domain.clock_net) {
            return *p;
        }
    }
    default_period
}

/// The period at a pin: that of the domain that its nets suggest, where this has a period or a
/// clock, and else that of the domain that it is an endpoint of.
pub open spec fn period_at(
    guessed: Map<CellPin, ClockDomain>,
    domains: Seq<ClockDomain>,
    per_domain: Seq<PerDomain>,
    clocks: Map<IdString, DelayT>,
    default_period: DelayT,
    pin: CellPin,
) -> DelayT {
    if guessed.contains_key(pin) && (guessed[pin].period > 0 || guessed[pin].clocked()) {
        period_in(guessed[pin], clocks, default_period)
    } else {
        period_in(domain_from(domains, per_domain, pin, 1), clocks, default_period)
    }
}

/// The period at a pin.
pub fn port_domain_period(
    guessed: &IdMap<CellPin, ClockDomain>,
    registry: &DomainRegistry,
    per_domain: &Vec<PerDomain>,
    clocks: &IdMap<IdString, DelayT>,
    default_period: DelayT,
    pin: CellPin,
) -> (r: DelayT)
    requires
        registry.wf(),
    ensures
        r == period_at(guessed@, registry.domains@, per_domain@, clocks@, default_period, pin),
{
    if let Some(d) = guessed.get(pin) {
        if d.period > 0 || d.is_clocked() {
            return domain_period(*d, clocks, default_period);
        }
    }
    domain_period(port_domain_from_data(registry, per_domain, pin), clocks, default_period)
}

/// The pin is a port of a listed cell.
pub open spec fn listed(design: Design, cells: Seq<CellId>, pin: CellPin) -> bool {
    &&& cells.contains(pin.cell)
    &&& design.cell_of(pin.cell).port_index(pin.port) < design.cell_of(pin.cell).ports@.len()
}

/// The port behind a pin.
pub open spec fn port_behind(design: Design, pin: CellPin) -> CellPort {
    design.cell_of(pin.cell).ports@[design.cell_of(pin.cell).port_index(pin.port)]
}

/// A combinational input that nothing drives.
pub open spec fn primary_input(design: Design, ports: Map<CellPin, PortFacts>, pin: CellPin) -> bool {
    let port = port_behind(design, pin);
    &&& class_in(ports, pin) is Combinational
    &&& port.port_type is In
    &&& port.net is Some ==> !design.net_of(port.net->0).driver.connected()
}

/// A combinational output that nothing uses.
pub open spec fn primary_output(design: Design, ports: Map<CellPin, PortFacts>, pin: CellPin) -> bool {
    let port = port_behind(design, pin);
    &&& class_in(ports, pin) is Combinational
    &&& port.port_type is Out
    &&& port.net is Some ==> design.net_of(port.net->0).users@.len() == 0
}

/// The arrival times at the start: register outputs after the delay of a cell, primary inputs at
/// once.
pub open spec fn legacy_start(
    design: Design,
    ports: Map<CellPin, PortFacts>,
    cells: Seq<CellId>,
) -> Map<CellPin, DelayT> {
    Map::new(
        |p: CellPin|
            listed(design, cells, p) && (class_in(ports, p) is RegisterOutput || primary_input(
                design,
                ports,
                p,
            )),
        |p: CellPin|
            if class_in(ports, p) is RegisterOutput {
                DEFAULT_COMB_DELAY
            } else {
                0
            },
    )
}

/// The setup time of a register input where nothing is known of it.
pub const DEFAULT_SETUP: DelayT = 50;

/// The required times at the end: register inputs a setup time before the period is over, primary
/// outputs when the default period is over.
pub open spec fn legacy_end(
    design: Design,
    ports: Map<CellPin, PortFacts>,
    cells: Seq<CellId>,
    periods: spec_fn(CellPin) -> DelayT,
    default_period: DelayT,
) -> Map<CellPin, DelayT> {
    Map::new(
        |p: CellPin|
            listed(design, cells, p) && (class_in(ports, p) is RegisterInput || primary_output(
                design,
                ports,
                p,
            )),
        |p: CellPin|
            if class_in(ports, p) is RegisterInput {
                held(periods(p) - DEFAULT_SETUP)
            } else {
                default_period
            },
    )
}

/// The period at each pin.
pub open spec fn periods_of(
    guessed: Map<CellPin, ClockDomain>,
    domains: Seq<ClockDomain>,
    per_domain: Seq<PerDomain>,
    clocks: Map<IdString, DelayT>,
    default_period: DelayT,
) -> spec_fn(CellPin) -> DelayT {
    |p: CellPin| period_at(guessed, domains, per_domain, clocks, default_period, p)
}

/// The cells of a list exist.
pub open spec fn cells_exist(design: Design, cells: Seq<CellId>) -> bool {
    forall|i: int| 0 <= i < cells.len() ==> design.valid_cell(#[trigger] cells[i])
}

proof fn lemma_cell_taken(s: Seq<CellId>, j: int)
    requires
        0 <= j < s.len(),
    ensures
        forall|p: CellId| #[trigger] s.take(j + 1).contains(p) <==> s.take(j).contains(p) || p == s[j],
{
    let part = s.take(j);
    let whole = s.take(j + 1);
    assert forall|p: CellId| #[trigger] whole.contains(p) <==> part.contains(p) || p == s[j] by {
        if part.contains(p) {
            let k = choose|k: int| 0 <= k < part.len() && part[k] == p;
            assert(whole[k] == p);
        }
        if p == s[j] {
            assert(whole[j] == p);
        }
        if whole.contains(p) {
            let k = choose|k: int| 0 <= k < whole.len() && whole[k] == p;
            if k < j {
                assert(part[k] == p);
            }
        }
    }
}

/// The pin is a port of one of the first `i` cells, or one of the first `j` ports of the next.
spec fn listed_upto(design: Design, cells: Seq<CellId>, i: int, j: int, pin: CellPin) -> bool {
    let cell = design.cell_of(pin.cell);
    &&& cell.port_index(pin.port) < cell.ports@.len()
    &&& cells.take(i).contains(pin.cell) || (i < cells.len() && pin.cell == cells[i] && cell.port_index(
        pin.port,
    ) < j)
}

proof fn lemma_listed_next(design: Design, cells: Seq<CellId>, i: int, j: int)
    requires
        design.wf(),
        cells_exist(design, cells),
        0 <= i < cells.len(),
        0 <= j < design.cell_of(cells[i]).ports@.len(),
    ensures
        forall|p: CellPin| #[trigger]
            listed_upto(design, cells, i, j + 1, p) <==> listed_upto(design, cells, i, j, p) || p == (CellPin {
                cell: cells[i],
                port: design.cell_of(cells[i]).ports@[j].name,
            }),
        port_behind(design, CellPin { cell: cells[i], port: design.cell_of(cells[i]).ports@[j].name })
            == design.cell_of(cells[i]).ports@[j],
{
    let cell = design.cell_of(cells[i]);
    assert(design.valid_cell(cells[i]));
    assert(design.cell_ok(cell));
    lemma_port_at(design, cell, j);
    assert forall|p: CellPin| #[trigger]
        listed_upto(design, cells, i, j + 1, p) <==> listed_upto(design, cells, i, j, p) || p == (CellPin {
            cell: cells[i],
            port: cell.ports@[j].name,
        }) by {
        if p.cell == cells[i] {
            lemma_first_port(cell.ports@, p.port);
        }
    }
}

proof fn lemma_listed_cell(design: Design, cells: Seq<CellId>, i: int)
    requires
        0 <= i < cells.len(),
    ensures
        forall|p: CellPin| #[trigger]
            listed_upto(design, cells, i + 1, 0, p) <==> listed_upto(
                design,
                cells,
                i,
                design.cell_of(cells[i]).ports@.len() as int,
                p,
            ),
{
    lemma_cell_taken(cells, i);
    assert forall|p: CellPin| #[trigger]
        listed_upto(design, cells, i + 1, 0, p) <==> listed_upto(
            design,
            cells,
            i,
            design.cell_of(cells[i]).ports@.len() as int,
            p,
        ) by {
        lemma_first_port(design.cell_of(p.cell).ports@, p.port);
    }
}

proof fn lemma_listed_ends(design: Design, cells: Seq<CellId>)
    ensures
        forall|p: CellPin| !(#[trigger] listed_upto(design, cells, 0, 0, p)),
        forall|p: CellPin| #[trigger]
            listed_upto(design, cells, cells.len() as int, 0, p) <==> listed(design, cells, p),
{
    assert(cells.take(cells.len() as int) =~= cells);
    assert forall|p: CellPin| !(#[trigger] listed_upto(design, cells, 0, 0, p)) by {
        lemma_first_port(design.cell_of(p.cell).ports@, p.port);
    }
}

fn start_cells(design: &Design, ports: &IdMap<CellPin, PerPort>, cells: &Vec<CellId>) -> (times: IdMap<
    CellPin,
    DelayT,
>)
    requires
        design.wf(),
        cells_exist(*design, cells@),
    ensures
        times@ == legacy_start(*design, facts_of(ports@), cells@),
{
    let ghost facts = facts_of(ports@);
    let ghost want = legacy_start(*design, facts, cells@);
    let mut times: IdMap<CellPin, DelayT> = IdMap::new();
    proof {
        lemma_listed_ends(*design, cells@);
    }
    for i in 0..cells.len()
        invariant
            design.wf(),
            cells_exist(*design, cells@),
            facts == facts_of(ports@),
            want == legacy_start(*design, facts, cells@),
            forall|p: CellPin| #[trigger]
                times@.contains_key(p) <==> want.contains_key(p) && listed_upto(*design, cells@, i as int, 0, p),
            forall|p: CellPin| #[trigger] times@.contains_key(p) ==> times@[p] == want[p],
    {
        let id: CellId = cells[i];
        assert(cells@.contains(id));
        let cell = design.cell(id);
        for j in 0..cell.ports.len()
            invariant
                design.wf(),
                cells_exist(*design, cells@),
                i < cells@.len(),
                id == cells@[i as int],
                cells@.contains(id),
                design.valid_cell(id),
                *cell == design.cell_of(id),
                facts == facts_of(ports@),
                want == legacy_start(*design, facts, cells@),
                forall|p: CellPin| #[trigger]
                    times@.contains_key(p) <==> want.contains_key(p) && listed_upto(
                        *design,
                        cells@,
                        i as int,
                        j as int,
                        p,
                    ),
                forall|p: CellPin| #[trigger] times@.contains_key(p) ==> times@[p] == want[p],
        {
            let port = cell.ports[j];
            let pin = CellPin { cell: id, port: port.name };
            let ghost before = times@;
            proof {
                lemma_listed_next(*design, cells@, i as int, j as int);
                assert(design.cell_ok(*cell));
                assert(listed_upto(*design, cells@, i as int, j + 1, pin));
                assert(listed(*design, cells@, pin));
            }
            match port_class_or_comb(ports, pin) {
                TimingPortClass::RegisterOutput => {
                    let _ = times.insert(pin, DEFAULT_COMB_DELAY);
                },
                TimingPortClass::Combinational => {
                    if let PortType::In = port.port_type {
                        let primary: bool = match port.net {
                            None => true,
                            Some(n) => {
                                assert(design.valid_net(cell.ports@[j as int].net->0));
                                !design.net(n).driver.is_valid()
                            },
                        };
                        if primary {
                            let _ = times.insert(pin, 0);
                        }
                    }
                },
                _ => {},
            }
            proof {
                assert forall|p: CellPin| #[trigger]
                    times@.contains_key(p) <==> want.contains_key(p) && listed_upto(
                        *design,
                        cells@,
                        i as int,
                        j + 1,
                        p,
                    ) by {
                    assert(before.contains_key(p) <==> want.contains_key(p) && listed_upto(
                        *design,
                        cells@,
                        i as int,
                        j as int,
                        p,
                    ));
                }
            }
        }
        proof {
            lemma_listed_cell(*design, cells@, i as int);
        }
    }
    assert(times@ =~= want);
    times
}

/// What the inputs of a cell say: the arrival times so far, and the latest arrival at a driver.
pub struct Inputs {
    pub times: Map<CellPin, DelayT>,
    pub latest: Option<DelayT>,
}

/// The later of a time that may be missing and another.
pub open spec fn later_of(a: Option<DelayT>, b: DelayT) -> Option<DelayT> {
    match a {
        Some(x) => Some(greater(x, b)),
        None => Some(b),
    }
}

/// The earlier of a time that may be missing and another.
pub open spec fn earlier_of(a: Option<DelayT>, b: DelayT) -> Option<DelayT> {
    match a {
        Some(x) => Some(lesser(x, b)),
        None => Some(b),
    }
}

/// The driver of the net at an input that is no clock input.
pub open spec fn data_driver(
    design: Design,
    ports: Map<CellPin, PortFacts>,
    id: CellId,
    port: CellPort,
) -> Option<CellPin> {
    let pin = CellPin { cell: id, port: port.name };
    if port.port_type is In && !(class_in(ports, pin) is ClockInput) && port.net is Some && design.net_of(
        port.net->0,
    ).driver.connected() {
        Some(design.net_of(port.net->0).driver)
    } else {
        None
    }
}

/// The first `k` ports of a cell have taken the arrival times of their drivers over.
pub open spec fn inputs_taken(
    design: Design,
    ports: Map<CellPin, PortFacts>,
    id: CellId,
    times: Map<CellPin, DelayT>,
    k: int,
) -> Inputs
    decreases k,
{
    if k <= 0 {
        Inputs { times, latest: None }
    } else {
        let st = inputs_taken(design, ports, id, times, k - 1);
        let port = design.cell_of(id).ports@[k - 1];
        let driver = data_driver(design, ports, id, port);
        if driver is Some && st.times.contains_key(driver->0) {
            let t = st.times[driver->0];
            Inputs {
                times: raised(st.times, CellPin { cell: id, port: port.name }, t),
                latest: later_of(st.latest, t),
            }
        } else {
            st
        }
    }
}

/// Some input of the cell is combinational.
pub open spec fn has_comb_input(design: Design, ports: Map<CellPin, PortFacts>, id: CellId) -> bool {
    exists|j: int|
        0 <= j < design.cell_of(id).ports@.len() && comb_port(
            ports,
            id,
            #[trigger] design.cell_of(id).ports@[j],
            true,
        )
}

/// The port is a combinational input, or a combinational output.
pub open spec fn comb_port(ports: Map<CellPin, PortFacts>, id: CellId, port: CellPort, is_input: bool) -> bool {
    &&& if is_input {
        port.port_type is In
    } else {
        port.port_type is Out
    }
    &&& class_in(ports, CellPin { cell: id, port: port.name }) is Combinational
}

/// The time at the combinational outputs of a cell: the delay of a cell after the latest driver;
/// at once where the cell has no combinational input; nothing is known otherwise.
pub open spec fn output_time(latest: Option<DelayT>, has_comb_input: bool) -> Option<DelayT> {
    match latest {
        Some(t) => Some(held(t + DEFAULT_COMB_DELAY)),
        None => if has_comb_input {
            None
        } else {
            Some(0)
        },
    }
}

/// The combinational outputs among the first `k` ports of a cell are reached at a time.
pub open spec fn outputs_reached(
    design: Design,
    ports: Map<CellPin, PortFacts>,
    id: CellId,
    times: Map<CellPin, DelayT>,
    t: DelayT,
    k: int,
) -> Map<CellPin, DelayT>
    decreases k,
{
    if k <= 0 {
        times
    } else {
        let rest = outputs_reached(design, ports, id, times, t, k - 1);
        let port = design.cell_of(id).ports@[k - 1];
        if comb_port(ports, id, port, false) {
            raised(rest, CellPin { cell: id, port: port.name }, t)
        } else {
            rest
        }
    }
}

/// A cell has passed the arrival times of its drivers through.
pub open spec fn cell_passed(
    design: Design,
    ports: Map<CellPin, PortFacts>,
    times: Map<CellPin, DelayT>,
    id: CellId,
) -> Map<CellPin, DelayT> {
    let n = design.cell_of(id).ports@.len() as int;
    let st = inputs_taken(design, ports, id, times, n);
    match output_time(st.latest, has_comb_input(design, ports, id)) {
        Some(t) => outputs_reached(design, ports, id, st.times, t, n),
        None => st.times,
    }
}

/// The first `i` cells of the list have passed the arrival times through.
pub open spec fn cells_passed(
    design: Design,
    ports: Map<CellPin, PortFacts>,
    times: Map<CellPin, DelayT>,
    cells: Seq<CellId>,
    i: int,
) -> Map<CellPin, DelayT>
    decreases i,
{
    if i <= 0 {
        times
    } else {
        cell_passed(design, ports, cells_passed(design, ports, times, cells, i - 1), cells[i - 1])
    }
}

fn is_comb_port(ports: &IdMap<CellPin, PerPort>, id: CellId, port: CellPort, is_input: bool) -> (r: bool)
    ensures
        r == comb_port(facts_of(ports@), id, port, is_input),
{
    let right: bool = match port.port_type {
        PortType::In => is_input,
        PortType::Out => !is_input,
        PortType::InOut => false,
    };
    right && match port_class_or_comb(ports, CellPin { cell: id, port: port.name }) {
        TimingPortClass::Combinational => true,
        _ => false,
    }
}

fn pass_cell(design: &Design, ports: &IdMap<CellPin, PerPort>, times: &mut IdMap<CellPin, DelayT>, id: CellId)
    requires
        design.wf(),
        design.valid_cell(id),
    ensures
        final(times)@ == cell_passed(*design, facts_of(ports@), old(times)@, id),
{
    let ghost facts = facts_of(ports@);
    let ghost before = times@;
    let cell = design.cell(id);
    let mut latest: Option<DelayT> = None;
    let mut has_comb: bool = false;
    for k in 0..cell.ports.len()
        invariant
            design.wf(),
            design.valid_cell(id),
            *cell == design.cell_of(id),
            facts == facts_of(ports@),
            (Inputs { times: times@, latest }) == inputs_taken(*design, facts, id, before, k as int),
            has_comb == exists|j: int| 0 <= j < k && comb_port(facts, id, #[trigger] cell.ports@[j], true),
    {
        let port = cell.ports[k];
        assert(port == cell.ports@[k as int]);
        assert(design.cell_ok(*cell));
        if is_comb_port(ports, id, port, true) {
            has_comb = true;
        }
        let pin = CellPin { cell: id, port: port.name };
        let mut driver: Option<CellPin> = None;
        if let PortType::In = port.port_type {
            let clock: bool = match port_class_or_comb(ports, pin) {
                TimingPortClass::ClockInput => true,
                _ => false,
            };
            if !clock {
                if let Some(n) = port.net {
                    assert(design.valid_net(cell.ports@[k as int].net->0));
                    let d = design.net(n).driver;
                    if d.is_valid() {
                        driver = Some(d);
                    }
                }
            }
        }
        assert(driver == data_driver(*design, facts, id, port));
        if let Some(d) = driver {
            let known: Option<DelayT> = match times.get(d) {
                Some(t) => Some(*t),
                None => None,
            };
            if let Some(t) = known {
                raise(times, pin, t);
                latest = match latest {
                    Some(x) => Some(max_of(x, t)),
                    None => Some(t),
                };
            }
        }
    }
    let time: Option<DelayT> = match latest {
        Some(t) => Some(held_add(t, DEFAULT_COMB_DELAY)),
        None => if has_comb {
            None
        } else {
            Some(0)
        },
    };
    let ghost mid = times@;
    if let Some(t) = time {
        for k in 0..cell.ports.len()
            invariant
                *cell == design.cell_of(id),
                facts == facts_of(ports@),
                times@ == outputs_reached(*design, facts, id, mid, t, k as int),
        {
            let port = cell.ports[k];
            if is_comb_port(ports, id, port, false) {
                raise(times, CellPin { cell: id, port: port.name }, t);
            }
        }
    }
}

/// Computes the arrival times of a design, cell by cell.
pub fn forward_propagation_legacy(
    design: &Design,
    ports: &IdMap<CellPin, PerPort>,
    sorted_cells: &Vec<CellId>,
) -> (times: IdMap<CellPin, DelayT>)
    requires
        design.wf(),
        cells_exist(*design, sorted_cells@),
    ensures
        times@ == cells_passed(
            *design,
            facts_of(ports@),
            legacy_start(*design, facts_of(ports@), sorted_cells@),
            sorted_cells@,
            sorted_cells@.len() as int,
        ),
{
    let ghost facts = facts_of(ports@);
    let mut times = start_cells(design, ports, sorted_cells);
    let ghost start = times@;
    for i in 0..sorted_cells.len()
        invariant
            design.wf(),
            cells_exist(*design, sorted_cells@),
            facts == facts_of(ports@),
            times@ == cells_passed(*design, facts, start, sorted_cells@, i as int),
    {
        pass_cell(design, ports, &mut times, sorted_cells[i]);
    }
    times
}

fn end_cells(
    design: &Design,
    ports: &IdMap<CellPin, PerPort>,
    guessed: &IdMap<CellPin, ClockDomain>,
    registry: &DomainRegistry,
    per_domain: &Vec<PerDomain>,
    clocks: &IdMap<IdString, DelayT>,
    default_period: DelayT,
    cells: &Vec<CellId>,
) -> (times: IdMap<CellPin, DelayT>)
    requires
        design.wf(),
        registry.wf(),
        cells_exist(*design, cells@),
    ensures
        times@ == legacy_end(
            *design,
            facts_of(ports@),
            cells@,
            periods_of(guessed@, registry.domains@, per_domain@, clocks@, default_period),
            default_period,
        ),
{
    let ghost facts = facts_of(ports@);
    let ghost periods = periods_of(guessed@, registry.domains@, per_domain@, clocks@, default_period);
    let ghost want = legacy_end(*design, facts, cells@, periods, default_period);
    let mut times: IdMap<CellPin, DelayT> = IdMap::new();
    proof {
        lemma_listed_ends(*design, cells@);
    }
    for i in 0..cells.len()
        invariant
            design.wf(),
            registry.wf(),
            cells_exist(*design, cells@),
            facts == facts_of(ports@),
            periods == periods_of(guessed@, registry.domains@, per_domain@, clocks@, default_period),
            want == legacy_end(*design, facts, cells@, periods, default_period),
            forall|p: CellPin| #[trigger]
                times@.contains_key(p) <==> want.contains_key(p) && listed_upto(*design, cells@, i as int, 0, p),
            forall|p: CellPin| #[trigger] times@.contains_key(p) ==> times@[p] == want[p],
    {
        let id: CellId = cells[i];
        assert(cells@.contains(id));
        let cell = design.cell(id);
        for j in 0..cell.ports.len()
            invariant
                design.wf(),
                registry.wf(),
                cells_exist(*design, cells@),
                i < cells@.len(),
                id == cells@[i as int],
                cells@.contains(id),
                design.valid_cell(id),
                *cell == design.cell_of(id),
                facts == facts_of(ports@),
                periods == periods_of(guessed@, registry.domains@, per_domain@, clocks@, default_period),
                want == legacy_end(*design, facts, cells@, periods, default_period),
                forall|p: CellPin| #[trigger]
                    times@.contains_key(p) <==> want.contains_key(p) && listed_upto(
                        *design,
                        cells@,
                        i as int,
                        j as int,
                        p,
                    ),
                forall|p: CellPin| #[trigger] times@.contains_key(p) ==> times@[p] == want[p],
        {
            let port = cell.ports[j];
            let pin = CellPin { cell: id, port: port.name };
            let ghost before = times@;
            proof {
                lemma_listed_next(*design, cells@, i as int, j as int);
                assert(design.cell_ok(*cell));
                assert(listed_upto(*design, cells@, i as int, j + 1, pin));
                assert(listed(*design, cells@, pin));
            }
            match port_class_or_comb(ports, pin) {
                TimingPortClass::RegisterInput => {
                    let period: DelayT = port_domain_period(
                        guessed,
                        registry,
                        per_domain,
                        clocks,
                        default_period,
                        pin,
                    );
                    assert(period == periods(pin));
                    let _ = times.insert(pin, held_sub(period, DEFAULT_SETUP));
                },
                TimingPortClass::Combinational => {
                    if let PortType::Out = port.port_type {
                        let primary: bool = match port.net {
                            None => true,
                            Some(n) => {
                                assert(design.valid_net(cell.ports@[j as int].net->0));
                                design.net(n).users.len() == 0
                            },
                        };
                        if primary {
                            let _ = times.insert(pin, default_period);
                        }
                    }
                },
                _ => {},
            }
            proof {
                assert forall|p: CellPin| #[trigger]
                    times@.contains_key(p) <==> want.contains_key(p) && listed_upto(
                        *design,
                        cells@,
                        i as int,
                        j + 1,
                        p,
                    ) by {
                    assert(before.contains_key(p) <==> want.contains_key(p) && listed_upto(
                        *design,
                        cells@,
                        i as int,
                        j as int,
                        p,
                    ));
                }
            }
        }
        proof {
            lemma_listed_cell(*design, cells@, i as int);
        }
    }
    assert(times@ =~= want);
    times
}

/// What the outputs of a cell say: the required times so far, and the earliest at a user.
pub struct Outputs {
    pub times: Map<CellPin, DelayT>,
    pub earliest: Option<DelayT>,
}

/// The first `k` users of the net at an output have passed their required times back to it.
pub open spec fn users_taken(st: Outputs, pin: CellPin, users: Seq<CellPin>, k: int) -> Outputs
    decreases k,
{
    if k <= 0 {
        st
    } else {
        let rest = users_taken(st, pin, users, k - 1);
        let user = users[k - 1];
        if user.connected() && rest.times.contains_key(user) {
            let t = rest.times[user];
            Outputs { times: lowered(rest.times, pin, t), earliest: earlier_of(rest.earliest, t) }
        } else {
            rest
        }
    }
}

/// The first `k` ports of a cell have taken the required times of their users over.
pub open spec fn outputs_taken(
    design: Design,
    ports: Map<CellPin, PortFacts>,
    id: CellId,
    times: Map<CellPin, DelayT>,
    k: int,
) -> Outputs
    decreases k,
{
    if k <= 0 {
        Outputs { times, earliest: None }
    } else {
        let st = outputs_taken(design, ports, id, times, k - 1);
        let port = design.cell_of(id).ports@[k - 1];
        if comb_port(ports, id, port, false) && port.net is Some {
            let users = design.net_of(port.net->0).users@;
            users_taken(st, CellPin { cell: id, port: port.name }, users, users.len() as int)
        } else {
            st
        }
    }
}

/// The combinational inputs among the first `k` ports of a cell are due at a time.
pub open spec fn inputs_due(
    design: Design,
    ports: Map<CellPin, PortFacts>,
    id: CellId,
    times: Map<CellPin, DelayT>,
    t: DelayT,
    k: int,
) -> Map<CellPin, DelayT>
    decreases k,
{
    if k <= 0 {
        times
    } else {
        let rest = inputs_due(design, ports, id, times, t, k - 1);
        let port = design.cell_of(id).ports@[k - 1];
        if comb_port(ports, id, port, true) {
            lowered(rest, CellPin { cell: id, port: port.name }, t)
        } else {
            rest
        }
    }
}

/// A cell has passed the required times of its users back: its combinational inputs are due the
/// delay of a cell before the earliest user.
pub open spec fn cell_backed(
    design: Design,
    ports: Map<CellPin, PortFacts>,
    times: Map<CellPin, DelayT>,
    id: CellId,
) -> Map<CellPin, DelayT> {
    let n = design.cell_of(id).ports@.len() as int;
    let st = outputs_taken(design, ports, id, times, n);
    match st.earliest {
        Some(t) => inputs_due(design, ports, id, st.times, held(t - DEFAULT_COMB_DELAY), n),
        None => st.times,
    }
}

/// The cells of the list from position `i` on have passed the required times back, the last one
/// first.
pub open spec fn cells_backed(
    design: Design,
    ports: Map<CellPin, PortFacts>,
    times: Map<CellPin, DelayT>,
    cells: Seq<CellId>,
    i: int,
) -> Map<CellPin, DelayT>
    decreases cells.len() - i,
{
    if i >= cells.len() || i < 0 {
        times
    } else {
        cell_backed(design, ports, cells_backed(design, ports, times, cells, i + 1), cells[i])
    }
}

fn back_cell(design: &Design, ports: &IdMap<CellPin, PerPort>, times: &mut IdMap<CellPin, DelayT>, id: CellId)
    requires
        design.wf(),
        design.valid_cell(id),
    ensures
        final(times)@ == cell_backed(*design, facts_of(ports@), old(times)@, id),
{
    let ghost facts = facts_of(ports@);
    let ghost before = times@;
    let cell = design.cell(id);
    let mut earliest: Option<DelayT> = None;
    for k in 0..cell.ports.len()
        invariant
            design.wf(),
            design.valid_cell(id),
            *cell == design.cell_of(id),
            facts == facts_of(ports@),
            (Outputs { times: times@, earliest }) == outputs_taken(*design, facts, id, before, k as int),
    {
        let port = cell.ports[k];
        assert(design.cell_ok(*cell));
        let pin = CellPin { cell: id, port: port.name };
        let ghost st = Outputs { times: times@, earliest };
        if is_comb_port(ports, id, port, false) {
            if let Some(n) = port.net {
                assert(design.valid_net(cell.ports@[k as int].net->0));
                let net = design.net(n);
                for u in 0..net.users.len()
                    invariant
                        (Outputs { times: times@, earliest }) == users_taken(st, pin, net.users@, u as int),
                {
                    let user: CellPin = net.users[u];
                    if user.is_valid() {
                        let known: Option<DelayT> = match times.get(user) {
                            Some(t) => Some(*t),
                            None => None,
                        };
                        if let Some(t) = known {
                            lower(times, pin, t);
                            earliest = match earliest {
                                Some(x) => Some(min_of(x, t)),
                                None => Some(t),
                            };
                        }
                    }
                }
            }
        }
    }
    let ghost mid = times@;
    if let Some(first) = earliest {
        let t: DelayT = held_sub(first, DEFAULT_COMB_DELAY);
        for k in 0..cell.ports.len()
            invariant
                *cell == design.cell_of(id),
                facts == facts_of(ports@),
                times@ == inputs_due(*design, facts, id, mid, t, k as int),
        {
            let port = cell.ports[k];
            if is_comb_port(ports, id, port, true) {
                lower(times, CellPin { cell: id, port: port.name }, t);
            }
        }
    }
}

/// Computes the required times of a design, cell by cell.
pub fn backward_propagation_legacy(
    design: &Design,
    ports: &IdMap<CellPin, PerPort>,
    guessed: &IdMap<CellPin, ClockDomain>,
    registry: &DomainRegistry,
    per_domain: &Vec<PerDomain>,
    clocks: &IdMap<IdString, DelayT>,
    default_period: DelayT,
    sorted_cells: &Vec<CellId>,
) -> (times: IdMap<CellPin, DelayT>)
    requires
        design.wf(),
        registry.wf(),
        cells_exist(*design, sorted_cells@),
    ensures
        times@ == cells_backed(
            *design,
            facts_of(ports@),
            legacy_end(
                *design,
                facts_of(ports@),
                sorted_cells@,
                periods_of(guessed@, registry.domains@, per_domain@, clocks@, default_period),
                default_period,
            ),
            sorted_cells@,
            0,
        ),
{
    let ghost facts = facts_of(ports@);
    let mut times = end_cells(
        design,
        ports,
        guessed,
        registry,
        per_domain,
        clocks,
        default_period,
        sorted_cells,
    );
    let ghost ends = times@;
    let mut i: usize = sorted_cells.len();
    while i > 0
        invariant
            i <= sorted_cells@.len(),
            design.wf(),
            cells_exist(*design, sorted_cells@),
            facts == facts_of(ports@),
            times@ == cells_backed(*design, facts, ends, sorted_cells@, i as int),
        decreases i,
    {
        i = i - 1;
        back_cell(design, ports, &mut times, sorted_cells[i]);
    }
    times
}

} // verus!
