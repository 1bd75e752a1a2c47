use nextpnr::chipdb::{ChipDb, TileType};
use nextpnr::context::{Bel, Context};
use nextpnr::ids::IdMap;
use nextpnr::netlist::{Cell, CellId, CellPin, CellPort, Design, Net, NetId};
use nextpnr::timing::analyser::{get_default_period, ClockNetPair, Hop};
use nextpnr::timing::constraints::{ClockDef, FalsePath, MulticyclePath, SdcConstraints};
use nextpnr::timing::delay::{held_add, held_sub, DelayPair, DelayQuad, DelayT};
use nextpnr::timing::domain::{CellArc, CellArcType, ClockDomain, ClockDomainId, DomainRegistry};
use nextpnr::timing::domain_setup::DomainPairs;
use nextpnr::timing::kinds::{ClockEdge, TimingPortClass};
use nextpnr::timing::levels::order_graph;
use nextpnr::timing::path::TimingPortInfo;
use nextpnr::timing::queries::TimingAnalyser;
use nextpnr::timing::report::{
    cross_domain_rows, format_constraint_coverage, format_cross_domain_report, CrossStatus, TimingFigures,
};
use nextpnr::timing::slack::reconstruct_path;
use nextpnr::timing::sort::topological_sort;
use nextpnr::timing::tables::{CellTiming, PathDelay, PortTiming, RegArc, TimingTables};
use nextpnr::types::enums::PortType;
use nextpnr::types::id_string::{IdString, IdStringPool};

const CK: i32 = 1;
const D: i32 = 2;
const Q: i32 = 3;
const A: i32 = 4;
const Z: i32 = 5;
const FF: i32 = 6;
const LUT: i32 = 7;
const CLK: i32 = 8;

fn port(name: i32, port_type: PortType, net: Option<u32>) -> CellPort {
    CellPort {
        name: IdString(name),
        port_type,
        net: match net {
            Some(n) => Some(NetId(n)),
            None => None,
        },
    }
}

fn net(name: i32, driver: Option<(u32, i32)>, users: &[(u32, i32)]) -> Net {
    let mut n = Net::new(IdString(name));
    if let Some((c, p)) = driver {
        n.driver = CellPin::new(CellId(c), IdString(p));
    }
    for (c, p) in users {
        n.users.push(CellPin::new(CellId(*c), IdString(*p)));
    }
    n
}

fn flop(name: i32, d: Option<u32>, q: Option<u32>) -> Cell {
    let mut c = Cell::new(IdString(name), IdString(FF));
    c.bel = Some(0);
    c.ports.push(port(CK, PortType::In, Some(0)));
    c.ports.push(port(D, PortType::In, d));
    c.ports.push(port(Q, PortType::Out, q));
    c
}

fn lut(name: i32, a: Option<u32>, z: Option<u32>) -> Cell {
    let mut c = Cell::new(IdString(name), IdString(LUT));
    c.bel = Some(0);
    c.ports.push(port(A, PortType::In, a));
    c.ports.push(port(Z, PortType::Out, z));
    c
}

/// A register, a function, and another register, all on one clock.
fn pipeline() -> Design {
    Design {
        nets: vec![
            net(CLK, None, &[(0, CK), (2, CK)]),
            net(20, Some((0, Q)), &[(1, A)]),
            net(21, Some((1, Z)), &[(2, D)]),
        ],
        cells: vec![flop(30, None, Some(1)), lut(31, Some(1), Some(2)), flop(32, Some(2), None)],
    }
}

fn tables() -> TimingTables {
    let reg = RegArc {
        clock_port: CK,
        setup: DelayPair::new(20, 30),
        hold: DelayPair::uniform(10),
        clock_to_q: DelayQuad::uniform(40),
        edge: ClockEdge::Rising,
    };
    TimingTables {
        cells: vec![
            CellTiming {
                cell_type: FF,
                ports: vec![
                    PortTiming { port: CK, class: TimingPortClass::ClockInput, reg_arcs: vec![] },
                    PortTiming { port: D, class: TimingPortClass::RegisterInput, reg_arcs: vec![reg] },
                    PortTiming { port: Q, class: TimingPortClass::RegisterOutput, reg_arcs: vec![reg] },
                ],
                delays: vec![],
            },
            CellTiming {
                cell_type: LUT,
                ports: vec![],
                delays: vec![PathDelay {
                    from: A,
                    to: Z,
                    delay: DelayQuad::new(DelayPair::new(60, 90), DelayPair::new(50, 100)),
                }],
            },
        ],
    }
}

fn context(design: Design, delays: Vec<DelayT>) -> Context {
    let chip = ChipDb::new(
        1,
        1,
        vec![TileType { wires: vec![], pips: vec![], sites: vec![] }],
        vec![0],
        vec![],
    )
    .unwrap();
    let bels = vec![Bel { name: IdString(0), pins: vec![] }];
    Context::new(chip, bels, design, IdStringPool::new(), Some(tables()), 0, delays).unwrap()
}

fn timed(period: DelayT) -> TimingAnalyser {
    let ctx = context(pipeline(), vec![3, 5, 7]);
    let mut ta = TimingAnalyser::new();
    ta.add_clock_constraint_ps(IdString(CLK), period);
    ta.setup_and_run(&ctx);
    ta
}

#[test]
fn delays_have_labels_and_averages() {
    assert_eq!(DelayPair::uniform(5).label(), "5ps");
    assert_eq!(DelayPair::new(-3, 8).label(), "-3-8ps");
    assert_eq!(DelayPair::new(1, 4).average(), 2);
    assert_eq!(DelayPair::new(-1, -4).average(), -2);
    assert_eq!(DelayPair::uniform(9).average(), 9);
    assert_eq!(DelayPair::new(1, 2) + DelayPair::new(10, 20), DelayPair::new(11, 22));
    assert_eq!(DelayPair::new(10, 20) - DelayPair::new(1, 2), DelayPair::new(9, 18));
    assert_eq!(DelayPair::default(), DelayPair::uniform(0));
}

#[test]
fn quads_span_all_four_delays() {
    let q = DelayQuad::new(DelayPair::new(9, 3), DelayPair::new(5, 7));
    assert_eq!(q.min_delay(), 3);
    assert_eq!(q.max_delay(), 9);
    assert_eq!(q.as_delay_pair(), DelayPair::new(3, 9));
    assert_eq!(DelayQuad::uniform(4) + DelayQuad::uniform(5), DelayQuad::uniform(9));
}

#[test]
fn sums_are_held_in_range() {
    assert_eq!(held_add(i32::MAX, 1), i32::MAX);
    assert_eq!(held_sub(i32::MIN, 1), i32::MIN);
    assert_eq!(held_add(2, -5), -3);
}

#[test]
fn kinds_have_labels() {
    assert_eq!(TimingPortClass::RegisterInput.label(), "REGISTER_INPUT");
    assert!(TimingPortClass::RegisterOutput.is_register());
    assert!(TimingPortClass::GenClock.is_clock());
    assert_eq!(TimingPortClass::default(), TimingPortClass::Combinational);
    assert_eq!(ClockEdge::Rising.opposite(), ClockEdge::Falling);
    assert_eq!(ClockEdge::Falling.opposite().label(), "RISING");
    assert_eq!(TimingPortInfo::default().setup, 0);
}

#[test]
fn domains_are_numbered_once() {
    let mut r = DomainRegistry::new();
    assert_eq!(r.len(), 1);
    assert!(!r.get(ClockDomainId(0)).is_clocked());
    let a = r.domain_id(IdString(CLK), ClockEdge::Rising, 100);
    let b = r.domain_id(IdString(CLK), ClockEdge::Falling, 100);
    assert_eq!(a, ClockDomainId(1));
    assert_eq!(b, ClockDomainId(2));
    assert_eq!(r.domain_id(IdString(CLK), ClockEdge::Rising, 7), a);
    assert_eq!(r.get(a).period, 100);
    assert_eq!(r.domain_id(IdString(0), ClockEdge::Rising, 5), ClockDomainId(0));
    let all = r.iter();
    assert_eq!(all.len(), 3);
    assert_eq!(all[2], (b, r.get(b)));
    assert_eq!(ClockDomain::default(), ClockDomain::unclocked());
}

#[test]
fn domain_pairs_are_numbered_once() {
    let mut p = DomainPairs::new();
    let a = p.domain_pair_id(ClockDomainId(1), ClockDomainId(2));
    let b = p.domain_pair_id(ClockDomainId(2), ClockDomainId(1));
    assert_ne!(a, b);
    assert_eq!(p.domain_pair_id(ClockDomainId(1), ClockDomainId(2)), a);
    assert_eq!(p.list.len(), 2);
}

#[test]
fn arcs_carry_their_kind() {
    let arc = CellArc::setup(IdString(CK), DelayQuad::uniform(3), ClockEdge::Falling);
    assert_eq!(arc.arc_type, CellArcType::Setup);
    assert_eq!(arc.edge, ClockEdge::Falling);
    let arc = CellArc::combinational(IdString(A), DelayQuad::uniform(3));
    assert_eq!(arc.arc_type, CellArcType::Combinational);
    assert_eq!(arc.edge, ClockEdge::Rising);
    let hold = CellArc::hold(IdString(CK), DelayQuad::uniform(1), ClockEdge::Rising);
    assert_eq!(hold.arc_type, CellArcType::Hold);
    let out = CellArc::clock_to_q(IdString(CK), DelayQuad::uniform(1), ClockEdge::Rising);
    assert_eq!(out.arc_type, CellArcType::ClockToQ);
}

#[test]
fn constraints_are_looked_up() {
    let mut sdc = SdcConstraints::default();
    sdc.add_clock(ClockDef {
        name: IdString(CLK),
        period: 100,
        waveform: (0, 50),
        source_port: None,
    });
    assert_eq!(sdc.clocks.len(), 1);
    let p = CellPin::new(CellId(0), IdString(Q));
    let r = CellPin::new(CellId(2), IdString(D));
    assert!(!sdc.is_false_path(p, r));
    sdc.false_paths.push(FalsePath { from: vec![p], to: vec![], through: vec![] });
    assert!(sdc.is_false_path(p, r));
    assert!(!sdc.is_false_path(r, p));
    assert_eq!(sdc.multicycle_setup(IdString(1), IdString(2)), None);
    sdc.multicycle_paths.push(MulticyclePath {
        from_clock: IdString(1),
        to_clock: IdString(2),
        setup_cycles: 3,
        hold_cycles: 1,
    });
    assert_eq!(sdc.multicycle_setup(IdString(1), IdString(2)), Some(3));
    assert_eq!(sdc.multicycle_setup(IdString(2), IdString(1)), None);
}

#[test]
fn graphs_are_ordered_from_their_sources() {
    let order = order_graph(&vec![vec![1, 2], vec![3], vec![3], vec![]], false);
    assert_eq!(order[0], 0);
    assert_eq!(order[3], 3);
    // What stands on a circle, or after one, is left out.
    let order = order_graph(&vec![vec![1], vec![2], vec![1], vec![]], false);
    let mut listed = order.clone();
    listed.sort();
    assert_eq!(listed, vec![0, 3]);
}

#[test]
fn ready_nodes_wait_in_line() {
    let graph = vec![vec![1, 2], vec![3], vec![3], vec![]];
    assert_eq!(order_graph(&graph, false), vec![0, 1, 2, 3]);
    assert_eq!(order_graph(&graph, true), vec![0, 2, 1, 3]);
    let apart = vec![vec![], vec![], vec![]];
    assert_eq!(order_graph(&apart, false), vec![0, 1, 2]);
    assert_eq!(order_graph(&apart, true), vec![2, 1, 0]);
    let design = Design {
        nets: vec![net(20, Some((2, Z)), &[(0, A)])],
        cells: vec![lut(30, Some(0), None), lut(31, None, None), lut(32, None, Some(0)), lut(33, None, None)],
    };
    assert_eq!(topological_sort(&design), vec![CellId(1), CellId(2), CellId(3), CellId(0)]);
}

#[test]
fn cross_domain_reports_have_columns() {
    let mut pool = IdStringPool::new();
    let a = pool.intern("clk_a");
    let b = pool.intern("a_clock_with_a_long_name");
    let mut ta = TimingAnalyser::default();
    for clock_net in [a, b, a, IdString(99)] {
        ta.domains.registry.domains.push(ClockDomain { clock_net, edge: ClockEdge::Falling, period: 10 });
    }
    let _ = ta.clock_delays.insert(ClockNetPair { from: a, to: b }, 3);
    let text = format_cross_domain_report(&ta, &pool);
    let lines: Vec<&str> = text.lines().collect();
    assert_eq!(lines[0], "Cross-Domain Paths");
    assert_eq!(lines[1], format!("{:<20} {:<20} {}", "From Clock", "To Clock", "Status"));
    assert_eq!(lines[2], format!("{:<20} {} {}", "clk_a", "a_clock_with_a_long_name", "Constrained (related)"));
    assert_eq!(lines[3], format!("{:<20} {:<20} {}", "clk_a", "clk_a", "Same clock"));
    assert_eq!(lines[4], format!("{:<20} {:<20} {}", "clk_a", "?", "Unconstrained (async)"));
    assert_eq!(lines.len(), 2 + 12);
    assert!(text.ends_with('\n'));
}

#[test]
fn cells_follow_those_that_feed_them() {
    let mut design = Design {
        nets: vec![
            net(20, Some((2, Z)), &[(1, A)]),
            net(21, Some((1, Z)), &[(0, A)]),
        ],
        cells: vec![lut(30, Some(1), None), lut(31, Some(0), Some(1)), lut(32, None, Some(0))],
    };
    assert_eq!(topological_sort(&design), vec![CellId(2), CellId(1), CellId(0)]);
    design.cells[1].alive = false;
    assert_eq!(topological_sort(&design).len(), 2);
}

#[test]
fn times_go_through_registers_and_functions() {
    let ta = timed(200);
    assert!(ta.is_valid());
    assert_eq!(ta.pin_arrival(CellId(0), IdString(Q)), Some(40));
    assert_eq!(ta.pin_arrival(CellId(1), IdString(A)), Some(45));
    assert_eq!(ta.pin_arrival(CellId(1), IdString(Z)), Some(145));
    assert_eq!(ta.arrival_time(CellId(2), IdString(D)), Some(152));
    assert_eq!(ta.pin_required(CellId(2), IdString(D)), Some(170));
    assert_eq!(ta.pin_required(CellId(1), IdString(Z)), Some(163));
    assert_eq!(ta.required_time(CellId(1), IdString(A)), Some(63));
    assert_eq!(ta.endpoint_slack(CellId(2), IdString(D)), Some(18));
    assert_eq!(ta.endpoint_slack(CellId(0), IdString(CK)), None);
    assert_eq!(ta.worst_slack(), 18);
    assert_eq!(ta.worst_setup_slack(), 18);
    assert_eq!(ta.worst_hold_slack(), 0);
    assert_eq!(ta.effective_period(), 200);
    assert!(ta.failing_slack(CellId(2), IdString(D)).is_none());
}

#[test]
fn paths_tell_where_the_time_goes() {
    let ta = timed(200);
    assert_eq!(ta.paths().len(), 1);
    let path = &ta.critical_paths(5)[0];
    assert_eq!(path.delay, 152);
    assert_eq!(path.budget, 170);
    assert_eq!(path.slack, 18);
    assert_eq!(path.from.cell, CellId(0));
    assert_eq!(path.to.cell, CellId(2));
    let delays: Vec<DelayT> = path.segments.iter().map(|s| s.delay).collect();
    assert_eq!(delays, vec![40, 5, 100, 7]);
    assert_eq!(delays.iter().sum::<DelayT>(), path.delay);
    assert_eq!(ta.paths_through_net(NetId(1)).len(), 1);
    assert_eq!(ta.paths_through_net(NetId(0)).len(), 0);
    assert!(ta.critical_paths(0).is_empty());
}

#[test]
fn failing_paths_have_negative_slack() {
    let ta = timed(100);
    assert_eq!(ta.worst_slack(), -82);
    assert_eq!(ta.failing_slack(CellId(2), IdString(D)), Some(-82));
    assert_eq!(ta.cell_slack(CellId(2)), Some(-82));
    assert_eq!(ta.effective_period(), 18);
    let (slack, range) = ta.net_criticality_slack(NetId(2)).unwrap();
    assert_eq!(slack, -82);
    assert!(range.least <= -82);
    let figures = TimingFigures::from_analyser(&ta);
    assert_eq!(figures.wns, -82);
    assert_eq!(figures.tns, -82);
    assert_eq!(figures.failing, 1);
    assert_eq!(figures.total, 1);
    assert_eq!(figures.clock_summaries.len(), 1);
    assert_eq!(figures.clock_summaries[0].period_ps, 100);
    assert_eq!(figures.clock_summaries[0].tns, -82);
}

#[test]
fn domains_are_set_up_from_the_clocks() {
    let ta = timed(200);
    assert_eq!(ta.port_class(CellId(0), IdString(Q)), Some(TimingPortClass::RegisterOutput));
    assert_eq!(ta.port_class(CellId(9), IdString(Q)), None);
    let domain = ta.port_domain(CellId(2), IdString(D)).unwrap();
    assert_eq!(domain.clock_net, IdString(CLK));
    assert_eq!(domain.period, 200);
    assert_eq!(ta.domain_registry().len(), 2);
    assert!(cross_domain_rows(&ta).is_empty());
    assert_eq!(ta.clock_constraints().get(IdString(CLK)), Some(&200));
    assert!(ta.clock_delays().get(ClockNetPair { from: IdString(CLK), to: IdString(99) }).is_none());
    assert_eq!(CrossStatus::Related.label().is_empty(), false);
}

#[test]
fn new_delays_give_new_times() {
    let mut ctx = context(pipeline(), vec![3, 5, 7]);
    let mut ta = TimingAnalyser::default();
    ta.add_clock_constraint_ps(IdString(CLK), 200);
    assert!(!ta.is_valid());
    ta.update(&ctx);
    assert_eq!(ta.worst_slack(), 18);
    ctx.net_delays[2] = 25;
    ta.update_after_routing(&ctx);
    assert_eq!(ta.worst_slack(), 0);
    ctx.net_delays[2] = 24;
    ta.update_after_placement(&ctx);
    assert_eq!(ta.worst_slack(), 1);
    ta.invalidate();
    assert!(!ta.is_valid());
    ctx.net_delays[2] = 26;
    ta.update(&ctx);
    assert_eq!(ta.worst_slack(), -1);
    ta.clear_all();
    assert!(ta.pin_arrival(CellId(0), IdString(Q)).is_none());
    assert_eq!(ta.clock_constraints().get(IdString(CLK)), Some(&200));
}

#[test]
fn analysis_without_tables_guesses() {
    let mut ta = TimingAnalyser::new();
    ta.add_clock_constraint_ps(IdString(CLK), 1000);
    ta.analyse(&pipeline());
    assert_eq!(ta.port_class(CellId(2), IdString(D)), Some(TimingPortClass::RegisterInput));
    assert_eq!(ta.port_class(CellId(1), IdString(A)), Some(TimingPortClass::Combinational));
    assert_eq!(ta.pin_arrival(CellId(0), IdString(Q)), Some(100));
    assert_eq!(ta.pin_arrival(CellId(1), IdString(Z)), Some(200));
    assert_eq!(ta.pin_arrival(CellId(2), IdString(D)), Some(200));
    assert_eq!(ta.pin_required(CellId(2), IdString(D)), Some(950));
    assert_eq!(ta.worst_slack(), 750);
}

#[test]
fn clocks_give_a_default_period() {
    let mut clocks: IdMap<IdString, DelayT> = IdMap::new();
    let without = get_default_period(&clocks);
    assert!(without > 0);
    let _ = clocks.insert(IdString(1), 500);
    let _ = clocks.insert(IdString(2), 300);
    assert_eq!(get_default_period(&clocks), 300);
}

#[test]
fn paths_that_go_round_end() {
    let mut times: IdMap<CellPin, DelayT> = IdMap::new();
    let mut hops: IdMap<CellPin, Hop> = IdMap::new();
    let a = CellPin::new(CellId(0), IdString(A));
    let b = CellPin::new(CellId(1), IdString(A));
    let _ = times.insert(a, 10);
    let _ = hops.insert(a, Hop { from: b, net: None, delay: 4 });
    let _ = hops.insert(b, Hop { from: a, net: Some(NetId(3)), delay: 5 });
    let path = reconstruct_path(&times, &hops, a);
    let delays: Vec<DelayT> = path.iter().map(|s| s.delay).collect();
    assert_eq!(delays, vec![10, 5, 4]);
    assert!(reconstruct_path(&times, &IdMap::new(), a).is_empty());
}

#[test]
fn coverage_counts_constraints() {
    let ta = timed(200);
    assert_eq!(
        format_constraint_coverage(&ta),
        "Constraint Coverage\nClocks defined:     1\nInput delays:       0\nOutput delays:      0\nFalse paths:        0\nMulticycle paths:   0\n"
    );
}

#[test]
fn fewer_critical_paths_can_be_asked_for() {
    let mut ta = timed(200);
    ta.set_max_critical_paths(3);
    assert_eq!(ta.max_critical_paths, 3);
    assert!(ta.is_valid());
}

/// Three registers that each feed another, over nets of different delays.
fn three_stages() -> Context {
    let design = Design {
        nets: vec![
            net(CLK, None, &[(0, CK), (1, CK), (2, CK), (3, CK), (4, CK), (5, CK)]),
            net(20, Some((0, Q)), &[(1, D)]),
            net(21, Some((2, Q)), &[(3, D)]),
            net(22, Some((4, Q)), &[(5, D)]),
        ],
        cells: vec![
            flop(30, None, Some(1)),
            flop(31, Some(1), None),
            flop(32, None, Some(2)),
            flop(33, Some(2), None),
            flop(34, None, Some(3)),
            flop(35, Some(3), None),
        ],
    };
    context(design, vec![0, 5, 50, 20])
}

#[test]
fn an_analysis_keeps_the_worst_paths_alone() {
    let ctx = three_stages();
    let mut ta = TimingAnalyser::new();
    ta.add_clock_constraint_ps(IdString(CLK), 100);
    ta.setup_and_run(&ctx);
    let slacks: Vec<DelayT> = ta.paths().iter().map(|p| p.slack).collect();
    assert_eq!(slacks, vec![-20, 10, 25]);
    ta.set_max_critical_paths(2);
    ta.run(&ctx);
    let slacks: Vec<DelayT> = ta.paths().iter().map(|p| p.slack).collect();
    assert_eq!(slacks, vec![-20, 10]);
    assert_eq!(ta.paths()[0].to.cell, CellId(3));
    assert_eq!(ta.critical_paths(9).len(), 2);
    assert_eq!(ta.worst_slack(), -20);
    let figures = TimingFigures::from_analyser(&ta);
    assert_eq!(figures.total, 3);
    assert_eq!(figures.failing, 1);
    assert_eq!(figures.tns, -20);
    assert_eq!(figures.clock_summaries[0].total, 3);
    ta.set_max_critical_paths(0);
    ta.setup_and_run(&ctx);
    assert!(ta.paths().is_empty());
    assert_eq!(ta.worst_slack(), -20);
    assert_eq!(TimingFigures::from_analyser(&ta).total, 3);
    ta.set_max_critical_paths(1);
    ta.analyse(&ctx.design);
    assert!(ta.paths().len() <= 1);
}
