use nextpnr::chipdb::{ChipDb, PipId, PipInfo, SiteInfo, SitePin, TileType, WireId, WireInfo};
use nextpnr::context::{Bel, BelPin, Context};
use nextpnr::ids::IdMap;
use nextpnr::metrics::{compute_bbox, BoundingBox};
use nextpnr::netlist::{Cell, CellId, CellPin, CellPort, Design, Net, NetId};
use nextpnr::router::astar::{astar_search, update_peer, update_step, AStarExit, AStarOptions};
use nextpnr::router::cleanup::cleanup_net;
use nextpnr::router::common::{
    apply_route_plan, bind_route, collect_constant_source_wires, collect_routable_nets, collect_sink_wires,
    distinct_nets,
    find_local_const_pip, is_global_clock_pip, is_global_clock_wire, resolve_source_wire, source_wire_const_value, unroute_net,
    RoutePlan, SinkRoute,
};
use nextpnr::router::config::RouterChoice;
use nextpnr::router::corridor::{CorridorWalk, Shift, TileXy};
use nextpnr::router::diagnose::{diagnose_unroutable_net, Diagnosis, SinkFinding};
use nextpnr::router::error::RouterError;
use nextpnr::router::findings::diagnosis_text;
use nextpnr::router::gate::{
    choose_nets, clock_backbone, end_of_cleanup, end_of_routing, nothing_to_route, order_by_fanout,
    order_by_rank, pin_reservations, reserve_pins, source_wire, split_by_fanout, unfinished_nets, PassEnd,
    RasterRouter,
};
use nextpnr::router::graph::{Visit, WireSet};
use nextpnr::router::greedy::{GreedyRun, GreedyStart, GreedyStep};
use nextpnr::router::heap::{EntryHeap, QueueEntry};
use nextpnr::router::lookahead::{representatives, Lookahead, LookaheadSurvey, UNKNOWN_CLASS};
use nextpnr::router::maze::{
    astar_route, astar_route_multihop, compute_route_r1, route_net, MazeCostModel, Router1Cfg,
};
use nextpnr::router::negotiation::{NegotiationCfg, NegotiationState};
use nextpnr::router::passes::{PassChoice, RasterPasses};
use nextpnr::router::raster::{bind_and_count, RasterRouterCfg, RasterRun, RasterStart, TileUsage};
use nextpnr::router::region::{build_search_region, default_visit_limit_for_search, SearchRegion};
use nextpnr::router::ripup::{net_fully_routed, ripup_net_with_equivs, MAX_RIPUP_ATTEMPTS_PER_RUN};
use nextpnr::router::rounds::Router1;
use nextpnr::router::router2::{astar_route_r2, Negotiation, NegotiationAction, Router2, Router2Cfg, WireCosts};
use nextpnr::router::scoped::{explore_margin, scoped_ripup_route};
use nextpnr::router::segments::{decompose_segments, representative_wire_in_tile, segment_route, Run, TileCosts};
use nextpnr::router::traits::Router;
use nextpnr::router::usage::{
    add_wire_usage, count_usage, find_congested_nets, find_congested_wires, remove_wire_usage,
};
use nextpnr::router::validate::{validate_all_routed, BreakCause, Issue, ValidationReport};
use nextpnr::router::wording::{issue_count, validation_text};
use nextpnr::timing::delay::{DelayQuad, DelayT};
use nextpnr::types::enums::{PlaceStrength, PortType};
use nextpnr::types::id_string::{IdString, IdStringPool};

const OUT: i32 = 0;
const IN: i32 = 1;
const EAST: i32 = 2;
const WEST: i32 = 3;
const EAST2: i32 = 4;
const WEST2: i32 = 5;
const VCC: i32 = 6;

fn wire(name: &str, kind: &str, const_value: i32, up: Vec<i32>, down: Vec<i32>) -> WireInfo {
    WireInfo {
        name: String::from(name),
        wire_type: String::from(kind),
        const_value,
        pips_uphill: up,
        pips_downhill: down,
    }
}

fn pip(src: i32, dst: i32, delay: DelayT) -> PipInfo {
    PipInfo { src_wire: src, dst_wire: dst, delay: DelayQuad::uniform(delay) }
}

/// A tile with a source pin, a sink pin, two tracks from west to east, and a constant wire.
fn tile_type() -> TileType {
    TileType {
        wires: vec![
            wire("OUT", "PIN", 0, vec![], vec![0, 3]),
            wire("IN", "PIN", 0, vec![2, 5, 6], vec![]),
            wire("EAST", "LANE", 0, vec![0, 1], vec![]),
            wire("WEST", "LANE", 0, vec![], vec![1, 2]),
            wire("EAST2", "LANE", 0, vec![3, 4], vec![]),
            wire("WEST2", "LANE", 0, vec![], vec![4, 5]),
            wire("VCC", "CONST", 1, vec![], vec![6]),
        ],
        pips: vec![
            pip(OUT, EAST, 10),
            pip(WEST, EAST, 10),
            pip(WEST, IN, 10),
            pip(OUT, EAST2, 20),
            pip(WEST2, EAST2, 20),
            pip(WEST2, IN, 20),
            pip(VCC, IN, 5),
        ],
        sites: vec![SiteInfo {
            bel_type: 7,
            pins: vec![
                SitePin { is_output: true, wire: OUT },
                SitePin { is_output: false, wire: IN },
            ],
        }],
    }
}

fn row(n: i32) -> ChipDb {
    let mut nodes: Vec<Vec<WireId>> = Vec::new();
    for t in 0..n - 1 {
        nodes.push(vec![WireId::new(t, EAST), WireId::new(t + 1, WEST)]);
        nodes.push(vec![WireId::new(t, EAST2), WireId::new(t + 1, WEST2)]);
    }
    ChipDb::new(n, 1, vec![tile_type()], vec![0; n as usize], nodes).unwrap()
}

/// A row of tiles with a cell in each, and nets from tile to tiles.
fn state(n: i32, nets: &[(u32, &[u32])]) -> Context {
    let mut pool = IdStringPool::new();
    let o = pool.intern("O");
    let i = pool.intern("I");
    let kind = pool.intern("LUT");
    let mut bels: Vec<Bel> = Vec::new();
    let mut cells: Vec<Cell> = Vec::new();
    for t in 0..n {
        let name = pool.intern(&format!("cell{}", t));
        bels.push(Bel {
            name,
            pins: vec![
                BelPin { port: o, wire: WireId::new(t, OUT) },
                BelPin { port: i, wire: WireId::new(t, IN) },
            ],
        });
        let mut cell = Cell::new(name, kind);
        cell.bel = Some(t as usize);
        cell.ports.push(CellPort { name: o, port_type: PortType::Out, net: None });
        cell.ports.push(CellPort { name: i, port_type: PortType::In, net: None });
        cells.push(cell);
    }
    let mut list: Vec<Net> = Vec::new();
    for (k, (from, to)) in nets.iter().enumerate() {
        let name = pool.intern(&format!("net{}", k));
        let mut net = Net::new(name);
        net.driver = CellPin::new(CellId(*from), o);
        cells[*from as usize].ports[0].net = Some(NetId(k as u32));
        for t in to.iter() {
            net.users.push(CellPin::new(CellId(*t), i));
            cells[*t as usize].ports[1].net = Some(NetId(k as u32));
        }
        list.push(net);
    }
    let delays = vec![0; list.len()];
    Context::new(row(n), bels, Design { nets: list, cells }, pool, None, 30, delays).unwrap()
}

fn set_of(wires: &[WireId]) -> WireSet {
    let mut s: WireSet = IdMap::new();
    for w in wires {
        let _ = s.insert(*w, ());
    }
    s
}

fn no_penalty() -> IdMap<WireId, DelayT> {
    IdMap::new()
}

fn lane(from: i32, to: i32) -> Vec<PipId> {
    let mut pips = vec![PipId::new(from, 0)];
    for t in from + 1..to {
        pips.push(PipId::new(t, 1));
    }
    pips.push(PipId::new(to, 2));
    pips
}

fn flat_costs(ctx: &Context) -> TileCosts {
    TileCosts { penalty: vec![0; ctx.chipdb.tiles.len()] }
}

fn lookahead(ctx: &Context) -> Lookahead {
    let survey = LookaheadSurvey::new(ctx);
    let rc: Vec<i64> =
        (0..=survey.max_span).map(|s| (survey.base_cost as f64 * (s as f64).sqrt()) as i64).collect();
    Lookahead::build(ctx, &survey, &rc)
}

#[test]
fn devices_that_do_not_fit_together_are_refused() {
    let mut bad = tile_type();
    bad.pips[0].dst_wire = 70;
    assert!(ChipDb::new(1, 1, vec![bad], vec![0], vec![]).is_none());
    assert!(ChipDb::new(2, 1, vec![tile_type()], vec![0], vec![]).is_none());
    assert!(ChipDb::new(1, 1, vec![tile_type()], vec![3], vec![]).is_none());
    let twice = vec![vec![WireId::new(0, 0)], vec![WireId::new(0, 0)]];
    assert!(ChipDb::new(1, 1, vec![tile_type()], vec![0], twice).is_none());
    assert!(ChipDb::new(1, 1, vec![tile_type()], vec![0], vec![]).is_some());
}

#[test]
fn device_geometry() {
    let chip = ChipDb::new(3, 2, vec![tile_type()], vec![0; 6], vec![]).unwrap();
    assert_eq!(chip.tile_xy(4), (1, 1));
    assert_eq!(chip.tile_by_xy(2, 1), 5);
    assert_eq!(chip.manhattan(0, 5), 3);
    assert_eq!(chip.num_tiles(), 6);
    assert!(chip.is_valid_wire(WireId::new(5, 6)));
    assert!(!chip.is_valid_wire(WireId::new(6, 0)));
    assert!(!chip.is_valid_pip(PipId::new(0, 7)));
    assert_eq!(chip.pip_src_wire(PipId::new(2, 1)), WireId::new(2, WEST));
    assert_eq!(chip.pip_dst_wire(PipId::new(2, 1)), WireId::new(2, EAST));
    assert_eq!(chip.wires().len(), 42);
}

#[test]
fn nodes_join_wires() {
    let chip = row(3);
    assert_eq!(chip.node_wires(WireId::new(0, EAST)), vec![WireId::new(1, WEST)]);
    assert_eq!(chip.node_id(WireId::new(0, EAST)), chip.node_id(WireId::new(1, WEST)));
    assert!(chip.node_id(WireId::new(0, OUT)).is_none());
    assert!(chip.node_wires(WireId::new(0, OUT)).is_empty());
}

#[test]
fn queue_gives_the_best_entry_first() {
    let mut heap = EntryHeap::new();
    for (cost, estimate) in [(5, 9), (1, 9), (7, 3), (2, 20)] {
        heap.push(QueueEntry { wire: WireId::new(0, cost), cost, penalty: 0, estimate });
    }
    let mut costs: Vec<i32> = Vec::new();
    while let Some(e) = heap.pop() {
        costs.push(e.cost);
    }
    assert_eq!(costs, vec![7, 1, 5, 2]);
    assert!(heap.pop().is_none());
}

#[test]
fn queue_does_not_depend_on_the_order_of_adding() {
    let entries = [(0, 3, 2), (1, 1, 2), (1, 0, 2), (0, 3, 1), (0, 2, 5)];
    let mut seen: Vec<Vec<(i32, i32, i32)>> = Vec::new();
    for turn in 0..entries.len() {
        let mut heap = EntryHeap::new();
        for k in 0..entries.len() {
            let (tile, index, penalty) = entries[(k + turn) % entries.len()];
            heap.push(QueueEntry { wire: WireId::new(tile, index), cost: 4, penalty, estimate: 9 });
        }
        let mut out: Vec<(i32, i32, i32)> = Vec::new();
        while let Some(e) = heap.pop() {
            out.push((e.wire.tile, e.wire.index, e.penalty));
        }
        seen.push(out);
    }
    assert_eq!(seen[0], vec![(0, 3, 1), (0, 3, 2), (1, 0, 2), (1, 1, 2), (0, 2, 5)]);
    assert!(seen.iter().all(|s| *s == seen[0]));
}

#[test]
fn searches_repeat_whatever_the_order_of_the_sources() {
    let ctx = state(6, &[(0, &[5])]);
    let pen = no_penalty();
    let model =
        MazeCostModel { wire_penalty: &pen, boxes: vec![], lookahead: None, class: UNKNOWN_CLASS };
    let wires = [WireId::new(0, OUT), WireId::new(1, OUT), WireId::new(2, WEST), WireId::new(1, WEST2)];
    let mut back = wires;
    back.reverse();
    for stop_on_first_touch in [false, true] {
        let opts = AStarOptions { visit_limit: None, exhaustive: false, retain_trace: true, stop_on_first_touch };
        let a = astar_search(&ctx, &model, &set_of(&wires), WireId::new(5, IN), &opts);
        let b = astar_search(&ctx, &model, &set_of(&back), WireId::new(5, IN), &opts);
        assert!(a.path.is_some());
        assert_eq!(a.path, b.path);
        assert_eq!(a.trace.best_score, b.trace.best_score);
        assert_eq!(a.trace.visit_count, b.trace.visit_count);
        assert_eq!(a.trace.visited.len(), b.trace.visited.len());
    }
}

#[test]
fn the_score_is_what_the_path_costs() {
    let ctx = state(6, &[(0, &[5])]);
    let mut pen = no_penalty();
    let _ = pen.insert(WireId::new(2, EAST), 3);
    let model =
        MazeCostModel { wire_penalty: &pen, boxes: vec![], lookahead: None, class: UNKNOWN_CLASS };
    let res = astar_search(
        &ctx,
        &model,
        &set_of(&[WireId::new(0, OUT)]),
        WireId::new(5, IN),
        &AStarOptions::default(),
    );
    assert_eq!(res.path, Some(lane(0, 5)));
    assert_eq!(res.trace.best_score, 6 * 11 + 3);
}

#[test]
fn search_finds_the_cheap_way() {
    let ctx = state(4, &[(0, &[3])]);
    let pen = no_penalty();
    let model =
        MazeCostModel { wire_penalty: &pen, boxes: vec![], lookahead: None, class: UNKNOWN_CLASS };
    let res = astar_search(
        &ctx,
        &model,
        &set_of(&[WireId::new(0, OUT)]),
        WireId::new(3, IN),
        &AStarOptions::default(),
    );
    assert_eq!(res.path, Some(lane(0, 3)));
    assert!(matches!(res.trace.exit, AStarExit::Reached));
    assert_eq!(res.trace.best_score, 44);
}

#[test]
fn search_goes_round_penalties() {
    let ctx = state(4, &[(0, &[3])]);
    let mut pen = no_penalty();
    let _ = pen.insert(WireId::new(1, EAST), 1000);
    let path = astar_route(
        &ctx,
        &set_of(&[WireId::new(0, OUT)]),
        WireId::new(3, IN),
        &pen,
        None,
        None,
        None,
    );
    assert_eq!(
        path,
        Some(vec![PipId::new(0, 3), PipId::new(1, 4), PipId::new(2, 4), PipId::new(3, 5)])
    );
}

#[test]
fn search_without_a_way_drains_the_queue() {
    let ctx = state(4, &[(3, &[0])]);
    let pen = no_penalty();
    let model =
        MazeCostModel { wire_penalty: &pen, boxes: vec![], lookahead: None, class: UNKNOWN_CLASS };
    let res = astar_search(
        &ctx,
        &model,
        &set_of(&[WireId::new(3, OUT)]),
        WireId::new(0, IN),
        &AStarOptions::default(),
    );
    assert!(res.path.is_none());
    assert!(matches!(res.trace.exit, AStarExit::HeapDrained));
}

#[test]
fn search_stops_at_its_limit() {
    let ctx = state(6, &[(0, &[5])]);
    let pen = no_penalty();
    let model =
        MazeCostModel { wire_penalty: &pen, boxes: vec![], lookahead: None, class: UNKNOWN_CLASS };
    let opts = AStarOptions {
        visit_limit: Some(2),
        exhaustive: false,
        retain_trace: true,
        stop_on_first_touch: false,
    };
    let res =
        astar_search(&ctx, &model, &set_of(&[WireId::new(0, OUT)]), WireId::new(5, IN), &opts);
    assert!(res.path.is_none());
    assert!(matches!(res.trace.exit, AStarExit::VisitLimit));
    assert_eq!(res.trace.max_visits, 2);
    assert_eq!(res.trace.visit_count, 3);
}

#[test]
fn one_visit_for_each_source_and_pip_is_enough() {
    let ctx = state(4, &[(0, &[3])]);
    let pen = no_penalty();
    let model =
        MazeCostModel { wire_penalty: &pen, boxes: vec![], lookahead: None, class: UNKNOWN_CLASS };
    let opts = AStarOptions {
        visit_limit: Some(1 + 4 * 7),
        exhaustive: false,
        retain_trace: false,
        stop_on_first_touch: false,
    };
    let res =
        astar_search(&ctx, &model, &set_of(&[WireId::new(0, OUT)]), WireId::new(3, IN), &opts);
    assert_eq!(res.path, Some(lane(0, 3)));
    assert!(res.trace.visit_count <= 29);
}

#[test]
fn keeping_the_trace_leaves_the_rest_alone() {
    let ctx = state(5, &[(0, &[4])]);
    let pen = no_penalty();
    let model =
        MazeCostModel { wire_penalty: &pen, boxes: vec![], lookahead: None, class: UNKNOWN_CLASS };
    let from = set_of(&[WireId::new(0, OUT)]);
    for limit in [None, Some(2)] {
        let with = AStarOptions {
            visit_limit: limit,
            exhaustive: false,
            retain_trace: true,
            stop_on_first_touch: false,
        };
        let without = AStarOptions { retain_trace: false, ..with };
        let a = astar_search(&ctx, &model, &from, WireId::new(4, IN), &with);
        let b = astar_search(&ctx, &model, &from, WireId::new(4, IN), &without);
        assert_eq!(a.path, b.path);
        assert_eq!(a.trace.exit, b.trace.exit);
        assert_eq!(a.trace.best_score, b.trace.best_score);
        assert_eq!(a.trace.visit_count, b.trace.visit_count);
        assert_eq!(a.trace.max_visits, b.trace.max_visits);
        assert!(a.trace.visited.contains_key(WireId::new(0, OUT)));
        assert_eq!(b.trace.visited.len(), 0);
    }
}

#[test]
fn a_step_is_noted_if_it_is_better() {
    let mut visits: IdMap<WireId, Visit> = IdMap::new();
    let (w, u, p) = (WireId::new(1, 2), WireId::new(1, 0), PipId::new(1, 4));
    assert!(update_step(&mut visits, w, 10, 5, p, u));
    assert_eq!(visits.get(w), Some(&Visit { cost: 10, penalty: 5, pip: Some(p), from: u }));
    assert!(!update_step(&mut visits, w, 15, 0, PipId::new(1, 5), u));
    assert_eq!(visits.get(w), Some(&Visit { cost: 10, penalty: 5, pip: Some(p), from: u }));
    assert!(update_peer(&mut visits, w, 7, 7, u));
    assert_eq!(visits.get(w), Some(&Visit { cost: 7, penalty: 7, pip: None, from: u }));
    assert_eq!(visits.len(), 1);
    assert!(update_step(&mut visits, u, 0, 0, p, w));
    assert_eq!(visits.get(w), Some(&Visit { cost: 7, penalty: 7, pip: None, from: u }));
}

#[test]
fn search_stays_in_its_box() {
    let ctx = state(4, &[(0, &[3])]);
    let none = astar_route(
        &ctx,
        &set_of(&[WireId::new(0, OUT)]),
        WireId::new(3, IN),
        &no_penalty(),
        Some(BoundingBox::new(0, 0, 1, 0)),
        None,
        None,
    );
    assert!(none.is_none());
}

#[test]
fn a_sink_that_is_a_source_needs_no_pips() {
    let ctx = state(2, &[(0, &[1])]);
    let path = astar_route(
        &ctx,
        &set_of(&[WireId::new(0, OUT)]),
        WireId::new(0, OUT),
        &no_penalty(),
        None,
        None,
        None,
    );
    assert_eq!(path, Some(vec![]));
}

#[test]
fn hops_are_searched_like_single_steps() {
    let ctx = state(4, &[(0, &[3])]);
    let path = astar_route_multihop(
        &ctx,
        &set_of(&[WireId::new(0, OUT)]),
        WireId::new(3, IN),
        &no_penalty(),
        None,
        None,
        None,
    );
    assert_eq!(path, Some(lane(0, 3)));
}

#[test]
fn shared_wires_are_dear_to_other_nets() {
    let ctx = state(4, &[(0, &[3])]);
    let mut negotiation = NegotiationState::new(NegotiationCfg::default());
    let mut costs = WireCosts::flat(1);
    let _ = costs.shared.insert(WireId::new(1, EAST), 1000);
    let _ = costs.own.insert(WireId::new(1, EAST), 1);
    let from = set_of(&[WireId::new(0, OUT)]);
    let bbox = BoundingBox::new(0, 0, 3, 0);
    let round = astar_route_r2(&ctx, &from, WireId::new(3, IN), NetId(0), &negotiation, &costs, bbox);
    assert_eq!(
        round,
        Some(vec![PipId::new(0, 3), PipId::new(1, 4), PipId::new(2, 4), PipId::new(3, 5)])
    );
    let _ = negotiation.wire_owner.insert(WireId::new(1, EAST), NetId(0));
    let own = astar_route_r2(&ctx, &from, WireId::new(3, IN), NetId(0), &negotiation, &costs, bbox);
    assert_eq!(own, Some(lane(0, 3)));
    let narrow = BoundingBox::new(0, 0, 1, 0);
    assert!(astar_route_r2(&ctx, &from, WireId::new(3, IN), NetId(0), &negotiation, &costs, narrow).is_none());
}

#[test]
fn default_limits() {
    assert_eq!(default_visit_limit_for_search(100, 0, None), 10_000);
    assert_eq!(default_visit_limit_for_search(10_000, 12, None), 51_200);
    assert_eq!(default_visit_limit_for_search(10_000, 100, Some(64)), 16_384);
    assert_eq!(default_visit_limit_for_search(usize::MAX, usize::MAX, None), usize::MAX);
}

#[test]
fn regions_are_unions_of_boxes() {
    let chip = ChipDb::new(4, 3, vec![tile_type()], vec![0; 12], vec![]).unwrap();
    let (all, size) = build_search_region(&chip, &vec![]);
    assert!(matches!(all, SearchRegion::Unbounded));
    assert!(size.is_none());
    let (one, size) = build_search_region(&chip, &vec![BoundingBox::new(1, 1, 2, 2)]);
    assert_eq!(size, Some(4));
    assert!(one.contains_tile(&chip, 5));
    assert!(!one.contains_tile(&chip, 4));
    let boxes = vec![BoundingBox::new(0, 0, 0, 0), BoundingBox::new(0, 0, 1, 0)];
    let (two, size) = build_search_region(&chip, &boxes);
    assert_eq!(size, Some(2));
    for t in 0..12 {
        assert_eq!(two.contains_tile(&chip, t), t == 0 || t == 1);
    }
}

#[test]
fn bounding_box_of_a_net_has_a_margin() {
    let ctx = state(9, &[(3, &[5])]);
    assert_eq!(compute_bbox(&ctx, NetId(0), 2), BoundingBox::new(1, 0, 7, 0));
    assert_eq!(compute_bbox(&ctx, NetId(0), 100), BoundingBox::new(0, 0, 8, 0));
}

#[test]
fn plans_are_applied_whole_or_not_at_all() {
    let mut ctx = state(4, &[(0, &[3]), (1, &[2])]);
    let plan = compute_route_r1(&ctx, NetId(0), &no_penalty(), 0, None).ok().unwrap();
    assert_eq!(plan.sink_routes.len(), 1);
    assert_eq!(plan.sink_routes[0].pips, lane(0, 3));
    assert!(apply_route_plan(&mut ctx, &plan).is_ok());
    assert_eq!(ctx.wire_binding(WireId::new(2, WEST)).unwrap().net, NetId(0));
    assert_eq!(ctx.pip_binding(PipId::new(1, 1)).unwrap().net, NetId(0));
    // The other plan runs into the first at its second wire and leaves nothing behind.
    let other = RoutePlan {
        net: NetId(1),
        source_wire: WireId::new(1, OUT),
        sink_routes: vec![SinkRoute { sink_wire: WireId::new(2, IN), pips: lane(1, 2) }],
    };
    assert!(apply_route_plan(&mut ctx, &other).is_err());
    assert!(ctx.wire_binding(WireId::new(1, OUT)).is_none());
    assert_eq!(ctx.design.nets[1].wires.len(), 0);
    assert_eq!(ctx.design.nets[0].wires.len(), 5);
}

#[test]
fn unrouting_frees_what_binding_took() {
    let mut ctx = state(3, &[(0, &[2])]);
    bind_route(&mut ctx, NetId(0), &lane(0, 2));
    assert_eq!(ctx.wire_binding(WireId::new(1, EAST)).unwrap().net, NetId(0));
    assert!(ctx.design.nets[0].wires.contains_key(WireId::new(2, IN)));
    unroute_net(&mut ctx, NetId(0));
    assert!(ctx.wire_binding(WireId::new(1, EAST)).is_none());
    assert!(ctx.pip_binding(PipId::new(1, 1)).is_none());
    assert_eq!(ctx.design.nets[0].wires.len(), 0);
}

#[test]
fn ripping_up_frees_the_whole_conductors() {
    let mut ctx = state(3, &[(0, &[2])]);
    assert!(route_net(&mut ctx, NetId(0), &no_penalty()).is_ok());
    assert!(ctx.wire_binding(WireId::new(2, WEST)).is_some());
    assert!(net_fully_routed(&ctx, NetId(0)));
    ripup_net_with_equivs(&mut ctx, NetId(0));
    for w in ctx.chipdb.wires() {
        assert!(ctx.wire_binding(w).is_none());
    }
    assert!(!net_fully_routed(&ctx, NetId(0)));
}

#[test]
fn source_wires_are_resolved_or_explained() {
    let mut ctx = state(2, &[(0, &[1]), (1, &[0])]);
    assert!(matches!(resolve_source_wire(&ctx, NetId(0)), Ok(Some(w)) if w == WireId::new(0, OUT)));
    ctx.design.cells[0].bel = None;
    match resolve_source_wire(&ctx, NetId(0)) {
        Err(RouterError::Generic(text)) => assert_eq!(text, "Driver cell for net net0 is not placed"),
        _ => panic!("expected an error"),
    }
    ctx.bels[1].pins.clear();
    match resolve_source_wire(&ctx, NetId(1)) {
        Err(RouterError::Generic(text)) => assert_eq!(text, "Cannot find driver wire for net net1"),
        _ => panic!("expected an error"),
    }
    ctx.design.nets[0].driver = CellPin::invalid();
    assert!(matches!(resolve_source_wire(&ctx, NetId(0)), Ok(None)));
}

#[test]
fn nets_and_wires_are_collected() {
    let mut ctx = state(4, &[(0, &[2, 3]), (1, &[])]);
    assert_eq!(collect_routable_nets(&ctx), vec![NetId(0)]);
    assert_eq!(collect_sink_wires(&ctx, NetId(0)), vec![WireId::new(2, IN), WireId::new(3, IN)]);
    assert_eq!(
        collect_constant_source_wires(&ctx, 1),
        (0..4).map(|t| WireId::new(t, VCC)).collect::<Vec<_>>()
    );
    assert_eq!(source_wire_const_value(&ctx, WireId::new(1, VCC)), 1);
    assert_eq!(find_local_const_pip(&ctx, WireId::new(2, IN), 1), Some(PipId::new(2, 6)));
    assert_eq!(find_local_const_pip(&ctx, WireId::new(2, IN), 2), None);
    ctx.design.nets[0].alive = false;
    assert!(collect_routable_nets(&ctx).is_empty());
}

#[test]
fn clock_wires_are_known_by_their_type() {
    let mut kinds = tile_type();
    kinds.wires[EAST as usize].wire_type = String::from("NODE_GLOBAL_LEAF");
    kinds.wires[WEST as usize].wire_type = String::from("MY_GCLK_3");
    let chip = ChipDb::new(1, 1, vec![kinds], vec![0], vec![]).unwrap();
    let ctx = Context::new(
        chip,
        vec![],
        Design { nets: vec![], cells: vec![] },
        IdStringPool::new(),
        None,
        0,
        vec![],
    )
    .unwrap();
    assert!(is_global_clock_wire(&ctx, WireId::new(0, EAST)));
    assert!(is_global_clock_wire(&ctx, WireId::new(0, WEST)));
    assert!(!is_global_clock_wire(&ctx, WireId::new(0, OUT)));
    assert!(is_global_clock_pip(&ctx, PipId::new(0, 0)));
    assert!(is_global_clock_pip(&ctx, PipId::new(0, 2)));
    assert!(!is_global_clock_pip(&ctx, PipId::new(0, 3)));
}

#[test]
fn usage_is_counted_and_undone() {
    let mut ctx = state(4, &[(0, &[3]), (1, &[2])]);
    bind_route(&mut ctx, NetId(0), &lane(0, 3));
    bind_route(&mut ctx, NetId(1), &lane(1, 2));
    let mut usage = count_usage(&ctx);
    assert_eq!(usage.get(WireId::new(1, EAST)), Some(&2));
    assert_eq!(usage.get(WireId::new(3, IN)), Some(&1));
    assert_eq!(find_congested_wires(&ctx), vec![WireId::new(1, EAST)]);
    let mut nets: Vec<u32> = find_congested_nets(&ctx).iter().map(|n| n.0).collect();
    nets.sort();
    assert_eq!(nets, vec![0, 1]);
    let before = usage.len();
    remove_wire_usage(&ctx.design, &mut usage, NetId(1));
    assert_eq!(usage.get(WireId::new(1, EAST)), Some(&1));
    assert!(usage.get(WireId::new(2, IN)).is_none());
    add_wire_usage(&ctx.design, &mut usage, NetId(1));
    assert_eq!(usage.get(WireId::new(1, EAST)), Some(&2));
    assert_eq!(usage.len(), before);
}

#[test]
fn maze_router_routes_nets_apart() {
    let mut ctx = state(5, &[(0, &[1]), (2, &[4])]);
    let cfg = Router1Cfg::default();
    assert!(Router1.route(&mut ctx, &cfg).is_ok());
    assert!(net_fully_routed(&ctx, NetId(0)));
    assert!(net_fully_routed(&ctx, NetId(1)));
    assert!(validate_all_routed(&ctx).is_ok());
}

#[test]
fn maze_router_takes_shared_trees_apart() {
    let mut ctx = state(5, &[(0, &[3]), (1, &[4])]);
    bind_route(&mut ctx, NetId(0), &lane(0, 3));
    bind_route(&mut ctx, NetId(1), &lane(1, 4));
    assert_eq!(find_congested_wires(&ctx).len(), 2);
    assert!(Router1.route(&mut ctx, &Router1Cfg::default()).is_ok());
    assert!(find_congested_wires(&ctx).is_empty());
    // With no rounds left the sharing is reported.
    let mut ctx = state(5, &[(0, &[3]), (1, &[4])]);
    bind_route(&mut ctx, NetId(0), &lane(0, 3));
    bind_route(&mut ctx, NetId(1), &lane(1, 4));
    let cfg = Router1Cfg { max_iterations: 0, ..Router1Cfg::default() };
    match Router1.route(&mut ctx, &cfg) {
        Err(RouterError::Congestion(rounds, nets)) => {
            assert_eq!(rounds, 0);
            assert_eq!(nets, 2);
        }
        _ => panic!("expected congestion"),
    }
}

#[test]
fn repeated_nets_are_routed_once() {
    let mut ctx = state(5, &[(0, &[1]), (2, &[4])]);
    let list = vec![NetId(1), NetId(0), NetId(1), NetId(1)];
    assert_eq!(distinct_nets(&list), vec![NetId(1), NetId(0)]);
    assert!(Router1.route_nets(&mut ctx, &Router1Cfg::default(), &list).is_ok());
    assert!(validate_all_routed(&ctx).is_ok());
    let run = Negotiation::new(&ctx, &list, NegotiationCfg::default());
    assert_eq!(run.nets, vec![NetId(1), NetId(0)]);
    assert_eq!(run.pending, run.nets);
}

#[test]
fn maze_router_names_the_net_without_a_path() {
    let mut ctx = state(3, &[(2, &[0])]);
    match Router1.route(&mut ctx, &Router1Cfg::default()) {
        Err(RouterError::NoPath(name)) => assert_eq!(name, "net0"),
        _ => panic!("expected an error"),
    }
}

#[test]
fn default_router_is_the_maze_router() {
    match RouterChoice::default() {
        RouterChoice::Maze(cfg) => {
            assert_eq!(cfg.max_iterations, 500);
            assert_eq!(cfg.rip_up_penalty, 10);
            assert_eq!(cfg.bb_margin, 3);
        }
        RouterChoice::Negotiation(_) => panic!("expected the maze router"),
    }
    let cfg = RasterRouterCfg::default();
    assert!(cfg.max_iterations > 0);
}

#[test]
fn negotiation_ends_without_sharing() {
    let mut ctx = state(5, &[(0, &[3]), (1, &[4])]);
    bind_route(&mut ctx, NetId(0), &lane(0, 3));
    bind_route(&mut ctx, NetId(1), &lane(1, 4));
    let nets = collect_routable_nets(&ctx);
    let cfg = Router2Cfg::default();
    let mut run = Negotiation::new(&ctx, &nets, cfg.negotiation);
    let mut costs = WireCosts::flat(1);
    assert!(run.route_pending(&mut ctx, &costs, 3).is_ok());
    let mut rounds = 0;
    let end = loop {
        let action = run.next(&mut ctx, cfg.max_iterations);
        if let Some(done) = Router2::outcome(action, &cfg) {
            break done;
        }
        assert!(matches!(action, NegotiationAction::Reroute));
        rounds += 1;
        // The cheap track gets dear for the net that does not own it.
        for t in 0..5 {
            let _ = costs.shared.insert(WireId::new(t, EAST), 500 * rounds);
        }
        assert!(run.route_pending(&mut ctx, &costs, 3).is_ok());
        assert!(rounds < 40);
    };
    assert!(end.is_ok());
    assert!(rounds > 0);
    assert!(find_congested_wires(&ctx).is_empty());
}

#[test]
fn negotiation_gives_up_after_its_rounds() {
    let mut ctx = state(5, &[(0, &[3]), (1, &[4])]);
    bind_route(&mut ctx, NetId(0), &lane(0, 3));
    bind_route(&mut ctx, NetId(1), &lane(1, 4));
    let nets = collect_routable_nets(&ctx);
    let cfg = Router2Cfg { max_iterations: 0, ..Router2Cfg::default() };
    let mut run = Negotiation::new(&ctx, &nets, cfg.negotiation);
    assert!(run.route_pending(&mut ctx, &WireCosts::flat(1), 3).is_ok());
    let action = run.next(&mut ctx, cfg.max_iterations);
    match Router2::outcome(action, &cfg) {
        Some(Err(RouterError::Congestion(rounds, wires))) => {
            assert_eq!(rounds, 0);
            assert_eq!(wires, 2);
        }
        _ => panic!("expected congestion"),
    }
}

#[test]
fn wire_costs_tell_owners_apart() {
    let mut costs = WireCosts::flat(3);
    let w = WireId::new(1, 2);
    let _ = costs.own.insert(w, 10);
    let _ = costs.shared.insert(w, 20);
    let mut owner: IdMap<WireId, NetId> = IdMap::new();
    assert_eq!(costs.wire_cost(&owner, w, NetId(4)), 20);
    let _ = owner.insert(w, NetId(4));
    assert_eq!(costs.wire_cost(&owner, w, NetId(4)), 10);
    assert_eq!(costs.wire_cost(&owner, w, NetId(5)), 20);
    assert_eq!(costs.wire_cost(&owner, WireId::new(0, 0), NetId(5)), 3);
}

#[test]
fn negotiation_state_counts_and_remembers() {
    let mut ctx = state(4, &[(0, &[3]), (1, &[2])]);
    bind_route(&mut ctx, NetId(0), &lane(0, 3));
    bind_route(&mut ctx, NetId(1), &lane(1, 2));
    let mut s = NegotiationState::new(NegotiationCfg { sticky_ripup_threshold: 2 });
    s.update_usage(&ctx.design);
    assert_eq!(s.count_congested_wires(), 1);
    assert_eq!(s.wire_owner.get(WireId::new(1, EAST)), Some(&NetId(1)));
    let mut nets: Vec<u32> = s.find_congested_nets(&ctx.design).iter().map(|n| n.0).collect();
    nets.sort();
    assert_eq!(nets, vec![0, 1]);
    s.remove_net_usage(&ctx.design, NetId(1));
    assert_eq!(s.count_congested_wires(), 0);
    s.add_net_usage(&ctx.design, NetId(1));
    assert_eq!(s.count_congested_wires(), 1);
    assert!(!s.is_sticky(NetId(0)));
    s.bump_rip_up(NetId(0));
    assert!(!s.is_sticky(NetId(0)));
    s.bump_rip_up(NetId(0));
    assert!(s.is_sticky(NetId(0)));
    s.note_partial(NetId(1));
    assert!(s.ever_seen_partial.contains_key(NetId(1)));
}

#[test]
fn validation_accepts_a_routed_design() {
    let mut ctx = state(4, &[(0, &[2, 3])]);
    assert!(route_net(&mut ctx, NetId(0), &no_penalty()).is_ok());
    assert!(validate_all_routed(&ctx).is_ok());
}

fn report(ctx: &Context) -> ValidationReport {
    match validate_all_routed(ctx) {
        Err(RouterError::ValidationFailed(r)) => r,
        _ => panic!("expected a report"),
    }
}

#[test]
fn validation_reports_missing_routes() {
    let ctx = state(4, &[(0, &[3])]);
    let r = report(&ctx);
    assert_eq!(r.source_not_in_tree.total, 1);
    assert_eq!(r.sink_not_in_tree.total, 1);
    assert_eq!(r.disconnected_sink.total, 0);
    match &r.sink_not_in_tree.examples[0] {
        Issue::SinkNotInTree { net, wire, pin } => {
            assert_eq!(*net, NetId(0));
            assert_eq!(*wire, WireId::new(3, IN));
            assert_eq!(pin.cell, CellId(3));
        }
        _ => panic!("expected a sink"),
    }
    match &r.source_not_in_tree.examples[0] {
        Issue::SourceNotInTree { tree_wires, .. } => assert_eq!(*tree_wires, 0),
        _ => panic!("expected a source"),
    }
}

#[test]
fn validation_reports_unplaced_cells_and_pins() {
    let mut ctx = state(5, &[(0, &[1]), (2, &[3]), (4, &[4])]);
    ctx.design.cells[0].bel = None;
    ctx.design.cells[3].bel = None;
    ctx.bels[4].pins.clear();
    let r = report(&ctx);
    assert_eq!(r.unplaced_driver.total, 1);
    assert_eq!(r.unplaced_user.total, 1);
    assert_eq!(r.missing_source_wire.total, 1);
    assert_eq!(r.missing_sink_wire.total, 0);
    ctx.design.nets[2].driver = ctx.design.nets[1].driver;
    assert_eq!(report(&ctx).missing_sink_wire.total, 1);
}

#[test]
fn validation_reports_broken_chains() {
    let mut ctx = state(4, &[(0, &[3])]);
    bind_route(&mut ctx, NetId(0), &lane(0, 3));
    ctx.bind_wire(WireId::new(0, OUT), NetId(0), PlaceStrength::Strong);
    ctx.design.add_wire(NetId(0), WireId::new(0, OUT), None, PlaceStrength::Strong);
    assert!(validate_all_routed(&ctx).is_ok());
    // The wire in the middle loses the pip that drives it.
    ctx.design.add_wire(NetId(0), WireId::new(1, EAST), None, PlaceStrength::Strong);
    let r = report(&ctx);
    assert_eq!(r.disconnected_sink.total, 1);
    match &r.disconnected_sink.examples[0] {
        Issue::DisconnectedSink { cause, .. } => assert_eq!(*cause, BreakCause::NoParentPip),
        _ => panic!("expected a sink"),
    }
}

#[test]
fn validation_reports_conflicts_and_mismatches() {
    let mut ctx = state(4, &[(0, &[3]), (1, &[2])]);
    bind_route(&mut ctx, NetId(0), &lane(0, 3));
    bind_route(&mut ctx, NetId(1), &lane(1, 2));
    let r = report(&ctx);
    assert_eq!(r.wire_conflict.total, 1);
    match &r.wire_conflict.examples[0] {
        Issue::WireConflict { wire, nets } => {
            assert_eq!(*wire, WireId::new(1, EAST));
            assert_eq!(*nets, vec![NetId(0), NetId(1)]);
        }
        _ => panic!("expected a conflict"),
    }
    assert_eq!(r.wire_binding_mismatch.total, 1);
    match &r.wire_binding_mismatch.examples[0] {
        Issue::WireBindingMismatch { net, wire, owner } => {
            assert_eq!(*net, NetId(0));
            assert_eq!(*wire, WireId::new(1, EAST));
            assert_eq!(*owner, Some(NetId(1)));
        }
        _ => panic!("expected a mismatch"),
    }
    assert_eq!(r.pip_conflict.total, 0);
    ctx.unbind_pip(PipId::new(0, 0));
    let r = report(&ctx);
    assert_eq!(r.pip_binding_mismatch.total, 1);
    match &r.pip_binding_mismatch.examples[0] {
        Issue::PipBindingMismatch { net, pip, owner } => {
            assert_eq!(*net, NetId(0));
            assert_eq!(*pip, PipId::new(0, 0));
            assert!(owner.is_none());
        }
        _ => panic!("expected a mismatch"),
    }
}

#[test]
fn validation_keeps_ten_examples() {
    let sinks: Vec<u32> = (1..15).collect();
    let ctx = state(15, &[(0, &sinks)]);
    let r = report(&ctx);
    assert_eq!(r.sink_not_in_tree.total, 14);
    assert_eq!(r.sink_not_in_tree.examples.len(), 10);
}

#[test]
fn reports_are_put_in_words() {
    let ctx = state(4, &[(0, &[3])]);
    let r = report(&ctx);
    assert_eq!(issue_count(&r), 2);
    assert_eq!(
        validation_text(&ctx, &r),
        "Routing validation failed (2 issues):\n  nets whose source wire is not in the routing tree (1 total)\n    \
         - net 'net0': source wire OUT (0/0) not present in routing tree (tree has 0 wires)\n  sink wires \
         missing from the routing tree (1 total)\n    - net 'net0': sink wire IN (3/1) for cell 'cell3' pin 'I' \
         not in routing tree\n"
    );
    let sinks: Vec<u32> = (1..15).collect();
    let ctx = state(15, &[(0, &sinks)]);
    let text = validation_text(&ctx, &report(&ctx));
    assert!(text.contains("  sink wires missing from the routing tree (14 total, showing first 10)\n"));
    assert_eq!(text.lines().count(), 14);
}

#[test]
fn every_kind_of_issue_has_words() {
    let mut ctx = state(6, &[(0, &[3]), (1, &[2]), (4, &[5])]);
    bind_route(&mut ctx, NetId(0), &lane(0, 3));
    bind_route(&mut ctx, NetId(1), &lane(1, 2));
    ctx.unbind_pip(PipId::new(0, 0));
    ctx.design.cells[4].bel = None;
    let text = validation_text(&ctx, &report(&ctx));
    assert!(text.contains("    - wire EAST (1/2) claimed by 2 nets: net0, net1\n"));
    assert!(text.contains("    - net 'net0' lists wire EAST (1/2) but wire is bound to net 'net1'\n"));
    assert!(text.contains("    - net 'net0' lists pip 0/0 but pip is unbound\n"));
    assert!(text.contains("    - net 'net2': driver cell 'cell4' pin 'O' is not placed\n"));
    let mut ctx = state(5, &[(0, &[1]), (4, &[4]), (2, &[3])]);
    ctx.bels[4].pins.clear();
    ctx.design.cells[3].bel = None;
    let text = validation_text(&ctx, &report(&ctx));
    assert!(text.contains("    - net 'net1': driver BEL 'cell4' has no wire for pin 'O'\n"));
    assert!(text.contains("    - net 'net2': user cell 'cell3' pin 'I' is not placed\n"));
    let mut ctx = state(4, &[(0, &[3])]);
    bind_route(&mut ctx, NetId(0), &lane(0, 3));
    ctx.bind_wire(WireId::new(0, OUT), NetId(0), PlaceStrength::Strong);
    ctx.design.add_wire(NetId(0), WireId::new(0, OUT), None, PlaceStrength::Strong);
    ctx.design.add_wire(NetId(0), WireId::new(1, EAST), None, PlaceStrength::Strong);
    let text = validation_text(&ctx, &report(&ctx));
    assert!(text.contains(
        "    - net 'net0': sink wire IN (3/1) for cell 'cell3' pin 'I' not connected to source (reached a wire \
         with no parent pip before hitting the source)\n"
    ));
}

#[test]
fn long_lists_of_claimants_are_cut() {
    let mut ctx = state(6, &[(0, &[5]), (1, &[5]), (2, &[5]), (3, &[5])]);
    for k in 0..4 {
        bind_route(&mut ctx, NetId(k), &vec![PipId::new(4, 1), PipId::new(5, 2)]);
    }
    let text = validation_text(&ctx, &report(&ctx));
    assert!(text.contains("    - wire EAST (4/2) claimed by 4 nets: net0, net1, net2, ...\n"));
    assert!(text.contains("    - pip 4/1 claimed by 4 nets: net0, net1, net2, ...\n"));
}

#[test]
fn diagnoses_are_put_in_words() {
    let mut ctx = state(4, &[(3, &[0]), (0, &[2, 1])]);
    let d = diagnose_unroutable_net(&ctx, NetId(0), None);
    let text = diagnosis_text(&ctx, NetId(0), &d);
    assert!(text.starts_with(
        "=== diagnose_unroutable_net('net0') ===\n  driver: cell 'cell3' pin 'O' wire='OUT (3/0)' at (3,0); \
         pips_downhill=2\n  user[0]: cell 'cell0' pin 'I' wire='IN (0/1)' at (0,0); manhattan=3; \
         pips_uphill=3\n    A*: UNREACHABLE (heap drained, visited 3 wires after 3 visits)\n    explored bbox: \
         x=[3..3] y=[0..0] (3 wires)\n    closest reached: '"
    ));
    assert!(text.ends_with(" at (3,0), manhattan=3 from dst\n"));
    let d = diagnose_unroutable_net(&ctx, NetId(0), Some(1));
    assert!(diagnosis_text(&ctx, NetId(0), &d).contains("    A*: VISIT_LIMIT (budget 1 hit, visited 3 wires)\n"));
    ctx.design.cells[1].bel = None;
    let d = diagnose_unroutable_net(&ctx, NetId(1), Some(100));
    let visits = match &d {
        Diagnosis::Sinks(found) => match &found.sinks[0].finding {
            SinkFinding::Reached(_, _, visits, _) => *visits,
            _ => panic!("expected a path"),
        },
        _ => panic!("expected sinks"),
    };
    let text = diagnosis_text(&ctx, NetId(1), &d);
    assert!(text.contains(&format!("    A*: REACHED (3 pips, cost=33, visits={}/100)\n", visits)));
    assert!(text.ends_with("  user[1]: cell 'cell1' pin 'I': unplaced; skipping\n"));
    ctx.design.cells[0].bel = None;
    let d = diagnose_unroutable_net(&ctx, NetId(1), None);
    assert_eq!(
        diagnosis_text(&ctx, NetId(1), &d),
        "=== diagnose_unroutable_net('net1') ===\n  driver cell 'cell0' pin 'O' unplaced; aborting\n"
    );
    ctx.design.nets[1].driver = CellPin::invalid();
    let d = diagnose_unroutable_net(&ctx, NetId(1), None);
    assert!(diagnosis_text(&ctx, NetId(1), &d).ends_with("  no driver; aborting\n"));
    let mut ctx = state(2, &[(0, &[1])]);
    ctx.bels[0].pins.clear();
    let d = diagnose_unroutable_net(&ctx, NetId(0), None);
    assert!(diagnosis_text(&ctx, NetId(0), &d)
        .ends_with("  driver BEL 'cell0' has no wire for pin 'O'; aborting\n"));
}

#[test]
fn diagnosis_names_what_is_missing() {
    let mut ctx = state(4, &[(3, &[0]), (0, &[2, 1])]);
    match diagnose_unroutable_net(&ctx, NetId(0), None) {
        Diagnosis::Sinks(d) => {
            assert_eq!(d.failed, 1);
            assert_eq!(d.source, WireId::new(3, OUT));
            assert_eq!(d.ways_out, 2);
            assert_eq!(d.sinks[0].distance, 3);
            assert!(matches!(d.sinks[0].finding, SinkFinding::Missed(_)));
        }
        _ => panic!("expected sinks"),
    }
    ctx.design.cells[1].bel = None;
    match diagnose_unroutable_net(&ctx, NetId(1), None) {
        Diagnosis::Sinks(d) => {
            assert_eq!(d.failed, 1);
            assert!(matches!(d.sinks[0].finding, SinkFinding::Reached(3, 33, _, _)));
            assert!(matches!(d.sinks[1].finding, SinkFinding::Unplaced));
        }
        _ => panic!("expected sinks"),
    }
    ctx.design.cells[0].bel = None;
    assert!(matches!(diagnose_unroutable_net(&ctx, NetId(1), None), Diagnosis::UnplacedDriver));
    ctx.design.nets[1].driver = CellPin::invalid();
    assert!(matches!(diagnose_unroutable_net(&ctx, NetId(1), None), Diagnosis::NoDriver));
}

#[test]
fn corridors_run_from_tile_to_tile() {
    let from = TileXy { x: 0, y: 0 };
    let to = TileXy { x: 4, y: 2 };
    let mut walk = CorridorWalk::new(6, 4, from, to);
    let mut steps = 0;
    while let Some(step) = walk.pending() {
        assert!(step.main.is_some());
        walk.advance(Shift::Main);
        steps += 1;
    }
    assert_eq!(steps, 4);
    let (path, corridor) = walk.finish();
    assert_eq!(path[0], from);
    assert_eq!(path[path.len() - 1], to);
    for t in &path {
        assert!(corridor.contains_key(*t));
    }
}

#[test]
fn paths_fall_into_straight_runs() {
    let path: Vec<TileXy> = [(0, 0), (1, 0), (2, 0), (2, 1), (2, 2)]
        .iter()
        .map(|(x, y)| TileXy { x: *x, y: *y })
        .collect();
    assert_eq!(
        decompose_segments(&path),
        vec![Run { start: 0, end: 2 }, Run { start: 2, end: 4 }]
    );
    assert_eq!(decompose_segments(&vec![]), vec![Run { start: 0, end: 0 }]);
}

#[test]
fn segments_follow_a_corridor() {
    let ctx = state(5, &[(0, &[4])]);
    let path: Vec<TileXy> = (0..5).map(|x| TileXy { x, y: 0 }).collect();
    let pips = segment_route(
        &ctx,
        &set_of(&[WireId::new(0, OUT)]),
        WireId::new(4, IN),
        &path,
        &flat_costs(&ctx),
    );
    assert_eq!(pips, Some(lane(0, 4)));
    assert_eq!(representative_wire_in_tile(&ctx.chipdb, 2), Some(WireId::new(2, IN)));
}

#[test]
fn greedy_run_routes_every_sink() {
    let mut ctx = state(5, &[(0, &[4, 2])]);
    let mut run = match GreedyRun::start(&ctx, NetId(0)) {
        Ok(GreedyStart::Run(run)) => run,
        _ => panic!("expected a run"),
    };
    loop {
        match run.step(&ctx) {
            GreedyStep::Done => break,
            GreedyStep::Routed => {}
            GreedyStep::Failed => panic!("expected a route"),
            GreedyStep::Corridor(from, to) => {
                let mut walk = CorridorWalk::new(5, 1, from, to);
                while walk.pending().is_some() {
                    walk.advance(Shift::Main);
                }
                let (path, _) = walk.finish();
                assert!(run.follow(&ctx, &path, &flat_costs(&ctx)));
            }
        }
    }
    let plan = run.finish();
    assert_eq!(plan.sink_routes.len(), 2);
    let mut usage = TileUsage::new(&ctx.chipdb);
    assert!(bind_and_count(&mut ctx, &plan, &mut usage));
    assert!(net_fully_routed(&ctx, NetId(0)));
    assert_eq!(usage.max_usage(), 2);
    assert_eq!(usage.num_congested_tiles(), 1);
}

#[test]
fn raster_run_routes_every_sink() {
    let mut ctx = state(5, &[(0, &[4, 2])]);
    let mut run = match RasterRun::start(&ctx, NetId(0), 3) {
        Ok(RasterStart::Run(run)) => run,
        _ => panic!("expected a run"),
    };
    while run.next < run.sinks.len() {
        assert!(run.step(&ctx, &flat_costs(&ctx)));
    }
    let plan = run.finish();
    let mut usage = TileUsage::new(&ctx.chipdb);
    assert!(bind_and_count(&mut ctx, &plan, &mut usage));
    assert!(validate_all_routed(&ctx).is_ok());
    // A second net over the same track does not get bound.
    let clash = RoutePlan {
        net: NetId(0),
        source_wire: WireId::invalid(),
        sink_routes: vec![],
    };
    assert!(!bind_and_count(&mut ctx, &clash, &mut usage));
}

#[test]
fn runs_without_sinks_end_at_once() {
    let ctx = state(2, &[(0, &[])]);
    assert!(matches!(GreedyRun::start(&ctx, NetId(0)), Ok(GreedyStart::Finished(_))));
    assert!(matches!(RasterRun::start(&ctx, NetId(0), 1), Ok(RasterStart::Finished(_))));
    match GreedyRun::no_path(&ctx, NetId(0)) {
        RouterError::NoPath(name) => assert_eq!(name, "net0"),
        _ => panic!("expected an error"),
    }
}

#[test]
fn pins_are_reserved_before_routing() {
    let mut ctx = state(4, &[(0, &[2]), (1, &[3])]);
    let list = pin_reservations(&ctx, &vec![NetId(0), NetId(1)]);
    assert!(list.iter().any(|r| r.wire == WireId::new(2, IN) && r.net == NetId(0)));
    let (granted, refused) = reserve_pins(&mut ctx, &list);
    assert_eq!(granted, list.len());
    assert_eq!(refused, 0);
    assert_eq!(ctx.wire_binding(WireId::new(3, IN)).unwrap().net, NetId(1));
}

#[test]
fn nets_are_put_in_order() {
    let ctx = state(30, &[(0, &[1]), (1, &[2, 3, 4]), (2, &[5, 6])]);
    let nets = vec![NetId(0), NetId(1), NetId(2)];
    let by_fanout = order_by_fanout(&ctx, &nets);
    assert_eq!(by_fanout.len(), 3);
    assert_eq!(source_wire(&ctx, NetId(1)), Some(WireId::new(1, OUT)));
    let (high, low) = split_by_fanout(&ctx, &nets);
    assert!(high.is_empty());
    assert_eq!(low, nets);
    assert_eq!(order_by_rank(&ctx, &nets).len(), 3);
    assert!(clock_backbone(&ctx, &nets).is_empty());
    assert_eq!(unfinished_nets(&ctx), nets);
}

#[test]
fn passes_end_when_nothing_is_left() {
    assert!(matches!(end_of_routing(0, 0, 0), PassEnd::Converged));
    assert!(matches!(end_of_routing(5, 1, 1), PassEnd::GoOn));
    assert!(matches!(end_of_cleanup(3), PassEnd::GoOn));
    let mut ctx = state(4, &[(0, &[3]), (1, &[2])]);
    bind_route(&mut ctx, NetId(0), &lane(0, 3));
    bind_route(&mut ctx, NetId(1), &lane(1, 2));
    let mut s = NegotiationState::new(NegotiationCfg::default());
    s.update_usage(&ctx.design);
    let plan = choose_nets(&mut ctx, &mut s);
    assert!(!nothing_to_route(&plan));
    let usage = TileUsage::new(&ctx.chipdb);
    match RasterRouter::gave_up(&RasterRouterCfg::default(), &usage) {
        RouterError::Congestion(_, tiles) => assert_eq!(tiles, 0),
        _ => panic!("expected congestion"),
    }
}

#[test]
fn lookahead_knows_costs_and_reach() {
    let ctx = state(30, &[(0, &[1])]);
    let reps = representatives(&ctx.chipdb);
    assert_eq!(reps.len(), 1);
    let la = lookahead(&ctx);
    assert_eq!(la.class_for_bel_type(7), Some(0));
    assert_eq!(la.class_for_bel_type(8), None);
    assert_eq!(la.class_name(1000), "?");
    assert!(la.class_name(0) != "?");
    assert!(la.is_reachable(&ctx.chipdb, WireId::new(3, WEST), 0));
    assert!(la.pip_cost(&ctx.chipdb, PipId::new(0, 0)) >= 1);
    let blank = Lookahead { pip_costs: vec![], ..lookahead(&ctx) };
    assert_eq!(blank.pip_cost(&ctx.chipdb, PipId::new(0, 0)), 11);
    assert_eq!(blank.pip_cost(&ctx.chipdb, PipId::new(0, 3)), 21);
    let short = Lookahead { pip_costs: vec![vec![4]], ..lookahead(&ctx) };
    assert_eq!(short.pip_cost(&ctx.chipdb, PipId::new(0, 0)), 4);
    assert_eq!(short.pip_cost(&ctx.chipdb, PipId::new(0, 6)), 6);
    let near = la.estimate_delay(&ctx.chipdb, WireId::new(3, OUT), WireId::new(4, IN), 0);
    let far = la.estimate_delay(&ctx.chipdb, WireId::new(3, OUT), WireId::new(20, IN), 0);
    assert!(near <= far);
}

#[test]
fn lookahead_estimates_follow_their_laws() {
    let ctx = state(30, &[(0, &[1])]);
    let la = lookahead(&ctx);
    let chip = &ctx.chipdb;
    for (a, b) in [((3, OUT), (9, IN)), ((20, OUT), (4, EAST)), ((5, WEST), (5, IN))] {
        let (s, d) = (WireId::new(a.0, a.1), WireId::new(b.0, b.1));
        let known = la.estimate_delay(chip, s, d, 0);
        let unknown = la.estimate_delay(chip, s, d, UNKNOWN_CLASS);
        assert!(0 <= unknown && unknown <= known);
        assert_eq!(unknown, la.estimate_delay(chip, s, d, la.default_class()));
        assert_eq!(known, la.estimate_delay(chip, d, s, 0));
        assert_eq!(known == 0, s.tile == d.tile);
    }
    // No path costs less than the estimate.
    let path = lane(3, 9);
    let cost: DelayT = path.iter().map(|p| la.pip_cost(chip, *p)).sum();
    assert!(la.estimate_delay(chip, WireId::new(3, OUT), WireId::new(9, IN), 0) <= cost);
}

#[test]
fn scoped_ripup_takes_a_way_back() {
    assert_eq!(explore_margin(0), 60);
    assert_eq!(explore_margin(100), 300);
    // Both tracks are taken, and the net in the middle gets one of them.
    let mut ctx = state(6, &[(0, &[4]), (1, &[5]), (2, &[3])]);
    let la = lookahead(&ctx);
    bind_route(&mut ctx, NetId(0), &lane(0, 4));
    ctx.bind_wire(WireId::new(0, OUT), NetId(0), PlaceStrength::Strong);
    ctx.design.add_wire(NetId(0), WireId::new(0, OUT), None, PlaceStrength::Strong);
    let mut s = NegotiationState::new(NegotiationCfg::default());
    let mut budget = MAX_RIPUP_ATTEMPTS_PER_RUN;
    let done = scoped_ripup_route(&mut ctx, NetId(2), &no_penalty(), &la, &mut budget, &mut s);
    assert!(done);
    assert!(net_fully_routed(&ctx, NetId(2)));
}

#[test]
fn cleanup_finishes_a_net() {
    let mut ctx = state(6, &[(0, &[4, 5])]);
    let la = lookahead(&ctx);
    let mut s = NegotiationState::new(NegotiationCfg::default());
    let mut budget = MAX_RIPUP_ATTEMPTS_PER_RUN;
    let r = cleanup_net(&mut ctx, NetId(0), &no_penalty(), &la, &vec![], &mut budget, &mut s);
    assert!(r.routed);
    assert!(r.missed.is_empty());
    assert!(validate_all_routed(&ctx).is_ok());
    assert_eq!(budget, MAX_RIPUP_ATTEMPTS_PER_RUN);
}

#[test]
fn cleanup_lists_the_sinks_it_missed() {
    let mut ctx = state(4, &[(2, &[3, 0])]);
    let la = lookahead(&ctx);
    let mut s = NegotiationState::new(NegotiationCfg::default());
    let mut budget = 0;
    let r = cleanup_net(&mut ctx, NetId(0), &no_penalty(), &la, &vec![], &mut budget, &mut s);
    assert!(!r.routed);
    assert_eq!(r.missed, vec![WireId::new(0, IN)]);
}

#[test]
fn binding_a_node_binds_all_its_wires() {
    let mut ctx = state(3, &[(0, &[2]), (1, &[0])]);
    assert!(ctx.try_bind_wire_node(WireId::new(0, EAST), NetId(0), PlaceStrength::Weak).is_ok());
    assert_eq!(ctx.wire_binding(WireId::new(1, WEST)).unwrap().net, NetId(0));
    assert!(ctx.try_bind_wire_node(WireId::new(1, WEST), NetId(1), PlaceStrength::Weak).is_err());
    assert_eq!(ctx.node_conflict(WireId::new(1, WEST), NetId(0)), None);
    assert_eq!(ctx.estimate_delay(WireId::new(0, OUT), WireId::new(2, IN)), 60);
    assert_eq!(ctx.name_of(IdString(99)), "");
}

#[test]
fn passes_count_and_end() {
    let mut ctx = state(3, &[(0, &[2]), (1, &[0])]);
    let la = lookahead(&ctx);
    let mut run = RasterPasses::new(&ctx, vec![NetId(0), NetId(1)]);
    assert!(matches!(run.begin(&mut ctx), PassChoice::First));
    let list = run.nets.clone();
    assert_eq!(run.prepare(&ctx, &list), vec![NetId(0), NetId(1)]);
    let plan = RoutePlan {
        net: NetId(0),
        source_wire: WireId::new(0, OUT),
        sink_routes: vec![SinkRoute { sink_wire: WireId::new(2, IN), pips: lane(0, 2) }],
    };
    assert!(run.take(&mut ctx, Some(plan)));
    assert!(!run.take(&mut ctx, None));
    assert_eq!((run.routed, run.failed), (1, 1));
    assert_eq!(run.usage.counts, vec![1, 1, 1]);
    assert!(matches!(run.close_routing(&ctx), PassEnd::GoOn));
    let (left, backbone) = run.left_over(&ctx);
    assert_eq!(left, vec![NetId(1)]);
    assert!(backbone.is_empty());
    let result = run.clean(&mut ctx, NetId(1), &no_penalty(), &la, &backbone);
    assert!(!result.routed);
    assert!(matches!(run.close_cleanup(&ctx, &left), PassEnd::GoOn));
    assert_eq!((run.failed, run.pass), (1, 1));
    match run.begin(&mut ctx) {
        PassChoice::Again(plan) => {
            let order = run.prepare(&ctx, &plan.to_retry);
            assert_eq!(order, plan.to_retry);
        }
        _ => panic!("a net is left"),
    }
    let loads: Vec<u32> = (0..3)
        .map(|t| {
            let mut n = 0;
            for net in &run.nets {
                n += ctx.net(*net).wires.keys().iter().filter(|w| w.tile == t).count() as u32;
            }
            n
        })
        .collect();
    assert_eq!(run.usage.counts, loads);
}

#[test]
fn passes_end_when_all_is_routed() {
    let mut ctx = state(2, &[(0, &[1])]);
    let mut run = RasterPasses::new(&ctx, vec![NetId(0)]);
    let list = run.nets.clone();
    let _ = run.prepare(&ctx, &list);
    let plan = RoutePlan {
        net: NetId(0),
        source_wire: WireId::new(0, OUT),
        sink_routes: vec![SinkRoute { sink_wire: WireId::new(1, IN), pips: lane(0, 1) }],
    };
    assert!(run.take(&mut ctx, Some(plan)));
    assert!(matches!(run.close_routing(&ctx), PassEnd::Converged));
    let (left, _) = run.left_over(&ctx);
    assert!(left.is_empty());
    assert!(matches!(run.close_cleanup(&ctx, &left), PassEnd::Validate));
    assert!(matches!(run.begin(&mut ctx), PassChoice::Nothing(_)));
    assert!(validate_all_routed(&ctx).is_ok());
}

struct WholeOnly;

impl Router for WholeOnly {
    type Config = ();

    fn config_ok(_cfg: &()) -> bool {
        true
    }

    fn net_done(
        &self,
        _cfg: &(),
        _old_ctx: Context,
        _net: NetId,
        _r: Result<(), RouterError>,
        _new: Context,
    ) -> bool {
        true
    }

    fn route(&self, _ctx: &mut Context, _cfg: &()) -> Result<(), RouterError> {
        Ok(())
    }
}

struct NetByNet {
    fails_at: NetId,
    seen: std::cell::RefCell<Vec<NetId>>,
}

impl Router for NetByNet {
    type Config = ();

    fn config_ok(_cfg: &()) -> bool {
        true
    }

    fn net_done(
        &self,
        _cfg: &(),
        _old_ctx: Context,
        _net: NetId,
        _r: Result<(), RouterError>,
        _new: Context,
    ) -> bool {
        true
    }

    fn route(&self, _ctx: &mut Context, _cfg: &()) -> Result<(), RouterError> {
        Ok(())
    }

    fn route_net(&self, _ctx: &mut Context, _cfg: &(), net: NetId) -> Result<(), RouterError> {
        self.seen.borrow_mut().push(net);
        if net == self.fails_at {
            Err(RouterError::NoPath(String::from("net1")))
        } else {
            Ok(())
        }
    }
}

#[test]
fn routers_without_increments_refuse_single_nets() {
    let mut ctx = state(2, &[(0, &[1])]);
    for r in [
        WholeOnly.route_net(&mut ctx, &(), NetId(0)),
        WholeOnly.route_nets(&mut ctx, &(), &vec![NetId(0)]),
    ] {
        match r {
            Err(RouterError::Generic(text)) => {
                assert_eq!(text, "incremental routing not supported by this algorithm");
            }
            _ => panic!("expected a refusal"),
        }
    }
    assert!(WholeOnly.route_nets(&mut ctx, &(), &vec![]).is_ok());
}

#[test]
fn nets_are_routed_in_turn_up_to_the_first_failure() {
    let mut ctx = state(4, &[(0, &[1]), (1, &[2]), (2, &[3])]);
    let list = vec![NetId(0), NetId(1), NetId(2)];
    let router = NetByNet { fails_at: NetId(1), seen: std::cell::RefCell::new(vec![]) };
    match router.route_nets(&mut ctx, &(), &list) {
        Err(RouterError::NoPath(name)) => assert_eq!(name, "net1"),
        _ => panic!("expected the failure of the net"),
    }
    assert_eq!(*router.seen.borrow(), vec![NetId(0), NetId(1)]);
    let router = NetByNet { fails_at: NetId(7), seen: std::cell::RefCell::new(vec![]) };
    assert!(router.route_nets(&mut ctx, &(), &list).is_ok());
    assert_eq!(*router.seen.borrow(), list);
}

#[test]
fn devices_without_drivers_have_one_class() {
    let mut kinds = tile_type();
    kinds.sites = vec![];
    let chip = ChipDb::new(2, 1, vec![kinds], vec![0, 0], vec![]).unwrap();
    let design = Design { nets: vec![], cells: vec![] };
    let ctx = Context::new(chip, vec![], design, IdStringPool::new(), None, 0, vec![]).unwrap();
    let la = lookahead(&ctx);
    assert_eq!(la.class_for_bel_type(7), None);
    assert_eq!(la.class_of_bel_type.len(), 0);
    assert_eq!(la.default_class(), 0);
    assert_eq!(la.class_name(0), "DEFAULT");
    assert!(la.is_reachable(&ctx.chipdb, WireId::new(1, IN), 0));
}

#[test]
fn walks_lead_from_tile_to_tile() {
    for shift in [Shift::Main, Shift::Plus, Shift::Minus] {
        for (to, long) in [((5, 3), 5), ((1, 4), 4), ((0, 0), 0), ((3, 3), 3)] {
            let (from, to) = (TileXy { x: 0, y: 0 }, TileXy { x: to.0, y: to.1 });
            let mut walk = CorridorWalk::new(6, 6, from, to);
            while let Some(step) = walk.pending() {
                let ok = match shift {
                    Shift::Main => step.main.is_some(),
                    Shift::Plus => step.plus.is_some(),
                    Shift::Minus => step.minus.is_some(),
                };
                if ok {
                    walk.advance(shift);
                } else if step.main.is_some() {
                    walk.advance(Shift::Main);
                } else {
                    walk.advance(Shift::Minus);
                }
            }
            let (path, corridor) = walk.finish();
            assert_eq!(path[0], from);
            assert_eq!(path[path.len() - 1], to);
            if from == to {
                assert_eq!(path, vec![from]);
                assert_eq!(corridor.len(), 1);
            } else {
                assert!(path.len() == long + 1 || path.len() == long + 2);
            }
            for i in 1..path.len() {
                assert_ne!(path[i - 1], path[i]);
            }
            for t in corridor.keys() {
                assert!(t.x >= 0 && t.x < 6 && t.y >= 0 && t.y < 6);
            }
            assert!(path.iter().all(|t| corridor.contains_key(*t)));
        }
    }
}
