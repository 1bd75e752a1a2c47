use nextpnr::chipdb::WireId;
use nextpnr::router::astar::{default_visit_limit_for_search, AStarOptions, QueueEntry};

#[test]
fn queue_entry_orders_by_estimate_then_cost() {
    let a = QueueEntry { wire: WireId::new(0, 0), cost: 10, penalty: 0, estimate: 100 };
    let b = QueueEntry { wire: WireId::new(0, 1), cost: 5, penalty: 0, estimate: 100 };
    // Both have the estimate 100; the cheaper one leaves the queue first.
    assert!(b > a);

    let c = QueueEntry { wire: WireId::new(0, 2), cost: 1000, penalty: 0, estimate: 50 };
    // The smaller estimate goes before both.
    assert!(c > a);
    assert!(c > b);
}

#[test]
fn default_visit_limit_scales_with_distance() {
    let grid_area: usize = 10_000;
    let short = default_visit_limit_for_search(grid_area, 4, None);
    let long = default_visit_limit_for_search(grid_area, 80, None);
    assert!(short >= 10_000);
    assert!(long > short);
    assert!(long <= grid_area.saturating_mul(10));
}

#[test]
fn default_visit_limit_respects_pruned_region() {
    let grid_area = 1_000_000;
    let unconstrained = default_visit_limit_for_search(grid_area, 60, None);
    let pruned = default_visit_limit_for_search(grid_area, 60, Some(64));
    assert!(pruned >= 10_000);
    assert!(pruned < unconstrained);
}

#[test]
fn astar_options_default_retains_trace() {
    let opts = AStarOptions::default();
    assert!(opts.retain_trace);
    assert!(!opts.exhaustive);
    assert!(!opts.stop_on_first_touch);
    assert!(opts.visit_limit.is_none());
}
