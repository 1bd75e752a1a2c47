use nextpnr::solver::aggregate::{
    aggregate, coarse_slot, coarsest_steps, is_coarsened, makes_progress, CoarseSlot, LevelSizes,
    Neighbour,
};
use nextpnr::solver::history::{Newest, Ring};
use nextpnr::solver::pattern::{LowerPattern, SharedColumn};
use nextpnr::solver::rng::{sketch_columns, Xoshiro256SS};
use nextpnr::solver::threads::{set_solver_threads, Division, SolverThreads};
use nextpnr::solver::triplets::{
    ordered_pair, same_pattern, symmetric_entries, upper_entries, Entry, IndexPair,
};

#[test]
fn generator_repeats_itself_for_a_seed() {
    let mut a = Xoshiro256SS::new(42);
    let mut b = Xoshiro256SS::new(42);
    let mut c = Xoshiro256SS::new(43);
    let first: Vec<u64> = (0..8).map(|_| a.next_u64()).collect();
    let second: Vec<u64> = (0..8).map(|_| b.next_u64()).collect();
    let third: Vec<u64> = (0..8).map(|_| c.next_u64()).collect();
    assert_eq!(first, second);
    assert_ne!(first, third);
}

#[test]
fn generator_steps_by_the_formula() {
    let mut g = Xoshiro256SS { s0: 1, s1: 2, s2: 3, s3: 4 };
    assert_eq!(g.next_u64(), 11520);
    assert_eq!(g.next_u64(), 0);
    assert_eq!(g.next_u64(), 1509978240);
    assert_eq!(g.next_u64(), 1215971899390074240);
}

#[test]
fn generator_gives_fifty_three_bits() {
    let mut a = Xoshiro256SS::new(7);
    let mut b = Xoshiro256SS::new(7);
    for _ in 0..100 {
        let bits = a.next_53_bits();
        assert_eq!(bits, b.next_u64() >> 11);
        assert!(bits < 1 << 53);
    }
}

#[test]
fn sketches_have_a_bounded_width() {
    assert_eq!(sketch_columns(0, 10), 1);
    assert_eq!(sketch_columns(5, 0), 1);
    assert_eq!(sketch_columns(100, 3), 3);
}

#[test]
fn ring_reuses_its_slots() {
    let mut ring = Ring::new(2);
    assert_eq!(ring.len(), 0);
    assert_eq!(ring.push(), (0, true));
    assert_eq!(ring.push(), (1, true));
    assert_eq!(ring.push(), (2, true));
    assert_eq!(ring.len(), 3);
    assert_eq!(ring.push(), (0, false));
    assert_eq!(ring.len(), 3);
    let slots: Vec<usize> = (0..3).map(|age| ring.slot(age)).collect();
    assert_eq!(slots, vec![0, 2, 1]);
}

#[test]
fn only_the_newest_entries_stay() {
    let mut h: Newest<i32> = Newest::new(3);
    for i in 0..10 {
        h.push(i);
    }
    assert_eq!(h.entries.iter().copied().collect::<Vec<i32>>(), vec![7, 8, 9]);
    h.clear();
    assert!(h.entries.is_empty());
    let mut one: Newest<i32> = Newest::new(0);
    one.push(1);
    one.push(2);
    assert_eq!(one.entries.iter().copied().collect::<Vec<i32>>(), vec![2]);
}

#[test]
fn pairs_are_put_in_order() {
    assert!(ordered_pair(3, 3).is_none());
    assert_eq!(ordered_pair(5, 2), Some(IndexPair { lo: 2, hi: 5 }));
    assert_eq!(ordered_pair(2, 5), Some(IndexPair { lo: 2, hi: 5 }));
}

#[test]
fn entries_are_mirrored() {
    let off = vec![Entry { row: 0, col: 1, val: 7 }];
    let full: Vec<(usize, usize, i32)> =
        symmetric_entries(&[1, 2], &off).iter().map(|e| (e.row, e.col, e.val)).collect();
    assert_eq!(full, vec![(0, 0, 1), (1, 1, 2), (0, 1, 7), (1, 0, 7)]);
    let upper: Vec<(usize, usize, i32)> =
        upper_entries(&[1, 2], &off).iter().map(|e| (e.row, e.col, e.val)).collect();
    assert_eq!(upper, vec![(0, 0, 1), (1, 1, 2), (0, 1, 7)]);
}

#[test]
fn patterns_ignore_values() {
    let a = vec![Entry { row: 0, col: 1, val: 7 }];
    let b = vec![Entry { row: 0, col: 1, val: 8u8 }];
    let c = vec![Entry { row: 1, col: 0, val: 7 }];
    assert!(same_pattern(&a, &b));
    assert!(!same_pattern(&a, &c));
    assert!(!same_pattern(&a, &Vec::<Entry<i32>>::new()));
}

fn chain(n: usize) -> (Vec<Vec<Neighbour>>, Vec<Vec<usize>>) {
    let mut adj: Vec<Vec<Neighbour>> = Vec::new();
    let mut strong: Vec<Vec<usize>> = Vec::new();
    for i in 0..n {
        let mut near: Vec<usize> = Vec::new();
        if i > 0 {
            near.push(i - 1);
        }
        if i + 1 < n {
            near.push(i + 1);
        }
        adj.push(near.iter().map(|j| Neighbour { node: *j, strength: 1 }).collect());
        strong.push(near);
    }
    (adj, strong)
}

#[test]
fn groups_cover_a_chain() {
    let (adj, strong) = chain(9);
    let a = aggregate(&adj, &strong);
    assert_eq!(a.group, vec![0, 0, 1, 1, 1, 2, 2, 2, 2]);
    assert_eq!(a.count, 3);
    assert!(makes_progress(9, a.count));
}

#[test]
fn lone_nodes_are_groups_of_their_own() {
    let a = aggregate(&vec![vec![], vec![]], &vec![vec![], vec![]]);
    assert_eq!(a.count, 2);
    assert_ne!(a.group[0], a.group[1]);
    assert!(!makes_progress(2, a.count));
}

#[test]
fn level_sizes_fall_to_the_limit() {
    let mut s = LevelSizes::new(200);
    assert!(s.goes_on());
    assert!(!s.coarsen(0));
    assert!(!s.coarsen(200));
    assert!(s.coarsen(70));
    assert!(s.coarsen(20));
    assert!(!s.goes_on());
    assert!(!s.coarsen(5));
    assert_eq!(s.sizes, vec![200, 70, 20]);
    let mut small = LevelSizes::new(50);
    assert!(!small.goes_on());
    assert!(!small.coarsen(10));
    assert_eq!(small.sizes, vec![50]);
    let mut long = LevelSizes::new(1000);
    for i in 0..20 {
        assert!(long.coarsen(999 - i));
    }
    assert!(!long.coarsen(100));
    assert_eq!(long.sizes.len(), 21);
}

#[test]
fn coarsening_has_limits() {
    assert!(is_coarsened(51, 0));
    assert!(!is_coarsened(50, 0));
    assert!(!is_coarsened(1000, 20));
    assert_eq!(coarsest_steps(2), 20);
    assert_eq!(coarsest_steps(100), 200);
    assert_eq!(coarse_slot(3, 3), CoarseSlot::Diagonal(3));
    assert_eq!(coarse_slot(4, 3), CoarseSlot::Between(3, 4));
}

#[test]
fn lower_pattern_finds_positions() {
    let pairs = vec![
        IndexPair { lo: 0, hi: 2 },
        IndexPair { lo: 1, hi: 2 },
        IndexPair { lo: 0, hi: 3 },
        IndexPair { lo: 0, hi: 2 },
    ];
    let p = LowerPattern::new(4, &pairs);
    let at = p.position(0, 2).unwrap();
    assert_eq!(p.row_indices[at], 2);
    assert!(p.position(0, 1).is_none());
    assert!(p.position(1, 3).is_none());
    assert_eq!(
        p.shared_columns(2, 3, 2),
        vec![SharedColumn { col: 0, first: p.position(0, 2).unwrap(), second: p.position(0, 3).unwrap() }]
    );
    assert!(p.shared_columns(2, 3, 0).is_empty());
}

#[test]
fn threads_share_work_from_two_on() {
    let mut t = SolverThreads::default();
    assert_eq!(t.division(), Division::Shared(8));
    set_solver_threads(&mut t, 0);
    assert_eq!(t.division(), Division::Sequential);
    assert_eq!(t.count, 1);
    set_solver_threads(&mut t, 3);
    assert_eq!(t.division(), Division::Shared(3));
}
