//! The tiles that a search may enter, and how many wires it may look at.

use crate::chipdb::ChipDb;
use crate::metrics::BoundingBox;
use vstd::prelude::*;

verus! {

/// The product of two counts, held at the largest count.
pub open spec fn sat_product(a: int, b: int) -> int {
    if a * b <= usize::MAX {
        a * b
    } else {
        usize::MAX as int
    }
}

/// The product of two counts; it stays at the largest count.
pub fn sat_mul(a: usize, b: usize) -> (r: usize)
    ensures
        r == sat_product(a as int, b as int),
{
    match a.checked_mul(b) {
        Some(p) => p,
        None => usize::MAX,
    }
}

/// The smaller of two counts.
pub open spec fn min_count(a: int, b: int) -> int {
    if a <= b {
        a
    } else {
        b
    }
}

/// The larger of two counts.
pub open spec fn max_count(a: int, b: int) -> int {
    if a >= b {
        a
    } else {
        b
    }
}

/// The sides of the rectangle can be computed.
pub open spec fn measurable(bb: BoundingBox) -> bool {
    &&& i32::MIN <= bb.x1 - bb.x0 && bb.x1 - bb.x0 + 1 <= i32::MAX
    &&& i32::MIN <= bb.y1 - bb.y0 && bb.y1 - bb.y0 + 1 <= i32::MAX
}

/// The number of tiles in a rectangle; none where the corners are in the wrong order.
pub open spec fn area(bb: BoundingBox) -> int {
    sat_product(max_count(bb.x1 - bb.x0 + 1, 0), max_count(bb.y1 - bb.y0 + 1, 0))
}

/// The number of tiles in a rectangle.
pub fn bbox_area(bb: &BoundingBox) -> (r: usize)
    requires
        measurable(*bb),
    ensures
        r == area(*bb),
{
    let width: i32 = bb.x1 - bb.x0 + 1;
    let height: i32 = bb.y1 - bb.y0 + 1;
    let w: usize = if width > 0 { width as usize } else { 0 };
    let h: usize = if height > 0 { height as usize } else { 0 };
    sat_mul(w, h)
}

/// How many wires a search looks at when the caller sets no limit: a budget that grows with the
/// square of the distance, one that grows with the region, and one for the whole grid; the
/// smallest of the three counts.
pub open spec fn default_visit_limit(grid_area: int, distance: int, region_tiles: Option<int>) -> int {
    let reach = if distance + 8 <= usize::MAX { distance + 8 } else { usize::MAX as int };
    let by_distance = max_count(sat_product(sat_product(reach, reach), 128), 10_000);
    let tiles = match region_tiles {
        Some(n) => n,
        None => grid_area,
    };
    let by_region = max_count(sat_product(tiles, 256), 10_000);
    let by_grid = max_count(sat_product(grid_area, 10), 100_000);
    min_count(min_count(by_distance, by_region), by_grid)
}

/// The region size as a mathematical value.
pub open spec fn tiles_int(region_tiles: Option<usize>) -> Option<int> {
    match region_tiles {
        Some(n) => Some(n as int),
        None => None,
    }
}

/// How many wires a search looks at when the caller sets no limit.
pub fn default_visit_limit_for_search(
    grid_area: usize,
    min_manhattan: usize,
    region_tiles: Option<usize>,
) -> (r: usize)
    ensures
        r == default_visit_limit(grid_area as int, min_manhattan as int, tiles_int(region_tiles)),
{
    let reach: usize = min_manhattan.saturating_add(8);
    let d: usize = sat_mul(sat_mul(reach, reach), 128);
    let by_distance: usize = if d < 10_000 { 10_000 } else { d };
    let tiles: usize = match region_tiles {
        Some(n) => n,
        None => grid_area,
    };
    let t: usize = sat_mul(tiles, 256);
    let by_region: usize = if t < 10_000 { 10_000 } else { t };
    let g: usize = sat_mul(grid_area, 10);
    let by_grid: usize = if g < 100_000 { 100_000 } else { g };
    let smaller: usize = if by_distance <= by_region { by_distance } else { by_region };
    if smaller <= by_grid {
        smaller
    } else {
        by_grid
    }
}

/// A longer way never gets a smaller default limit.
pub proof fn default_limit_grows_with_distance(
    grid_area: int,
    near: int,
    far: int,
    region_tiles: Option<int>,
)
    requires
        0 <= near <= far,
    ensures
        default_visit_limit(grid_area, near, region_tiles) <= default_visit_limit(
            grid_area,
            far,
            region_tiles,
        ),
{
    let a = if near + 8 <= usize::MAX { near + 8 } else { usize::MAX as int };
    let b = if far + 8 <= usize::MAX { far + 8 } else { usize::MAX as int };
    assert(a * a <= b * b) by (nonlinear_arith)
        requires
            0 <= a <= b,
    ;
}

/// A smaller region never gets a larger default limit.
pub proof fn default_limit_shrinks_with_region(grid_area: int, distance: int, small: int, large: int)
    requires
        0 <= small <= large,
    ensures
        default_visit_limit(grid_area, distance, Some(small)) <= default_visit_limit(
            grid_area,
            distance,
            Some(large),
        ),
{
}

/// The tile lies in one of the rectangles; without rectangles every tile counts.
pub open spec fn in_boxes(chip: ChipDb, boxes: Seq<BoundingBox>, tile: int) -> bool {
    boxes.len() == 0 || exists|i: int|
        0 <= i < boxes.len() && (#[trigger] boxes[i]).has(chip.x_of(tile), chip.y_of(tile))
}

/// The rectangle lies in the grid.
pub open spec fn in_grid(chip: ChipDb, bb: BoundingBox) -> bool {
    0 <= bb.x0 && bb.x1 < chip.width && 0 <= bb.y0 && bb.y1 < chip.height
}

/// A search can use the rectangles: a single one can be measured, several lie in the grid.
pub open spec fn boxes_ok(chip: ChipDb, boxes: Seq<BoundingBox>) -> bool {
    &&& boxes.len() == 1 ==> measurable(boxes[0])
    &&& boxes.len() > 1 ==> forall|i: int| 0 <= i < boxes.len() ==> in_grid(chip, #[trigger] boxes[i])
}

/// The tiles of the grid that lie in one of the rectangles.
pub open spec fn covered(chip: ChipDb, boxes: Seq<BoundingBox>) -> Set<int> {
    Set::new(|t: int| chip.valid_tile(t) && in_boxes(chip, boxes, t))
}

/// The size that a region is given: none without rectangles, the area of a single one, and the
/// number of tiles that several cover together.
pub open spec fn region_size(chip: ChipDb, boxes: Seq<BoundingBox>) -> Option<int> {
    if boxes.len() == 0 {
        None
    } else if boxes.len() == 1 {
        Some(area(boxes[0]))
    } else {
        Some(covered(chip, boxes).len() as int)
    }
}

/// The tiles that a search may enter.
pub enum SearchRegion {
    Unbounded,
    Single(BoundingBox),
    Mask(Vec<u8>),
}

impl SearchRegion {
    /// The region is that of the rectangles.
    pub open spec fn matches_boxes(self, chip: ChipDb, boxes: Seq<BoundingBox>) -> bool {
        match self {
            SearchRegion::Unbounded => boxes.len() == 0,
            SearchRegion::Single(bb) => boxes == seq![bb],
            SearchRegion::Mask(mask) => {
                &&& boxes.len() > 1
                &&& mask@.len() == chip.tiles@.len()
                &&& forall|t: int|
                    0 <= t < mask@.len() ==> ((#[trigger] mask@[t] != 0) <==> in_boxes(chip, boxes, t))
            },
        }
    }

    /// The test as a mathematical value: a mask says no outside its range.
    pub open spec fn has_tile(self, chip: ChipDb, tile: int) -> bool {
        match self {
            SearchRegion::Unbounded => true,
            SearchRegion::Single(bb) => bb.has(chip.x_of(tile), chip.y_of(tile)),
            SearchRegion::Mask(mask) => 0 <= tile < mask@.len() && mask@[tile] != 0,
        }
    }

    /// Whether a tile belongs to the region.
    pub fn contains_tile(&self, chipdb: &ChipDb, tile: i32) -> (r: bool)
        requires
            chipdb.wf(),
            chipdb.valid_tile(tile as int),
        ensures
            r == self.has_tile(*chipdb, tile as int),
    {
        match self {
            SearchRegion::Unbounded => true,
            SearchRegion::Single(bb) => {
                let (x, y) = chipdb.tile_xy(tile);
                bb.contains(x, y)
            },
            SearchRegion::Mask(mask) => (tile as usize) < mask.len() && mask[tile as usize] != 0,
        }
    }

    /// The region of rectangles has the tiles that lie in one of them.
    pub proof fn region_is_the_union_of_its_boxes(self, chip: ChipDb, boxes: Seq<BoundingBox>, tile: int)
        requires
            self.matches_boxes(chip, boxes),
            chip.valid_tile(tile),
        ensures
            self.has_tile(chip, tile) == in_boxes(chip, boxes, tile),
    {
        match self {
            SearchRegion::Single(bb) => {
                assert(boxes[0] == bb);
            },
            _ => {},
        }
    }
}

/// Marks the tiles of one rectangle and counts those that were not marked before.
fn mark_box(
    chipdb: &ChipDb,
    bb: &BoundingBox,
    mask: &mut Vec<u8>,
    count: usize,
    Ghost(marked): Ghost<Set<int>>,
) -> (r: (usize, Ghost<Set<int>>))
    requires
        chipdb.wf(),
        in_grid(*chipdb, *bb),
        old(mask)@.len() == chipdb.tiles@.len(),
        marked.finite(),
        marked.len() == count,
        forall|t: int| #[trigger]
            marked.contains(t) <==> 0 <= t < old(mask)@.len() && old(mask)@[t] != 0,
    ensures
        final(mask)@.len() == chipdb.tiles@.len(),
        r.1@.finite(),
        r.1@.len() == r.0,
        forall|t: int| #[trigger]
            r.1@.contains(t) <==> 0 <= t < final(mask)@.len() && final(mask)@[t] != 0,
        forall|t: int|
            0 <= t < final(mask)@.len() ==> ((#[trigger] final(mask)@[t] != 0) <==> (old(mask)@[t] != 0
                || bb.has(chipdb.x_of(t), chipdb.y_of(t)))),
{
    let ghost mut set = marked;
    let mut total: usize = count;
    let mut y: i32 = bb.y0;
    while y <= bb.y1
        invariant
            chipdb.wf(),
            in_grid(*chipdb, *bb),
            bb.y0 <= y,
            mask@.len() == chipdb.tiles@.len(),
            old(mask)@.len() == mask@.len(),
            set.finite(),
            set.len() == total,
            forall|t: int| #[trigger] set.contains(t) <==> 0 <= t < mask@.len() && mask@[t] != 0,
            forall|t: int|
                0 <= t < mask@.len() ==> ((#[trigger] mask@[t] != 0) <==> (old(mask)@[t] != 0 || (bb.has(
                    chipdb.x_of(t),
                    chipdb.y_of(t),
                ) && chipdb.y_of(t) < y))),
        decreases bb.y1 - y + 1,
    {
        let mut x: i32 = bb.x0;
        while x <= bb.x1
            invariant
                chipdb.wf(),
                in_grid(*chipdb, *bb),
                bb.y0 <= y <= bb.y1,
                bb.x0 <= x,
                mask@.len() == chipdb.tiles@.len(),
                old(mask)@.len() == mask@.len(),
                set.finite(),
                set.len() == total,
                forall|t: int| #[trigger] set.contains(t) <==> 0 <= t < mask@.len() && mask@[t] != 0,
                forall|t: int|
                    0 <= t < mask@.len() ==> ((#[trigger] mask@[t] != 0) <==> (old(mask)@[t] != 0 || (
                    bb.has(chipdb.x_of(t), chipdb.y_of(t)) && (chipdb.y_of(t) < y || (chipdb.y_of(t) == y
                        && chipdb.x_of(t) < x))))),
            decreases bb.x1 - x + 1,
        {
            let tile: i32 = chipdb.tile_by_xy(x, y);
            let idx: usize = tile as usize;
            proof {
                assert forall|t: int| 0 <= t < mask@.len() && chipdb.x_of(t) == x && chipdb.y_of(t)
                    == y implies t == tile by {
                    chipdb.lemma_tile_in_grid(t);
                }
            }
            if mask[idx] == 0 {
                proof {
                    assert(!set.contains(tile as int));
                    vstd::set_lib::lemma_int_range(0, mask@.len() as int);
                    vstd::set_lib::lemma_len_subset(set, vstd::set_lib::set_int_range(0, mask@.len() as int));
                    if set.len() == mask@.len() {
                        vstd::set_lib::lemma_subset_equality(
                            set,
                            vstd::set_lib::set_int_range(0, mask@.len() as int),
                        );
                        assert(set.contains(tile as int));
                    }
                    set = set.insert(tile as int);
                }
                mask.set(idx, 1);
                total = total + 1;
            }
            x = x + 1;
        }
        y = y + 1;
    }
    (total, Ghost(set))
}

/// Builds the region of a list of rectangles and says how large it is.
pub fn build_search_region(chipdb: &ChipDb, bboxes: &Vec<BoundingBox>) -> (r: (
    SearchRegion,
    Option<usize>,
))
    requires
        chipdb.wf(),
        boxes_ok(*chipdb, bboxes@),
    ensures
        r.0.matches_boxes(*chipdb, bboxes@),
        tiles_int(r.1) == region_size(*chipdb, bboxes@),
{
    if bboxes.len() == 0 {
        return (SearchRegion::Unbounded, None);
    }
    if bboxes.len() == 1 {
        let bb: BoundingBox = bboxes[0];
        assert(bboxes@ =~= seq![bb]);
        return (SearchRegion::Single(bb), Some(bbox_area(&bb)));
    }
    let num_tiles: usize = chipdb.tiles.len();
    let mut mask: Vec<u8> = vec![0u8; num_tiles];
    let mut count: usize = 0;
    let mut marked: Ghost<Set<int>> = Ghost(Set::empty());
    for i in 0..bboxes.len()
        invariant
            chipdb.wf(),
            bboxes@.len() > 1,
            boxes_ok(*chipdb, bboxes@),
            mask@.len() == chipdb.tiles@.len(),
            marked@.finite(),
            marked@.len() == count,
            forall|t: int| #[trigger] marked@.contains(t) <==> 0 <= t < mask@.len() && mask@[t] != 0,
            forall|t: int|
                0 <= t < mask@.len() ==> ((#[trigger] mask@[t] != 0) <==> exists|k: int|
                    0 <= k < i && (#[trigger] bboxes@[k]).has(chipdb.x_of(t), chipdb.y_of(t))),
    {
        let bb: BoundingBox = bboxes[i];
        assert(in_grid(*chipdb, bboxes@[i as int]));
        let ghost before = mask@;
        let (c, m) = mark_box(chipdb, &bb, &mut mask, count, marked);
        count = c;
        marked = m;
        assert forall|t: int| 0 <= t < mask@.len() implies ((#[trigger] mask@[t] != 0) <==> exists|k: int|
            0 <= k < i + 1 && (#[trigger] bboxes@[k]).has(chipdb.x_of(t), chipdb.y_of(t))) by {
            if before[t] != 0 {
                let k = choose|k: int|
                    0 <= k < i && (#[trigger] bboxes@[k]).has(chipdb.x_of(t), chipdb.y_of(t));
                assert(bboxes@[k].has(chipdb.x_of(t), chipdb.y_of(t)));
            }
            if bboxes@[i as int].has(chipdb.x_of(t), chipdb.y_of(t)) {
                assert(0 <= i < i + 1);
            }
        }
    }
    assert(marked@ =~= covered(*chipdb, bboxes@));
    (SearchRegion::Mask(mask), Some(count))
}

} // verus!
