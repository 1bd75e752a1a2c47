//! A line of tiles between two tiles, walked step by step, and what is made of it: runs in one
//! direction, and rectangles around its tiles.
//!
//! At each step the line may go on as it is or shift to either side; how good each of the three
//! tiles is, the caller weighs.

use crate::ids::{at_offset, offset_of, pack, pack_halves, unpack_halves, IdMap, MapKey, ListedKey};
use vstd::prelude::*;

verus! {

/// A tile by column and row.
#[derive(Clone, Copy, PartialEq, Eq, Hash, Debug, Structural)]
pub struct TileXy {
    pub x: i32,
    pub y: i32,
}

impl MapKey for TileXy {
    open spec fn key_of(self) -> u64 {
        pack(self.x + 0x8000_0000, self.y + 0x8000_0000) as u64
    }

    proof fn key_injective(a: Self, b: Self) {
    }

    fn to_key(self) -> (k: u64) {
        pack_halves(offset_of(self.x), offset_of(self.y))
    }
}

impl ListedKey for TileXy {
    fn from_key(k: u64) -> (r: Self) {
        let (hi, lo) = unpack_halves(k);
        let r = TileXy { x: at_offset(hi), y: at_offset(lo) };
        proof {
            assert forall|a: Self| #[trigger] a.key_of() == k implies a == r by {
                Self::key_injective(a, r);
            }
        }
        r
    }
}

/// Which of the three tiles of a step is taken.
#[derive(Clone, Copy, PartialEq, Eq, Hash, Debug, Structural)]
pub enum Shift {
    /// The tile of the line.
    Main,
    /// The tile beside it, away from the start.
    Plus,
    /// The tile beside it, towards the start.
    Minus,
}

/// The three tiles of a step, where they lie in the grid, and how far the line passes from the middle
/// of the first: `offset` over twice the length of the line.
#[derive(Clone, Copy, PartialEq, Eq, Debug, Structural)]
pub struct CorridorStep {
    pub main: Option<TileXy>,
    pub plus: Option<TileXy>,
    pub minus: Option<TileXy>,
    pub offset: i64,
}

/// A line of tiles that is being walked. The longer direction is called major, the other minor.
pub struct CorridorWalk {
    pub width: i32,
    pub height: i32,
    pub steep: bool,
    pub major: i32,
    pub minor: i32,
    pub start: TileXy,
    pub end: TileXy,
    pub step_major: i32,
    pub step_minor: i32,
    pub run: i32,
    pub rise: i32,
    pub d: i64,
    pub left: i32,
    pub path: Vec<TileXy>,
    pub corridor: IdMap<TileXy, ()>,
}

/// The tile lies in the grid.
pub open spec fn on_grid(width: i32, height: i32, t: TileXy) -> bool {
    0 <= t.x < width && 0 <= t.y < height
}

/// The tile at a place along and beside the line.
pub open spec fn tile_at(steep: bool, major: int, minor: int) -> TileXy {
    if steep {
        TileXy { x: minor as i32, y: major as i32 }
    } else {
        TileXy { x: major as i32, y: minor as i32 }
    }
}

pub open spec fn distance_of(a: i32, b: i32) -> int {
    if a > b {
        a - b
    } else {
        b - a
    }
}

/// The tiles of a set with one more, if there is one.
pub open spec fn with_tile(tiles: Set<TileXy>, t: Option<TileXy>) -> Set<TileXy> {
    match t {
        Some(x) => tiles.insert(x),
        None => tiles,
    }
}

/// The path with one more tile, unless it is there already.
pub open spec fn path_to(path: Seq<TileXy>, t: TileXy) -> Seq<TileXy> {
    if path.len() > 0 && path.last() == t {
        path
    } else {
        path.push(t)
    }
}

/// The distance of two tiles in the direction in which they lie farther apart.
pub open spec fn longer_distance(a: TileXy, b: TileXy) -> int {
    let dx = distance_of(b.x, a.x);
    let dy = distance_of(b.y, a.y);
    if dy > dx {
        dy
    } else {
        dx
    }
}

/// No tile of the path is the same as the one before it.
pub open spec fn moves_on(path: Seq<TileXy>) -> bool {
    forall|i: int| 0 < i < path.len() ==> path[i - 1] != #[trigger] path[i]
}

/// The corridor has tiles of the grid alone.
pub open spec fn all_on_grid(width: i32, height: i32, tiles: Set<TileXy>) -> bool {
    forall|t: TileXy| #[trigger] tiles.contains(t) ==> on_grid(width, height, t)
}

/// What a whole walk gives: a path from one tile to the other that moves on with every tile and has one
/// or two tiles more than the longer distance, and a corridor of tiles of the grid that has all tiles of
/// the path. From a tile to itself there is that tile alone.
pub open spec fn leads(
    width: i32,
    height: i32,
    from: TileXy,
    to: TileXy,
    path: Seq<TileXy>,
    corridor: Set<TileXy>,
) -> bool {
    let long = longer_distance(from, to);
    &&& path.len() > 0
    &&& path[0] == from
    &&& path.last() == to
    &&& moves_on(path)
    &&& if from == to {
        path == seq![from] && corridor == Set::<TileXy>::empty().insert(from)
    } else {
        path.len() == long + 1 || path.len() == long + 2
    }
    &&& all_on_grid(width, height, corridor)
    &&& forall|i: int| 0 <= i < path.len() ==> corridor.contains(#[trigger] path[i])
}

impl CorridorWalk {
    /// The grid can be numbered.
    pub open spec fn grid(self) -> bool {
        self.width > 0 && self.height > 0 && self.width * self.height <= i32::MAX
    }

    /// The tile at a place along and beside the line, if it lies in the grid.
    pub open spec fn tile_of(self, major: int, minor: int) -> Option<TileXy> {
        if self.steep && 0 <= minor < self.width && 0 <= major < self.height || !self.steep && 0 <= major
            < self.width && 0 <= minor < self.height {
            Some(tile_at(self.steep, major, minor))
        } else {
            None
        }
    }

    /// Where the next step would lead without a shift.
    pub open spec fn ahead_minor(self) -> int {
        if self.d >= 0 {
            self.minor + self.step_minor
        } else {
            self.minor as int
        }
    }

    /// What is left over of the rise after the next step, before the rise is added.
    pub open spec fn ahead_d(self) -> int {
        if self.d >= 0 {
            self.d - 2 * self.run
        } else {
            self.d as int
        }
    }

    /// Where a step with a shift leads, beside the line.
    pub open spec fn shifted(self, shift: Shift) -> int {
        match shift {
            Shift::Main => self.ahead_minor(),
            Shift::Plus => self.ahead_minor() + self.step_minor,
            Shift::Minus => self.ahead_minor() - self.step_minor,
        }
    }

    /// The tile that a step with a shift leads to, if it lies in the grid.
    pub open spec fn target(self, shift: Shift) -> Option<TileXy> {
        self.tile_of(self.major + self.step_major, self.shifted(shift))
    }

    /// The walk is at a tile of the grid, which the path ends with; the path has one tile for each step
    /// made, and the corridor has all tiles of the path.
    pub open spec fn wf(self) -> bool {
        &&& self.grid()
        &&& self.step_major == 1 || self.step_major == -1
        &&& self.step_minor == 1 || self.step_minor == -1
        &&& 0 <= self.rise <= self.run
        &&& self.run <= i32::MAX
        &&& -2 * self.run <= self.d <= 2 * self.run
        &&& 0 <= self.left <= self.run
        &&& on_grid(self.width, self.height, self.end)
        &&& self.tile_of(self.major as int, self.minor as int) is Some
        &&& (if self.steep {
            self.end.y
        } else {
            self.end.x
        }) == self.major + self.left * self.step_major
        &&& self.run == longer_distance(self.start, self.end)
        &&& self.path@.len() == self.run - self.left + 1
        &&& self.path@[0] == self.start
        &&& moves_on(self.path@)
        &&& all_on_grid(self.width, self.height, self.corridor@.dom())
        &&& self.run == 0 ==> self.corridor@.dom() == Set::<TileXy>::empty().insert(self.start)
        &&& self.path@.last() == tile_at(self.steep, self.major as int, self.minor as int)
        &&& forall|i: int|
            0 <= i < self.path@.len() ==> on_grid(self.width, self.height, #[trigger] self.path@[i])
                && self.corridor@.contains_key(self.path@[i])
    }

    /// The first tile and those beside it are in the corridor.
    pub open spec fn starts(self, from: TileXy, to: TileXy) -> bool {
        let dx = distance_of(to.x, from.x);
        let dy = distance_of(to.y, from.y);
        &&& self.steep == (dy > dx)
        &&& self.start == from
        &&& self.end == to
        &&& self.path@ == seq![from]
        &&& self.left == self.run
        &&& self.run == (if dy > dx {
            dy
        } else {
            dx
        })
        &&& self.rise == (if dy > dx {
            dx
        } else {
            dy
        })
        &&& self.d == 2 * self.rise - self.run
        &&& self.corridor@.dom() == (if dx == 0 && dy == 0 {
            Set::<TileXy>::empty().insert(from)
        } else {
            with_tile(
                with_tile(
                    Set::empty().insert(from),
                    self.tile_of(self.major as int, self.minor + 1),
                ),
                self.tile_of(self.major as int, self.minor - 1),
            )
        })
    }

    fn tile(&self, major: i64, minor: i64) -> (r: Option<TileXy>)
        ensures
            r == self.tile_of(major as int, minor as int),
            r is Some ==> on_grid(self.width, self.height, r->0),
    {
        let (x, y) = if self.steep {
            (minor, major)
        } else {
            (major, minor)
        };
        if 0 <= x && x < self.width as i64 && 0 <= y && y < self.height as i64 {
            Some(TileXy { x: x as i32, y: y as i32 })
        } else {
            None
        }
    }

    /// Adds a tile to the corridor, if there is one.
    fn add_tile(&mut self, t: Option<TileXy>)
        ensures
            final(self).corridor@.dom() == with_tile(old(self).corridor@.dom(), t),
            final(self).same_line(*old(self)),
            final(self).major == old(self).major,
            final(self).minor == old(self).minor,
            final(self).d == old(self).d,
            final(self).left == old(self).left,
            final(self).path == old(self).path,
    {
        if let Some(x) = t {
            let _ = self.corridor.insert(x, ());
            assert(self.corridor@.dom() =~= old(self).corridor@.dom().insert(x));
        }
    }

    /// What does not change along the line.
    pub open spec fn same_line(self, other: CorridorWalk) -> bool {
        &&& self.width == other.width
        &&& self.height == other.height
        &&& self.steep == other.steep
        &&& self.start == other.start
        &&& self.end == other.end
        &&& self.step_major == other.step_major
        &&& self.step_minor == other.step_minor
        &&& self.run == other.run
        &&& self.rise == other.rise
    }

    /// Starts a line between two tiles of a grid.
    pub fn new(width: i32, height: i32, from: TileXy, to: TileXy) -> (r: Self)
        requires
            width > 0,
            height > 0,
            width * height <= i32::MAX,
            on_grid(width, height, from),
            on_grid(width, height, to),
        ensures
            r.wf(),
            r.width == width,
            r.height == height,
            r.starts(from, to),
            tile_at(r.steep, r.major as int, r.minor as int) == from,
    {
        let dx: i32 = if to.x > from.x {
            to.x - from.x
        } else {
            from.x - to.x
        };
        let dy: i32 = if to.y > from.y {
            to.y - from.y
        } else {
            from.y - to.y
        };
        let steep: bool = dy > dx;
        let (major, minor, end_major, end_minor, run, rise) = if steep {
            (from.y, from.x, to.y, to.x, dy, dx)
        } else {
            (from.x, from.y, to.x, to.y, dx, dy)
        };
        let mut path: Vec<TileXy> = Vec::new();
        path.push(from);
        let mut r = CorridorWalk {
            width,
            height,
            steep,
            major,
            minor,
            start: from,
            end: to,
            step_major: if end_major > major {
                1
            } else {
                -1
            },
            step_minor: if end_minor > minor {
                1
            } else {
                -1
            },
            run,
            rise,
            d: 2 * (rise as i64) - run as i64,
            left: run,
            path,
            corridor: IdMap::new(),
        };
        assert(r.path@ =~= seq![from]);
        assert(r.corridor@.dom() =~= Set::<TileXy>::empty());
        r.add_tile(Some(from));
        if dx != 0 || dy != 0 {
            let up = r.tile(major as i64, minor as i64 + 1);
            r.add_tile(up);
            let down = r.tile(major as i64, minor as i64 - 1);
            r.add_tile(down);
        }
        proof {
            assert(r.step_major == 1 ==> r.left * r.step_major == r.left) by (nonlinear_arith);
            assert(r.step_major == -1 ==> r.left * r.step_major == -r.left) by (nonlinear_arith);
            assert(r.corridor@.dom().contains(from));
        }
        r
    }

    /// The three tiles that the next step could lead to; none at the end of the line.
    pub fn pending(&self) -> (r: Option<CorridorStep>)
        requires
            self.wf(),
        ensures
            r is Some <==> self.left > 0,
            r is Some ==> {
                let s = r->0;
                &&& s.main == self.target(Shift::Main)
                &&& s.plus == self.target(Shift::Plus)
                &&& s.minus == self.target(Shift::Minus)
                &&& s.offset == self.ahead_d() + self.run
                &&& s.main is Some || s.minus is Some
            },
    {
        if self.left == 0 {
            return None;
        }
        let major: i64 = self.major as i64 + self.step_major as i64;
        let mut minor: i64 = self.minor as i64;
        let mut d: i64 = self.d;
        if d >= 0 {
            minor = minor + self.step_minor as i64;
            d = d - 2 * (self.run as i64);
        }
        let step: i64 = self.step_minor as i64;
        proof {
            self.lemma_in_range();
        }
        Some(
            CorridorStep {
                main: self.tile(major, minor),
                plus: self.tile(major, minor + step),
                minus: self.tile(major, minor - step),
                offset: d + self.run as i64,
            },
        )
    }

    /// The next step stays in the grid along the line, and one of its tiles lies in the grid.
    proof fn lemma_in_range(self)
        requires
            self.wf(),
            self.left > 0,
        ensures
            ({
                let m = self.major + self.step_major;
                if self.steep {
                    0 <= m < self.height
                } else {
                    0 <= m < self.width
                }
            }),
            self.target(Shift::Main) is Some || self.target(Shift::Minus) is Some,
    {
        assert(self.step_major == 1 ==> self.left * self.step_major == self.left) by (nonlinear_arith);
        assert(self.step_major == -1 ==> self.left * self.step_major == -self.left) by (nonlinear_arith);
    }

    /// Makes the next step with a shift that leads to a tile of the grid.
    pub fn advance(&mut self, shift: Shift)
        requires
            old(self).wf(),
            old(self).left > 0,
            old(self).target(shift) is Some,
        ensures
            final(self).wf(),
            final(self).same_line(*old(self)),
            final(self).left == old(self).left - 1,
            final(self).major == old(self).major + old(self).step_major,
            final(self).minor == old(self).shifted(shift),
            final(self).d == old(self).ahead_d() + 2 * old(self).rise,
            final(self).path@ == old(self).path@.push(old(self).target(shift)->0),
            final(self).corridor@.dom() == with_tile(
                with_tile(
                    with_tile(old(self).corridor@.dom(), old(self).target(Shift::Main)),
                    old(self).target(Shift::Plus),
                ),
                old(self).target(Shift::Minus),
            ),
    {
        proof {
            self.lemma_in_range();
            assert(self.step_major == 1 ==> self.left * self.step_major == self.left && (self.left - 1)
                * self.step_major == self.left - 1) by (nonlinear_arith);
            assert(self.step_major == -1 ==> self.left * self.step_major == -self.left && (self.left - 1)
                * self.step_major == 1 - self.left) by (nonlinear_arith);
        }
        let major: i64 = self.major as i64 + self.step_major as i64;
        let step: i64 = self.step_minor as i64;
        let mut minor: i64 = self.minor as i64;
        let mut d: i64 = self.d;
        if d >= 0 {
            minor = minor + step;
            d = d - 2 * (self.run as i64);
        }
        let chosen: i64 = match shift {
            Shift::Main => minor,
            Shift::Plus => minor + step,
            Shift::Minus => minor - step,
        };
        let main = self.tile(major, minor);
        let plus = self.tile(major, minor + step);
        let minus = self.tile(major, minor - step);
        let tile: TileXy = if self.steep {
            TileXy { x: chosen as i32, y: major as i32 }
        } else {
            TileXy { x: major as i32, y: chosen as i32 }
        };
        self.path.push(tile);
        self.add_tile(main);
        self.add_tile(plus);
        self.add_tile(minus);
        self.major = major as i32;
        self.minor = chosen as i32;
        self.d = d + 2 * (self.rise as i64);
        self.left = self.left - 1;
        proof {
            assert forall|i: int| 0 <= i < self.path@.len() implies on_grid(
                self.width,
                self.height,
                #[trigger] self.path@[i],
            ) && self.corridor@.contains_key(self.path@[i]) by {
                if i < old(self).path@.len() {
                    assert(self.path@[i] == old(self).path@[i]);
                    assert(old(self).corridor@.dom().contains(old(self).path@[i]));
                    assert(self.corridor@.dom().contains(self.path@[i]));
                } else {
                    assert(self.path@[i] == tile);
                    assert(self.corridor@.dom().contains(tile));
                }
            }
        }
    }

    /// The tiles of the line, which ends where it should, and the tiles around it.
    pub fn finish(self) -> (r: (Vec<TileXy>, IdMap<TileXy, ()>))
        requires
            self.wf(),
            self.left == 0,
        ensures
            r.0@ == path_to(self.path@, self.end),
            r.1@.dom() == self.corridor@.dom().insert(self.end),
            leads(self.width, self.height, self.start, self.end, r.0@, r.1@.dom()),
            forall|i: int|
                0 <= i < r.0@.len() ==> on_grid(self.width, self.height, #[trigger] r.0@[i])
                    && r.1@.contains_key(r.0@[i]),
    {
        let CorridorWalk { width, height, end, path, corridor, .. } = self;
        let mut path = path;
        let mut corridor = corridor;
        let last: TileXy = path[path.len() - 1];
        if last != end {
            path.push(end);
        }
        let _ = corridor.insert(end, ());
        assert(corridor@.dom() =~= self.corridor@.dom().insert(self.end));
        assert forall|i: int| 0 <= i < path@.len() implies on_grid(width, height, #[trigger] path@[i])
            && corridor@.contains_key(path@[i]) by {
            if i < self.path@.len() {
                assert(path@[i] == self.path@[i]);
                assert(self.corridor@.contains_key(self.path@[i]));
            }
        }
        proof {
            if self.start == self.end {
                assert(self.path@ =~= seq![self.start]);
                assert(path@ =~= seq![self.start]);
                assert(corridor@.dom() =~= Set::<TileXy>::empty().insert(self.start));
            }
            assert forall|t: TileXy| #[trigger] corridor@.dom().contains(t) implies on_grid(width, height, t) by {
                if t != end {
                    assert(self.corridor@.dom().contains(t));
                }
            }
            assert(moves_on(path@)) by {
                assert forall|i: int| 0 < i < path@.len() implies path@[i - 1] != #[trigger] path@[i] by {
                    if i < self.path@.len() {
                        assert(self.path@[i - 1] != self.path@[i]);
                    }
                }
            }
            assert forall|i: int| 0 <= i < path@.len() implies corridor@.dom().contains(#[trigger] path@[i]) by {
                assert(corridor@.contains_key(path@[i]));
            }
        }
        (path, corridor)
    }
}

} // verus!
