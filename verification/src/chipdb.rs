//! The device: a grid of tiles with wires, pips between the wires of a tile, and nodes that join
//! wires of several tiles into one conductor.

use crate::ids::{at_offset, offset_of, pack, pack_halves, unpack_halves, IdMap, MapKey, ListedKey};
use crate::timing::delay::{DelayQuad, DelayT};
use vstd::prelude::*;

verus! {

/// A wire of a tile.
#[derive(Clone, Copy, PartialEq, Eq, Hash, Debug, Structural)]
pub struct WireId {
    pub tile: i32,
    pub index: i32,
}

/// A pip (a programmable connection) of a tile.
#[derive(Clone, Copy, PartialEq, Eq, Hash, Debug, Structural)]
pub struct PipId {
    pub tile: i32,
    pub index: i32,
}

impl WireId {
    /// The wire that stands for none.
    pub open spec fn nowhere() -> WireId {
        WireId { tile: -1i32 as i32, index: -1i32 as i32 }
    }

    /// The wire that stands for none.
    pub fn invalid() -> (r: Self)
        ensures
            r == WireId::nowhere(),
    {
        WireId { tile: -1, index: -1 }
    }

    /// Whether this is not the wire that stands for none.
    pub fn is_valid(self) -> (r: bool)
        ensures
            r == (self != WireId::nowhere()),
    {
        !(self.tile == -1 && self.index == -1)
    }

    pub fn new(tile: i32, index: i32) -> (r: Self)
        ensures
            r == (WireId { tile, index }),
    {
        WireId { tile, index }
    }

    pub fn tile(self) -> (r: i32)
        ensures
            r == self.tile,
    {
        self.tile
    }

    pub fn index(self) -> (r: i32)
        ensures
            r == self.index,
    {
        self.index
    }
}

impl PipId {
    pub fn new(tile: i32, index: i32) -> (r: Self)
        ensures
            r == (PipId { tile, index }),
    {
        PipId { tile, index }
    }

    pub fn tile(self) -> (r: i32)
        ensures
            r == self.tile,
    {
        self.tile
    }

    pub fn index(self) -> (r: i32)
        ensures
            r == self.index,
    {
        self.index
    }
}

impl MapKey for WireId {
    open spec fn key_of(self) -> u64 {
        pack(self.tile + 0x8000_0000, self.index + 0x8000_0000) as u64
    }

    proof fn key_injective(a: Self, b: Self) {
    }

    fn to_key(self) -> (k: u64) {
        pack_halves(offset_of(self.tile), offset_of(self.index))
    }
}

impl ListedKey for WireId {
    fn from_key(k: u64) -> (r: Self) {
        let (hi, lo) = unpack_halves(k);
        let r = WireId { tile: at_offset(hi), index: at_offset(lo) };
        proof {
            assert forall|a: Self| #[trigger] a.key_of() == k implies a == r by {
                Self::key_injective(a, r);
            }
        }
        r
    }
}

impl MapKey for PipId {
    open spec fn key_of(self) -> u64 {
        pack(self.tile + 0x8000_0000, self.index + 0x8000_0000) as u64
    }

    proof fn key_injective(a: Self, b: Self) {
    }

    fn to_key(self) -> (k: u64) {
        pack_halves(offset_of(self.tile), offset_of(self.index))
    }
}

impl ListedKey for PipId {
    fn from_key(k: u64) -> (r: Self) {
        let (hi, lo) = unpack_halves(k);
        let r = PipId { tile: at_offset(hi), index: at_offset(lo) };
        proof {
            assert forall|a: Self| #[trigger] a.key_of() == k implies a == r by {
                Self::key_injective(a, r);
            }
        }
        r
    }
}

/// A wire of a tile type.
pub struct WireInfo {
    pub name: String,
    pub wire_type: String,
    /// The constant that the wire carries; zero for none.
    pub const_value: i32,
    /// The pips that drive the wire.
    pub pips_uphill: Vec<i32>,
    /// The pips that the wire drives.
    pub pips_downhill: Vec<i32>,
}

/// A pip of a tile type: it connects two wires of its tile.
pub struct PipInfo {
    pub src_wire: i32,
    pub dst_wire: i32,
    pub delay: DelayQuad,
}

/// A pin of a site of a tile type.
#[derive(Clone, Copy, PartialEq, Eq, Hash, Debug, Structural)]
pub struct SitePin {
    pub is_output: bool,
    pub wire: i32,
}

/// A site of a tile type.
pub struct SiteInfo {
    pub bel_type: i32,
    pub pins: Vec<SitePin>,
}

/// The wires, pips and sites that all tiles of one type have.
pub struct TileType {
    pub wires: Vec<WireInfo>,
    pub pips: Vec<PipInfo>,
    pub sites: Vec<SiteInfo>,
}

impl TileType {
    /// A pip index of a list names a pip of the type with the given end at wire `w`.
    pub open spec fn lists_pip(self, p: i32, w: int, downhill: bool) -> bool {
        &&& 0 <= p < self.pips@.len()
        &&& downhill ==> self.pips@[p as int].src_wire == w
        &&& !downhill ==> self.pips@[p as int].dst_wire == w
    }

    /// Pips end at wires of the type and have delays that are not negative, and each wire lists pips
    /// that end at it.
    pub open spec fn wf(self) -> bool {
        &&& self.wires@.len() <= i32::MAX
        &&& self.pips@.len() <= i32::MAX
        &&& forall|p: int|
            0 <= p < self.pips@.len() ==> 0 <= (#[trigger] self.pips@[p]).src_wire < self.wires@.len()
                && 0 <= self.pips@[p].dst_wire < self.wires@.len() && 0
                <= self.pips@[p].delay.greatest() < i32::MAX
        &&& forall|w: int, j: int|
            0 <= w < self.wires@.len() && 0 <= j < self.wires@[w].pips_downhill@.len()
                ==> self.lists_pip(#[trigger] self.wires@[w].pips_downhill@[j], w, true)
        &&& forall|w: int, j: int|
            0 <= w < self.wires@.len() && 0 <= j < self.wires@[w].pips_uphill@.len()
                ==> self.lists_pip(#[trigger] self.wires@[w].pips_uphill@[j], w, false)
    }

    fn list_ok(&self, list: &Vec<i32>, w: usize, downhill: bool) -> (r: bool)
        requires
            self.wires@.len() <= i32::MAX,
            self.pips@.len() <= i32::MAX,
            w < self.wires@.len(),
        ensures
            r == (forall|j: int|
                0 <= j < list@.len() ==> self.lists_pip(#[trigger] list@[j], w as int, downhill)),
    {
        for j in 0..list.len()
            invariant
                w < self.wires@.len(),
                self.wires@.len() <= i32::MAX,
                forall|i: int| 0 <= i < j ==> self.lists_pip(#[trigger] list@[i], w as int, downhill),
        {
            let p: i32 = list[j];
            let good: bool = if p < 0 || p as usize >= self.pips.len() {
                false
            } else if downhill {
                self.pips[p as usize].src_wire == w as i32
            } else {
                self.pips[p as usize].dst_wire == w as i32
            };
            if !good {
                assert(!self.lists_pip(list@[j as int], w as int, downhill));
                return false;
            }
        }
        true
    }

    /// Tests the invariant.
    pub fn check(&self) -> (r: bool)
        ensures
            r == self.wf(),
    {
        if self.wires.len() > i32::MAX as usize || self.pips.len() > i32::MAX as usize {
            return false;
        }
        for p in 0..self.pips.len()
            invariant
                self.wires@.len() <= i32::MAX,
                forall|q: int|
                    0 <= q < p ==> 0 <= (#[trigger] self.pips@[q]).src_wire < self.wires@.len()
                        && 0 <= self.pips@[q].dst_wire < self.wires@.len() && 0
                        <= self.pips@[q].delay.greatest() < i32::MAX,
        {
            let pip = &self.pips[p];
            if pip.src_wire < 0 || pip.src_wire as usize >= self.wires.len() || pip.dst_wire < 0
                || pip.dst_wire as usize >= self.wires.len() {
                return false;
            }
            let delay: DelayT = pip.delay.max_delay();
            if delay < 0 || delay == i32::MAX {
                return false;
            }
        }
        for w in 0..self.wires.len()
            invariant
                self.wires@.len() <= i32::MAX,
                self.pips@.len() <= i32::MAX,
                forall|v: int, j: int|
                    0 <= v < w && 0 <= j < self.wires@[v].pips_downhill@.len()
                        ==> self.lists_pip(#[trigger] self.wires@[v].pips_downhill@[j], v, true),
                forall|v: int, j: int|
                    0 <= v < w && 0 <= j < self.wires@[v].pips_uphill@.len()
                        ==> self.lists_pip(#[trigger] self.wires@[v].pips_uphill@[j], v, false),
        {
            if !self.list_ok(&self.wires[w].pips_downhill, w, true) {
                return false;
            }
            if !self.list_ok(&self.wires[w].pips_uphill, w, false) {
                return false;
            }
        }
        true
    }
}

/// Holds of every wire but `w`.
pub open spec fn other_than(w: WireId) -> spec_fn(WireId) -> bool {
    |v: WireId| v != w
}

/// The device.
pub struct ChipDb {
    pub width: i32,
    pub height: i32,
    pub tile_types: Vec<TileType>,
    /// The type of each tile, row by row.
    pub tiles: Vec<usize>,
    /// The wires of each node.
    pub nodes: Vec<Vec<WireId>>,
    /// The node of each wire that belongs to one.
    pub node_of: IdMap<WireId, u64>,
}

impl ChipDb {
    pub open spec fn valid_tile(self, tile: int) -> bool {
        0 <= tile < self.tiles@.len()
    }

    /// The type of a tile.
    pub open spec fn type_of(self, tile: int) -> TileType {
        self.tile_types@[self.tiles@[tile] as int]
    }

    pub open spec fn valid_wire(self, w: WireId) -> bool {
        self.valid_tile(w.tile as int) && 0 <= w.index < self.type_of(w.tile as int).wires@.len()
    }

    pub open spec fn valid_pip(self, p: PipId) -> bool {
        self.valid_tile(p.tile as int) && 0 <= p.index < self.type_of(p.tile as int).pips@.len()
    }

    pub open spec fn wire(self, w: WireId) -> WireInfo {
        self.type_of(w.tile as int).wires@[w.index as int]
    }

    pub open spec fn pip(self, p: PipId) -> PipInfo {
        self.type_of(p.tile as int).pips@[p.index as int]
    }

    /// The wire that a pip starts from.
    pub open spec fn src(self, p: PipId) -> WireId {
        WireId { tile: p.tile, index: self.pip(p).src_wire }
    }

    /// The wire that a pip drives.
    pub open spec fn dst(self, p: PipId) -> WireId {
        WireId { tile: p.tile, index: self.pip(p).dst_wire }
    }

    /// The node of a wire.
    pub open spec fn node(self, w: WireId) -> Option<u64> {
        if self.node_of@.contains_key(w) {
            Some(self.node_of@[w])
        } else {
            None
        }
    }

    /// Two wires are parts of one conductor.
    pub open spec fn joined(self, a: WireId, b: WireId) -> bool {
        a == b || (self.node(a) is Some && self.node(a) == self.node(b))
    }

    /// The column of a tile.
    pub open spec fn x_of(self, tile: int) -> int {
        tile % (self.width as int)
    }

    /// The row of a tile.
    pub open spec fn y_of(self, tile: int) -> int {
        tile / (self.width as int)
    }

    /// The distance between two tiles along the grid.
    pub open spec fn distance(self, a: int, b: int) -> int {
        let dx = self.x_of(a) - self.x_of(b);
        let dy = self.y_of(a) - self.y_of(b);
        (if dx < 0 { -dx } else { dx }) + (if dy < 0 { -dy } else { dy })
    }

    /// The tiles fill the grid and have types.
    pub open spec fn grid_ok(self) -> bool {
        &&& self.width > 0
        &&& self.height > 0
        &&& self.tiles@.len() == self.width * self.height
        &&& self.tiles@.len() <= i32::MAX
        &&& forall|t: int| 0 <= t < self.tiles@.len() ==> (#[trigger] self.tiles@[t]) < self.tile_types@.len()
        &&& forall|t: int| 0 <= t < self.tile_types@.len() ==> (#[trigger] self.tile_types@[t]).wf()
    }

    /// A wire stands in the list of its node, and in that list alone, once.
    pub open spec fn nodes_ok(self) -> bool {
        &&& forall|n: int, j: int|
            0 <= n < self.nodes@.len() && 0 <= j < self.nodes@[n]@.len() ==> {
                let w = #[trigger] self.nodes@[n]@[j];
                self.valid_wire(w) && self.node_of@.contains_key(w) && self.node_of@[w] == n
            }
        &&& forall|n: int| 0 <= n < self.nodes@.len() ==> (#[trigger] self.nodes@[n])@.no_duplicates()
        &&& forall|w: WireId| #[trigger]
            self.node_of@.contains_key(w) ==> self.node_of@[w] < self.nodes@.len()
                && self.nodes@[self.node_of@[w] as int]@.contains(w)
    }

    pub open spec fn wf(self) -> bool {
        self.grid_ok() && self.nodes_ok()
    }

    /// Builds a device; `None` if the parts do not fit together.
    pub fn new(
        width: i32,
        height: i32,
        tile_types: Vec<TileType>,
        tiles: Vec<usize>,
        nodes: Vec<Vec<WireId>>,
    ) -> (r: Option<ChipDb>)
        ensures
            match r {
                Some(c) => {
                    &&& c.wf()
                    &&& c.width == width && c.height == height
                    &&& c.tile_types == tile_types && c.tiles == tiles && c.nodes == nodes
                },
                None => forall|c: ChipDb|
                    c.width == width && c.height == height && c.tile_types == tile_types && c.tiles
                        == tiles && c.nodes == nodes ==> !#[trigger] c.wf(),
            },
    {
        let mut chip = ChipDb { width, height, tile_types, tiles, nodes, node_of: IdMap::new() };
        if !chip.check_grid() {
            return None;
        }
        let ghost before = chip;
        let total: usize = chip.nodes.len();
        for n in 0..total
            invariant
                total == chip.nodes@.len(),
                chip.width == width && chip.height == height,
                chip.tile_types == tile_types && chip.tiles == tiles && chip.nodes == nodes,
                chip.grid_ok(),
                forall|m: int, j: int|
                    0 <= m < n && 0 <= j < chip.nodes@[m]@.len() ==> {
                        let w = #[trigger] chip.nodes@[m]@[j];
                        chip.valid_wire(w) && chip.node_of@.contains_key(w) && chip.node_of@[w] == m
                    },
                forall|m: int| 0 <= m < n ==> (#[trigger] chip.nodes@[m])@.no_duplicates(),
                forall|w: WireId| #[trigger]
                    chip.node_of@.contains_key(w) ==> chip.node_of@[w] < n
                        && chip.nodes@[chip.node_of@[w] as int]@.contains(w),
        {
            let count: usize = chip.nodes[n].len();
            for k in 0..count
                invariant
                    total == chip.nodes@.len(),
                    count == chip.nodes@[n as int]@.len(),
                    n < chip.nodes@.len(),
                    chip.width == width && chip.height == height,
                    chip.tile_types == tile_types && chip.tiles == tiles && chip.nodes == nodes,
                    chip.grid_ok(),
                    k <= chip.nodes@[n as int]@.len(),
                    forall|m: int, j: int|
                        0 <= m <= n && 0 <= j < chip.nodes@[m]@.len() && (m < n || j < k) ==> {
                            let w = #[trigger] chip.nodes@[m]@[j];
                            chip.valid_wire(w) && chip.node_of@.contains_key(w) && chip.node_of@[w] == m
                        },
                    forall|m: int| 0 <= m < n ==> (#[trigger] chip.nodes@[m])@.no_duplicates(),
                    forall|i: int, j: int|
                        0 <= i < j < k ==> chip.nodes@[n as int]@[i] != chip.nodes@[n as int]@[j],
                    forall|w: WireId| #[trigger]
                        chip.node_of@.contains_key(w) ==> chip.node_of@[w] <= n
                            && chip.nodes@[chip.node_of@[w] as int]@.contains(w) && (chip.node_of@[w]
                            == n ==> exists|i: int| 0 <= i < k && chip.nodes@[n as int]@[i] == w),
            {
                let w: WireId = chip.nodes[n][k];
                let known: bool = chip.node_of.contains_key(w);
                if known || !chip.is_valid_wire(w) {
                    proof {
                        assert forall|c: ChipDb|
                            c.width == width && c.height == height && c.tile_types == tile_types
                                && c.tiles == tiles && c.nodes == nodes implies !#[trigger] c.wf() by {
                            if c.wf() {
                                assert(c.nodes@[n as int]@[k as int] == w);
                                assert(c.valid_wire(w));
                                assert(chip.valid_wire(w));
                                let m = chip.node_of@[w];
                                assert(chip.nodes@[m as int]@.contains(w));
                                let i = choose|i: int|
                                    0 <= i < chip.nodes@[m as int]@.len() && chip.nodes@[m as int]@[i]
                                        == w;
                                assert(c.nodes@[m as int]@[i] == w);
                                assert(m == n);
                                let i2 = choose|i: int| 0 <= i < k && chip.nodes@[n as int]@[i] == w;
                                assert(c.nodes@[n as int]@.no_duplicates());
                            }
                        }
                    }
                    return None;
                }
                let ghost prev = chip;
                let _ = chip.node_of.insert(w, n as u64);
                assert(chip.nodes@[n as int]@.contains(w));
            }
        }
        Some(chip)
    }

    fn check_grid(&self) -> (r: bool)
        ensures
            r == self.grid_ok(),
    {
        if self.width <= 0 || self.height <= 0 || self.tiles.len() > i32::MAX as usize {
            return false;
        }
        proof {
            vstd::arithmetic::mul::lemma_mul_upper_bound(
                self.width as int,
                i32::MAX as int,
                self.height as int,
                i32::MAX as int,
            );
            vstd::arithmetic::mul::lemma_mul_strictly_positive(self.width as int, self.height as int);
        }
        if (self.width as u64) * (self.height as u64) != self.tiles.len() as u64 {
            return false;
        }
        for t in 0..self.tiles.len()
            invariant
                forall|u: int| 0 <= u < t ==> (#[trigger] self.tiles@[u]) < self.tile_types@.len(),
        {
            if self.tiles[t] >= self.tile_types.len() {
                return false;
            }
        }
        for t in 0..self.tile_types.len()
            invariant
                forall|u: int| 0 <= u < t ==> (#[trigger] self.tile_types@[u]).wf(),
        {
            if !self.tile_types[t].check() {
                return false;
            }
        }
        true
    }

    /// Whether the wire exists.
    pub fn is_valid_wire(&self, w: WireId) -> (r: bool)
        requires
            self.grid_ok(),
        ensures
            r == self.valid_wire(w),
    {
        w.tile >= 0 && (w.tile as usize) < self.tiles.len() && w.index >= 0 && (w.index as usize)
            < self.tile_types[self.tiles[w.tile as usize]].wires.len()
    }

    /// Whether the pip exists.
    pub fn is_valid_pip(&self, p: PipId) -> (r: bool)
        requires
            self.grid_ok(),
        ensures
            r == self.valid_pip(p),
    {
        p.tile >= 0 && (p.tile as usize) < self.tiles.len() && p.index >= 0 && (p.index as usize)
            < self.tile_types[self.tiles[p.tile as usize]].pips.len()
    }

    pub fn width(&self) -> (r: i32)
        ensures
            r == self.width,
    {
        self.width
    }

    pub fn height(&self) -> (r: i32)
        ensures
            r == self.height,
    {
        self.height
    }

    /// The number of tiles.
    pub fn num_tiles(&self) -> (r: i32)
        requires
            self.grid_ok(),
        ensures
            r == self.tiles@.len(),
    {
        self.tiles.len() as i32
    }

    /// The column and the row of a tile.
    pub fn tile_xy(&self, tile: i32) -> (r: (i32, i32))
        requires
            self.grid_ok(),
            self.valid_tile(tile as int),
        ensures
            r.0 == self.x_of(tile as int),
            r.1 == self.y_of(tile as int),
            0 <= r.0 < self.width,
            0 <= r.1 < self.height,
    {
        proof {
            self.lemma_tile_in_grid(tile as int);
        }
        (tile % self.width, tile / self.width)
    }

    /// A tile lies in the grid.
    pub proof fn lemma_tile_in_grid(self, tile: int)
        requires
            self.grid_ok(),
            self.valid_tile(tile),
        ensures
            0 <= self.x_of(tile) < self.width,
            0 <= self.y_of(tile) < self.height,
            self.y_of(tile) * self.width + self.x_of(tile) == tile,
    {
        let w = self.width as int;
        let h = self.height as int;
        vstd::arithmetic::div_mod::lemma_fundamental_div_mod(tile, w);
        vstd::arithmetic::div_mod::lemma_mod_bound(tile, w);
        vstd::arithmetic::div_mod::lemma_div_pos_is_pos(tile, w);
        assert(w * (tile / w) == (tile / w) * w) by (nonlinear_arith);
        assert(tile / w < h) by (nonlinear_arith)
            requires
                tile < w * h,
                w > 0,
                (tile / w) * w + tile % w == tile,
                0 <= tile % w,
        ;
    }

    /// The type of a tile.
    pub fn tile_type(&self, tile: i32) -> (r: &TileType)
        requires
            self.grid_ok(),
            self.valid_tile(tile as int),
        ensures
            *r == self.type_of(tile as int),
            r.wf(),
    {
        assert(self.tile_types@[self.tiles@[tile as int] as int].wf());
        &self.tile_types[self.tiles[tile as usize]]
    }

    /// The tile at a column and a row.
    pub fn tile_by_xy(&self, x: i32, y: i32) -> (r: i32)
        requires
            self.grid_ok(),
            0 <= x < self.width,
            0 <= y < self.height,
        ensures
            r == y * self.width + x,
            self.valid_tile(r as int),
            self.x_of(r as int) == x,
            self.y_of(r as int) == y,
    {
        proof {
            self.lemma_tile_at(x as int, y as int);
            vstd::arithmetic::mul::lemma_mul_nonnegative(y as int, self.width as int);
        }
        y * self.width + x
    }

    /// A point of the grid has a tile, whose column and row it is.
    pub proof fn lemma_tile_at(self, x: int, y: int)
        requires
            self.grid_ok(),
            0 <= x < self.width,
            0 <= y < self.height,
        ensures
            self.valid_tile(y * self.width + x),
            self.x_of(y * self.width + x) == x,
            self.y_of(y * self.width + x) == y,
    {
        let w = self.width as int;
        let h = self.height as int;
        assert(0 <= y * w + x < w * h) by (nonlinear_arith)
            requires
                0 <= x < w,
                0 <= y < h,
        ;
        vstd::arithmetic::div_mod::lemma_fundamental_div_mod_converse(y * w + x, w, y, x);
    }

    /// The distance between two tiles along the grid.
    pub fn manhattan(&self, a: i32, b: i32) -> (r: i32)
        requires
            self.grid_ok(),
            self.valid_tile(a as int),
            self.valid_tile(b as int),
        ensures
            r == self.distance(a as int, b as int),
            r >= 0,
    {
        let (ax, ay) = self.tile_xy(a);
        let (bx, by) = self.tile_xy(b);
        proof {
            let w = self.width as int;
            let h = self.height as int;
            assert(w + h <= w * h + 1) by (nonlinear_arith)
                requires
                    w >= 1,
                    h >= 1,
            ;
        }
        let dx: i32 = if ax < bx { bx - ax } else { ax - bx };
        let dy: i32 = if ay < by { by - ay } else { ay - by };
        dx + dy
    }

    /// The description of a wire.
    pub fn wire_info(&self, w: WireId) -> (r: &WireInfo)
        requires
            self.grid_ok(),
            self.valid_wire(w),
        ensures
            *r == self.wire(w),
    {
        &self.tile_types[self.tiles[w.tile as usize]].wires[w.index as usize]
    }

    /// The delay of a pip.
    pub fn pip_delay(&self, p: PipId) -> (r: DelayQuad)
        requires
            self.grid_ok(),
            self.valid_pip(p),
        ensures
            r == self.pip(p).delay,
            0 <= r.greatest() < i32::MAX,
    {
        self.tile_types[self.tiles[p.tile as usize]].pips[p.index as usize].delay
    }

    /// The wire that a pip starts from.
    pub fn pip_src_wire(&self, p: PipId) -> (r: WireId)
        requires
            self.grid_ok(),
            self.valid_pip(p),
        ensures
            r == self.src(p),
            self.valid_wire(r),
    {
        WireId {
            tile: p.tile,
            index: self.tile_types[self.tiles[p.tile as usize]].pips[p.index as usize].src_wire,
        }
    }

    /// The wire that a pip drives.
    pub fn pip_dst_wire(&self, p: PipId) -> (r: WireId)
        requires
            self.grid_ok(),
            self.valid_pip(p),
        ensures
            r == self.dst(p),
            self.valid_wire(r),
    {
        WireId {
            tile: p.tile,
            index: self.tile_types[self.tiles[p.tile as usize]].pips[p.index as usize].dst_wire,
        }
    }

    /// The node of a wire.
    pub fn node_id(&self, w: WireId) -> (r: Option<u64>)
        ensures
            r == self.node(w),
    {
        match self.node_of.get(w) {
            Some(n) => Some(*n),
            None => None,
        }
    }

    /// The other wires of the node of `w`, in the order of the node; none for a wire without one.
    pub open spec fn peers(self, w: WireId) -> Seq<WireId> {
        match self.node(w) {
            Some(n) => self.nodes@[n as int]@.filter(other_than(w)),
            None => Seq::empty(),
        }
    }

    /// The other wires of the node of `w`.
    pub fn node_wires(&self, w: WireId) -> (r: Vec<WireId>)
        requires
            self.wf(),
        ensures
            r@ == self.peers(w),
    {
        let mut out: Vec<WireId> = Vec::new();
        if let Some(n) = self.node_id(w) {
            assert(self.node_of@.contains_key(w));
            assert(n < self.nodes.len());
            let list = &self.nodes[n as usize];
            assert(list@ == self.nodes@[n as int]@);
            assert(list@.take(0).filter(other_than(w)) =~= Seq::<WireId>::empty()) by {
                reveal(Seq::filter);
            }
            for i in 0..list.len()
                invariant
                    out@ == list@.take(i as int).filter(other_than(w)),
            {
                let v: WireId = list[i];
                proof {
                    assert(list@.take(i + 1).drop_last() =~= list@.take(i as int));
                    reveal(Seq::filter);
                }
                if v != w {
                    out.push(v);
                }
            }
            assert(list@.take(list@.len() as int) =~= list@);
            assert(out@ == self.peers(w));
        }
        out
    }

    /// A wire is a peer of `w` exactly if it is another wire of the same node; peers are wires.
    pub proof fn lemma_peers(self, w: WireId)
        requires
            self.wf(),
        ensures
            forall|v: WireId| #[trigger] self.peers(w).contains(v) <==> v != w && self.joined(w, v),
            forall|i: int| 0 <= i < self.peers(w).len() ==> self.valid_wire(#[trigger] self.peers(w)[i]),
            forall|i: int|
                0 <= i < self.peers(w).len() ==> #[trigger] self.peers(w)[i] != w && self.joined(
                    w,
                    self.peers(w)[i],
                ),
            self.node(w) is Some ==> self.valid_wire(w),
    {
        match self.node(w) {
            Some(n) => {
                let list = self.nodes@[n as int]@;
                let pred = other_than(w);
                broadcast use vstd::seq_lib::group_filter_ensures;
                assert forall|v: WireId| #[trigger] self.peers(w).contains(v) <==> v != w && self.joined(
                    w,
                    v,
                ) by {
                    if self.peers(w).contains(v) {
                        let i = choose|i: int| 0 <= i < self.peers(w).len() && self.peers(w)[i] == v;
                        assert(pred(list.filter(pred)[i]));
                        list.lemma_filter_contains_rev(pred, v);
                        assert(list.contains(v));
                        let j = choose|j: int| 0 <= j < list.len() && list[j] == v;
                        assert(self.nodes@[n as int]@[j] == v);
                    }
                    if v != w && self.joined(w, v) {
                        assert(self.node_of@.contains_key(v));
                        assert(list.contains(v));
                        let j = choose|j: int| 0 <= j < list.len() && list[j] == v;
                        assert(list[j] == v && pred(list[j]));
                        assert(list.filter(pred).contains(list[j]));
                    }
                }
                assert forall|i: int| 0 <= i < self.peers(w).len() implies self.valid_wire(
                    #[trigger] self.peers(w)[i],
                ) && self.peers(w)[i] != w && self.joined(w, self.peers(w)[i]) by {
                    let v = self.peers(w)[i];
                    assert(self.peers(w).contains(v));
                    assert(self.node_of@.contains_key(v));
                    assert(list.contains(v));
                    let j = choose|j: int| 0 <= j < list.len() && list[j] == v;
                    assert(self.nodes@[n as int]@[j] == v);
                }
                assert(list.contains(w));
                let j = choose|j: int| 0 <= j < list.len() && list[j] == w;
                assert(self.nodes@[n as int]@[j] == w);
            },
            None => {},
        }
    }

    /// The wires of the first tiles, tile by tile.
    pub open spec fn wires_upto(self, tiles: int) -> Seq<WireId>
        decreases tiles,
    {
        if tiles <= 0 {
            Seq::empty()
        } else {
            self.wires_upto(tiles - 1) + Seq::new(
                self.type_of(tiles - 1).wires@.len(),
                |i: int| WireId { tile: (tiles - 1) as i32, index: i as i32 },
            )
        }
    }

    /// All wires of the device.
    pub open spec fn all_wires(self) -> Seq<WireId> {
        self.wires_upto(self.tiles@.len() as int)
    }

    /// Every wire is listed, and only wires are.
    pub proof fn lemma_wires_upto(self, tiles: int, w: WireId)
        requires
            self.grid_ok(),
            0 <= tiles <= self.tiles@.len(),
        ensures
            self.wires_upto(tiles).contains(w) <==> self.valid_wire(w) && w.tile < tiles,
        decreases tiles,
    {
        if tiles > 0 {
            self.lemma_wires_upto(tiles - 1, w);
            let part = Seq::new(
                self.type_of(tiles - 1).wires@.len(),
                |i: int| WireId { tile: (tiles - 1) as i32, index: i as i32 },
            );
            let prev = self.wires_upto(tiles - 1);
            let all = self.wires_upto(tiles);
            assert(self.type_of(tiles - 1).wf());
            if self.valid_wire(w) && w.tile == tiles - 1 {
                assert(part[w.index as int] == w);
                assert(all[prev.len() + w.index as int] == w);
            }
            if prev.contains(w) {
                let i = choose|i: int| 0 <= i < prev.len() && prev[i] == w;
                assert(all[i] == w);
            }
            if all.contains(w) {
                let i = choose|i: int| 0 <= i < all.len() && all[i] == w;
                if i < prev.len() {
                    assert(prev.contains(prev[i]));
                } else {
                    assert(part[i - prev.len()] == w);
                }
            }
        }
    }

    /// All wires of the device, tile by tile.
    pub fn wires(&self) -> (r: Vec<WireId>)
        requires
            self.grid_ok(),
        ensures
            r@ == self.all_wires(),
    {
        let mut out: Vec<WireId> = Vec::new();
        for t in 0..self.tiles.len()
            invariant
                self.grid_ok(),
                out@ == self.wires_upto(t as int),
        {
            let n: usize = self.tile_types[self.tiles[t]].wires.len();
            let ghost start = out@;
            let ghost part = Seq::new(
                self.type_of(t as int).wires@.len(),
                |i: int| WireId { tile: t as i32, index: i as i32 },
            );
            assert(self.type_of(t as int).wf());
            for i in 0..n
                invariant
                    n == self.type_of(t as int).wires@.len(),
                    n <= i32::MAX,
                    t < self.tiles@.len() <= i32::MAX,
                    part == Seq::new(
                        self.type_of(t as int).wires@.len(),
                        |i: int| WireId { tile: t as i32, index: i as i32 },
                    ),
                    out@ == start + part.take(i as int),
            {
                out.push(WireId { tile: t as i32, index: i as i32 });
                assert(part.take(i + 1) =~= part.take(i as int).push(part[i as int]));
            }
            assert(part.take(n as int) =~= part);
        }
        out
    }
}

} // verus!
