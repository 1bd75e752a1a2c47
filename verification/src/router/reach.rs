//! Which wires of which tile types the outputs of a kind of site can reach, by the connections
//! that the tile types and their representative tiles show.

use crate::chipdb::{ChipDb, TileType, WireId};
use vstd::prelude::*;

verus! {

/// A wire of a tile type.
#[derive(Clone, Copy, PartialEq, Eq, Hash, Debug, Structural)]
pub struct TypeWire {
    pub tt: usize,
    pub wire: i32,
}

/// The wire exists.
pub open spec fn valid_tw(chip: ChipDb, x: TypeWire) -> bool {
    x.tt < chip.tile_types@.len() && 0 <= x.wire < chip.tile_types@[x.tt as int].wires@.len()
}

/// A pip of the type leads from one wire to the other.
pub open spec fn pip_joins(chip: ChipDb, p: int, a: TypeWire, b: TypeWire) -> bool {
    let pips = chip.tile_types@[a.tt as int].pips@;
    a.tt == b.tt && 0 <= p < pips.len() && pips[p].src_wire == a.wire && pips[p].dst_wire == b.wire
}

/// The wire of a representative tile.
pub open spec fn rep_wire(reps: Seq<Option<i32>>, a: TypeWire) -> WireId {
    WireId { tile: reps[a.tt as int]->0, index: a.wire }
}

/// The representative of `a` has a wire of kind `b` on its node, at place `j`.
pub open spec fn node_joins(chip: ChipDb, reps: Seq<Option<i32>>, j: int, a: TypeWire, b: TypeWire) -> bool {
    let peers = chip.peers(rep_wire(reps, a));
    &&& reps[a.tt as int] is Some
    &&& 0 <= j < peers.len()
    &&& chip.tiles@[peers[j].tile as int] == b.tt
    &&& peers[j].index == b.wire
}

/// A signal on one wire comes to the other in one step.
pub open spec fn type_edge(chip: ChipDb, reps: Seq<Option<i32>>, a: TypeWire, b: TypeWire) -> bool {
    (exists|p: int| #[trigger] pip_joins(chip, p, a, b)) || (exists|j: int| #[trigger]
        node_joins(chip, reps, j, a, b))
}

/// A site of the kind drives the wire.
pub open spec fn seeds(chip: ChipDb, reps: Seq<Option<i32>>, bel_type: i32, x: TypeWire) -> bool {
    &&& valid_tw(chip, x)
    &&& reps[x.tt as int] is Some
    &&& exists|s: int, k: int| #[trigger] drives(chip, bel_type, x, s, k)
}

/// Pin `k` of site `s` is an output of the kind of site at the wire.
pub open spec fn drives(chip: ChipDb, bel_type: i32, x: TypeWire, s: int, k: int) -> bool {
    let sites = chip.tile_types@[x.tt as int].sites@;
    &&& 0 <= s < sites.len()
    &&& sites[s].bel_type == bel_type
    &&& 0 <= k < sites[s].pins@.len()
    &&& sites[s].pins@[k].is_output
    &&& sites[s].pins@[k].wire == x.wire
}

/// The wires are reached one after the other, from one that a site drives.
pub open spec fn trail(chip: ChipDb, reps: Seq<Option<i32>>, bel_type: i32, t: Seq<TypeWire>) -> bool {
    &&& t.len() > 0
    &&& seeds(chip, reps, bel_type, t[0])
    &&& forall|i: int| 0 < i < t.len() ==> type_edge(chip, reps, t[i - 1], #[trigger] t[i])
}

/// A trail ends at the wire.
pub open spec fn reached(chip: ChipDb, reps: Seq<Option<i32>>, bel_type: i32, x: TypeWire) -> bool {
    exists|t: Seq<TypeWire>| #[trigger] trail(chip, reps, bel_type, t) && t.last() == x
}

/// A step from a reached wire leads to a reached wire.
proof fn lemma_reached_step(chip: ChipDb, reps: Seq<Option<i32>>, bel_type: i32, a: TypeWire, b: TypeWire)
    requires
        reached(chip, reps, bel_type, a),
        type_edge(chip, reps, a, b),
    ensures
        reached(chip, reps, bel_type, b),
{
    let t = choose|t: Seq<TypeWire>| #[trigger] trail(chip, reps, bel_type, t) && t.last() == a;
    let longer = t.push(b);
    assert forall|i: int| 0 < i < longer.len() implies type_edge(
        chip,
        reps,
        longer[i - 1],
        #[trigger] longer[i],
    ) by {
        if i < t.len() {
            assert(longer[i] == t[i] && longer[i - 1] == t[i - 1]);
        }
    }
    assert(trail(chip, reps, bel_type, longer));
}

/// The number of marks that are not set.
pub open spec fn unset(row: Seq<bool>) -> nat
    decreases row.len(),
{
    if row.len() == 0 {
        0
    } else {
        unset(row.drop_last()) + if row.last() {
            0nat
        } else {
            1nat
        }
    }
}

proof fn lemma_unset_update(row: Seq<bool>, i: int)
    requires
        0 <= i < row.len(),
        !row[i],
    ensures
        unset(row.update(i, true)) + 1 == unset(row),
    decreases row.len(),
{
    if i == row.len() - 1 {
        assert(row.update(i, true).drop_last() =~= row.drop_last());
    } else {
        lemma_unset_update(row.drop_last(), i);
        assert(row.update(i, true).drop_last() =~= row.drop_last().update(i, true));
    }
}

/// The number of marks of the first `n` rows that are not set.
pub open spec fn unset_rows(rows: Seq<Vec<bool>>, n: int) -> nat
    decreases n,
{
    if n <= 0 {
        0
    } else {
        unset_rows(rows, n - 1) + unset(rows[n - 1]@)
    }
}

proof fn lemma_unset_rows(a: Seq<Vec<bool>>, b: Seq<Vec<bool>>, k: int, n: int)
    requires
        a.len() == b.len(),
        0 <= k < a.len(),
        0 <= n <= a.len(),
        forall|i: int| 0 <= i < a.len() && i != k ==> #[trigger] b[i] == a[i],
        unset(b[k]@) + 1 == unset(a[k]@),
    ensures
        n > k ==> unset_rows(b, n) + 1 == unset_rows(a, n),
        n <= k ==> unset_rows(b, n) == unset_rows(a, n),
    decreases n,
{
    if n > 0 {
        lemma_unset_rows(a, b, k, n - 1);
    }
}

/// One row of marks for each tile type, one mark for each wire.
pub open spec fn shaped(chip: ChipDb, bits: Seq<Vec<bool>>) -> bool {
    &&& bits.len() == chip.tile_types@.len()
    &&& forall|tt: int|
        0 <= tt < bits.len() ==> (#[trigger] bits[tt])@.len() == chip.tile_types@[tt].wires@.len()
}

/// The mark of a wire.
pub open spec fn marked(bits: Seq<Vec<bool>>, x: TypeWire) -> bool {
    bits[x.tt as int]@[x.wire as int]
}

/// Rows without a mark, or with all marks.
pub fn blank(chip: &ChipDb, value: bool) -> (bits: Vec<Vec<bool>>)
    requires
        chip.wf(),
    ensures
        shaped(*chip, bits@),
        forall|x: TypeWire| valid_tw(*chip, x) ==> #[trigger] marked(bits@, x) == value,
{
    let mut bits: Vec<Vec<bool>> = Vec::new();
    for tt in 0..chip.tile_types.len()
        invariant
            bits@.len() == tt,
            forall|k: int|
                0 <= k < tt ==> (#[trigger] bits@[k])@.len() == chip.tile_types@[k].wires@.len()
                    && forall|i: int| 0 <= i < bits@[k]@.len() ==> bits@[k]@[i] == value,
    {
        let n: usize = chip.tile_types[tt].wires.len();
        let row: Vec<bool> = vec![value; n];
        bits.push(row);
    }
    bits
}

/// The targets of the pips of each wire, for each tile type.
pub open spec fn adjacency_ok(chip: ChipDb, adj: Seq<Vec<Vec<i32>>>) -> bool {
    &&& adj.len() == chip.tile_types@.len()
    &&& forall|tt: int|
        0 <= tt < adj.len() ==> lists_targets(
            chip,
            tt,
            (#[trigger] adj[tt])@,
            chip.tile_types@[tt].pips@.len() as int,
        )
}

/// The lists hold the targets of the first `n` pips of a type.
pub open spec fn lists_targets(chip: ChipDb, tt: int, rows: Seq<Vec<i32>>, n: int) -> bool {
    let t = chip.tile_types@[tt];
    &&& rows.len() == t.wires@.len()
    &&& forall|p: int|
        0 <= p < n ==> rows[(#[trigger] t.pips@[p]).src_wire as int]@.contains(t.pips@[p].dst_wire)
    &&& forall|w: int, j: int|
        0 <= w < rows.len() && 0 <= j < rows[w]@.len() ==> has_pip(t, n, w, #[trigger] rows[w]@[j])
}

/// One of the first `n` pips of a type leads from one wire to the other.
pub open spec fn has_pip(t: TileType, n: int, src: int, dst: i32) -> bool {
    exists|p: int| 0 <= p < n && (#[trigger] t.pips@[p]).src_wire == src && t.pips@[p].dst_wire == dst
}

fn targets_of_type(chip: &ChipDb, tt: usize) -> (rows: Vec<Vec<i32>>)
    requires
        chip.wf(),
        tt < chip.tile_types@.len(),
    ensures
        lists_targets(
            *chip,
            tt as int,
            rows@,
            chip.tile_types@[tt as int].pips@.len() as int,
        ),
{
    let t = &chip.tile_types[tt];
    let n: usize = t.wires.len();
    let mut rows: Vec<Vec<i32>> = Vec::new();
    for i in 0..n
        invariant
            rows@.len() == i,
            forall|k: int| 0 <= k < i ==> (#[trigger] rows@[k])@.len() == 0,
    {
        rows.push(Vec::new());
    }
    assert(chip.tile_types@[tt as int].wf());
    for p in 0..t.pips.len()
        invariant
            tt < chip.tile_types@.len(),
            *t == chip.tile_types@[tt as int],
            t.wf(),
            lists_targets(*chip, tt as int, rows@, p as int),
    {
        let src: i32 = t.pips[p].src_wire;
        let dst: i32 = t.pips[p].dst_wire;
        let ghost before = rows@;
        assert(0 <= t.pips@[p as int].src_wire < t.wires@.len());
        rows[src as usize].push(dst);
        proof {
            let s = src as int;
            assert(rows@[s]@ =~= before[s]@.push(dst));
            assert(rows@[s]@.last() == dst);
            assert forall|q: int| 0 <= q < p + 1 implies rows@[(
            #[trigger] t.pips@[q]).src_wire as int]@.contains(t.pips@[q].dst_wire) by {
                let w = t.pips@[q].src_wire as int;
                if q < p {
                    assert(before[w]@.contains(t.pips@[q].dst_wire));
                    let j = choose|j: int|
                        0 <= j < before[w]@.len() && before[w]@[j] == t.pips@[q].dst_wire;
                    assert(rows@[w]@[j] == t.pips@[q].dst_wire);
                }
            }
            assert forall|w: int, j: int| 0 <= w < rows@.len() && 0 <= j < rows@[w]@.len() implies has_pip(
                *t,
                p + 1,
                w,
                #[trigger] rows@[w]@[j],
            ) by {
                if w == s && j == before[s]@.len() {
                    assert(t.pips@[p as int].src_wire == w);
                } else {
                    assert(before[w]@[j] == rows@[w]@[j]);
                    assert(has_pip(*t, p as int, w, before[w]@[j]));
                    let q = choose|q: int|
                        0 <= q < p && (#[trigger] t.pips@[q]).src_wire == w && t.pips@[q].dst_wire
                            == before[w]@[j];
                    assert(t.pips@[q].src_wire == w);
                }
            }
        }
    }
    rows
}

/// The targets of the pips of each wire.
pub fn adjacency(chip: &ChipDb) -> (adj: Vec<Vec<Vec<i32>>>)
    requires
        chip.wf(),
    ensures
        adjacency_ok(*chip, adj@),
{
    let mut adj: Vec<Vec<Vec<i32>>> = Vec::new();
    for tt in 0..chip.tile_types.len()
        invariant
            chip.wf(),
            adj@.len() == tt,
            forall|k: int|
                0 <= k < tt ==> lists_targets(
                    *chip,
                    k,
                    (#[trigger] adj@[k])@,
                    chip.tile_types@[k].pips@.len() as int,
                ),
    {
        adj.push(targets_of_type(chip, tt));
    }
    adj
}

/// The representatives are tiles of their types.
pub open spec fn reps_ok(chip: ChipDb, reps: Seq<Option<i32>>) -> bool {
    &&& reps.len() == chip.tile_types@.len()
    &&& forall|tt: int|
        0 <= tt < reps.len() && (#[trigger] reps[tt]) is Some ==> chip.valid_tile(reps[tt]->0 as int)
            && chip.tiles@[reps[tt]->0 as int] == tt
}

/// What marking keeps: marked wires are reached, and those that wait are marked.
pub open spec fn marks_sound(
    chip: ChipDb,
    reps: Seq<Option<i32>>,
    bel_type: i32,
    bits: Seq<Vec<bool>>,
    stack: Seq<TypeWire>,
) -> bool {
    &&& shaped(chip, bits)
    &&& forall|x: TypeWire|
        valid_tw(chip, x) && #[trigger] marked(bits, x) ==> reached(chip, reps, bel_type, x)
    &&& forall|k: int| 0 <= k < stack.len() ==> valid_tw(chip, #[trigger] stack[k]) && marked(bits, stack[k])
}

/// Marks are only added, and what is new waits.
pub open spec fn marks_grow(
    chip: ChipDb,
    bits: Seq<Vec<bool>>,
    stack: Seq<TypeWire>,
    bits2: Seq<Vec<bool>>,
    stack2: Seq<TypeWire>,
) -> bool {
    &&& stack.len() <= stack2.len()
    &&& forall|k: int| 0 <= k < stack.len() ==> #[trigger] stack2[k] == stack[k]
    &&& forall|x: TypeWire|
        valid_tw(chip, x) && marked(bits, x) ==> #[trigger] marked(bits2, x)
    &&& forall|x: TypeWire|
        valid_tw(chip, x) && #[trigger] marked(bits2, x) ==> marked(bits, x) || stack2.contains(x)
    &&& unset_rows(bits2, bits2.len() as int) + stack2.len() == unset_rows(bits, bits.len() as int)
        + stack.len()
}

/// Marks a wire that is reached, if it is not marked, and lets it wait.
fn mark(
    chip: &ChipDb,
    x: TypeWire,
    bits: &mut Vec<Vec<bool>>,
    stack: &mut Vec<TypeWire>,
    Ghost(reps): Ghost<Seq<Option<i32>>>,
    Ghost(bel_type): Ghost<i32>,
)
    requires
        chip.wf(),
        valid_tw(*chip, x),
        reached(*chip, reps, bel_type, x),
        marks_sound(*chip, reps, bel_type, old(bits)@, old(stack)@),
    ensures
        marks_sound(*chip, reps, bel_type, final(bits)@, final(stack)@),
        marks_grow(*chip, old(bits)@, old(stack)@, final(bits)@, final(stack)@),
        marked(final(bits)@, x),
{
    let i: usize = x.wire as usize;
    if !bits[x.tt][i] {
        let ghost before = bits@;
        let ghost row = bits@[x.tt as int]@;
        bits[x.tt].set(i, true);
        stack.push(x);
        proof {
            assert(bits@[x.tt as int]@ =~= row.update(i as int, true));
            lemma_unset_update(row, i as int);
            lemma_unset_rows(before, bits@, x.tt as int, bits@.len() as int);
            assert(stack@.last() == x);
            assert forall|y: TypeWire| valid_tw(*chip, y) implies #[trigger] marked(bits@, y) == (marked(
                before,
                y,
            ) || y == x) by {
            }
        }
    }
}

/// Composing growth.
proof fn lemma_grow_trans(
    chip: ChipDb,
    b1: Seq<Vec<bool>>,
    s1: Seq<TypeWire>,
    b2: Seq<Vec<bool>>,
    s2: Seq<TypeWire>,
    b3: Seq<Vec<bool>>,
    s3: Seq<TypeWire>,
)
    requires
        marks_grow(chip, b1, s1, b2, s2),
        marks_grow(chip, b2, s2, b3, s3),
    ensures
        marks_grow(chip, b1, s1, b3, s3),
{
    assert forall|k: int| 0 <= k < s1.len() implies #[trigger] s3[k] == s1[k] by {
        assert(s2[k] == s1[k]);
    }
    assert forall|x: TypeWire| valid_tw(chip, x) && #[trigger] marked(b3, x) implies marked(b1, x)
        || s3.contains(x) by {
        if marked(b2, x) {
            if !marked(b1, x) {
                let k = choose|k: int| 0 <= k < s2.len() && s2[k] == x;
                assert(s3[k] == x);
            }
        }
    }
    assert forall|x: TypeWire| valid_tw(chip, x) && marked(b1, x) implies #[trigger] marked(b3, x) by {
        assert(marked(b2, x));
    }
}

/// Marks everything that is one step from a reached wire.
#[verifier::rlimit(40)]
fn mark_steps(
    chip: &ChipDb,
    reps: &Vec<Option<i32>>,
    adj: &Vec<Vec<Vec<i32>>>,
    x: TypeWire,
    bits: &mut Vec<Vec<bool>>,
    stack: &mut Vec<TypeWire>,
    Ghost(bel_type): Ghost<i32>,
)
    requires
        chip.wf(),
        reps_ok(*chip, reps@),
        adjacency_ok(*chip, adj@),
        valid_tw(*chip, x),
        reached(*chip, reps@, bel_type, x),
        marks_sound(*chip, reps@, bel_type, old(bits)@, old(stack)@),
    ensures
        marks_sound(*chip, reps@, bel_type, final(bits)@, final(stack)@),
        marks_grow(*chip, old(bits)@, old(stack)@, final(bits)@, final(stack)@),
        forall|y: TypeWire|
            valid_tw(*chip, y) && #[trigger] type_edge(*chip, reps@, x, y) ==> marked(final(bits)@, y),
{
    assert(lists_targets(
        *chip,
        x.tt as int,
        adj@[x.tt as int]@,
        chip.tile_types@[x.tt as int].pips@.len() as int,
    ));
    let row = &adj[x.tt][x.wire as usize];
    let ghost t = chip.tile_types@[x.tt as int];
    assert(t.wf());
    for j in 0..row.len()
        invariant
            chip.wf(),
            x.tt < chip.tile_types@.len(),
            t == chip.tile_types@[x.tt as int],
            t.wf(),
            valid_tw(*chip, x),
            reached(*chip, reps@, bel_type, x),
            row@ == adj@[x.tt as int]@[x.wire as int]@,
            lists_targets(*chip, x.tt as int, adj@[x.tt as int]@, t.pips@.len() as int),
            marks_sound(*chip, reps@, bel_type, bits@, stack@),
            marks_grow(*chip, old(bits)@, old(stack)@, bits@, stack@),
            forall|k: int| 0 <= k < j ==> marked(bits@, TypeWire { tt: x.tt, wire: #[trigger] row@[k] }),
    {
        let y = TypeWire { tt: x.tt, wire: row[j] };
        proof {
            assert(has_pip(t, t.pips@.len() as int, x.wire as int, row@[j as int]));
            let p = choose|p: int|
                0 <= p < t.pips@.len() && (#[trigger] t.pips@[p]).src_wire == x.wire && t.pips@[p].dst_wire
                    == row@[j as int];
            assert(pip_joins(*chip, p, x, y));
            lemma_reached_step(*chip, reps@, bel_type, x, y);
        }
        let ghost b = bits@;
        let ghost s = stack@;
        mark(chip, y, bits, stack, Ghost(reps@), Ghost(bel_type));
        proof {
            lemma_grow_trans(*chip, old(bits)@, old(stack)@, b, s, bits@, stack@);
            assert forall|k: int| 0 <= k < j + 1 implies marked(
                bits@,
                TypeWire { tt: x.tt, wire: #[trigger] row@[k] },
            ) by {
                let z = TypeWire { tt: x.tt, wire: row@[k] };
                if k < j {
                    assert(marked(b, z));
                    assert(has_pip(t, t.pips@.len() as int, x.wire as int, row@[k]));
                    let p = choose|p: int|
                        0 <= p < t.pips@.len() && (#[trigger] t.pips@[p]).src_wire == x.wire
                            && t.pips@[p].dst_wire == row@[k];
                    assert(valid_tw(*chip, z));
                }
            }
        }
    }
    proof {
        assert forall|y: TypeWire, p: int|
            valid_tw(*chip, y) && #[trigger] pip_joins(*chip, p, x, y) implies marked(bits@, y) by {
            assert(row@.contains(t.pips@[p].dst_wire));
            let k = choose|k: int| 0 <= k < row@.len() && row@[k] == t.pips@[p].dst_wire;
            assert(y == TypeWire { tt: x.tt, wire: row@[k] });
        }
    }
    let ghost b1 = bits@;
    let ghost s1 = stack@;
    if let Some(rep) = reps[x.tt] {
        let peers = chip.node_wires(WireId { tile: rep, index: x.wire });
        proof {
            chip.lemma_peers(WireId { tile: rep, index: x.wire });
            assert(rep_wire(reps@, x) == WireId { tile: rep, index: x.wire });
        }
        for j in 0..peers.len()
            invariant
                chip.wf(),
                valid_tw(*chip, x),
                reached(*chip, reps@, bel_type, x),
                reps@[x.tt as int] == Some(rep),
                rep_wire(reps@, x) == (WireId { tile: rep, index: x.wire }),
                peers@ == chip.peers(rep_wire(reps@, x)),
                forall|k: int| 0 <= k < peers@.len() ==> chip.valid_wire(#[trigger] peers@[k]),
                marks_sound(*chip, reps@, bel_type, bits@, stack@),
                marks_grow(*chip, b1, s1, bits@, stack@),
                forall|k: int|
                    0 <= k < j ==> marked(
                        bits@,
                        TypeWire {
                            tt: chip.tiles@[(#[trigger] peers@[k]).tile as int],
                            wire: peers@[k].index,
                        },
                    ),
        {
            let peer: WireId = peers[j];
            assert(chip.valid_wire(peers@[j as int]));
            let y = TypeWire { tt: chip.tiles[peer.tile as usize], wire: peer.index };
            proof {
                assert(node_joins(*chip, reps@, j as int, x, y));
                lemma_reached_step(*chip, reps@, bel_type, x, y);
            }
            let ghost b = bits@;
            let ghost s = stack@;
            mark(chip, y, bits, stack, Ghost(reps@), Ghost(bel_type));
            proof {
                lemma_grow_trans(*chip, b1, s1, b, s, bits@, stack@);
                assert forall|k: int| 0 <= k < j + 1 implies marked(
                    bits@,
                    TypeWire {
                        tt: chip.tiles@[(#[trigger] peers@[k]).tile as int],
                        wire: peers@[k].index,
                    },
                ) by {
                    let z = TypeWire { tt: chip.tiles@[peers@[k].tile as int], wire: peers@[k].index };
                    if k < j {
                        assert(chip.valid_wire(peers@[k]));
                        assert(valid_tw(*chip, z));
                        assert(marked(b, z));
                    }
                }
            }
        }
        proof {
            assert forall|y: TypeWire, j: int|
                valid_tw(*chip, y) && #[trigger] node_joins(*chip, reps@, j, x, y) implies marked(bits@, y) by {
                assert(y == TypeWire {
                    tt: chip.tiles@[peers@[j].tile as int],
                    wire: peers@[j].index,
                });
            }
        }
    }
    proof {
        lemma_grow_trans(*chip, old(bits)@, old(stack)@, b1, s1, bits@, stack@);
        assert forall|y: TypeWire| valid_tw(*chip, y) && #[trigger] type_edge(*chip, reps@, x, y) implies marked(
            bits@,
            y,
        ) by {
            if exists|p: int| #[trigger] pip_joins(*chip, p, x, y) {
                let p = choose|p: int| #[trigger] pip_joins(*chip, p, x, y);
                assert(marked(b1, y));
            } else {
                let j = choose|j: int| #[trigger] node_joins(*chip, reps@, j, x, y);
            }
        }
    }
}

/// Marks the wires that sites of the kind drive.
#[verifier::rlimit(40)]
fn mark_seeds(
    chip: &ChipDb,
    reps: &Vec<Option<i32>>,
    bel_type: i32,
    bits: &mut Vec<Vec<bool>>,
    stack: &mut Vec<TypeWire>,
)
    requires
        chip.wf(),
        reps_ok(*chip, reps@),
        marks_sound(*chip, reps@, bel_type, old(bits)@, old(stack)@),
    ensures
        marks_sound(*chip, reps@, bel_type, final(bits)@, final(stack)@),
        marks_grow(*chip, old(bits)@, old(stack)@, final(bits)@, final(stack)@),
        forall|x: TypeWire| #[trigger] seeds(*chip, reps@, bel_type, x) ==> marked(final(bits)@, x),
{
    for tt in 0..reps.len()
        invariant
            chip.wf(),
            reps_ok(*chip, reps@),
            marks_sound(*chip, reps@, bel_type, bits@, stack@),
            marks_grow(*chip, old(bits)@, old(stack)@, bits@, stack@),
            forall|x: TypeWire, s: int, k: int|
                x.tt < tt && valid_tw(*chip, x) && reps@[x.tt as int] is Some && #[trigger] drives(
                    *chip,
                    bel_type,
                    x,
                    s,
                    k,
                ) ==> marked(bits@, x),
    {
        if reps[tt].is_some() {
            let sites = &chip.tile_types[tt].sites;
            for s in 0..sites.len()
                invariant
                    chip.wf(),
                    reps_ok(*chip, reps@),
                    tt < reps@.len(),
                    reps@[tt as int] is Some,
                    sites@ == chip.tile_types@[tt as int].sites@,
                    marks_sound(*chip, reps@, bel_type, bits@, stack@),
                    marks_grow(*chip, old(bits)@, old(stack)@, bits@, stack@),
                    forall|x: TypeWire, a: int, k: int|
                        (x.tt < tt || (x.tt == tt && a < s)) && valid_tw(*chip, x) && reps@[x.tt as int] is Some
                            && #[trigger] drives(*chip, bel_type, x, a, k) ==> marked(bits@, x),
            {
                let pins = &sites[s].pins;
                if sites[s].bel_type == bel_type {
                    for k in 0..pins.len()
                        invariant
                            chip.wf(),
                            reps_ok(*chip, reps@),
                            tt < reps@.len(),
                            reps@[tt as int] is Some,
                            sites@ == chip.tile_types@[tt as int].sites@,
                            s < sites@.len(),
                            sites@[s as int].bel_type == bel_type,
                            pins@ == sites@[s as int].pins@,
                            marks_sound(*chip, reps@, bel_type, bits@, stack@),
                            marks_grow(*chip, old(bits)@, old(stack)@, bits@, stack@),
                            forall|x: TypeWire, a: int, b: int|
                                (x.tt < tt || (x.tt == tt && (a < s || (a == s && b < k)))) && valid_tw(
                                    *chip,
                                    x,
                                ) && reps@[x.tt as int] is Some && #[trigger] drives(
                                    *chip,
                                    bel_type,
                                    x,
                                    a,
                                    b,
                                ) ==> marked(bits@, x),
                    {
                        let wi: i32 = pins[k].wire;
                        if pins[k].is_output && wi >= 0 && (wi as usize) < chip.tile_types[tt].wires.len() {
                            let x = TypeWire { tt, wire: wi };
                            proof {
                                assert(drives(*chip, bel_type, x, s as int, k as int));
                                assert(seeds(*chip, reps@, bel_type, x));
                                let one = seq![x];
                                assert(one[0] == x);
                                assert(trail(*chip, reps@, bel_type, one));
                                assert(one.last() == x);
                            }
                            let ghost b = bits@;
                            let ghost st = stack@;
                            mark(chip, x, bits, stack, Ghost(reps@), Ghost(bel_type));
                            proof {
                                lemma_grow_trans(*chip, old(bits)@, old(stack)@, b, st, bits@, stack@);
                                assert forall|y: TypeWire, a: int, c: int|
                                    (y.tt < tt || (y.tt == tt && (a < s || (a == s && c < k + 1))))
                                        && valid_tw(*chip, y) && reps@[y.tt as int] is Some
                                        && #[trigger] drives(*chip, bel_type, y, a, c) implies marked(
                                    bits@,
                                    y,
                                ) by {
                                    if y.tt == tt && a == s && c == k {
                                        assert(y == x);
                                    } else {
                                        assert(marked(b, y));
                                    }
                                }
                            }
                        }
                    }
                }
            }
        }
    }
    proof {
        assert forall|x: TypeWire| #[trigger] seeds(*chip, reps@, bel_type, x) implies marked(bits@, x) by {
            let (s, k) = choose|s: int, k: int| #[trigger] drives(*chip, bel_type, x, s, k);
            assert(drives(*chip, bel_type, x, s, k));
        }
    }
}

/// Marks that hold what sites drive, and every step from what is marked, hold what is reached.
proof fn lemma_closed_marks(
    chip: ChipDb,
    reps: Seq<Option<i32>>,
    bel_type: i32,
    bits: Seq<Vec<bool>>,
    t: Seq<TypeWire>,
)
    requires
        chip.wf(),
        reps_ok(chip, reps),
        shaped(chip, bits),
        forall|x: TypeWire| #[trigger] seeds(chip, reps, bel_type, x) ==> marked(bits, x),
        forall|x: TypeWire, y: TypeWire|
            valid_tw(chip, x) && marked(bits, x) && valid_tw(chip, y) && #[trigger] type_edge(
                chip,
                reps,
                x,
                y,
            ) ==> marked(bits, y),
        trail(chip, reps, bel_type, t),
    ensures
        valid_tw(chip, t.last()),
        marked(bits, t.last()),
    decreases t.len(),
{
    if t.len() > 1 {
        let head = t.drop_last();
        assert(trail(chip, reps, bel_type, head)) by {
            assert forall|i: int| 0 < i < head.len() implies type_edge(
                chip,
                reps,
                head[i - 1],
                #[trigger] head[i],
            ) by {
                assert(head[i] == t[i] && head[i - 1] == t[i - 1]);
            }
        }
        lemma_closed_marks(chip, reps, bel_type, bits, head);
        let a = head.last();
        let b = t.last();
        assert(a == t[t.len() - 2]);
        assert(t[t.len() - 1] == b);
        assert(type_edge(chip, reps, a, b));
        assert(valid_tw(chip, b)) by {
            if exists|p: int| #[trigger] pip_joins(chip, p, a, b) {
                let p = choose|p: int| #[trigger] pip_joins(chip, p, a, b);
                assert(chip.tile_types@[a.tt as int].wf());
            } else {
                let j = choose|j: int| #[trigger] node_joins(chip, reps, j, a, b);
                chip.lemma_peers(rep_wire(reps, a));
                assert(chip.valid_wire(chip.peers(rep_wire(reps, a))[j]));
            }
        }
    } else {
        assert(t[0] == t.last());
    }
}

/// After the steps from the wire on top were taken, all steps from marked wires that do not wait
/// have been taken.
proof fn lemma_steps_taken(
    chip: ChipDb,
    reps: Seq<Option<i32>>,
    x: TypeWire,
    b: Seq<Vec<bool>>,
    s: Seq<TypeWire>,
    b2: Seq<Vec<bool>>,
    s2: Seq<TypeWire>,
)
    requires
        s.len() > 0,
        s.last() == x,
        forall|y: TypeWire, z: TypeWire|
            valid_tw(chip, y) && marked(b, y) && !s.contains(y) && valid_tw(chip, z)
                && #[trigger] type_edge(chip, reps, y, z) ==> marked(b, z),
        marks_grow(chip, b, s.drop_last(), b2, s2),
        forall|y: TypeWire| valid_tw(chip, y) && #[trigger] type_edge(chip, reps, x, y) ==> marked(b2, y),
    ensures
        forall|y: TypeWire, z: TypeWire|
            valid_tw(chip, y) && marked(b2, y) && !s2.contains(y) && valid_tw(chip, z)
                && #[trigger] type_edge(chip, reps, y, z) ==> marked(b2, z),
{
    let s1 = s.drop_last();
    assert forall|y: TypeWire, z: TypeWire|
        valid_tw(chip, y) && marked(b2, y) && !s2.contains(y) && valid_tw(chip, z) && #[trigger] type_edge(
            chip,
            reps,
            y,
            z,
        ) implies marked(b2, z) by {
        if y != x {
            assert(marked(b, y));
            assert(!s.contains(y)) by {
                if s.contains(y) {
                    let k = choose|k: int| 0 <= k < s.len() && s[k] == y;
                    assert(s1[k] == y);
                    assert(s2[k] == y);
                }
            }
            assert(marked(b, z));
        }
    }
}

/// The wires that the outputs of a kind of site reach.
#[verifier::rlimit(60)]
#[verifier::spinoff_prover]
pub fn reach_of(
    chip: &ChipDb,
    reps: &Vec<Option<i32>>,
    adj: &Vec<Vec<Vec<i32>>>,
    bel_type: i32,
) -> (bits: Vec<Vec<bool>>)
    requires
        chip.wf(),
        reps_ok(*chip, reps@),
        adjacency_ok(*chip, adj@),
    ensures
        shaped(*chip, bits@),
        forall|x: TypeWire|
            valid_tw(*chip, x) ==> (#[trigger] marked(bits@, x) <==> reached(*chip, reps@, bel_type, x)),
{
    let mut bits = blank(chip, false);
    let mut stack: Vec<TypeWire> = Vec::new();
    let ghost b0 = bits@;
    let ghost s0 = stack@;
    mark_seeds(chip, reps, bel_type, &mut bits, &mut stack);
    while stack.len() > 0
        invariant
            chip.wf(),
            reps_ok(*chip, reps@),
            adjacency_ok(*chip, adj@),
            marks_sound(*chip, reps@, bel_type, bits@, stack@),
            forall|x: TypeWire| #[trigger] seeds(*chip, reps@, bel_type, x) ==> marked(bits@, x),
            forall|x: TypeWire, y: TypeWire|
                valid_tw(*chip, x) && marked(bits@, x) && !stack@.contains(x) && valid_tw(*chip, y)
                    && #[trigger] type_edge(*chip, reps@, x, y) ==> marked(bits@, y),
        decreases unset_rows(bits@, bits@.len() as int), stack@.len(),
    {
        let x: TypeWire = stack[stack.len() - 1];
        let ghost b = bits@;
        let ghost s = stack@;
        let _ = stack.pop();
        let ghost s1 = stack@;
        assert(s1 =~= s.drop_last());
        assert(valid_tw(*chip, s[s.len() - 1]));
        assert(marked(b, x));
        assert forall|k: int| 0 <= k < s1.len() implies valid_tw(*chip, #[trigger] s1[k]) && marked(
            b,
            s1[k],
        ) by {
            assert(s1[k] == s[k]);
        }
        mark_steps(chip, reps, adj, x, &mut bits, &mut stack, Ghost(bel_type));
        proof {
            lemma_steps_taken(*chip, reps@, x, b, s, bits@, stack@);
        }
    }
    proof {
        assert forall|x: TypeWire| valid_tw(*chip, x) implies (#[trigger] marked(bits@, x) <==> reached(
            *chip,
            reps@,
            bel_type,
            x,
        )) by {
            if reached(*chip, reps@, bel_type, x) {
                let t = choose|t: Seq<TypeWire>| #[trigger]
                    trail(*chip, reps@, bel_type, t) && t.last() == x;
                lemma_closed_marks(*chip, reps@, bel_type, bits@, t);
            }
        }
    }
    bits
}

} // verus!
