//! Ordering the cells for timing propagation.
//!
//! A cell comes after the cells that drive its inputs through combinational paths. Clock nets and
//! the outputs of registers ask for no order, since registers start new paths.

use crate::netlist::{Cell, CellId, Design, Net};
use crate::timing::levels::{in_turn, leads_to, order_graph, orders_graph, rows};
use crate::types::enums::PortType;
use vstd::prelude::*;

verus! {

/// The net carries a clock: a period is asked for on it.
pub open spec fn carries_clock(net: Net) -> bool {
    net.clock_constraint > 0
}

/// A port of the cell takes a clock in.
pub open spec fn clocked_at(design: Design, cell: Cell, j: int) -> bool {
    let p = cell.ports@[j];
    p.port_type is In && p.net is Some && carries_clock(design.net_of(p.net->0))
}

/// The cell is a register: one of its inputs takes a clock in.
pub open spec fn is_register(design: Design, cell: Cell) -> bool {
    exists|j: int| 0 <= j < cell.ports@.len() && #[trigger] clocked_at(design, cell, j)
}

/// Cell `a` drives port `j` of cell `b` through a combinational path.
pub open spec fn feeds_port(design: Design, a: CellId, b: CellId, j: int) -> bool {
    let p = design.cell_of(b).ports@[j];
    &&& p.port_type is In
    &&& p.net is Some
    &&& !carries_clock(design.net_of(p.net->0))
    &&& design.net_of(p.net->0).driver.connected()
    &&& design.net_of(p.net->0).driver.cell == a
}

/// Cell `a` drives an input of another cell `b` through a combinational path.
pub open spec fn feeds(design: Design, a: CellId, b: CellId) -> bool {
    &&& design.valid_cell(a)
    &&& design.valid_cell(b)
    &&& a != b
    &&& design.cell_of(a).alive
    &&& design.cell_of(b).alive
    &&& !is_register(design, design.cell_of(a))
    &&& exists|j: int| 0 <= j < design.cell_of(b).ports@.len() && #[trigger] feeds_port(design, a, b, j)
}

/// The cell at a position of the list comes after all cells that feed it.
pub open spec fn after_feeders(design: Design, cells: Seq<CellId>, i: int) -> bool {
    forall|a: CellId| #[trigger] feeds(design, a, cells[i]) ==> cells.take(i).contains(a)
}

/// Some cell that feeds the cell does not stand in the list.
pub open spec fn fed_from_outside(design: Design, cells: Seq<CellId>, c: CellId) -> bool {
    exists|a: CellId| #[trigger] feeds(design, a, c) && !cells.contains(a)
}

/// The list names every living cell once. Up to position `m` each cell comes after those that
/// feed it; the cells from there on each have a feeder among themselves, and stand in the order
/// of their numbers.
pub open spec fn sorted_cells(design: Design, cells: Seq<CellId>, m: int) -> bool {
    &&& 0 <= m <= cells.len()
    &&& cells.no_duplicates()
    &&& forall|c: CellId| #[trigger]
        cells.contains(c) <==> design.valid_cell(c) && design.cell_of(c).alive
    &&& forall|i: int| 0 <= i < m ==> #[trigger] after_feeders(design, cells, i)
    &&& forall|i: int|
        m <= i < cells.len() ==> fed_from_outside(design, cells.take(m), #[trigger] cells[i])
    &&& forall|i: int, j: int| m <= i < j < cells.len() ==> (#[trigger] cells[i]).0 < (#[trigger] cells[j]).0
}

/// The graph of the cells: an edge for each pair in which the first feeds the second, and the
/// edges of a cell in the order of the numbers that they lead to.
pub open spec fn feed_graph(design: Design, g: Seq<Seq<usize>>) -> bool {
    &&& g.len() == design.cells@.len()
    &&& forall|u: usize, v: usize| #[trigger]
        leads_to(g, u, v) <==> {
            &&& u < design.cells@.len()
            &&& v < design.cells@.len()
            &&& feeds(design, CellId(u as u32), CellId(v as u32))
        }
    &&& forall|u: int, i: int, j: int|
        0 <= u < g.len() && 0 <= i < j < g[u].len() ==> #[trigger] g[u][i] < #[trigger] g[u][j]
}

/// The living cells among the first `k` nodes of a list, in order.
pub open spec fn living(design: Design, order: Seq<usize>, k: int) -> Seq<CellId>
    decreases k,
{
    if k <= 0 {
        Seq::empty()
    } else if design.cells@[order[k - 1] as int].alive {
        living(design, order, k - 1).push(CellId(order[k - 1] as u32))
    } else {
        living(design, order, k - 1)
    }
}

/// The list starts with `m` cells that came in turn: of the cells whose feeders had all been
/// listed, the one that had been ready longest goes first.
pub open spec fn oldest_first(design: Design, cells: Seq<CellId>, m: int) -> bool {
    exists|g: Seq<Seq<usize>>, order: Seq<usize>|
        feed_graph(design, g) && #[trigger] in_turn(g, false, order) && cells.take(m) == living(
            design,
            order,
            order.len() as int,
        )
}

/// Which cells are registers.
fn registers(design: &Design) -> (r: Vec<bool>)
    requires
        design.wf(),
    ensures
        r@.len() == design.cells@.len(),
        forall|i: int| 0 <= i < r@.len() ==> #[trigger] r@[i] == is_register(*design, design.cells@[i]),
{
    let n: usize = design.cells.len();
    let mut r: Vec<bool> = Vec::new();
    for i in 0..n
        invariant
            design.wf(),
            n == design.cells@.len(),
            r@.len() == i,
            forall|k: int| 0 <= k < i ==> #[trigger] r@[k] == is_register(*design, design.cells@[k]),
    {
        let cell = &design.cells[i];
        let mut found: bool = false;
        for j in 0..cell.ports.len()
            invariant
                design.wf(),
                i < design.cells@.len(),
                *cell == design.cells@[i as int],
                found == exists|k: int| 0 <= k < j && #[trigger] clocked_at(*design, *cell, k),
        {
            let p = cell.ports[j];
            assert(design.cell_ok(*cell));
            assert(clocked_at(*design, *cell, j as int) == (p.port_type is In && p.net is Some && carries_clock(
                design.net_of(p.net->0),
            )));
            if let PortType::In = p.port_type {
                if let Some(net) = p.net {
                    assert(design.valid_net(cell.ports@[j as int].net->0));
                    if design.net(net).clock_constraint > 0 {
                        found = true;
                    }
                }
            }
        }
        r.push(found);
    }
    r
}

/// The edges of the graph up to port `j` of cell `b`: what feeds the cells before it, and what
/// feeds the first ports of it.
spec fn edges_upto(design: Design, edges: Seq<Seq<usize>>, b: int, j: int) -> bool {
    &&& edges.len() == design.cells@.len()
    &&& forall|u: usize, v: usize| #[trigger]
        leads_to(edges, u, v) <==> {
            &&& u < design.cells@.len()
            &&& v < design.cells@.len()
            &&& if v < b {
                feeds(design, CellId(u as u32), CellId(v as u32))
            } else {
                v == b && fed_before(design, CellId(u as u32), CellId(v as u32), j)
            }
        }
}

/// Cell `a` feeds one of the first `j` ports of cell `b`.
spec fn fed_before(design: Design, a: CellId, b: CellId, j: int) -> bool {
    &&& design.valid_cell(a)
    &&& design.valid_cell(b)
    &&& a != b
    &&& design.cell_of(a).alive
    &&& design.cell_of(b).alive
    &&& !is_register(design, design.cell_of(a))
    &&& exists|k: int| 0 <= k < j && #[trigger] feeds_port(design, a, b, k)
}

/// The edges of each node rise, and lead to nodes with numbers under the bound.
spec fn rising_below(edges: Seq<Seq<usize>>, bound: int) -> bool {
    &&& forall|u: int, i: int|
        0 <= u < edges.len() && 0 <= i < edges[u].len() ==> #[trigger] edges[u][i] < bound
    &&& forall|u: int, i: int, j: int|
        0 <= u < edges.len() && 0 <= i < j < edges[u].len() ==> #[trigger] edges[u][i] < #[trigger] edges[u][j]
}

proof fn lemma_rising_push(edges: Seq<Vec<usize>>, next: Seq<Vec<usize>>, a: usize, b: usize)
    requires
        a < edges.len(),
        next.len() == edges.len(),
        forall|i: int| 0 <= i < edges.len() && i != a ==> next[i] == edges[i],
        next[a as int]@ == edges[a as int]@.push(b),
        rising_below(rows(edges), b + 1),
        edges[a as int]@.len() > 0 ==> edges[a as int]@.last() != b,
    ensures
        rising_below(rows(next), b + 1),
{
    let g = rows(edges);
    let h = rows(next);
    let row = g[a as int];
    assert forall|u: int, i: int| 0 <= u < h.len() && 0 <= i < h[u].len() implies #[trigger] h[u][i] < b + 1 by {
        if u != a {
            assert(h[u] == g[u]);
            assert(g[u][i] < b + 1);
        } else if i < row.len() {
            assert(g[u][i] < b + 1);
        }
    }
    assert forall|u: int, i: int, j: int| 0 <= u < h.len() && 0 <= i < j < h[u].len() implies #[trigger] h[u][i]
        < #[trigger] h[u][j] by {
        if u != a {
            assert(h[u] == g[u]);
            assert(g[u][i] < g[u][j]);
        } else if j < row.len() {
            assert(g[u][i] < g[u][j]);
        } else {
            let k = row.len() - 1;
            assert(g[u][k] < b + 1);
            if i < k {
                assert(g[u][i] < g[u][k]);
            }
        }
    }
}

proof fn lemma_edge_added(edges: Seq<Vec<usize>>, next: Seq<Vec<usize>>, a: usize, b: usize)
    requires
        a < edges.len(),
        next.len() == edges.len(),
        forall|i: int| 0 <= i < edges.len() && i != a ==> next[i] == edges[i],
        next[a as int]@ == edges[a as int]@.push(b),
    ensures
        forall|u: usize, v: usize| #[trigger]
            leads_to(rows(next), u, v) <==> leads_to(rows(edges), u, v) || (u == a && v == b),
{
    crate::timing::levels::lemma_push(edges[a as int]@, b);
    assert forall|u: usize, v: usize| #[trigger]
        leads_to(rows(next), u, v) <==> leads_to(rows(edges), u, v) || (u == a && v == b) by {
        if u < edges.len() {
            assert(rows(next)[u as int] == next[u as int]@);
            assert(rows(edges)[u as int] == edges[u as int]@);
        }
    }
}

/// The graph of the cells that feed one another.
#[verifier::spinoff_prover]
#[verifier::rlimit(30)]
fn cell_graph(design: &Design) -> (edges: Vec<Vec<usize>>)
    requires
        design.wf(),
    ensures
        feed_graph(*design, rows(edges@)),
{
    let n: usize = design.cells.len();
    let register = registers(design);
    let mut edges: Vec<Vec<usize>> = Vec::new();
    for i in 0..n
        invariant
            edges@.len() == i,
            forall|k: int| 0 <= k < i ==> (#[trigger] edges@[k])@.len() == 0,
    {
        edges.push(Vec::new());
    }
    assert(edges_upto(*design, rows(edges@), 0, 0));
    for b in 0..n
        invariant
            design.wf(),
            n == design.cells@.len(),
            register@.len() == n,
            forall|i: int|
                0 <= i < n ==> #[trigger] register@[i] == is_register(*design, design.cells@[i]),
            edges_upto(*design, rows(edges@), b as int, 0),
            rising_below(rows(edges@), b as int),
    {
        let cell = &design.cells[b];
        let ghost target = CellId(b as u32);
        if cell.alive {
            for j in 0..cell.ports.len()
                invariant
                    design.wf(),
                    n == design.cells@.len(),
                    b < n,
                    *cell == design.cells@[b as int],
                    cell.alive,
                    target == CellId(b as u32),
                    register@.len() == n,
                    forall|i: int|
                        0 <= i < n ==> #[trigger] register@[i] == is_register(*design, design.cells@[i]),
                    edges_upto(*design, rows(edges@), b as int, j as int),
                    rising_below(rows(edges@), b + 1),
            {
                let p = cell.ports[j];
                assert(design.cell_ok(*cell));
                let ghost before = edges@;
                let mut source: Option<usize> = None;
                if let PortType::In = p.port_type {
                    if let Some(net_id) = p.net {
                        assert(design.valid_net(cell.ports@[j as int].net->0));
                        let net = design.net(net_id);
                        assert(design.net_ok(*net));
                        if net.clock_constraint <= 0 && net.driver.is_valid() {
                            let a: usize = net.driver.cell.0 as usize;
                            if a != b && design.cells[a].alive && !register[a] {
                                source = Some(a);
                            }
                        }
                    }
                }
                proof {
                    assert forall|a: CellId| #[trigger]
                        fed_before(*design, a, target, j + 1) <==> (fed_before(*design, a, target, j as int)
                            || source == Some(a.0 as usize)) by {
                        if fed_before(*design, a, target, j + 1) && !fed_before(*design, a, target, j as int) {
                            let k = choose|k: int| 0 <= k < j + 1 && #[trigger] feeds_port(*design, a, target, k);
                            assert(k == j);
                        }
                        if source == Some(a.0 as usize) {
                            assert(feeds_port(*design, a, target, j as int));
                        }
                        if fed_before(*design, a, target, j as int) {
                            let k = choose|k: int| 0 <= k < j && #[trigger] feeds_port(*design, a, target, k);
                            assert(feeds_port(*design, a, target, k) && k < j + 1);
                        }
                    }
                }
                if let Some(a) = source {
                    let len: usize = edges[a].len();
                    let known: bool = len > 0 && edges[a][len - 1] == b;
                    if !known {
                        edges[a].push(b);
                        proof {
                            lemma_rising_push(before, edges@, a, b);
                            lemma_edge_added(before, edges@, a, b);
                        }
                    } else {
                        proof {
                            assert(rows(before)[a as int][len - 1] == b);
                            assert(leads_to(rows(before), a, b));
                        }
                    }
                }
                proof {
                    assert forall|u: usize, v: usize| #[trigger]
                        leads_to(rows(edges@), u, v) <==> {
                            &&& u < design.cells@.len()
                            &&& v < design.cells@.len()
                            &&& if v < b {
                                feeds(*design, CellId(u as u32), CellId(v as u32))
                            } else {
                                v == b && fed_before(*design, CellId(u as u32), CellId(v as u32), j + 1)
                            }
                        } by {
                        assert(leads_to(rows(edges@), u, v) <==> leads_to(rows(before), u, v) || (source == Some(
                            u,
                        ) && v == b));
                        if u < design.cells@.len() {
                            let a = CellId(u as u32);
                            assert(a.0 as usize == u);
                            assert(fed_before(*design, a, target, j + 1) <==> (fed_before(
                                *design,
                                a,
                                target,
                                j as int,
                            ) || source == Some(a.0 as usize)));
                        }
                    }
                }
            }
        }
        proof {
            let j = cell.ports@.len() as int;
            assert forall|u: usize, v: usize| #[trigger]
                leads_to(rows(edges@), u, v) <==> {
                    &&& u < design.cells@.len()
                    &&& v < design.cells@.len()
                    &&& if v < b + 1 {
                        feeds(*design, CellId(u as u32), CellId(v as u32))
                    } else {
                        v == b + 1 && fed_before(*design, CellId(u as u32), CellId(v as u32), 0)
                    }
                } by {
                if v == b {
                    assert(fed_before(*design, CellId(u as u32), CellId(v as u32), j) <==> feeds(
                        *design,
                        CellId(u as u32),
                        CellId(v as u32),
                    ));
                }
            }
        }
    }
    edges
}

/// Orders the living cells for forward propagation: a cell comes after the cells that feed it.
/// Of the cells that may come next, the one that has waited longest does. Cells on a feedback
/// loop, and those behind one, come last, in the order of their numbers.
pub fn topological_sort(design: &Design) -> (r: Vec<CellId>)
    requires
        design.wf(),
    ensures
        exists|m: int| #[trigger] sorted_cells(*design, r@, m) && oldest_first(*design, r@, m),
{
    let n: usize = design.cells.len();
    let edges = cell_graph(design);
    let ghost g = rows(edges@);
    proof {
        assert forall|u: int, k: int| 0 <= u < g.len() && 0 <= k < g[u].len() implies #[trigger] g[u][k] < g.len() by {
            assert(leads_to(g, u as usize, g[u][k]));
        }
    }
    let order = order_graph(&edges, false);
    let mut placed: Vec<bool> = Vec::new();
    for i in 0..n
        invariant
            placed@.len() == i,
            forall|k: int| 0 <= k < i ==> #[trigger] placed@[k] == false,
    {
        placed.push(false);
    }
    let mut r: Vec<CellId> = Vec::new();
    for k in 0..order.len()
        invariant
            design.wf(),
            n == design.cells@.len(),
            g.len() == n,
            orders_graph(g, order@),
            forall|u: usize, v: usize| #[trigger]
                leads_to(g, u, v) <==> {
                    &&& u < n
                    &&& v < n
                    &&& feeds(*design, CellId(u as u32), CellId(v as u32))
                },
            placed@.len() == n,
            forall|i: int| 0 <= i < n ==> #[trigger] placed@[i] == order@.take(k as int).contains(i as usize),
            r@ == living(*design, order@, k as int),
            r@.no_duplicates(),
            forall|c: CellId| #[trigger]
                r@.contains(c) <==> design.valid_cell(c) && design.cell_of(c).alive && order@.take(
                    k as int,
                ).contains(c.0 as usize),
            forall|i: int| 0 <= i < r@.len() ==> #[trigger] after_feeders(*design, r@, i),
    {
        let v: usize = order[k];
        let ghost before = r@;
        let ghost part = order@.take(k as int);
        proof {
            assert(v < n);
            assert(order@.take(k + 1) =~= part.push(v));
            crate::timing::levels::lemma_push(part, v);
            assert(!part.contains(v)) by {
                if part.contains(v) {
                    let i = choose|i: int| 0 <= i < part.len() && part[i] == v;
                    assert(order@[i] == order@[k as int]);
                }
            }
        }
        placed.set(v, true);
        if design.cells[v].alive {
            let c = CellId(v as u32);
            assert(!before.contains(c));
            r.push(c);
            proof {
                lemma_cell_push(before, c);
                assert(after_feeders(*design, r@, before.len() as int)) by {
                    assert(r@.take(before.len() as int) =~= before);
                    assert forall|a: CellId| #[trigger] feeds(*design, a, c) implies before.contains(a) by {
                        assert(CellId(a.0 as usize as u32) == a);
                        assert(leads_to(g, a.0 as usize, v));
                        assert(crate::timing::levels::after_sources(g, order@, k as int));
                    }
                }
                assert forall|i: int| 0 <= i < r@.len() implies #[trigger] after_feeders(*design, r@, i) by {
                    if i < before.len() {
                        assert(after_feeders(*design, before, i));
                        assert(r@.take(i) =~= before.take(i));
                        assert(r@[i] == before[i]);
                    }
                }
            }
        }
        proof {
            assert forall|c: CellId| #[trigger]
                r@.contains(c) <==> design.valid_cell(c) && design.cell_of(c).alive && order@.take(k + 1).contains(
                    c.0 as usize,
                ) by {
                assert(CellId(c.0 as usize as u32) == c);
                assert(before.contains(c) <==> design.valid_cell(c) && design.cell_of(c).alive && part.contains(
                    c.0 as usize,
                ));
            }
        }
    }
    let ghost first = r@;
    let ghost m = r@.len() as int;
    proof {
        assert(order@.take(order@.len() as int) =~= order@);
        assert(first.take(m) =~= first);
    }
    for i in 0..n
        invariant
            design.wf(),
            n == design.cells@.len(),
            placed@.len() == n,
            forall|k: int| 0 <= k < n ==> #[trigger] placed@[k] == order@.contains(k as usize),
            m == first.len(),
            m <= r@.len(),
            r@.take(m) == first,
            forall|c: CellId| #[trigger]
                first.contains(c) <==> design.valid_cell(c) && design.cell_of(c).alive && order@.contains(
                    c.0 as usize,
                ),
            r@.no_duplicates(),
            forall|c: CellId| #[trigger]
                r@.contains(c) <==> design.valid_cell(c) && design.cell_of(c).alive && (order@.contains(
                    c.0 as usize,
                ) || c.0 < i),
            forall|k: int|
                m <= k < r@.len() ==> (#[trigger] r@[k]).0 < i && !order@.contains(r@[k].0 as usize),
            forall|k: int, l: int| m <= k < l < r@.len() ==> (#[trigger] r@[k]).0 < (#[trigger] r@[l]).0,
    {
        let ghost before = r@;
        if design.cells[i].alive && !placed[i] {
            let c = CellId(i as u32);
            assert(!before.contains(c));
            r.push(c);
            proof {
                lemma_cell_push(before, c);
                assert(r@.take(m) =~= before.take(m));
            }
        }
        assert forall|c: CellId| #[trigger]
            r@.contains(c) <==> design.valid_cell(c) && design.cell_of(c).alive && (order@.contains(
                c.0 as usize,
            ) || c.0 < i + 1) by {
            assert(CellId(c.0 as int as u32) == c);
            assert(before.contains(c) <==> design.valid_cell(c) && design.cell_of(c).alive && (order@.contains(
                c.0 as usize,
            ) || c.0 < i));
        }
    }
    proof {
        assert forall|i: int| 0 <= i < m implies #[trigger] after_feeders(*design, r@, i) by {
            assert(after_feeders(*design, first, i));
            assert(first[i] == r@.take(m)[i]);
            assert(r@.take(i) =~= first.take(i));
        }
        assert forall|i: int| m <= i < r@.len() implies fed_from_outside(
            *design,
            r@.take(m),
            #[trigger] r@[i],
        ) by {
            let c = r@[i];
            assert(r@.contains(c));
            let v = c.0 as usize;
            assert(!order@.contains(v));
            let u = choose|u: usize| #[trigger] leads_to(g, u, v) && !order@.contains(u);
            let a = CellId(u as u32);
            assert(CellId(v as u32) == c);
            assert(feeds(*design, a, c));
            assert(a.0 as usize == u);
            assert(!first.contains(a));
        }
        assert forall|c: CellId| #[trigger]
            r@.contains(c) <==> design.valid_cell(c) && design.cell_of(c).alive by {
            assert(design.valid_cell(c) ==> c.0 < n);
        }
        assert(sorted_cells(*design, r@, m));
        assert(in_turn(g, false, order@));
        assert(oldest_first(*design, r@, m));
    }
    r
}

/// What a list of cells holds after a push.
proof fn lemma_cell_push(s: Seq<CellId>, v: CellId)
    ensures
        forall|x: CellId| #[trigger] s.push(v).contains(x) <==> s.contains(x) || x == v,
        s.no_duplicates() && !s.contains(v) ==> s.push(v).no_duplicates(),
{
    let next = s.push(v);
    assert forall|x: CellId| #[trigger] next.contains(x) <==> s.contains(x) || x == v by {
        if s.contains(x) {
            let i = choose|i: int| 0 <= i < s.len() && s[i] == x;
            assert(next[i] == x);
        }
        if x == v {
            assert(next[s.len() as int] == v);
        }
        if next.contains(x) {
            let i = choose|i: int| 0 <= i < next.len() && next[i] == x;
            if i < s.len() {
                assert(s[i] == x);
            }
        }
    }
}

} // verus!
