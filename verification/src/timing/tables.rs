//! The timing tables of a speed grade: what the device data say of each cell type.

use crate::timing::delay::{DelayPair, DelayQuad};
use crate::timing::kinds::{ClockEdge, TimingPortClass};
use vstd::prelude::*;

verus! {

/// The times of a register at a port, relative to a clock port.
#[derive(Clone, Copy, PartialEq, Eq, Hash, Debug, Structural)]
pub struct RegArc {
    pub clock_port: i32,
    pub setup: DelayPair,
    pub hold: DelayPair,
    pub clock_to_q: DelayQuad,
    pub edge: ClockEdge,
}

/// What the tables say of a port.
pub struct PortTiming {
    pub port: i32,
    pub class: TimingPortClass,
    pub reg_arcs: Vec<RegArc>,
}

/// A delay from one port of a cell to another.
#[derive(Clone, Copy, PartialEq, Eq, Hash, Debug, Structural)]
pub struct PathDelay {
    pub from: i32,
    pub to: i32,
    pub delay: DelayQuad,
}

/// What the tables say of a cell type.
pub struct CellTiming {
    pub cell_type: i32,
    pub ports: Vec<PortTiming>,
    pub delays: Vec<PathDelay>,
}

/// The timing tables of a speed grade.
pub struct TimingTables {
    pub cells: Vec<CellTiming>,
}

/// The position of the first entry of a list for which a test holds, or the length of the list.
pub open spec fn first_index<T>(s: Seq<T>, test: spec_fn(T) -> bool) -> int
    decreases s.len(),
{
    if s.len() == 0 || test(s[0]) {
        0
    } else {
        1 + first_index(s.skip(1), test)
    }
}

/// A position whose entry passes the test, with none before it that does, is the first one.
pub proof fn lemma_first_index<T>(s: Seq<T>, test: spec_fn(T) -> bool, i: int)
    requires
        0 <= i <= s.len(),
        forall|j: int| 0 <= j < i ==> !test(#[trigger] s[j]),
        i < s.len() ==> test(s[i]),
    ensures
        first_index(s, test) == i,
    decreases s.len(),
{
    if s.len() > 0 && !test(s[0]) {
        assert(i > 0);
        let rest = s.skip(1);
        assert forall|j: int| 0 <= j < i - 1 implies !test(#[trigger] rest[j]) by {
            assert(rest[j] == s[j + 1]);
        }
        lemma_first_index(rest, test, i - 1);
    }
}

impl CellTiming {
    /// The row of a port.
    pub open spec fn port_row(self, port: i32) -> Option<PortTiming> {
        let i = first_index(self.ports@, |p: PortTiming| p.port == port);
        if i < self.ports@.len() {
            Some(self.ports@[i])
        } else {
            None
        }
    }

    /// The class of a port; combinational where the tables do not list it.
    pub open spec fn class_of(self, port: i32) -> TimingPortClass {
        match self.port_row(port) {
            Some(p) => p.class,
            None => TimingPortClass::Combinational,
        }
    }

    /// The register times at a port; none where the tables do not list it.
    pub open spec fn arcs_of(self, port: i32) -> Seq<RegArc> {
        match self.port_row(port) {
            Some(p) => p.reg_arcs@,
            None => Seq::empty(),
        }
    }

    /// The delay between two ports.
    pub open spec fn delay_of(self, from: i32, to: i32) -> Option<DelayQuad> {
        let i = first_index(self.delays@, |d: PathDelay| d.from == from && d.to == to);
        if i < self.delays@.len() {
            Some(self.delays@[i].delay)
        } else {
            None
        }
    }

    /// The class and the register times of a port.
    pub fn port(&self, port: i32) -> (r: (TimingPortClass, Vec<RegArc>))
        ensures
            r.0 == self.class_of(port),
            r.1@ == self.arcs_of(port),
    {
        let ghost test = |p: PortTiming| p.port == port;
        for i in 0..self.ports.len()
            invariant
                test == (|p: PortTiming| p.port == port),
                forall|j: int| 0 <= j < i ==> !test(#[trigger] self.ports@[j]),
        {
            if self.ports[i].port == port {
                proof {
                    assert(test(self.ports@[i as int]));
                    lemma_first_index(self.ports@, test, i as int);
                }
                let row = &self.ports[i];
                let mut arcs: Vec<RegArc> = Vec::new();
                for k in 0..row.reg_arcs.len()
                    invariant
                        arcs@ == row.reg_arcs@.take(k as int),
                {
                    arcs.push(row.reg_arcs[k]);
                    assert(row.reg_arcs@.take(k + 1) =~= row.reg_arcs@.take(k as int).push(row.reg_arcs@[k as int]));
                }
                assert(row.reg_arcs@.take(row.reg_arcs@.len() as int) =~= row.reg_arcs@);
                return (row.class, arcs);
            }
        }
        proof {
            lemma_first_index(self.ports@, test, self.ports@.len() as int);
        }
        (TimingPortClass::Combinational, Vec::new())
    }

    /// The delay between two ports.
    pub fn delay(&self, from: i32, to: i32) -> (r: Option<DelayQuad>)
        ensures
            r == self.delay_of(from, to),
    {
        let ghost test = |d: PathDelay| d.from == from && d.to == to;
        for i in 0..self.delays.len()
            invariant
                test == (|d: PathDelay| d.from == from && d.to == to),
                forall|j: int| 0 <= j < i ==> !test(#[trigger] self.delays@[j]),
        {
            if self.delays[i].from == from && self.delays[i].to == to {
                proof {
                    assert(test(self.delays@[i as int]));
                    lemma_first_index(self.delays@, test, i as int);
                }
                return Some(self.delays[i].delay);
            }
        }
        proof {
            lemma_first_index(self.delays@, test, self.delays@.len() as int);
        }
        None
    }
}

impl TimingTables {
    /// The row of a cell type.
    pub open spec fn row_of(self, cell_type: i32) -> Option<int> {
        let i = first_index(self.cells@, |c: CellTiming| c.cell_type == cell_type);
        if i < self.cells@.len() {
            Some(i)
        } else {
            None
        }
    }

    /// The row of a cell type.
    pub fn cell_timing_index(&self, cell_type: i32) -> (r: Option<usize>)
        ensures
            match r {
                Some(i) => self.row_of(cell_type) == Some(i as int) && i < self.cells@.len(),
                None => self.row_of(cell_type) is None,
            },
    {
        let ghost test = |c: CellTiming| c.cell_type == cell_type;
        for i in 0..self.cells.len()
            invariant
                test == (|c: CellTiming| c.cell_type == cell_type),
                forall|j: int| 0 <= j < i ==> !test(#[trigger] self.cells@[j]),
        {
            if self.cells[i].cell_type == cell_type {
                proof {
                    assert(test(self.cells@[i as int]));
                    lemma_first_index(self.cells@, test, i as int);
                }
                return Some(i);
            }
        }
        proof {
            lemma_first_index(self.cells@, test, self.cells@.len() as int);
        }
        None
    }
}

} // verus!
