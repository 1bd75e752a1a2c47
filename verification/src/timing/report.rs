//! The figures of a timing report.

use crate::text::{digits, padded, push_digits, push_padded};
use crate::timing::analyser::ClockNetPair;
use crate::timing::delay::{held, min_of, DelayT};
use crate::timing::domain::ClockDomain;
use crate::timing::queries::TimingAnalyser;
use crate::timing::slack::EndpointSlack;
use crate::types::id_string::{IdString, IdStringPool};
use vstd::prelude::*;

verus! {

/// The figures of one clock.
#[derive(Clone, Copy, PartialEq, Eq, Hash, Debug, Structural)]
pub struct ClockSummary {
    pub name: IdString,
    pub period_ps: DelayT,
    /// The worst slack of its endpoints; zero without endpoints.
    pub wns: DelayT,
    /// The sum of the slacks of its endpoints that fail.
    pub tns: DelayT,
    /// The number of its endpoints that fail.
    pub failing: usize,
    /// The number of its endpoints.
    pub total: usize,
}

/// The figures of a whole design.
pub struct TimingFigures {
    pub wns: DelayT,
    pub tns: DelayT,
    pub failing: usize,
    pub total: usize,
    /// The figures of each clock with a constraint; in which order is not stated.
    pub clock_summaries: Vec<ClockSummary>,
}

/// The endpoint counts: it lies in the domain of the clock, or no clock is named.
pub open spec fn counts(end: EndpointSlack, clock: Option<IdString>) -> bool {
    clock is None || end.domain.clock_net == clock->0
}

/// The number of those of the first `n` endpoints that count.
pub open spec fn end_count(ends: Seq<EndpointSlack>, clock: Option<IdString>, n: int) -> nat
    decreases n,
{
    if n <= 0 {
        0
    } else {
        end_count(ends, clock, n - 1) + if counts(ends[n - 1], clock) {
            1nat
        } else {
            0nat
        }
    }
}

/// The number of those of the first `n` endpoints that count and fail.
pub open spec fn failing_count(ends: Seq<EndpointSlack>, clock: Option<IdString>, n: int) -> nat
    decreases n,
{
    if n <= 0 {
        0
    } else {
        failing_count(ends, clock, n - 1) + if counts(ends[n - 1], clock) && ends[n - 1].slack < 0 {
            1nat
        } else {
            0nat
        }
    }
}

/// The sum of the slacks of those of the first `n` endpoints that count and fail.
pub open spec fn failing_sum(ends: Seq<EndpointSlack>, clock: Option<IdString>, n: int) -> int
    decreases n,
{
    if n <= 0 {
        0
    } else {
        failing_sum(ends, clock, n - 1) + if counts(ends[n - 1], clock) && ends[n - 1].slack < 0 {
            ends[n - 1].slack as int
        } else {
            0
        }
    }
}

/// The smallest slack of those of the first `n` endpoints that count.
pub open spec fn least_slack(ends: Seq<EndpointSlack>, clock: Option<IdString>, n: int) -> Option<DelayT>
    decreases n,
{
    if n <= 0 {
        None
    } else {
        let rest = least_slack(ends, clock, n - 1);
        if counts(ends[n - 1], clock) {
            match rest {
                Some(s) => Some(crate::timing::delay::lesser(s, ends[n - 1].slack)),
                None => Some(ends[n - 1].slack),
            }
        } else {
            rest
        }
    }
}

/// Figures of some endpoints.
struct Figures {
    least: Option<DelayT>,
    sum: DelayT,
    failing: usize,
    total: usize,
}

proof fn lemma_sum_bounds(ends: Seq<EndpointSlack>, clock: Option<IdString>, n: int)
    requires
        0 <= n <= ends.len(),
    ensures
        -n * 0x8000_0000 <= failing_sum(ends, clock, n) <= 0,
        failing_count(ends, clock, n) <= n,
        end_count(ends, clock, n) <= n,
    decreases n,
{
    if n > 0 {
        lemma_sum_bounds(ends, clock, n - 1);
    }
}

fn figures_of(ends: &Vec<EndpointSlack>, clock: Option<IdString>) -> (r: Figures)
    ensures
        r.least == least_slack(ends@, clock, ends@.len() as int),
        r.sum == held(failing_sum(ends@, clock, ends@.len() as int)),
        r.failing == failing_count(ends@, clock, ends@.len() as int),
        r.total == end_count(ends@, clock, ends@.len() as int),
{
    let mut least: Option<DelayT> = None;
    let mut sum: i128 = 0;
    let mut failing: usize = 0;
    let mut total: usize = 0;
    for i in 0..ends.len()
        invariant
            least == least_slack(ends@, clock, i as int),
            sum == failing_sum(ends@, clock, i as int),
            failing == failing_count(ends@, clock, i as int),
            total == end_count(ends@, clock, i as int),
    {
        proof {
            lemma_sum_bounds(ends@, clock, i as int);
        }
        let end = &ends[i];
        let take: bool = match clock {
            Some(name) => end.domain.clock_net == name,
            None => true,
        };
        if take {
            total = total + 1;
            least = match least {
                Some(s) => Some(min_of(s, end.slack)),
                None => Some(end.slack),
            };
            if end.slack < 0 {
                failing = failing + 1;
                sum = sum + end.slack as i128;
            }
        }
    }
    let sum: DelayT = if sum < i32::MIN as i128 {
        i32::MIN
    } else {
        proof {
            lemma_sum_bounds(ends@, clock, ends@.len() as int);
        }
        sum as i32
    };
    proof {
        lemma_sum_bounds(ends@, clock, ends@.len() as int);
    }
    Figures { least, sum, failing, total }
}

/// The figures of a clock.
pub open spec fn summary_of(ends: Seq<EndpointSlack>, name: IdString, period: DelayT) -> ClockSummary {
    let n = ends.len() as int;
    ClockSummary {
        name,
        period_ps: period,
        wns: match least_slack(ends, Some(name), n) {
            Some(s) => s,
            None => 0,
        },
        tns: held(failing_sum(ends, Some(name), n)),
        failing: failing_count(ends, Some(name), n) as usize,
        total: end_count(ends, Some(name), n) as usize,
    }
}

/// The list holds the figures of every clock with a constraint, once each.
pub open spec fn summarises(
    ends: Seq<EndpointSlack>,
    clocks: Map<IdString, DelayT>,
    list: Seq<ClockSummary>,
) -> bool {
    &&& forall|i: int|
        0 <= i < list.len() ==> clocks.contains_key((#[trigger] list[i]).name) && list[i] == summary_of(
            ends,
            list[i].name,
            clocks[list[i].name],
        )
    &&& forall|i: int, j: int| 0 <= i < j < list.len() ==> (#[trigger] list[i]).name != (#[trigger] list[j]).name
    &&& forall|c: IdString| #[trigger]
        clocks.contains_key(c) ==> exists|i: int| 0 <= i < list.len() && (#[trigger] list[i]).name == c
}

impl TimingFigures {
    /// The figures of what an analyser found.
    pub fn from_analyser(analyser: &TimingAnalyser) -> (r: Self)
        ensures
            r.wns == analyser.results.slack.worst_slack,
            r.tns == held(
                failing_sum(
                    analyser.results.slack.endpoints@,
                    None,
                    analyser.results.slack.endpoints@.len() as int,
                ),
            ),
            r.failing == failing_count(
                analyser.results.slack.endpoints@,
                None,
                analyser.results.slack.endpoints@.len() as int,
            ),
            r.total == analyser.results.slack.endpoints@.len(),
            summarises(
                analyser.results.slack.endpoints@,
                analyser.clock_constraints@,
                r.clock_summaries@,
            ),
    {
        let ends = &analyser.results.slack.endpoints;
        let clocks = &analyser.clock_constraints;
        let all = figures_of(ends, None);
        let names = clocks.keys();
        let mut list: Vec<ClockSummary> = Vec::new();
        for i in 0..names.len()
            invariant
                ends == &analyser.results.slack.endpoints,
                clocks == &analyser.clock_constraints,
                names@.no_duplicates(),
                forall|c: IdString| #[trigger] names@.contains(c) <==> clocks@.contains_key(c),
                list@.len() == i,
                forall|k: int|
                    0 <= k < i ==> (#[trigger] list@[k]).name == names@[k] && list@[k] == summary_of(
                        ends@,
                        names@[k],
                        clocks@[names@[k]],
                    ),
        {
            let name: IdString = names[i];
            assert(names@.contains(name));
            let period: DelayT = match clocks.get(name) {
                Some(p) => *p,
                None => 0,
            };
            let own = figures_of(ends, Some(name));
            list.push(
                ClockSummary {
                    name,
                    period_ps: period,
                    wns: match own.least {
                        Some(s) => s,
                        None => 0,
                    },
                    tns: own.sum,
                    failing: own.failing,
                    total: own.total,
                },
            );
        }
        proof {
            assert forall|i: int| 0 <= i < list@.len() implies clocks@.contains_key((#[trigger] list@[i]).name) by {
                assert(names@.contains(names@[i]));
            }
            assert forall|i: int, j: int| 0 <= i < j < list@.len() implies (#[trigger] list@[i]).name != (
            #[trigger] list@[j]).name by {
                assert(names@[i] != names@[j]);
            }
            assert forall|c: IdString| #[trigger] clocks@.contains_key(c) implies exists|i: int|
                0 <= i < list@.len() && (#[trigger] list@[i]).name == c by {
                assert(names@.contains(c));
                let k = choose|k: int| 0 <= k < names@.len() && names@[k] == c;
                assert(list@[k].name == c);
            }
        }
        TimingFigures {
            wns: analyser.results.slack.worst_slack,
            tns: all.sum,
            failing: all.failing,
            total: ends.len(),
            clock_summaries: list,
        }
    }
}

/// How two clock domains relate.
#[derive(Clone, Copy, PartialEq, Eq, Hash, Debug, Structural)]
pub enum CrossStatus {
    /// The delay between the clocks is known.
    Related,
    /// Both domains have one clock.
    SameClock,
    /// Nothing relates the clocks.
    Unrelated,
}

impl CrossStatus {
    /// The words that reports use.
    pub fn label(self) -> (s: &'static str)
        ensures
            s@ == status_text(self),
    {
        match self {
            CrossStatus::Related => "Constrained (related)",
            CrossStatus::SameClock => "Same clock",
            CrossStatus::Unrelated => "Unconstrained (async)",
        }
    }
}

/// Two clock domains and how they relate.
#[derive(Clone, Copy, PartialEq, Eq, Hash, Debug, Structural)]
pub struct CrossRow {
    pub from: IdString,
    pub to: IdString,
    pub status: CrossStatus,
}

/// How two clock domains relate.
pub open spec fn status_of(delays: Map<ClockNetPair, DelayT>, launch: ClockDomain, capture: ClockDomain) -> CrossStatus {
    if delays.contains_key(ClockNetPair { from: launch.clock_net, to: capture.clock_net }) {
        CrossStatus::Related
    } else if launch.clock_net == capture.clock_net {
        CrossStatus::SameClock
    } else {
        CrossStatus::Unrelated
    }
}

/// The rows for domain `i` and the first `k` domains: one for each other domain with a clock,
/// where the domain itself has one.
pub open spec fn cross_rows_of(
    domains: Seq<ClockDomain>,
    delays: Map<ClockNetPair, DelayT>,
    i: int,
    k: int,
) -> Seq<CrossRow>
    decreases k,
{
    if k <= 0 {
        Seq::empty()
    } else {
        let rest = cross_rows_of(domains, delays, i, k - 1);
        if domains[i].clocked() && domains[k - 1].clocked() && i != k - 1 {
            rest.push(
                CrossRow {
                    from: domains[i].clock_net,
                    to: domains[k - 1].clock_net,
                    status: status_of(delays, domains[i], domains[k - 1]),
                },
            )
        } else {
            rest
        }
    }
}

/// The rows for the first `n` domains.
pub open spec fn cross_rows(domains: Seq<ClockDomain>, delays: Map<ClockNetPair, DelayT>, n: int) -> Seq<CrossRow>
    decreases n,
{
    if n <= 0 {
        Seq::empty()
    } else {
        cross_rows(domains, delays, n - 1) + cross_rows_of(domains, delays, n - 1, domains.len() as int)
    }
}

/// How every two clock domains relate.
pub fn cross_domain_rows(analyser: &TimingAnalyser) -> (r: Vec<CrossRow>)
    ensures
        r@ == cross_rows(
            analyser.domains.registry.domains@,
            analyser.clock_delays@,
            analyser.domains.registry.domains@.len() as int,
        ),
{
    let domains = &analyser.domains.registry.domains;
    let delays = &analyser.clock_delays;
    let mut r: Vec<CrossRow> = Vec::new();
    for i in 0..domains.len()
        invariant
            r@ == cross_rows(domains@, delays@, i as int),
    {
        let launch: ClockDomain = domains[i];
        let ghost before = r@;
        for k in 0..domains.len()
            invariant
                i < domains@.len(),
                launch == domains@[i as int],
                r@ =~= before + cross_rows_of(domains@, delays@, i as int, k as int),
        {
            let capture: ClockDomain = domains[k];
            if launch.is_clocked() && capture.is_clocked() && i != k {
                let status: CrossStatus = if delays.contains_key(
                    ClockNetPair { from: launch.clock_net, to: capture.clock_net },
                ) {
                    CrossStatus::Related
                } else if launch.clock_net == capture.clock_net {
                    CrossStatus::SameClock
                } else {
                    CrossStatus::Unrelated
                };
                r.push(CrossRow { from: launch.clock_net, to: capture.clock_net, status });
            }
        }
    }
    r
}

/// How wide the columns with the names of clocks are.
pub const NAME_WIDTH: usize = 20;

/// The words for a status.
pub open spec fn status_text(status: CrossStatus) -> Seq<char> {
    match status {
        CrossStatus::Related => "Constrained (related)"@,
        CrossStatus::SameClock => "Same clock"@,
        CrossStatus::Unrelated => "Unconstrained (async)"@,
    }
}

/// A name; a question mark for one that is not in the pool.
pub open spec fn clock_text(pool: IdStringPool, id: IdString) -> Seq<char> {
    if 0 <= id.0 < pool@.len() {
        pool@[id.0 as int]
    } else {
        "?"@
    }
}

/// A line of three columns.
pub open spec fn columns(a: Seq<char>, b: Seq<char>, c: Seq<char>) -> Seq<char> {
    padded(a, NAME_WIDTH as nat) + " "@ + padded(b, NAME_WIDTH as nat) + " "@ + c + "\n"@
}

/// The lines of the first `n` rows.
pub open spec fn rows_text(pool: IdStringPool, rows: Seq<CrossRow>, n: int) -> Seq<char>
    decreases n,
{
    if n <= 0 {
        Seq::empty()
    } else {
        let row = rows[n - 1];
        rows_text(pool, rows, n - 1) + columns(
            clock_text(pool, row.from),
            clock_text(pool, row.to),
            status_text(row.status),
        )
    }
}

fn push_columns(out: &mut String, a: &str, b: &str, c: &str)
    ensures
        final(out)@ == old(out)@ + columns(a@, b@, c@),
{
    push_padded(out, a, NAME_WIDTH);
    out.append(" ");
    push_padded(out, b, NAME_WIDTH);
    out.append(" ");
    out.append(c);
    out.append("\n");
    assert(out@ =~= old(out)@ + columns(a@, b@, c@));
}

fn clock_name(pool: &IdStringPool, id: IdString) -> (r: &str)
    ensures
        r@ == clock_text(*pool, id),
{
    match pool.lookup(id) {
        Some(s) => s,
        None => "?",
    }
}

/// How the clock domains relate, as text: a title, the heads of the columns, and a line for each
/// two domains with clocks.
pub fn format_cross_domain_report(analyser: &TimingAnalyser, pool: &IdStringPool) -> (r: String)
    ensures
        ({
            let domains = analyser.domains.registry.domains@;
            let rows = cross_rows(domains, analyser.clock_delays@, domains.len() as int);
            r@ == "Cross-Domain Paths\n"@ + columns("From Clock"@, "To Clock"@, "Status"@) + rows_text(
                *pool,
                rows,
                rows.len() as int,
            )
        }),
{
    let mut s = String::new();
    s.append("Cross-Domain Paths\n");
    push_columns(&mut s, "From Clock", "To Clock", "Status");
    let ghost start = s@;
    assert(start =~= "Cross-Domain Paths\n"@ + columns("From Clock"@, "To Clock"@, "Status"@));
    let rows = cross_domain_rows(analyser);
    assert(s@ =~= start + rows_text(*pool, rows@, 0));
    for i in 0..rows.len()
        invariant
            s@ == start + rows_text(*pool, rows@, i as int),
    {
        let row: CrossRow = rows[i];
        push_columns(&mut s, clock_name(pool, row.from), clock_name(pool, row.to), row.status.label());
        assert(s@ =~= start + rows_text(*pool, rows@, i + 1));
    }
    s
}

/// How many constraints of each kind there are, as text.
pub fn format_constraint_coverage(analyser: &TimingAnalyser) -> (r: String)
    ensures
        r@ == "Constraint Coverage\nClocks defined:     "@ + digits(analyser.clock_constraints@.dom().len())
            + "\nInput delays:       "@ + digits(analyser.sdc.input_delays@.len()) + "\nOutput delays:      "@
            + digits(analyser.sdc.output_delays@.len()) + "\nFalse paths:        "@ + digits(
            analyser.sdc.false_paths@.len(),
        ) + "\nMulticycle paths:   "@ + digits(analyser.sdc.multicycle_paths@.len()) + "\n"@,
{
    let mut s = String::new();
    s.append("Constraint Coverage\nClocks defined:     ");
    push_digits(&mut s, analyser.clock_constraints.len() as u64);
    s.append("\nInput delays:       ");
    push_digits(&mut s, analyser.sdc.input_delays.len() as u64);
    s.append("\nOutput delays:      ");
    push_digits(&mut s, analyser.sdc.output_delays.len() as u64);
    s.append("\nFalse paths:        ");
    push_digits(&mut s, analyser.sdc.false_paths.len() as u64);
    s.append("\nMulticycle paths:   ");
    push_digits(&mut s, analyser.sdc.multicycle_paths.len() as u64);
    s.append("\n");
    assert(s@ =~= "Constraint Coverage\nClocks defined:     "@ + digits(
        analyser.clock_constraints@.dom().len(),
    ) + "\nInput delays:       "@ + digits(analyser.sdc.input_delays@.len()) + "\nOutput delays:      "@
        + digits(analyser.sdc.output_delays@.len()) + "\nFalse paths:        "@ + digits(
        analyser.sdc.false_paths@.len(),
    ) + "\nMulticycle paths:   "@ + digits(analyser.sdc.multicycle_paths@.len()) + "\n"@);
    s
}

} // verus!
