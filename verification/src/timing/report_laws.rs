//! How the figures of a timing report add up.

use crate::timing::delay::DelayT;
use crate::timing::domain::ClockDomain;
use crate::timing::report::{cross_rows, cross_rows_of, end_count, failing_count, failing_sum, least_slack, CrossRow};
use crate::timing::analyser::ClockNetPair;
use crate::timing::slack::EndpointSlack;
use crate::types::id_string::IdString;
use vstd::prelude::*;

verus! {

/// The endpoint is one of the clock; of any where none is named.
pub open spec fn of_clock(e: EndpointSlack, clock: Option<IdString>) -> bool {
    match clock {
        Some(name) => e.domain.clock_net == name,
        None => true,
    }
}

/// What an endpoint of the clock lacks: its slack where it is negative, else nothing.
pub open spec fn lack(clock: Option<IdString>) -> spec_fn(int, EndpointSlack) -> int {
    |sum: int, e: EndpointSlack|
        if of_clock(e, clock) && e.slack < 0 {
            sum + e.slack
        } else {
            sum
        }
}

proof fn lemma_figures(ends: Seq<EndpointSlack>, clock: Option<IdString>, n: int)
    requires
        0 <= n <= ends.len(),
    ensures
        failing_sum(ends, clock, n) == ends.take(n).fold_left(0, lack(clock)),
        failing_count(ends, clock, n) == ends.take(n).filter(
            |e: EndpointSlack| of_clock(e, clock) && e.slack < 0,
        ).len(),
        end_count(ends, clock, n) == ends.take(n).filter(|e: EndpointSlack| of_clock(e, clock)).len(),
        forall|i: int|
            0 <= i < n && of_clock(#[trigger] ends[i], clock) ==> least_slack(ends, clock, n) is Some
                && least_slack(ends, clock, n)->0 <= ends[i].slack,
        least_slack(ends, clock, n) is Some ==> exists|i: int|
            0 <= i < n && of_clock(#[trigger] ends[i], clock) && ends[i].slack == least_slack(ends, clock, n)->0,
    decreases n,
{
    let failing = |e: EndpointSlack| of_clock(e, clock) && e.slack < 0;
    let own = |e: EndpointSlack| of_clock(e, clock);
    if n > 0 {
        lemma_figures(ends, clock, n - 1);
        let part = ends.take(n - 1);
        let e = ends[n - 1];
        assert(ends.take(n) =~= part.push(e));
        assert(ends.take(n).drop_last() =~= part);
        part.lemma_filter_len_push(failing, e);
        part.lemma_filter_len_push(own, e);
        if least_slack(ends, clock, n) is Some {
            if least_slack(ends, clock, n - 1) == least_slack(ends, clock, n) {
                let i = choose|i: int|
                    0 <= i < n - 1 && of_clock(#[trigger] ends[i], clock) && ends[i].slack == least_slack(
                        ends,
                        clock,
                        n - 1,
                    )->0;
                assert(of_clock(ends[i], clock));
            } else {
                assert(of_clock(ends[n - 1], clock));
            }
        }
    } else {
        assert(ends.take(n) =~= Seq::<EndpointSlack>::empty());
        ends.take(n).lemma_filter_len(failing);
        ends.take(n).lemma_filter_len(own);
    }
}

/// The sum of what the endpoints lack is taken over all of them, each with its own slack where it
/// is negative; the counts are of all endpoints and of those that fail; and the least slack is not
/// above that of any endpoint and is that of one.
pub proof fn figures_take_in_every_endpoint(ends: Seq<EndpointSlack>, clock: Option<IdString>)
    ensures
        ({
            let n = ends.len() as int;
            &&& failing_sum(ends, clock, n) == ends.fold_left(0, lack(clock))
            &&& failing_count(ends, clock, n) == ends.filter(
                |e: EndpointSlack| of_clock(e, clock) && e.slack < 0,
            ).len()
            &&& end_count(ends, clock, n) == ends.filter(|e: EndpointSlack| of_clock(e, clock)).len()
            &&& forall|i: int|
                0 <= i < n && of_clock(#[trigger] ends[i], clock) ==> least_slack(ends, clock, n) is Some
                    && least_slack(ends, clock, n)->0 <= ends[i].slack
            &&& least_slack(ends, clock, n) is Some ==> exists|i: int|
                0 <= i < n && of_clock(#[trigger] ends[i], clock) && ends[i].slack == least_slack(
                    ends,
                    clock,
                    n,
                )->0
        }),
{
    lemma_figures(ends, clock, ends.len() as int);
    assert(ends.take(ends.len() as int) =~= ends);
}

proof fn lemma_prefix(ends: Seq<EndpointSlack>, more: Seq<EndpointSlack>, clock: Option<IdString>, n: int)
    requires
        0 <= n <= ends.len(),
    ensures
        failing_sum(ends + more, clock, n) == failing_sum(ends, clock, n),
        failing_count(ends + more, clock, n) == failing_count(ends, clock, n),
        end_count(ends + more, clock, n) == end_count(ends, clock, n),
    decreases n,
{
    if n > 0 {
        lemma_prefix(ends, more, clock, n - 1);
        assert((ends + more)[n - 1] == ends[n - 1]);
    }
}

proof fn lemma_added(a: Seq<EndpointSlack>, b: Seq<EndpointSlack>, clock: Option<IdString>, k: int)
    requires
        0 <= k <= b.len(),
    ensures
        failing_sum(a + b, clock, a.len() + k) == failing_sum(a, clock, a.len() as int) + failing_sum(b, clock, k),
        failing_count(a + b, clock, a.len() + k) == failing_count(a, clock, a.len() as int) + failing_count(
            b,
            clock,
            k,
        ),
        end_count(a + b, clock, a.len() + k) == end_count(a, clock, a.len() as int) + end_count(b, clock, k),
    decreases k,
{
    if k > 0 {
        lemma_added(a, b, clock, k - 1);
        assert((a + b)[a.len() + k - 1] == b[k - 1]);
    } else {
        lemma_prefix(a, b, clock, a.len() as int);
    }
}

/// The figures of two lists of endpoints add up to those of both together, and one endpoint more
/// adds its slack where it is of the clock and fails.
pub proof fn figures_add_up(a: Seq<EndpointSlack>, b: Seq<EndpointSlack>, e: EndpointSlack, clock: Option<IdString>)
    ensures
        failing_sum(a + b, clock, (a + b).len() as int) == failing_sum(a, clock, a.len() as int) + failing_sum(
            b,
            clock,
            b.len() as int,
        ),
        failing_count(a + b, clock, (a + b).len() as int) == failing_count(a, clock, a.len() as int)
            + failing_count(b, clock, b.len() as int),
        end_count(a + b, clock, (a + b).len() as int) == end_count(a, clock, a.len() as int) + end_count(
            b,
            clock,
            b.len() as int,
        ),
        of_clock(e, clock) && e.slack < 0 ==> failing_sum(a.push(e), clock, a.len() as int + 1) == failing_sum(
            a,
            clock,
            a.len() as int,
        ) + e.slack && failing_count(a.push(e), clock, a.len() as int + 1) == failing_count(a, clock, a.len() as int) + 1,
        !(of_clock(e, clock) && e.slack < 0) ==> failing_sum(a.push(e), clock, a.len() as int + 1) == failing_sum(
            a,
            clock,
            a.len() as int,
        ) && failing_count(a.push(e), clock, a.len() as int + 1) == failing_count(a, clock, a.len() as int),
{
    lemma_added(a, b, clock, b.len() as int);
    let one = seq![e];
    lemma_added(a, one, clock, 1);
    assert(a + one =~= a.push(e));
    reveal_with_fuel(failing_sum, 2);
    reveal_with_fuel(failing_count, 2);
}

/// The row tells how two different domains with clocks relate: by a known delay between their
/// clocks, by the same clock, or not at all.
pub open spec fn relates(
    domains: Seq<ClockDomain>,
    delays: Map<ClockNetPair, DelayT>,
    i: int,
    k: int,
    row: CrossRow,
) -> bool {
    &&& 0 <= i < domains.len()
    &&& 0 <= k < domains.len()
    &&& i != k
    &&& domains[i].clock_net.0 != 0
    &&& domains[k].clock_net.0 != 0
    &&& row.from == domains[i].clock_net
    &&& row.to == domains[k].clock_net
    &&& row.status is Related <==> delays.contains_key(
        ClockNetPair { from: domains[i].clock_net, to: domains[k].clock_net },
    )
    &&& row.status is SameClock <==> !(row.status is Related) && domains[i].clock_net == domains[k].clock_net
}

proof fn lemma_rows_of(domains: Seq<ClockDomain>, delays: Map<ClockNetPair, DelayT>, i: int, n: int)
    requires
        0 <= i < domains.len(),
        0 <= n <= domains.len(),
    ensures
        forall|k: int|
            0 <= k < n && k != i && domains[i].clock_net.0 != 0 && (#[trigger] domains[k]).clock_net.0 != 0
                ==> exists|x: int|
                0 <= x < cross_rows_of(domains, delays, i, n).len() && relates(
                    domains,
                    delays,
                    i,
                    k,
                    #[trigger] cross_rows_of(domains, delays, i, n)[x],
                ),
        forall|x: int|
            0 <= x < cross_rows_of(domains, delays, i, n).len() ==> some_relates(
                domains,
                delays,
                i,
                #[trigger] cross_rows_of(domains, delays, i, n)[x],
            ),
    decreases n,
{
    let all = cross_rows_of(domains, delays, i, n);
    if n > 0 {
        lemma_rows_of(domains, delays, i, n - 1);
        let before = cross_rows_of(domains, delays, i, n - 1);
        assert forall|k: int|
            0 <= k < n && k != i && domains[i].clock_net.0 != 0 && (#[trigger] domains[k]).clock_net.0
                != 0 implies exists|x: int| 0 <= x < all.len() && relates(domains, delays, i, k, #[trigger] all[x]) by {
            if k < n - 1 {
                let x = choose|x: int|
                    0 <= x < before.len() && relates(domains, delays, i, k, #[trigger] before[x]);
                assert(all[x] == before[x]);
            } else {
                assert(relates(domains, delays, i, k, all[before.len() as int]));
            }
        }
        assert forall|x: int| 0 <= x < all.len() implies some_relates(domains, delays, i, #[trigger] all[x]) by {
            if x < before.len() {
                assert(all[x] == before[x]);
                assert(some_relates(domains, delays, i, before[x]));
            } else {
                assert(relates(domains, delays, i, n - 1, all[x]));
            }
        }
    }
}

spec fn some_relates(domains: Seq<ClockDomain>, delays: Map<ClockNetPair, DelayT>, i: int, row: CrossRow) -> bool {
    exists|k: int| relates(domains, delays, i, k, row)
}

/// The row relates two of the domains.
pub open spec fn is_row(domains: Seq<ClockDomain>, delays: Map<ClockNetPair, DelayT>, row: CrossRow) -> bool {
    exists|i: int, k: int| #[trigger] relates(domains, delays, i, k, row)
}

proof fn lemma_rows(domains: Seq<ClockDomain>, delays: Map<ClockNetPair, DelayT>, n: int)
    requires
        0 <= n <= domains.len(),
    ensures
        forall|i: int, k: int|
            #![trigger domains[i], domains[k]]
            0 <= i < n && 0 <= k < domains.len() && k != i && domains[i].clock_net.0 != 0
                && domains[k].clock_net.0 != 0 ==> exists|x: int|
                0 <= x < cross_rows(domains, delays, n).len() && relates(
                    domains,
                    delays,
                    i,
                    k,
                    #[trigger] cross_rows(domains, delays, n)[x],
                ),
        forall|x: int|
            0 <= x < cross_rows(domains, delays, n).len() ==> is_row(
                domains,
                delays,
                #[trigger] cross_rows(domains, delays, n)[x],
            ),
    decreases n,
{
    let all = cross_rows(domains, delays, n);
    if n > 0 {
        lemma_rows(domains, delays, n - 1);
        lemma_rows_of(domains, delays, n - 1, domains.len() as int);
        let before = cross_rows(domains, delays, n - 1);
        let own = cross_rows_of(domains, delays, n - 1, domains.len() as int);
        assert forall|i: int, k: int|
            #![trigger domains[i], domains[k]]
            0 <= i < n && 0 <= k < domains.len() && k != i && domains[i].clock_net.0 != 0
                && domains[k].clock_net.0 != 0 implies exists|x: int|
            0 <= x < all.len() && relates(domains, delays, i, k, #[trigger] all[x]) by {
            if i < n - 1 {
                let x = choose|x: int|
                    0 <= x < before.len() && relates(domains, delays, i, k, #[trigger] before[x]);
                assert(all[x] == before[x]);
            } else {
                let x = choose|x: int| 0 <= x < own.len() && relates(domains, delays, i, k, #[trigger] own[x]);
                assert(all[before.len() + x] == own[x]);
            }
        }
        assert forall|x: int| 0 <= x < all.len() implies is_row(domains, delays, #[trigger] all[x]) by {
            if x < before.len() {
                assert(all[x] == before[x]);
                assert(is_row(domains, delays, before[x]));
            } else {
                let y = x - before.len();
                assert(all[x] == own[y]);
                assert(some_relates(domains, delays, n - 1, own[y]));
                let i = n - 1;
                let row = own[y];
                let k = choose|k: int| #[trigger] relates(domains, delays, i, k, row);
                assert(relates(domains, delays, i, k, all[x]));
            }
        }
    }
}

/// There is a row for every two different domains with clocks, in both directions, and no other.
pub proof fn every_two_domains_have_a_row(domains: Seq<ClockDomain>, delays: Map<ClockNetPair, DelayT>)
    ensures
        ({
            let rows = cross_rows(domains, delays, domains.len() as int);
            &&& forall|i: int, k: int|
                #![trigger domains[i], domains[k]]
                0 <= i < domains.len() && 0 <= k < domains.len() && k != i && domains[i].clock_net.0 != 0
                    && domains[k].clock_net.0 != 0 ==> exists|x: int|
                    0 <= x < rows.len() && relates(domains, delays, i, k, #[trigger] rows[x])
            &&& forall|x: int| 0 <= x < rows.len() ==> is_row(domains, delays, #[trigger] rows[x])
        }),
{
    lemma_rows(domains, delays, domains.len() as int);
}

} // verus!
