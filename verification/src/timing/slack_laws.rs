//! What the slacks of a design say of its pins and nets.

use crate::netlist::{CellId, CellPin, Design, NetId};
use crate::timing::analyser::{Hop, PerDomain, PortFacts};
use crate::timing::delay::DelayT;
use crate::timing::domain::ClockDomain;
use crate::timing::slack::{
    endpoints_of, endpoints_of_cell, least_of, least_slacks, net_range, nets_range, reports_slack, slack_at,
    slacks_of, users_range, worst_is_least, NetSlacks, SlackRange, SlackReport,
};
use vstd::prelude::*;

verus! {

/// The value is the difference, or the end of the range of delays that is nearest to it.
pub open spec fn is_difference(d: DelayT, due: int, arrived: int) -> bool {
    &&& i32::MIN <= due - arrived <= i32::MAX ==> d == due - arrived
    &&& due - arrived > i32::MAX ==> d == i32::MAX
    &&& due - arrived < i32::MIN ==> d == i32::MIN
}

/// Port `j` of cell `i` is a register input of a living cell that has an arrival and a required time.
pub open spec fn ends_at(
    design: Design,
    ports: Map<CellPin, PortFacts>,
    arrived: Map<CellPin, DelayT>,
    due: Map<CellPin, DelayT>,
    i: int,
    j: int,
) -> bool {
    let cell = design.cells@[i];
    let pin = CellPin { cell: CellId(i as u32), port: cell.ports@[j].name };
    &&& 0 <= i < design.cells@.len()
    &&& cell.alive
    &&& 0 <= j < cell.ports@.len()
    &&& ports.contains_key(pin)
    &&& ports[pin].port_class is RegisterInput
    &&& arrived.contains_key(pin)
    &&& due.contains_key(pin)
}

/// The pin is one of those where paths end.
pub open spec fn end_pin(
    design: Design,
    ports: Map<CellPin, PortFacts>,
    arrived: Map<CellPin, DelayT>,
    due: Map<CellPin, DelayT>,
    n: int,
    pin: CellPin,
) -> bool {
    exists|i: int, j: int|
        i < n && #[trigger] ends_at(design, ports, arrived, due, i, j) && pin == (CellPin {
            cell: CellId(i as u32),
            port: design.cells@[i].ports@[j].name,
        })
}

proof fn lemma_cell_ends(
    design: Design,
    ports: Map<CellPin, PortFacts>,
    arrived: Map<CellPin, DelayT>,
    due: Map<CellPin, DelayT>,
    i: int,
    m: int,
    pin: CellPin,
)
    requires
        0 <= i < design.cells@.len() < u32::MAX,
        0 <= m <= design.cells@[i].ports@.len(),
        design.cells@[i].alive,
    ensures
        endpoints_of_cell(design, ports, arrived, due, CellId(i as u32), m).contains(pin) <==> exists|j: int|
            j < m && #[trigger] ends_at(design, ports, arrived, due, i, j) && pin == (CellPin {
                cell: CellId(i as u32),
                port: design.cells@[i].ports@[j].name,
            }),
    decreases m,
{
    let all = endpoints_of_cell(design, ports, arrived, due, CellId(i as u32), m);
    if m > 0 {
        lemma_cell_ends(design, ports, arrived, due, i, m - 1, pin);
        let before = endpoints_of_cell(design, ports, arrived, due, CellId(i as u32), m - 1);
        let here = CellPin { cell: CellId(i as u32), port: design.cells@[i].ports@[m - 1].name };
        if before.contains(pin) {
            let k = choose|k: int| 0 <= k < before.len() && before[k] == pin;
            assert(all[k] == pin);
        }
        if ends_at(design, ports, arrived, due, i, m - 1) {
            assert(all.last() == here);
        }
        if all.contains(pin) && !before.contains(pin) {
            let k = choose|k: int| 0 <= k < all.len() && all[k] == pin;
            if k < before.len() {
                assert(before[k] == pin);
            }
            assert(ends_at(design, ports, arrived, due, i, m - 1));
        }
    }
}

proof fn lemma_ends(
    design: Design,
    ports: Map<CellPin, PortFacts>,
    arrived: Map<CellPin, DelayT>,
    due: Map<CellPin, DelayT>,
    n: int,
    pin: CellPin,
)
    requires
        0 <= n <= design.cells@.len() < u32::MAX,
    ensures
        endpoints_of(design, ports, arrived, due, n).contains(pin) <==> end_pin(
            design,
            ports,
            arrived,
            due,
            n,
            pin,
        ),
    decreases n,
{
    let all = endpoints_of(design, ports, arrived, due, n);
    if n > 0 {
        lemma_ends(design, ports, arrived, due, n - 1, pin);
        let before = endpoints_of(design, ports, arrived, due, n - 1);
        let cell = design.cells@[n - 1];
        if end_pin(design, ports, arrived, due, n - 1, pin) {
            let (i, j) = choose|i: int, j: int|
                i < n - 1 && #[trigger] ends_at(design, ports, arrived, due, i, j) && pin == (CellPin {
                    cell: CellId(i as u32),
                    port: design.cells@[i].ports@[j].name,
                });
            assert(ends_at(design, ports, arrived, due, i, j) && i < n);
            let k = choose|k: int| 0 <= k < before.len() && before[k] == pin;
            assert(all[k] == pin);
        }
        if cell.alive {
            let m = cell.ports@.len() as int;
            lemma_cell_ends(design, ports, arrived, due, n - 1, m, pin);
            let own = endpoints_of_cell(design, ports, arrived, due, CellId((n - 1) as u32), m);
            if own.contains(pin) {
                let k = choose|k: int| 0 <= k < own.len() && own[k] == pin;
                assert(all[before.len() + k] == pin);
            }
            if all.contains(pin) && !before.contains(pin) {
                let k = choose|k: int| 0 <= k < all.len() && all[k] == pin;
                if k < before.len() {
                    assert(before[k] == pin);
                } else {
                    assert(own[k - before.len()] == pin);
                }
            }
        }
        if end_pin(design, ports, arrived, due, n, pin) && !end_pin(design, ports, arrived, due, n - 1, pin) {
            let (i, j) = choose|i: int, j: int|
                i < n && #[trigger] ends_at(design, ports, arrived, due, i, j) && pin == (CellPin {
                    cell: CellId(i as u32),
                    port: design.cells@[i].ports@[j].name,
                });
            assert(i == n - 1);
        }
    }
}

/// The endpoints of a report are exactly the register inputs of living cells with an arrival and a
/// required time, each with what is left between the two; the worst slack is not above any of them
/// and is one of them, or zero if there are none.
pub proof fn reports_tell_every_endpoint(
    design: Design,
    ports: Map<CellPin, PortFacts>,
    arrived: Map<CellPin, DelayT>,
    due: Map<CellPin, DelayT>,
    hops: Map<CellPin, Hop>,
    domains: Seq<ClockDomain>,
    per_domain: Seq<PerDomain>,
    limit: int,
    r: SlackReport,
)
    requires
        design.wf(),
        reports_slack(design, ports, arrived, due, hops, domains, per_domain, limit, r),
    ensures
        forall|i: int, j: int| #[trigger]
            ends_at(design, ports, arrived, due, i, j) ==> exists|k: int|
                0 <= k < r.endpoints@.len() && (#[trigger] r.endpoints@[k]).pin == (CellPin {
                    cell: CellId(i as u32),
                    port: design.cells@[i].ports@[j].name,
                }),
        forall|k: int|
            0 <= k < r.endpoints@.len() ==> {
                let e = #[trigger] r.endpoints@[k];
                &&& end_pin(design, ports, arrived, due, design.cells@.len() as int, e.pin)
                &&& is_difference(e.slack, due[e.pin] as int, arrived[e.pin] as int)
                &&& r.worst_slack <= e.slack
            },
        r.endpoints@.len() == 0 ==> r.worst_slack == 0,
        r.worst_slack == 0 || exists|k: int|
            0 <= k < r.endpoints@.len() && (#[trigger] r.endpoints@[k]).slack == r.worst_slack,
        r.worst_setup_slack == r.worst_slack,
        r.worst_hold_slack == 0,
{
    let n = design.cells@.len() as int;
    let pins = endpoints_of(design, ports, arrived, due, n);
    let slacks = slacks_of(arrived, due, pins);
    worst_is_least(slacks, slacks.len() as int);
    assert forall|i: int, j: int| #[trigger] ends_at(design, ports, arrived, due, i, j) implies exists|k: int|
        0 <= k < r.endpoints@.len() && (#[trigger] r.endpoints@[k]).pin == (CellPin {
            cell: CellId(i as u32),
            port: design.cells@[i].ports@[j].name,
        }) by {
        let pin = CellPin { cell: CellId(i as u32), port: design.cells@[i].ports@[j].name };
        lemma_ends(design, ports, arrived, due, n, pin);
        assert(end_pin(design, ports, arrived, due, n, pin));
        let k = choose|k: int| 0 <= k < pins.len() && pins[k] == pin;
        assert(r.endpoints@[k].pin == pin);
    }
    assert forall|k: int| 0 <= k < r.endpoints@.len() implies ({
        let e = #[trigger] r.endpoints@[k];
        &&& end_pin(design, ports, arrived, due, n, e.pin)
        &&& is_difference(e.slack, due[e.pin] as int, arrived[e.pin] as int)
        &&& r.worst_slack <= e.slack
    }) by {
        assert(r.endpoints@[k].pin == pins[k]);
        assert(pins.contains(pins[k]));
        lemma_ends(design, ports, arrived, due, n, pins[k]);
        assert(slacks[k] == slack_at(arrived, due, pins[k]));
        assert(least_of(slacks, slacks.len() as int) <= slacks[k]);
    }
    if r.worst_slack != 0 {
        let k = choose|k: int|
            0 <= k < slacks.len() && #[trigger] slacks[k] == least_of(slacks, slacks.len() as int);
        assert(r.endpoints@[k].slack == slacks[k]);
    }
}

/// The slack is what is left at the pin; a time that is missing counts as zero.
pub open spec fn slack_is(
    arrived: Map<CellPin, DelayT>,
    due: Map<CellPin, DelayT>,
    pin: CellPin,
    s: DelayT,
) -> bool {
    is_difference(
        s,
        if due.contains_key(pin) {
            due[pin] as int
        } else {
            0
        },
        if arrived.contains_key(pin) {
            arrived[pin] as int
        } else {
            0
        },
    )
}

/// User `j` of net `n`, which is living, names a cell and has the slack.
pub open spec fn user_slack(
    design: Design,
    arrived: Map<CellPin, DelayT>,
    due: Map<CellPin, DelayT>,
    n: NetId,
    j: int,
    s: DelayT,
) -> bool {
    let net = design.nets@[n.0 as int];
    &&& n.0 < design.nets@.len()
    &&& net.alive
    &&& 0 <= j < net.users@.len()
    &&& net.users@[j].cell.0 != u32::MAX
    &&& slack_is(arrived, due, net.users@[j], s)
}

proof fn lemma_users_range(
    arrived: Map<CellPin, DelayT>,
    due: Map<CellPin, DelayT>,
    users: Seq<CellPin>,
    k: int,
)
    requires
        0 <= k <= users.len(),
    ensures
        ({
            let r = users_range(arrived, due, users, k);
            &&& r is None <==> forall|j: int| 0 <= j < k ==> (#[trigger] users[j]).cell.0 == u32::MAX
            &&& forall|j: int, s: DelayT|
                0 <= j < k && users[j].cell.0 != u32::MAX && #[trigger] slack_is(arrived, due, users[j], s)
                    ==> r is Some && r->0.least <= s <= r->0.greatest
            &&& r is Some ==> exists|j: int|
                0 <= j < k && users[j].cell.0 != u32::MAX && #[trigger] slack_is(
                    arrived,
                    due,
                    users[j],
                    r->0.least,
                )
            &&& r is Some ==> exists|j: int|
                0 <= j < k && users[j].cell.0 != u32::MAX && #[trigger] slack_is(
                    arrived,
                    due,
                    users[j],
                    r->0.greatest,
                )
        }),
    decreases k,
{
    if k > 0 {
        lemma_users_range(arrived, due, users, k - 1);
        let before = users_range(arrived, due, users, k - 1);
        let r = users_range(arrived, due, users, k);
        let u = users[k - 1];
        let own = crate::timing::slack::slack_or_zero(arrived, due, u);
        assert(slack_is(arrived, due, users[k - 1], own));
        if before is Some {
            let a = choose|j: int|
                0 <= j < k - 1 && users[j].cell.0 != u32::MAX && #[trigger] slack_is(
                    arrived,
                    due,
                    users[j],
                    before->0.least,
                );
            let b = choose|j: int|
                0 <= j < k - 1 && users[j].cell.0 != u32::MAX && #[trigger] slack_is(
                    arrived,
                    due,
                    users[j],
                    before->0.greatest,
                );
            assert(slack_is(arrived, due, users[a], before->0.least));
            assert(slack_is(arrived, due, users[b], before->0.greatest));
        }
        assert forall|j: int, s: DelayT|
            0 <= j < k && users[j].cell.0 != u32::MAX && #[trigger] slack_is(arrived, due, users[j], s) implies r is Some
            && r->0.least <= s <= r->0.greatest by {
            if j < k - 1 {
                assert(before is Some && before->0.least <= s <= before->0.greatest);
            } else {
                assert(s == own);
            }
        }
    }
}

/// The bounds lie round the slack of every user of a living net among the first `n`, and each is
/// the slack of one.
pub open spec fn bounds_users(
    design: Design,
    arrived: Map<CellPin, DelayT>,
    due: Map<CellPin, DelayT>,
    n: int,
    r: Option<SlackRange>,
) -> bool {
    &&& forall|id: NetId, j: int, s: DelayT| #[trigger]
        user_slack(design, arrived, due, id, j, s) && id.0 < n ==> r is Some && r->0.least <= s
            <= r->0.greatest
    &&& r is Some ==> exists|id: NetId, j: int| id.0 < n && #[trigger] user_slack(
        design,
        arrived,
        due,
        id,
        j,
        r->0.least,
    )
    &&& r is Some ==> exists|id: NetId, j: int| id.0 < n && #[trigger] user_slack(
        design,
        arrived,
        due,
        id,
        j,
        r->0.greatest,
    )
}

proof fn lemma_nets_range(
    design: Design,
    arrived: Map<CellPin, DelayT>,
    due: Map<CellPin, DelayT>,
    n: int,
)
    requires
        0 <= n <= design.nets@.len() < u32::MAX,
    ensures
        bounds_users(design, arrived, due, n, nets_range(design, arrived, due, n)),
    decreases n,
{
    if n > 0 {
        lemma_nets_range(design, arrived, due, n - 1);
        let before = nets_range(design, arrived, due, n - 1);
        let own = net_range(design, arrived, due, n - 1);
        let r = nets_range(design, arrived, due, n);
        let net = design.nets@[n - 1];
        let here = NetId((n - 1) as u32);
        lemma_users_range(arrived, due, net.users@, net.users@.len() as int);
        if before is Some {
            let (a, i) = choose|id: NetId, j: int|
                id.0 < n - 1 && #[trigger] user_slack(design, arrived, due, id, j, before->0.least);
            let (b, k) = choose|id: NetId, j: int|
                id.0 < n - 1 && #[trigger] user_slack(design, arrived, due, id, j, before->0.greatest);
            assert(user_slack(design, arrived, due, a, i, before->0.least) && a.0 < n);
            assert(user_slack(design, arrived, due, b, k, before->0.greatest) && b.0 < n);
        }
        if own is Some {
            let a = choose|j: int|
                0 <= j < net.users@.len() && net.users@[j].cell.0 != u32::MAX && #[trigger] slack_is(
                    arrived,
                    due,
                    net.users@[j],
                    own->0.least,
                );
            let b = choose|j: int|
                0 <= j < net.users@.len() && net.users@[j].cell.0 != u32::MAX && #[trigger] slack_is(
                    arrived,
                    due,
                    net.users@[j],
                    own->0.greatest,
                );
            assert(user_slack(design, arrived, due, here, a, own->0.least));
            assert(user_slack(design, arrived, due, here, b, own->0.greatest));
        }
        assert forall|id: NetId, j: int, s: DelayT| #[trigger]
            user_slack(design, arrived, due, id, j, s) && id.0 < n implies r is Some && r->0.least <= s
            <= r->0.greatest by {
            if id.0 < n - 1 {
                assert(before is Some);
            } else {
                assert(id == here);
                assert(slack_is(arrived, due, net.users@[j], s));
                assert(own is Some && own->0.least <= s <= own->0.greatest);
            }
        }
    }
}

/// The slack that is kept for a net is not above that of any of its users, and is that of one of
/// them; exactly the living nets with a user that names a cell have one. The range lies round the
/// slacks of all users of living nets, and its ends are slacks of users.
pub proof fn nets_are_as_tight_as_their_tightest_users(
    design: Design,
    arrived: Map<CellPin, DelayT>,
    due: Map<CellPin, DelayT>,
    r: NetSlacks,
)
    requires
        design.wf(),
        r.range == nets_range(design, arrived, due, design.nets@.len() as int),
        r.least@ == least_slacks(design, arrived, due),
    ensures
        forall|n: NetId, j: int, s: DelayT| #[trigger]
            user_slack(design, arrived, due, n, j, s) ==> r.least@.contains_key(n) && r.least@[n] <= s,
        forall|n: NetId| #[trigger]
            r.least@.contains_key(n) ==> exists|j: int| #[trigger]
                user_slack(design, arrived, due, n, j, r.least@[n]),
        bounds_users(design, arrived, due, design.nets@.len() as int, r.range),
{
    lemma_nets_range(design, arrived, due, design.nets@.len() as int);
    assert forall|n: NetId, j: int, s: DelayT| #[trigger] user_slack(design, arrived, due, n, j, s) implies r.least@.contains_key(
        n,
    ) && r.least@[n] <= s by {
        let net = design.nets@[n.0 as int];
        lemma_users_range(arrived, due, net.users@, net.users@.len() as int);
        assert(slack_is(arrived, due, net.users@[j], s));
        assert(net_range(design, arrived, due, n.0 as int) is Some);
        assert(design.valid_net(n));
        assert(r.least@.dom().contains(n));
    }
    assert forall|n: NetId| #[trigger] r.least@.contains_key(n) implies exists|j: int| #[trigger]
        user_slack(design, arrived, due, n, j, r.least@[n]) by {
        let net = design.nets@[n.0 as int];
        assert(r.least@.dom().contains(n));
        lemma_users_range(arrived, due, net.users@, net.users@.len() as int);
        let j = choose|j: int|
            0 <= j < net.users@.len() && net.users@[j].cell.0 != u32::MAX && #[trigger] slack_is(
                arrived,
                due,
                net.users@[j],
                r.least@[n],
            );
        assert(user_slack(design, arrived, due, n, j, r.least@[n]));
    }
}

} // verus!
