//! The timing analyser.

use crate::context::Context;
use crate::ids::IdMap;
use crate::netlist::{CellId, CellPin, Design, NetId};
use crate::timing::analyser::{
    facts_of, get_default_period, is_port, period_by_default, pins_in_design, ClockNetPair, Hop, PerDomain,
    PerDomainPair, PerPort, PortFacts,
};
use crate::timing::cell_delays::{
    get_cell_delays, get_route_delays, guessed_ports, init_ports, routed_ports, timed_ports, untimed_ports,
};
use crate::timing::constraints::SdcConstraints;
use crate::timing::delay::{held, held_sub, DelayT};
use crate::timing::domain::{ClockDomain, DomainRegistry};
use crate::timing::domain_setup::{
    domains_set, meets, setup_port_domains, DomainPairs, DomainSetup, PinDomain,
};
use crate::timing::kinds::TimingPortClass;
use crate::timing::legacy::{
    backward_propagation_legacy, cells_backed, cells_passed, domain_from, forward_propagation_legacy,
    legacy_end, legacy_start, periods_of, port_domain_from_data,
};
use crate::timing::path::{PathSegment, TimingPath};
use crate::timing::ports::{classify_ports_heuristic, guessed_domains, orders_ports, topo_sort_ports};
use crate::timing::propagation::{
    arrivals, backward_propagation, forward_propagation, requireds, Reached,
};
use crate::timing::related::{identify_related_domains, relates_clocks};
use crate::timing::slack::{
    compute_net_slacks, compute_slack_and_paths, least_slacks, nets_range, pin_slack, reports_slack,
    slack_or_zero, SlackRange, SlackReport,
};
use crate::timing::sort::{sorted_cells, topological_sort};
use crate::types::id_string::IdString;
use vstd::prelude::*;

verus! {

/// What an analysis found.
pub struct TimingResults {
    /// When each pin is reached.
    pub arrival_times: IdMap<CellPin, DelayT>,
    /// When each pin must be stable.
    pub required_times: IdMap<CellPin, DelayT>,
    /// The step that reaches each pin on its latest path.
    pub predecessors: IdMap<CellPin, Hop>,
    /// The worst slacks, and the paths behind them.
    pub slack: SlackReport,
    /// The range of the slacks at the users of the nets.
    pub slack_range: Option<SlackRange>,
    /// The smallest slack of each net.
    pub net_slacks: IdMap<NetId, DelayT>,
}

impl TimingResults {
    pub open spec fn reached(self) -> Reached {
        Reached { times: self.arrival_times@, hops: self.predecessors@ }
    }

    /// Nothing is found yet.
    pub open spec fn is_blank(self) -> bool {
        &&& self.arrival_times@ == Map::<CellPin, DelayT>::empty()
        &&& self.required_times@ == Map::<CellPin, DelayT>::empty()
        &&& self.predecessors@ == Map::<CellPin, Hop>::empty()
        &&& self.slack.worst_slack == 0
        &&& self.slack.worst_setup_slack == i32::MAX
        &&& self.slack.worst_hold_slack == i32::MAX
        &&& self.slack.endpoints@.len() == 0
        &&& self.slack.paths@.len() == 0
        &&& self.slack_range is None
        &&& self.net_slacks@ == Map::<NetId, DelayT>::empty()
    }

    pub fn blank() -> (r: Self)
        ensures
            r.is_blank(),
    {
        TimingResults {
            arrival_times: IdMap::new(),
            required_times: IdMap::new(),
            predecessors: IdMap::new(),
            slack: SlackReport {
                worst_slack: 0,
                worst_setup_slack: i32::MAX,
                worst_hold_slack: i32::MAX,
                endpoints: Vec::new(),
                paths: Vec::new(),
            },
            slack_range: None,
            net_slacks: IdMap::new(),
        }
    }

    /// The slacks are those of the times, and at most `limit` paths are kept.
    pub open spec fn slacks_ok(
        self,
        design: Design,
        ports: Map<CellPin, PortFacts>,
        domains: DomainSetup,
        limit: int,
    ) -> bool {
        &&& reports_slack(
            design,
            ports,
            self.arrival_times@,
            self.required_times@,
            self.predecessors@,
            domains.registry.domains@,
            domains.per_domain@,
            limit,
            self.slack,
        )
        &&& self.slack_range == nets_range(
            design,
            self.arrival_times@,
            self.required_times@,
            design.nets@.len() as int,
        )
        &&& self.net_slacks@ == least_slacks(design, self.arrival_times@, self.required_times@)
    }
}

/// The timing analyser: the clock constraints, the ports with their timing and their clock
/// domains, and what the last analysis found.
pub struct TimingAnalyser {
    /// The period in picoseconds that is asked for on each clock net.
    pub clock_constraints: IdMap<IdString, DelayT>,
    pub sdc: SdcConstraints,
    /// Whether the routing delays of the clocks count.
    pub with_clock_skew: bool,
    /// The most critical paths that an analysis keeps.
    pub max_critical_paths: usize,
    pub port_data: IdMap<CellPin, PerPort>,
    /// The ports in the order of propagation.
    pub topological_order: Vec<CellPin>,
    pub domains: DomainSetup,
    /// The delays between related clocks.
    pub clock_delays: IdMap<ClockNetPair, DelayT>,
    /// The domains that the nets suggest, for designs without timing tables.
    pub guessed_domains: IdMap<CellPin, ClockDomain>,
    pub results: TimingResults,
    /// Whether the results are up to date.
    pub valid: bool,
}

/// The domains of a design that nothing is known of: the one without a clock.
pub open spec fn no_domains(d: DomainSetup) -> bool {
    &&& d.registry.wf()
    &&& d.registry.domains@ == seq![ClockDomain::without_clock()]
    &&& d.per_domain@.len() == 1
    &&& d.per_domain@[0].startpoints@.len() == 0
    &&& d.per_domain@[0].endpoints@.len() == 0
    &&& d.pairs.wf()
    &&& d.pairs.list@.len() == 0
    &&& d.pairs.ids@ == Map::<crate::timing::domain::ClockDomainPair, usize>::empty()
}

fn new_domains() -> (d: DomainSetup)
    ensures
        no_domains(d),
{
    let mut per_domain: Vec<PerDomain> = Vec::new();
    per_domain.push(PerDomain::new());
    DomainSetup { registry: DomainRegistry::new(), per_domain, pairs: DomainPairs::new() }
}

/// The pairs as they are before any slack is known.
pub open spec fn slacks_reset(old_pairs: DomainPairs, new_pairs: DomainPairs) -> bool {
    &&& new_pairs.ids == old_pairs.ids
    &&& new_pairs.list@.len() == old_pairs.list@.len()
    &&& forall|i: int|
        0 <= i < old_pairs.list@.len() ==> #[trigger] new_pairs.list@[i] == (PerDomainPair {
            worst_setup_slack: i32::MAX,
            worst_hold_slack: i32::MAX,
            ..old_pairs.list@[i]
        })
}

fn reset_slacks(pairs: &mut DomainPairs)
    ensures
        slacks_reset(*old(pairs), *final(pairs)),
{
    let ghost was = *pairs;
    let n: usize = pairs.list.len();
    for i in 0..n
        invariant
            n == was.list@.len(),
            pairs.ids == was.ids,
            pairs.list@.len() == n,
            forall|k: int| i <= k < n ==> #[trigger] pairs.list@[k] == was.list@[k],
            forall|k: int|
                0 <= k < i ==> #[trigger] pairs.list@[k] == (PerDomainPair {
                    worst_setup_slack: i32::MAX,
                    worst_hold_slack: i32::MAX,
                    ..was.list@[k]
                }),
    {
        let mut p: PerDomainPair = pairs.list[i];
        assert(p == was.list@[i as int]);
        p.worst_setup_slack = i32::MAX;
        p.worst_hold_slack = i32::MAX;
        pairs.list.set(i, p);
    }
}

impl TimingAnalyser {
    /// The ports and the domains fit together, and to the design.
    pub open spec fn fits(self, design: Design) -> bool {
        &&& pins_in_design(design, facts_of(self.port_data@))
        &&& self.domains.registry.wf()
        &&& self.domains.per_domain@.len() <= self.domains.registry.domains@.len()
    }

    /// The constraints and options are those of another analyser.
    pub open spec fn same_constraints(self, other: TimingAnalyser) -> bool {
        &&& self.clock_constraints == other.clock_constraints
        &&& self.sdc == other.sdc
        &&& self.with_clock_skew == other.with_clock_skew
        &&& self.max_critical_paths == other.max_critical_paths
    }

    /// The results are those of propagation over the ports.
    pub open spec fn timed(self, design: Design) -> bool {
        let ports = facts_of(self.port_data@);
        &&& self.results.reached() == arrivals(
            design,
            ports,
            self.domains.per_domain@,
            self.with_clock_skew,
            self.topological_order@,
        )
        &&& self.results.required_times@ == requireds(
            design,
            ports,
            self.domains.per_domain@,
            self.domains.registry.domains@,
            period_by_default(self.clock_constraints@),
            self.with_clock_skew,
            self.topological_order@,
        )
        &&& self.results.slacks_ok(design, ports, self.domains, self.max_critical_paths as int)
    }

    /// An analyser without constraints and without results.
    pub fn new() -> (r: Self)
        ensures
            r.clock_constraints@ == Map::<IdString, DelayT>::empty(),
            r.sdc.is_empty(),
            !r.with_clock_skew,
            r.max_critical_paths == 10,
            r.port_data@ == Map::<CellPin, PerPort>::empty(),
            r.topological_order@.len() == 0,
            no_domains(r.domains),
            r.clock_delays@ == Map::<ClockNetPair, DelayT>::empty(),
            r.guessed_domains@ == Map::<CellPin, ClockDomain>::empty(),
            r.results.is_blank(),
            !r.valid,
    {
        TimingAnalyser {
            clock_constraints: IdMap::new(),
            sdc: SdcConstraints::new(),
            with_clock_skew: false,
            max_critical_paths: 10,
            port_data: IdMap::new(),
            topological_order: Vec::new(),
            domains: new_domains(),
            clock_delays: IdMap::new(),
            guessed_domains: IdMap::new(),
            results: TimingResults::blank(),
            valid: false,
        }
    }

    /// Forgets the ports, the domains and the results; the constraints stay.
    pub fn clear_all(&mut self)
        ensures
            final(self).same_constraints(*old(self)),
            final(self).port_data@ == Map::<CellPin, PerPort>::empty(),
            final(self).topological_order@.len() == 0,
            no_domains(final(self).domains),
            final(self).clock_delays@ == Map::<ClockNetPair, DelayT>::empty(),
            final(self).guessed_domains@ == Map::<CellPin, ClockDomain>::empty(),
            final(self).results.is_blank(),
            final(self).valid == old(self).valid,
    {
        self.port_data = IdMap::new();
        self.topological_order = Vec::new();
        self.domains = new_domains();
        self.clock_delays = IdMap::new();
        self.guessed_domains = IdMap::new();
        self.results = TimingResults::blank();
    }

    /// Marks the results as out of date.
    pub fn invalidate(&mut self)
        ensures
            !final(self).valid,
            final(self).same_constraints(*old(self)),
            final(self).port_data == old(self).port_data,
            final(self).topological_order == old(self).topological_order,
            final(self).domains == old(self).domains,
            final(self).clock_delays == old(self).clock_delays,
            final(self).guessed_domains == old(self).guessed_domains,
            final(self).results == old(self).results,
    {
        self.valid = false;
    }

    /// Whether the results are up to date.
    pub fn is_valid(&self) -> (r: bool)
        ensures
            r == self.valid,
    {
        self.valid
    }

    /// Asks for a period, in picoseconds, on a clock net.
    pub fn add_clock_constraint_ps(&mut self, clock_net: IdString, period_ps: DelayT)
        ensures
            final(self).clock_constraints@ == old(self).clock_constraints@.insert(clock_net, period_ps),
            !final(self).valid,
            final(self).sdc == old(self).sdc,
            final(self).with_clock_skew == old(self).with_clock_skew,
            final(self).max_critical_paths == old(self).max_critical_paths,
            final(self).port_data == old(self).port_data,
            final(self).topological_order == old(self).topological_order,
            final(self).domains == old(self).domains,
            final(self).clock_delays == old(self).clock_delays,
            final(self).guessed_domains == old(self).guessed_domains,
            final(self).results == old(self).results,
    {
        let _ = self.clock_constraints.insert(clock_net, period_ps);
        self.valid = false;
    }

    /// Times the ports that are set up anew, as after a change of the placement.
    pub fn run(&mut self, ctx: &Context)
        requires
            ctx.wf(),
            old(self).fits(ctx.design),
        ensures
            final(self).fits(ctx.design),
            final(self).same_constraints(*old(self)),
            facts_of(final(self).port_data@) == routed_ports(
                ctx.design,
                ctx.net_delays@,
                facts_of(old(self).port_data@),
                ctx.design.nets@.len() as int,
            ),
            final(self).topological_order == old(self).topological_order,
            final(self).domains.registry == old(self).domains.registry,
            final(self).domains.per_domain == old(self).domains.per_domain,
            slacks_reset(old(self).domains.pairs, final(self).domains.pairs),
            final(self).clock_delays == old(self).clock_delays,
            final(self).guessed_domains == old(self).guessed_domains,
            final(self).timed(ctx.design),
            final(self).valid,
    {
        reset_slacks(&mut self.domains.pairs);
        let ghost before = facts_of(self.port_data@);
        get_route_delays(ctx, &mut self.port_data);
        let design = &ctx.design;
        proof {
            assert forall|p: CellPin| #[trigger] facts_of(self.port_data@).contains_key(p) implies design.valid_cell(
                p.cell,
            ) by {
                assert(before.contains_key(p));
            }
        }
        let period: DelayT = get_default_period(&self.clock_constraints);
        let reached = forward_propagation(
            design,
            &self.port_data,
            &self.domains.per_domain,
            self.with_clock_skew,
            &self.topological_order,
        );
        let required_times = backward_propagation(
            design,
            &self.port_data,
            &self.domains.per_domain,
            &self.domains.registry,
            period,
            self.with_clock_skew,
            &self.topological_order,
        );
        let slack = compute_slack_and_paths(
            design,
            &self.port_data,
            &reached.arrival_times,
            &required_times,
            &reached.predecessors,
            &self.domains.registry,
            &self.domains.per_domain,
            self.max_critical_paths,
        );
        let nets = compute_net_slacks(design, &reached.arrival_times, &required_times);
        self.results = TimingResults {
            arrival_times: reached.arrival_times,
            required_times,
            predecessors: reached.predecessors,
            slack,
            slack_range: nets.range,
            net_slacks: nets.least,
        };
        self.valid = true;
    }

    /// The ports of a design as they are set up: their timing without the routing delays, their
    /// order, and their domains.
    pub open spec fn set_up(self, ctx: Context) -> bool {
        let ports = timed_ports(
            ctx.timing,
            ctx.design,
            self.clock_constraints@,
            untimed_ports(ctx.design),
        );
        &&& facts_of(self.port_data@) == routed_ports(
            ctx.design,
            ctx.net_delays@,
            ports,
            ctx.design.nets@.len() as int,
        )
        &&& orders_ports(ctx.design, ports, self.topological_order@)
        &&& domains_set(
            ctx.design,
            self.clock_constraints@,
            period_by_default(self.clock_constraints@),
            ports,
            self.topological_order@,
            self.domains,
        )
        &&& relates_clocks(ctx.design, ports, self.domains.registry.domains@, self.clock_delays@)
    }

    /// Sets the ports and the domains of a design up and times them.
    pub fn setup_and_run(&mut self, ctx: &Context)
        requires
            ctx.wf(),
        ensures
            final(self).fits(ctx.design),
            final(self).same_constraints(*old(self)),
            final(self).set_up(*ctx),
            final(self).guessed_domains@ == Map::<CellPin, ClockDomain>::empty(),
            final(self).timed(ctx.design),
            final(self).valid,
    {
        self.clear_all();
        let design = &ctx.design;
        let ghost ports0 = untimed_ports(*design);
        let mut port_data = init_ports(design);
        proof {
            assert forall|p: CellPin| #[trigger] ports0.contains_key(p) implies design.valid_cell(p.cell) by {
                assert(is_port(*design, p));
            }
        }
        get_cell_delays(&ctx.timing, design, &self.clock_constraints, &mut port_data);
        let ghost ports = facts_of(port_data@);
        proof {
            assert forall|p: CellPin| #[trigger] ports.contains_key(p) implies design.valid_cell(p.cell) by {
                assert(ports0.contains_key(p));
            }
        }
        let order = topo_sort_ports(design, &port_data);
        let period: DelayT = get_default_period(&self.clock_constraints);
        let domains = setup_port_domains(design, &self.clock_constraints, period, &port_data, &order);
        let clock_delays = identify_related_domains(design, &port_data, &domains.registry);
        self.port_data = port_data;
        self.topological_order = order;
        self.domains = domains;
        self.clock_delays = clock_delays;
        let ghost before = *self;
        self.run(ctx);
        proof {
            lemma_reset_keeps(
                *design,
                self.clock_constraints@,
                period,
                ports,
                self.topological_order@,
                before.domains,
                self.domains,
            );
        }
    }

    /// The results of an analysis by cells, along some order of them.
    pub open spec fn timed_by_cells(self, design: Design, cells: Seq<CellId>, m: int) -> bool {
        let ports = facts_of(self.port_data@);
        let period = period_by_default(self.clock_constraints@);
        &&& sorted_cells(design, cells, m)
        &&& self.results.arrival_times@ == cells_passed(
            design,
            ports,
            legacy_start(design, ports, cells),
            cells,
            cells.len() as int,
        )
        &&& self.results.required_times@ == cells_backed(
            design,
            ports,
            legacy_end(
                design,
                ports,
                cells,
                periods_of(
                    self.guessed_domains@,
                    self.domains.registry.domains@,
                    self.domains.per_domain@,
                    self.clock_constraints@,
                    period,
                ),
                period,
            ),
            cells,
            0,
        )
    }

    /// Times a design without timing tables: ports are classed by their nets, and every cell has
    /// one delay.
    pub fn analyse(&mut self, design: &Design)
        requires
            design.wf(),
        ensures
            final(self).same_constraints(*old(self)),
            facts_of(final(self).port_data@) == guessed_ports(
                *design,
                final(self).clock_constraints@,
                untimed_ports(*design),
            ),
            final(self).guessed_domains@ == guessed_domains(
                *design,
                final(self).clock_constraints@,
                facts_of(final(self).port_data@),
            ),
            no_domains(final(self).domains),
            exists|cells: Seq<CellId>, m: int| #[trigger] final(self).timed_by_cells(*design, cells, m),
            final(self).results.predecessors@ == Map::<CellPin, Hop>::empty(),
            final(self).results.slacks_ok(
                *design,
                facts_of(final(self).port_data@),
                final(self).domains,
                final(self).max_critical_paths as int,
            ),
            final(self).valid,
    {
        self.clear_all();
        let guessed = classify_ports_heuristic(design, &self.clock_constraints);
        self.port_data = guessed.ports;
        self.guessed_domains = guessed.domains;
        let cells = topological_sort(design);
        let ghost m = choose|m: int| #[trigger] sorted_cells(*design, cells@, m);
        proof {
            assert forall|i: int| 0 <= i < cells@.len() implies design.valid_cell(#[trigger] cells@[i]) by {
                assert(cells@.contains(cells@[i]));
            }
        }
        let period: DelayT = get_default_period(&self.clock_constraints);
        let arrival_times = forward_propagation_legacy(design, &self.port_data, &cells);
        let required_times = backward_propagation_legacy(
            design,
            &self.port_data,
            &self.guessed_domains,
            &self.domains.registry,
            &self.domains.per_domain,
            &self.clock_constraints,
            period,
            &cells,
        );
        let predecessors: IdMap<CellPin, Hop> = IdMap::new();
        let slack = compute_slack_and_paths(
            design,
            &self.port_data,
            &arrival_times,
            &required_times,
            &predecessors,
            &self.domains.registry,
            &self.domains.per_domain,
            self.max_critical_paths,
        );
        let nets = compute_net_slacks(design, &arrival_times, &required_times);
        self.results = TimingResults {
            arrival_times,
            required_times,
            predecessors,
            slack,
            slack_range: nets.range,
            net_slacks: nets.least,
        };
        self.valid = true;
        proof {
            assert(self.timed_by_cells(*design, cells@, m));
        }
    }

    /// Times the design again, with the delays that the placement suggests.
    pub fn update_after_placement(&mut self, ctx: &Context)
        requires
            ctx.wf(),
            old(self).fits(ctx.design),
        ensures
            final(self).fits(ctx.design),
            final(self).same_constraints(*old(self)),
            facts_of(final(self).port_data@) == routed_ports(
                ctx.design,
                ctx.net_delays@,
                facts_of(old(self).port_data@),
                ctx.design.nets@.len() as int,
            ),
            final(self).topological_order == old(self).topological_order,
            final(self).domains.registry == old(self).domains.registry,
            final(self).domains.per_domain == old(self).domains.per_domain,
            final(self).timed(ctx.design),
            final(self).valid,
    {
        self.run(ctx);
    }

    /// Times the design again after routing.
    pub fn update_after_routing(&mut self, ctx: &Context)
        requires
            ctx.wf(),
            old(self).fits(ctx.design),
        ensures
            final(self).fits(ctx.design),
            final(self).same_constraints(*old(self)),
            facts_of(final(self).port_data@) == routed_ports(
                ctx.design,
                ctx.net_delays@,
                facts_of(old(self).port_data@),
                ctx.design.nets@.len() as int,
            ),
            final(self).topological_order == old(self).topological_order,
            final(self).domains.registry == old(self).domains.registry,
            final(self).domains.per_domain == old(self).domains.per_domain,
            final(self).timed(ctx.design),
            final(self).valid,
    {
        self.run(ctx);
    }

    /// Times the design: again where the results are up to date, and from scratch where not.
    pub fn update(&mut self, ctx: &Context)
        requires
            ctx.wf(),
            old(self).valid ==> old(self).fits(ctx.design),
        ensures
            final(self).fits(ctx.design),
            final(self).same_constraints(*old(self)),
            !old(self).valid ==> final(self).set_up(*ctx),
            old(self).valid ==> {
                &&& facts_of(final(self).port_data@) == routed_ports(
                    ctx.design,
                    ctx.net_delays@,
                    facts_of(old(self).port_data@),
                    ctx.design.nets@.len() as int,
                )
                &&& final(self).topological_order == old(self).topological_order
                &&& final(self).domains.registry == old(self).domains.registry
                &&& final(self).domains.per_domain == old(self).domains.per_domain
            },
            final(self).timed(ctx.design),
            final(self).valid,
    {
        if self.valid {
            self.run(ctx);
        } else {
            self.setup_and_run(ctx);
        }
    }

    /// The worst slack of all endpoints.
    pub fn worst_slack(&self) -> (r: DelayT)
        ensures
            r == self.results.slack.worst_slack,
    {
        self.results.slack.worst_slack
    }

    /// The worst setup slack; zero where none is known.
    pub fn worst_setup_slack(&self) -> (r: DelayT)
        ensures
            r == if self.results.slack.worst_setup_slack == i32::MAX {
                0
            } else {
                self.results.slack.worst_setup_slack
            },
    {
        if self.results.slack.worst_setup_slack == i32::MAX {
            0
        } else {
            self.results.slack.worst_setup_slack
        }
    }

    /// The worst hold slack; zero where none is known.
    pub fn worst_hold_slack(&self) -> (r: DelayT)
        ensures
            r == if self.results.slack.worst_hold_slack == i32::MAX {
                0
            } else {
                self.results.slack.worst_hold_slack
            },
    {
        if self.results.slack.worst_hold_slack == i32::MAX {
            0
        } else {
            self.results.slack.worst_hold_slack
        }
    }

    /// The paths with the least slack, at most `limit` of them.
    pub fn critical_paths(&self, limit: usize) -> (r: &[TimingPath])
        ensures
            r@ == self.results.slack.paths@.take(
                if limit < self.results.slack.paths@.len() {
                    limit as int
                } else {
                    self.results.slack.paths@.len() as int
                },
            ),
    {
        let len: usize = self.results.slack.paths.len();
        let n: usize = if limit < len {
            limit
        } else {
            len
        };
        vstd::slice::slice_subrange(self.results.slack.paths.as_slice(), 0, n)
    }

    /// Sets how many critical paths an analysis keeps at most.
    pub fn set_max_critical_paths(&mut self, n: usize)
        ensures
            final(self).max_critical_paths == n,
            final(self).clock_constraints == old(self).clock_constraints,
            final(self).sdc == old(self).sdc,
            final(self).with_clock_skew == old(self).with_clock_skew,
            final(self).port_data == old(self).port_data,
            final(self).topological_order == old(self).topological_order,
            final(self).domains == old(self).domains,
            final(self).clock_delays == old(self).clock_delays,
            final(self).guessed_domains == old(self).guessed_domains,
            final(self).results == old(self).results,
            final(self).valid == old(self).valid,
    {
        self.max_critical_paths = n;
    }

    /// When a pin is reached.
    pub fn pin_arrival(&self, cell: CellId, port: IdString) -> (r: Option<DelayT>)
        ensures
            r == found(self.results.arrival_times@, CellPin { cell, port }),
    {
        match self.results.arrival_times.get(CellPin { cell, port }) {
            Some(t) => Some(*t),
            None => None,
        }
    }

    /// When a pin must be stable.
    pub fn pin_required(&self, cell: CellId, port: IdString) -> (r: Option<DelayT>)
        ensures
            r == found(self.results.required_times@, CellPin { cell, port }),
    {
        match self.results.required_times.get(CellPin { cell, port }) {
            Some(t) => Some(*t),
            None => None,
        }
    }

    /// The clock domains.
    pub fn domain_registry(&self) -> (r: &DomainRegistry)
        ensures
            *r == self.domains.registry,
    {
        &self.domains.registry
    }

    /// The delays from clock net to clock net.
    pub fn clock_delays(&self) -> (r: &IdMap<ClockNetPair, DelayT>)
        ensures
            *r == self.clock_delays,
    {
        &self.clock_delays
    }

    /// The period in picoseconds that is asked for on each clock net.
    pub fn clock_constraints(&self) -> (r: &IdMap<IdString, DelayT>)
        ensures
            *r == self.clock_constraints,
    {
        &self.clock_constraints
    }

    /// When a pin is reached, if it is.
    pub fn arrival_time(&self, cell: CellId, port: IdString) -> (r: Option<DelayT>)
        ensures
            r == found(self.results.arrival_times@, CellPin { cell, port }),
    {
        self.pin_arrival(cell, port)
    }

    /// When a pin must be stable, if it must.
    pub fn required_time(&self, cell: CellId, port: IdString) -> (r: Option<DelayT>)
        ensures
            r == found(self.results.required_times@, CellPin { cell, port }),
    {
        self.pin_required(cell, port)
    }

    /// The paths of the last analysis, the least slack first.
    pub fn paths(&self) -> (r: &[TimingPath])
        ensures
            r@ == self.results.slack.paths@,
    {
        self.results.slack.paths.as_slice()
    }

    /// The slack of a pin that has both times.
    pub fn endpoint_slack(&self, cell: CellId, port: IdString) -> (r: Option<DelayT>)
        ensures
            match (
                found(self.results.arrival_times@, CellPin { cell, port }),
                found(self.results.required_times@, CellPin { cell, port }),
            ) {
                (Some(a), Some(d)) => r == Some(held(d - a)),
                _ => r is None,
            },
    {
        let arrival = self.pin_arrival(cell, port);
        let required = self.pin_required(cell, port);
        match (arrival, required) {
            (Some(a), Some(d)) => Some(held_sub(d, a)),
            _ => None,
        }
    }

    /// The paths that go through a net, in their order.
    pub fn paths_through_net(&self, net: NetId) -> (r: Vec<&TimingPath>)
        ensures
            picks(
                self.results.slack.paths@,
                positions_through(self.results.slack.paths@, net, self.results.slack.paths@.len() as int),
                r@,
            ),
    {
        let paths = &self.results.slack.paths;
        let mut r: Vec<&TimingPath> = Vec::new();
        for i in 0..paths.len()
            invariant
                picks(paths@, positions_through(paths@, net, i as int), r@),
        {
            let mut found: bool = false;
            let segments = &paths[i].segments;
            for k in 0..segments.len()
                invariant
                    found == exists|j: int| 0 <= j < k && (#[trigger] segments@[j]).net == net,
            {
                if segments[k].net == net {
                    found = true;
                }
            }
            assert(found == goes_through(paths@[i as int].segments@, net));
            if found {
                r.push(&paths[i]);
            }
        }
        r
    }

    /// The class of a port of the last analysis.
    pub fn port_class(&self, cell: CellId, port: IdString) -> (r: Option<TimingPortClass>)
        ensures
            match r {
                Some(class) => self.port_data@.contains_key(CellPin { cell, port }) && class
                    == self.port_data@[CellPin { cell, port }].port_class,
                None => !self.port_data@.contains_key(CellPin { cell, port }),
            },
    {
        match self.port_data.get(CellPin { cell, port }) {
            Some(pd) => Some(pd.port_class),
            None => None,
        }
    }

    /// The clock domain of a port: the one that its nets suggest, or the one that it is an
    /// endpoint of.
    pub fn port_domain(&self, cell: CellId, port: IdString) -> (r: Option<ClockDomain>)
        requires
            self.domains.registry.wf(),
        ensures
            ({
                let pin = CellPin { cell, port };
                let domain = domain_from(
                    self.domains.registry.domains@,
                    self.domains.per_domain@,
                    pin,
                    1,
                );
                r == if self.guessed_domains@.contains_key(pin) {
                    Some(self.guessed_domains@[pin])
                } else if domain.clocked() {
                    Some(domain)
                } else {
                    None
                }
            }),
    {
        let pin = CellPin { cell, port };
        if let Some(d) = self.guessed_domains.get(pin) {
            return Some(*d);
        }
        let domain = port_domain_from_data(&self.domains.registry, &self.domains.per_domain, pin);
        if domain.is_clocked() {
            Some(domain)
        } else {
            None
        }
    }

    /// What tells how critical a net is: its smallest slack, and the range of all slacks; none
    /// for a net without users, or where no slack is below the largest delay.
    pub fn net_criticality_slack(&self, net: NetId) -> (r: Option<(DelayT, SlackRange)>)
        ensures
            match (self.results.slack_range, found(self.results.net_slacks@, net)) {
                (Some(range), Some(s)) if range.least != i32::MAX => r == Some((s, range)),
                _ => r is None,
            },
    {
        match (self.results.slack_range, self.results.net_slacks.get(net)) {
            (Some(range), Some(s)) => if range.least != i32::MAX {
                Some((*s, range))
            } else {
                None
            },
            _ => None,
        }
    }

    /// The slack of a pin where a path fails, a missing time counting as zero; none where no path
    /// fails.
    pub fn failing_slack(&self, cell: CellId, port: IdString) -> (r: Option<DelayT>)
        ensures
            r == if self.results.slack.worst_slack >= 0 {
                None
            } else {
                Some(
                    slack_or_zero(
                        self.results.arrival_times@,
                        self.results.required_times@,
                        CellPin { cell, port },
                    ),
                )
            },
    {
        if self.results.slack.worst_slack >= 0 {
            return None;
        }
        Some(pin_slack(&self.results.arrival_times, &self.results.required_times, CellPin { cell, port }))
    }

    /// The smallest slack at the ports of a cell that have both times; none where no path fails
    /// or no port has both.
    pub fn cell_slack(&self, cell: CellId) -> (r: Option<DelayT>)
        ensures
            self.results.slack.worst_slack >= 0 ==> r is None,
            self.results.slack.worst_slack < 0 ==> least_at_cell(
                self.port_data@,
                self.results.arrival_times@,
                self.results.required_times@,
                cell,
                r,
            ),
    {
        if self.results.slack.worst_slack >= 0 {
            return None;
        }
        let pins = self.port_data.keys();
        let ghost arrived = self.results.arrival_times@;
        let ghost due = self.results.required_times@;
        let mut best: Option<DelayT> = None;
        for i in 0..pins.len()
            invariant
                arrived == self.results.arrival_times@,
                due == self.results.required_times@,
                forall|p: CellPin| #[trigger] pins@.contains(p) <==> self.port_data@.contains_key(p),
                match best {
                    Some(s) => exists|k: int|
                        0 <= k < i && pin_counts(self.port_data@, arrived, due, cell, #[trigger] pins@[k], s),
                    None => true,
                },
                forall|k: int|
                    0 <= k < i && timed_pin(self.port_data@, arrived, due, cell, #[trigger] pins@[k]) ==> best is Some
                        && best->0 <= held(due[pins@[k]] - arrived[pins@[k]]),
        {
            let pin: CellPin = pins[i];
            assert(pins@.contains(pin));
            let ghost was = best;
            if pin.cell == cell {
                if let Some(s) = self.endpoint_slack(pin.cell, pin.port) {
                    assert(pin == CellPin { cell: pin.cell, port: pin.port });
                    assert(pin_counts(self.port_data@, arrived, due, cell, pins@[i as int], s));
                    best = match best {
                        Some(b) => if b <= s {
                            Some(b)
                        } else {
                            Some(s)
                        },
                        None => Some(s),
                    };
                } else {
                    assert(pin == CellPin { cell: pin.cell, port: pin.port });
                }
            }
            proof {
                if best == was && was is Some {
                    let k = choose|k: int|
                        0 <= k < i && pin_counts(self.port_data@, arrived, due, cell, #[trigger] pins@[k], was->0);
                    assert(pin_counts(self.port_data@, arrived, due, cell, pins@[k], best->0));
                }
            }
        }
        proof {
            assert forall|p: CellPin| #[trigger] timed_pin(self.port_data@, arrived, due, cell, p) implies best is Some
                && best->0 <= held(due[p] - arrived[p]) by {
                assert(pins@.contains(p));
                let k = choose|k: int| 0 <= k < pins@.len() && pins@[k] == p;
                assert(timed_pin(self.port_data@, arrived, due, cell, pins@[k]));
            }
        }
        best
    }

    /// The effective period of the fastest clock in picoseconds: the smallest period, less what
    /// the worst path is late; zero without a constraint or where nothing is left.
    pub fn effective_period(&self) -> (r: DelayT)
        ensures
            r == effective(
                self.clock_constraints@.dom().is_empty(),
                period_by_default(self.clock_constraints@),
                self.results.slack.worst_slack,
            ),
    {
        let none: bool = self.clock_constraints.len() == 0;
        proof {
            assert(none == self.clock_constraints@.dom().is_empty()) by {
                if none {
                    assert(self.clock_constraints@.dom() =~= Set::<IdString>::empty());
                }
            }
        }
        let period: DelayT = get_default_period(&self.clock_constraints);
        if none || period <= 0 {
            return 0;
        }
        let worst: DelayT = self.results.slack.worst_slack;
        if worst >= 0 {
            return period;
        }
        let left: i64 = period as i64 + worst as i64;
        if left <= 0 {
            0
        } else {
            left as i32
        }
    }
}

/// The period that is left of the smallest one when the worst path is late.
pub open spec fn effective(no_clock: bool, period: DelayT, worst_slack: DelayT) -> DelayT {
    if no_clock || period <= 0 {
        0
    } else if worst_slack >= 0 {
        period
    } else if period + worst_slack <= 0 {
        0
    } else {
        (period + worst_slack) as i32
    }
}

/// The pin is a port of the cell and has both times.
pub open spec fn timed_pin(
    ports: Map<CellPin, PerPort>,
    arrived: Map<CellPin, DelayT>,
    due: Map<CellPin, DelayT>,
    cell: CellId,
    p: CellPin,
) -> bool {
    ports.contains_key(p) && p.cell == cell && arrived.contains_key(p) && due.contains_key(p)
}

/// The pin is a port of the cell and has the slack.
pub open spec fn pin_counts(
    ports: Map<CellPin, PerPort>,
    arrived: Map<CellPin, DelayT>,
    due: Map<CellPin, DelayT>,
    cell: CellId,
    p: CellPin,
    slack: DelayT,
) -> bool {
    timed_pin(ports, arrived, due, cell, p) && slack == held(due[p] - arrived[p])
}

/// The smallest slack at the ports of a cell that have both times.
pub open spec fn least_at_cell(
    ports: Map<CellPin, PerPort>,
    arrived: Map<CellPin, DelayT>,
    due: Map<CellPin, DelayT>,
    cell: CellId,
    r: Option<DelayT>,
) -> bool {
    &&& r is Some ==> exists|p: CellPin| #[trigger] pin_counts(ports, arrived, due, cell, p, r->0)
    &&& forall|p: CellPin| #[trigger]
        timed_pin(ports, arrived, due, cell, p) ==> r is Some && r->0 <= held(due[p] - arrived[p])
}

/// The entry of a map, if there is one.
pub open spec fn found<K, V>(m: Map<K, V>, k: K) -> Option<V> {
    if m.contains_key(k) {
        Some(m[k])
    } else {
        None
    }
}

/// One of the segments goes along the net.
pub open spec fn goes_through(segments: Seq<PathSegment>, net: NetId) -> bool {
    exists|j: int| 0 <= j < segments.len() && (#[trigger] segments[j]).net == net
}

/// The positions of those of the first `n` paths that go through a net.
pub open spec fn positions_through(paths: Seq<TimingPath>, net: NetId, n: int) -> Seq<usize>
    decreases n,
{
    if n <= 0 {
        Seq::empty()
    } else {
        let rest = positions_through(paths, net, n - 1);
        if goes_through(paths[n - 1].segments@, net) {
            rest.push((n - 1) as usize)
        } else {
            rest
        }
    }
}

/// The list holds the paths at some positions.
pub open spec fn picks(paths: Seq<TimingPath>, positions: Seq<usize>, r: Seq<&TimingPath>) -> bool {
    &&& r.len() == positions.len()
    &&& forall|i: int| 0 <= i < r.len() ==> *(#[trigger] r[i]) == paths[positions[i] as int]
}

proof fn lemma_reset_keeps(
    design: Design,
    clocks: Map<IdString, DelayT>,
    period: DelayT,
    ports: Map<CellPin, PortFacts>,
    order: Seq<CellPin>,
    a: DomainSetup,
    b: DomainSetup,
)
    requires
        domains_set(design, clocks, period, ports, order, a),
        b.registry == a.registry,
        b.per_domain == a.per_domain,
        slacks_reset(a.pairs, b.pairs),
    ensures
        domains_set(design, clocks, period, ports, order, b),
{
    let starts = crate::timing::domain_setup::launches(ports, order, order.len() as int);
    let ends = crate::timing::domain_setup::captures(ports, order, 0);
    let start_ids = crate::timing::domain_setup::numbers_of(a.registry, design, clocks, starts);
    let end_ids = crate::timing::domain_setup::numbers_of(a.registry, design, clocks, ends);
    let seeds = crate::timing::domain_setup::seeds_of(starts, start_ids);
    let sinks = crate::timing::domain_setup::seeds_of(ends, end_ids);
    assert forall|i: int| 0 <= i < b.pairs.list@.len() implies #[trigger] b.pairs.list@[i]
        == a.pairs.list@[i] by {
        assert(crate::timing::domain_setup::pair_timed(a.registry, clocks, period, a.pairs.list@[i]));
    }
    let (arriving, wanted) = choose|arriving: Set<PinDomain>, wanted: Set<PinDomain>| #[trigger]
        meets(design, ports, order, seeds, sinks, arriving, wanted, a.pairs);
    assert(b.pairs.list@ =~= a.pairs.list@);
    assert(meets(design, ports, order, seeds, sinks, arriving, wanted, b.pairs));
}

impl Default for TimingAnalyser {
    fn default() -> (r: Self)
        ensures
            r.clock_constraints@ == Map::<IdString, DelayT>::empty(),
            r.results.is_blank(),
            no_domains(r.domains),
            r.max_critical_paths == 10,
            !r.valid,
    {
        Self::new()
    }
}

} // verus!
