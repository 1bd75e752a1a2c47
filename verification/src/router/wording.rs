//! A validation report as text.

use crate::chipdb::{PipId, WireId};
use crate::context::Context;
use crate::netlist::{CellPin, NetId};
use crate::router::validate::{
    contested_wires, fault_sites, lists_mismatches, lists_pip_contests, lists_wire_contests, mismatched,
    mismatches_in, net_sites, pip_claimants, pip_contest, pip_contests_in, tells, user_sites, wire_claimants,
    wire_claims, wire_contest, wire_contests_in, BreakCause, Bucket, Issue, NetFault, Site, ValidationReport,
};
use crate::text::{decimal, decimal_text, digits, push_digits};
use vstd::prelude::*;

verus! {

/// How many of the nets that claim one thing are named.
pub const MAX_NAMED: usize = 3;

/// The name of a net.
pub open spec fn net_text(ctx: Context, net: NetId) -> Seq<char> {
    ctx.name_text(ctx.design.net_of(net).name)
}

/// The start of a line about a net.
pub open spec fn net_head(ctx: Context, net: NetId) -> Seq<char> {
    "net '"@ + net_text(ctx, net) + "'"@
}

/// A wire: its name, and where it stands.
pub open spec fn wire_text(ctx: Context, w: WireId) -> Seq<char> {
    ctx.chipdb.wire(w).name@ + " ("@ + decimal_text(w.tile as int) + "/"@ + decimal_text(w.index as int) + ")"@
}

/// A pip: where it stands.
pub open spec fn pip_text(p: PipId) -> Seq<char> {
    decimal_text(p.tile as int) + "/"@ + decimal_text(p.index as int)
}

/// A pin of a cell.
pub open spec fn pin_text(ctx: Context, pin: CellPin) -> Seq<char> {
    "cell '"@ + ctx.name_text(ctx.design.cell_of(pin.cell).name) + "' pin '"@ + ctx.name_text(pin.port) + "'"@
}

/// The name of the site of a cell.
pub open spec fn site_text(ctx: Context, pin: CellPin) -> Seq<char> {
    match ctx.design.cell_of(pin.cell).bel {
        Some(b) => ctx.name_text(ctx.bels@[b as int].name),
        None => "?"@,
    }
}

/// A pin that its site has no wire for.
pub open spec fn bare_pin_text(ctx: Context, pin: CellPin) -> Seq<char> {
    "BEL '"@ + site_text(ctx, pin) + "' has no wire for pin '"@ + ctx.name_text(pin.port) + "'"@
}

/// The names of the first `n` nets, with commas between them.
pub open spec fn names_text(ctx: Context, nets: Seq<NetId>, n: int) -> Seq<char>
    decreases n,
{
    if n <= 0 {
        Seq::empty()
    } else if n == 1 {
        net_text(ctx, nets[0])
    } else {
        names_text(ctx, nets, n - 1) + ", "@ + net_text(ctx, nets[n - 1])
    }
}

/// The nets that claim one thing: how many they are, and the names of the first of them.
pub open spec fn claimants_text(ctx: Context, nets: Seq<NetId>) -> Seq<char> {
    let named: int = if nets.len() < MAX_NAMED {
        nets.len() as int
    } else {
        MAX_NAMED as int
    };
    "claimed by "@ + digits(nets.len()) + " nets: "@ + names_text(ctx, nets, named) + if nets.len() > MAX_NAMED {
        ", ..."@
    } else {
        Seq::empty()
    }
}

/// Who holds a wire or a pip.
pub open spec fn holder_text(ctx: Context, owner: Option<NetId>) -> Seq<char> {
    match owner {
        Some(net) => " is bound to net '"@ + net_text(ctx, net) + "'"@,
        None => " is unbound"@,
    }
}

/// Why a sink does not lead back to the source.
pub open spec fn cause_text(cause: BreakCause) -> Seq<char> {
    match cause {
        BreakCause::NoParentPip => "reached a wire with no parent pip before hitting the source"@,
        BreakCause::LeftTree => "parent chain left the routing tree"@,
        BreakCause::Cycle => "cycle detected in parent-pip chain"@,
    }
}

/// One issue.
pub open spec fn issue_text(ctx: Context, issue: Issue) -> Seq<char> {
    match issue {
        Issue::UnplacedDriver { net, pin } => net_head(ctx, net) + ": driver "@ + pin_text(ctx, pin)
            + " is not placed"@,
        Issue::UnplacedUser { net, pin } => net_head(ctx, net) + ": user "@ + pin_text(ctx, pin)
            + " is not placed"@,
        Issue::MissingSourceWire { net, pin } => net_head(ctx, net) + ": driver "@ + bare_pin_text(ctx, pin),
        Issue::MissingSinkWire { net, pin } => net_head(ctx, net) + ": user "@ + bare_pin_text(ctx, pin),
        Issue::SourceNotInTree { net, wire, tree_wires } => net_head(ctx, net) + ": source wire "@ + wire_text(
            ctx,
            wire,
        ) + " not present in routing tree (tree has "@ + digits(tree_wires as nat) + " wires)"@,
        Issue::SinkNotInTree { net, wire, pin } => net_head(ctx, net) + ": sink wire "@ + wire_text(ctx, wire)
            + " for "@ + pin_text(ctx, pin) + " not in routing tree"@,
        Issue::DisconnectedSink { net, wire, pin, cause } => net_head(ctx, net) + ": sink wire "@ + wire_text(
            ctx,
            wire,
        ) + " for "@ + pin_text(ctx, pin) + " not connected to source ("@ + cause_text(cause) + ")"@,
        Issue::WireConflict { wire, nets } => "wire "@ + wire_text(ctx, wire) + " "@ + claimants_text(
            ctx,
            nets@,
        ),
        Issue::PipConflict { pip, nets } => "pip "@ + pip_text(pip) + " "@ + claimants_text(ctx, nets@),
        Issue::WireBindingMismatch { net, wire, owner } => net_head(ctx, net) + " lists wire "@ + wire_text(
            ctx,
            wire,
        ) + " but wire"@ + holder_text(ctx, owner),
        Issue::PipBindingMismatch { net, pip, owner } => net_head(ctx, net) + " lists pip "@ + pip_text(pip)
            + " but pip"@ + holder_text(ctx, owner),
    }
}

/// The first `n` examples, one to a line.
pub open spec fn examples_text(ctx: Context, examples: Seq<Issue>, n: int) -> Seq<char>
    decreases n,
{
    if n <= 0 {
        Seq::empty()
    } else {
        examples_text(ctx, examples, n - 1) + "    - "@ + issue_text(ctx, examples[n - 1]) + "\n"@
    }
}

/// The issues of one kind under a heading; nothing if there are none.
pub open spec fn bucket_text(ctx: Context, b: Bucket, label: Seq<char>) -> Seq<char> {
    if b.total == 0 {
        Seq::empty()
    } else {
        "  "@ + label + " ("@ + digits(b.total as nat) + " total"@ + (if b.total > b.examples@.len() {
            ", showing first "@ + digits(b.examples@.len()) + ")\n"@
        } else {
            ")\n"@
        }) + examples_text(ctx, b.examples@, b.examples@.len() as int)
    }
}

/// The kinds of issue of a report, in the order of the text, each under its heading.
pub open spec fn sections(report: ValidationReport) -> Seq<(Bucket, Seq<char>)> {
    seq![
        (report.unplaced_driver, "nets with unplaced driver cell"@),
        (report.unplaced_user, "nets with unplaced user cell"@),
        (report.missing_source_wire, "driver BEL pins with no wire"@),
        (report.missing_sink_wire, "user BEL pins with no wire"@),
        (report.source_not_in_tree, "nets whose source wire is not in the routing tree"@),
        (report.sink_not_in_tree, "sink wires missing from the routing tree"@),
        (report.disconnected_sink, "sinks not connected back to the source"@),
        (report.wire_conflict, "wires claimed by more than one net"@),
        (report.pip_conflict, "pips claimed by more than one net"@),
        (
            report.wire_binding_mismatch,
            "wires listed in a net but not bound to it in the context"@,
        ),
        (
            report.pip_binding_mismatch,
            "pips listed in a net but not bound to it in the context"@,
        ),
    ]
}

/// How many issues the first `n` sections count, as far as a `usize` can hold it.
pub open spec fn issues_upto(parts: Seq<(Bucket, Seq<char>)>, n: int) -> nat
    decreases n,
{
    if n <= 0 {
        0
    } else {
        crate::router::validate::clip(issues_upto(parts, n - 1) + parts[n - 1].0.total as nat)
    }
}

/// The first `n` sections.
pub open spec fn sections_text(ctx: Context, parts: Seq<(Bucket, Seq<char>)>, n: int) -> Seq<char>
    decreases n,
{
    if n <= 0 {
        Seq::empty()
    } else {
        sections_text(ctx, parts, n - 1) + bucket_text(ctx, parts[n - 1].0, parts[n - 1].1)
    }
}

/// A report: how many issues there are, and the sections.
pub open spec fn report_text(ctx: Context, report: ValidationReport) -> Seq<char> {
    let parts = sections(report);
    let n = parts.len() as int;
    "Routing validation failed ("@ + digits(issues_upto(parts, n)) + " issues):\n"@ + sections_text(ctx, parts, n)
}

/// The nets of a list exist.
pub open spec fn nets_exist(ctx: Context, nets: Seq<NetId>) -> bool {
    forall|i: int| 0 <= i < nets.len() ==> ctx.design.valid_net(#[trigger] nets[i])
}

/// The issue speaks of nets, cells and wires that exist.
pub open spec fn issue_fits(ctx: Context, issue: Issue) -> bool {
    match issue {
        Issue::UnplacedDriver { net, pin } | Issue::UnplacedUser { net, pin } | Issue::MissingSourceWire {
            net,
            pin,
        } | Issue::MissingSinkWire { net, pin } => ctx.design.valid_net(net) && ctx.design.valid_cell(pin.cell),
        Issue::SourceNotInTree { net, wire, tree_wires } => ctx.design.valid_net(net)
            && ctx.chipdb.valid_wire(wire),
        Issue::SinkNotInTree { net, wire, pin } | Issue::DisconnectedSink { net, wire, pin, .. } => {
            &&& ctx.design.valid_net(net)
            &&& ctx.chipdb.valid_wire(wire)
            &&& ctx.design.valid_cell(pin.cell)
        },
        Issue::WireConflict { wire, nets } => ctx.chipdb.valid_wire(wire) && nets_exist(ctx, nets@),
        Issue::PipConflict { pip, nets } => nets_exist(ctx, nets@),
        Issue::WireBindingMismatch { net, wire, owner } => {
            &&& ctx.design.valid_net(net)
            &&& ctx.chipdb.valid_wire(wire)
            &&& owner is Some ==> ctx.design.valid_net(owner->0)
        },
        Issue::PipBindingMismatch { net, pip, owner } => {
            &&& ctx.design.valid_net(net)
            &&& owner is Some ==> ctx.design.valid_net(owner->0)
        },
    }
}

/// The examples speak of nets, cells and wires that exist.
pub open spec fn bucket_fits(ctx: Context, b: Bucket) -> bool {
    forall|i: int| 0 <= i < b.examples@.len() ==> issue_fits(ctx, #[trigger] b.examples@[i])
}

/// All examples of the report do so.
pub open spec fn report_fits(ctx: Context, report: ValidationReport) -> bool {
    forall|i: int| 0 <= i < sections(report).len() ==> bucket_fits(ctx, (#[trigger] sections(report)[i]).0)
}

proof fn lemma_user_sites_fit(ctx: Context, id: NetId, source: WireId, fault: NetFault, n: int, k: int)
    requires
        ctx.wf(),
        ctx.design.valid_net(id),
        n <= ctx.design.net_of(id).users@.len(),
        0 <= k < user_sites(ctx, id, source, fault, n).len(),
    ensures
        site_fits(ctx, fault, user_sites(ctx, id, source, fault, n)[k]),
    decreases n,
{
    let net = ctx.design.net_of(id);
    if n > 0 {
        let before = user_sites(ctx, id, source, fault, n - 1);
        if k < before.len() {
            lemma_user_sites_fit(ctx, id, source, fault, n - 1, k);
        } else {
            let u = net.users@[n - 1];
            assert(ctx.design.net_ok(ctx.design.nets@[id.0 as int]));
            assert(ctx.design.pin_ok(u));
            ctx.lemma_wire_of_pin(u);
        }
    }
}

proof fn lemma_sites_fit(ctx: Context, fault: NetFault, n: int, k: int)
    requires
        ctx.wf(),
        n <= ctx.design.nets@.len(),
        0 <= k < fault_sites(ctx, fault, n).len(),
    ensures
        site_fits(ctx, fault, fault_sites(ctx, fault, n)[k]),
    decreases n,
{
    if n > 0 {
        let before = fault_sites(ctx, fault, n - 1);
        let id = NetId((n - 1) as u32);
        let net = ctx.design.net_of(id);
        if k < before.len() {
            lemma_sites_fit(ctx, fault, n - 1, k);
        } else {
            let own = net_sites(ctx, id, fault);
            assert(fault_sites(ctx, fault, n)[k] == own[k - before.len()]);
            assert(ctx.design.net_ok(ctx.design.nets@[id.0 as int]));
            assert(ctx.design.pin_ok(net.driver));
            let source = ctx.wire_of_pin(net.driver);
            match fault {
                NetFault::UnplacedDriver | NetFault::MissingSourceWire | NetFault::SourceNotInTree => {
                    assert(net.routable());
                    ctx.lemma_wire_of_pin(net.driver);
                },
                _ => {
                    lemma_user_sites_fit(
                        ctx,
                        id,
                        source->0,
                        fault,
                        net.users@.len() as int,
                        k - before.len(),
                    );
                },
            }
        }
    }
}

proof fn lemma_ends_fit(ctx: Context, fault: NetFault, b: Bucket)
    requires
        ctx.wf(),
        b.lists(ctx, fault, fault_sites(ctx, fault, ctx.design.nets@.len() as int)),
    ensures
        bucket_fits(ctx, b),
{
    let n = ctx.design.nets@.len() as int;
    assert forall|k: int| 0 <= k < b.examples@.len() implies issue_fits(ctx, #[trigger] b.examples@[k]) by {
        lemma_sites_fit(ctx, fault, n, k);
        assert(tells(ctx, fault, fault_sites(ctx, fault, n)[k], b.examples@[k]));
    }
}

proof fn lemma_mismatches_fit(ctx: Context, fault: NetFault, b: Bucket)
    requires
        ctx.wf(),
        lists_mismatches(ctx, fault, b, ctx.design.nets@.len() as int),
    ensures
        bucket_fits(ctx, b),
{
    let n = ctx.design.nets@.len() as int;
    let sites = choose|sites: Seq<Site>| #[trigger] mismatches_in(ctx, fault, b, n, sites);
    assert forall|k: int| 0 <= k < b.examples@.len() implies issue_fits(ctx, #[trigger] b.examples@[k]) by {
        let site = sites[k];
        assert(sites.contains(site));
        assert(mismatched(ctx, fault, site, n));
        assert(tells(ctx, fault, site, b.examples@[k]));
        if let Site::TreeWire(id, w) = site {
            assert(ctx.routing_ok(ctx.design.nets@[id.0 as int].wires@));
        }
    }
}

proof fn lemma_wire_claimants_exist(ctx: Context, w: WireId, n: int)
    requires
        ctx.wf(),
        n <= ctx.design.nets@.len(),
    ensures
        nets_exist(ctx, wire_claimants(ctx.design, w, n)),
        wire_claims(ctx.design, w, n) > 0 ==> ctx.chipdb.valid_wire(w),
    decreases n,
{
    if n > 0 {
        lemma_wire_claimants_exist(ctx, w, n - 1);
        assert(ctx.routing_ok(ctx.design.nets@[n - 1].wires@));
    }
}

proof fn lemma_pip_claimants_exist(ctx: Context, p: PipId, n: int)
    requires
        ctx.wf(),
        n <= ctx.design.nets@.len(),
    ensures
        nets_exist(ctx, pip_claimants(ctx.design, p, n)),
    decreases n,
{
    if n > 0 {
        lemma_pip_claimants_exist(ctx, p, n - 1);
        let before = pip_claimants(ctx.design, p, n - 1);
        let all = pip_claimants(ctx.design, p, n);
        assert forall|i: int| 0 <= i < all.len() implies ctx.design.valid_net(#[trigger] all[i]) by {
            if i < before.len() {
                assert(all[i] == before[i]);
            } else {
                assert(all[i] == NetId((n - 1) as u32));
            }
        }
    }
}

proof fn lemma_contests_fit(ctx: Context, wires: Bucket, pips: Bucket)
    requires
        ctx.wf(),
        lists_wire_contests(ctx.design, wires),
        lists_pip_contests(ctx.design, pips),
    ensures
        bucket_fits(ctx, wires),
        bucket_fits(ctx, pips),
{
    let n = ctx.design.nets@.len() as int;
    let ws = choose|ws: Seq<WireId>| #[trigger] wire_contests_in(ctx.design, wires, ws);
    assert forall|k: int| 0 <= k < wires.examples@.len() implies issue_fits(
        ctx,
        #[trigger] wires.examples@[k],
    ) by {
        assert(ws.to_set().contains(ws[k]));
        assert(contested_wires(ctx.design).contains(ws[k]));
        lemma_wire_claimants_exist(ctx, ws[k], n);
        assert(wire_contest(ctx.design, ws[k], wires.examples@[k]));
    }
    let ps = choose|ps: Seq<PipId>| #[trigger] pip_contests_in(ctx.design, pips, ps);
    assert forall|k: int| 0 <= k < pips.examples@.len() implies issue_fits(ctx, #[trigger] pips.examples@[k]) by {
        lemma_pip_claimants_exist(ctx, ps[k], n);
        assert(pip_contest(ctx.design, ps[k], pips.examples@[k]));
    }
}

/// A report that describes the state speaks only of nets, cells and wires that exist, so that it
/// can be put in words.
pub proof fn described_reports_fit(ctx: Context, report: ValidationReport)
    requires
        ctx.wf(),
        report.describes(ctx),
    ensures
        report_fits(ctx, report),
{
    lemma_ends_fit(ctx, NetFault::UnplacedDriver, report.unplaced_driver);
    lemma_ends_fit(ctx, NetFault::UnplacedUser, report.unplaced_user);
    lemma_ends_fit(ctx, NetFault::MissingSourceWire, report.missing_source_wire);
    lemma_ends_fit(ctx, NetFault::MissingSinkWire, report.missing_sink_wire);
    lemma_ends_fit(ctx, NetFault::SourceNotInTree, report.source_not_in_tree);
    lemma_ends_fit(ctx, NetFault::SinkNotInTree, report.sink_not_in_tree);
    lemma_ends_fit(ctx, NetFault::DisconnectedSink, report.disconnected_sink);
    lemma_mismatches_fit(ctx, NetFault::WireMismatch, report.wire_binding_mismatch);
    lemma_mismatches_fit(ctx, NetFault::PipMismatch, report.pip_binding_mismatch);
    lemma_contests_fit(ctx, report.wire_conflict, report.pip_conflict);
}

/// Where a driver or a user has a fault: the net and its pin exist, and so does the wire behind
/// the pin where the fault speaks of it.
spec fn site_fits(ctx: Context, fault: NetFault, site: Site) -> bool {
    match site {
        Site::Driver(id) => {
            let pin = ctx.design.net_of(id).driver;
            &&& ctx.design.valid_net(id)
            &&& ctx.design.valid_cell(pin.cell)
            &&& fault is SourceNotInTree ==> ctx.chipdb.valid_wire(ctx.wire_of_pin(pin)->0)
        },
        Site::User(id, j) => {
            let pin = ctx.design.net_of(id).users@[j];
            &&& ctx.design.valid_net(id)
            &&& ctx.design.valid_cell(pin.cell)
            &&& fault is SinkNotInTree || fault is DisconnectedSink ==> ctx.chipdb.valid_wire(
                ctx.wire_of_pin(pin)->0,
            )
        },
        Site::TreeWire(_, _) => false,
    }
}

pub(crate) fn add_net(out: &mut String, ctx: &Context, net: NetId)
    requires
        ctx.design.valid_net(net),
    ensures
        final(out)@ == old(out)@ + net_text(*ctx, net),
{
    out.append(ctx.name_of(ctx.net(net).name));
}

fn add_head(out: &mut String, ctx: &Context, net: NetId)
    requires
        ctx.design.valid_net(net),
    ensures
        final(out)@ == old(out)@ + net_head(*ctx, net),
{
    out.append("net '");
    add_net(out, ctx, net);
    out.append("'");
    assert(out@ =~= old(out)@ + net_head(*ctx, net));
}

pub(crate) fn add_wire(out: &mut String, ctx: &Context, w: WireId)
    requires
        ctx.chipdb.wf(),
        ctx.chipdb.valid_wire(w),
    ensures
        final(out)@ == old(out)@ + wire_text(*ctx, w),
{
    out.append(ctx.chipdb.wire_info(w).name.as_str());
    out.append(" (");
    out.append(decimal(w.tile).as_str());
    out.append("/");
    out.append(decimal(w.index).as_str());
    out.append(")");
    assert(out@ =~= old(out)@ + wire_text(*ctx, w));
}

fn add_pip(out: &mut String, p: PipId)
    ensures
        final(out)@ == old(out)@ + pip_text(p),
{
    out.append(decimal(p.tile).as_str());
    out.append("/");
    out.append(decimal(p.index).as_str());
    assert(out@ =~= old(out)@ + pip_text(p));
}

pub(crate) fn add_pin(out: &mut String, ctx: &Context, pin: CellPin)
    requires
        ctx.design.valid_cell(pin.cell),
    ensures
        final(out)@ == old(out)@ + pin_text(*ctx, pin),
{
    out.append("cell '");
    out.append(ctx.name_of(ctx.cell(pin.cell).name));
    out.append("' pin '");
    out.append(ctx.name_of(pin.port));
    out.append("'");
    assert(out@ =~= old(out)@ + pin_text(*ctx, pin));
}

pub(crate) fn add_bare_pin(out: &mut String, ctx: &Context, pin: CellPin)
    requires
        ctx.wf(),
        ctx.design.valid_cell(pin.cell),
    ensures
        final(out)@ == old(out)@ + bare_pin_text(*ctx, pin),
{
    out.append("BEL '");
    match ctx.bel_of(pin.cell) {
        Some(bel) => out.append(ctx.name_of(bel.name)),
        None => out.append("?"),
    }
    out.append("' has no wire for pin '");
    out.append(ctx.name_of(pin.port));
    out.append("'");
    assert(out@ =~= old(out)@ + bare_pin_text(*ctx, pin));
}

fn add_claimants(out: &mut String, ctx: &Context, nets: &Vec<NetId>)
    requires
        nets_exist(*ctx, nets@),
    ensures
        final(out)@ == old(out)@ + claimants_text(*ctx, nets@),
{
    out.append("claimed by ");
    push_digits(out, nets.len() as u64);
    out.append(" nets: ");
    let ghost start = out@;
    let named: usize = if nets.len() < MAX_NAMED {
        nets.len()
    } else {
        MAX_NAMED
    };
    assert(out@ =~= start + names_text(*ctx, nets@, 0));
    for i in 0..named
        invariant
            named <= nets@.len(),
            nets_exist(*ctx, nets@),
            out@ == start + names_text(*ctx, nets@, i as int),
    {
        if i > 0 {
            out.append(", ");
        }
        assert(ctx.design.valid_net(nets@[i as int]));
        add_net(out, ctx, nets[i]);
        assert(out@ =~= start + names_text(*ctx, nets@, i + 1));
    }
    if nets.len() > MAX_NAMED {
        out.append(", ...");
    }
    assert(out@ =~= old(out)@ + claimants_text(*ctx, nets@));
}

fn add_holder(out: &mut String, ctx: &Context, owner: Option<NetId>)
    requires
        owner is Some ==> ctx.design.valid_net(owner->0),
    ensures
        final(out)@ == old(out)@ + holder_text(*ctx, owner),
{
    match owner {
        Some(net) => {
            out.append(" is bound to net '");
            add_net(out, ctx, net);
            out.append("'");
        },
        None => out.append(" is unbound"),
    }
    assert(out@ =~= old(out)@ + holder_text(*ctx, owner));
}

fn add_cause(out: &mut String, cause: BreakCause)
    ensures
        final(out)@ == old(out)@ + cause_text(cause),
{
    match cause {
        BreakCause::NoParentPip => out.append("reached a wire with no parent pip before hitting the source"),
        BreakCause::LeftTree => out.append("parent chain left the routing tree"),
        BreakCause::Cycle => out.append("cycle detected in parent-pip chain"),
    }
}

#[verifier::spinoff_prover]
#[verifier::rlimit(40)]
fn add_issue(out: &mut String, ctx: &Context, issue: &Issue)
    requires
        ctx.wf(),
        issue_fits(*ctx, *issue),
    ensures
        final(out)@ == old(out)@ + issue_text(*ctx, *issue),
{
    match issue {
        Issue::UnplacedDriver { net, pin } => {
            add_head(out, ctx, *net);
            out.append(": driver ");
            add_pin(out, ctx, *pin);
            out.append(" is not placed");
            assert(out@ =~= old(out)@ + issue_text(*ctx, *issue));
        },
        Issue::UnplacedUser { net, pin } => {
            add_head(out, ctx, *net);
            out.append(": user ");
            add_pin(out, ctx, *pin);
            out.append(" is not placed");
            assert(out@ =~= old(out)@ + issue_text(*ctx, *issue));
        },
        Issue::MissingSourceWire { net, pin } => {
            add_head(out, ctx, *net);
            out.append(": driver ");
            add_bare_pin(out, ctx, *pin);
            assert(out@ =~= old(out)@ + issue_text(*ctx, *issue));
        },
        Issue::MissingSinkWire { net, pin } => {
            add_head(out, ctx, *net);
            out.append(": user ");
            add_bare_pin(out, ctx, *pin);
            assert(out@ =~= old(out)@ + issue_text(*ctx, *issue));
        },
        Issue::SourceNotInTree { net, wire, tree_wires } => {
            add_head(out, ctx, *net);
            out.append(": source wire ");
            add_wire(out, ctx, *wire);
            out.append(" not present in routing tree (tree has ");
            push_digits(out, *tree_wires as u64);
            out.append(" wires)");
            assert(out@ =~= old(out)@ + issue_text(*ctx, *issue));
        },
        Issue::SinkNotInTree { net, wire, pin } => {
            add_head(out, ctx, *net);
            out.append(": sink wire ");
            add_wire(out, ctx, *wire);
            out.append(" for ");
            add_pin(out, ctx, *pin);
            out.append(" not in routing tree");
            assert(out@ =~= old(out)@ + issue_text(*ctx, *issue));
        },
        Issue::DisconnectedSink { net, wire, pin, cause } => {
            add_head(out, ctx, *net);
            out.append(": sink wire ");
            add_wire(out, ctx, *wire);
            out.append(" for ");
            add_pin(out, ctx, *pin);
            out.append(" not connected to source (");
            add_cause(out, *cause);
            out.append(")");
            assert(out@ =~= old(out)@ + issue_text(*ctx, *issue));
        },
        Issue::WireConflict { wire, nets } => {
            out.append("wire ");
            add_wire(out, ctx, *wire);
            out.append(" ");
            add_claimants(out, ctx, nets);
            assert(out@ =~= old(out)@ + issue_text(*ctx, *issue));
        },
        Issue::PipConflict { pip, nets } => {
            out.append("pip ");
            add_pip(out, *pip);
            out.append(" ");
            add_claimants(out, ctx, nets);
            assert(out@ =~= old(out)@ + issue_text(*ctx, *issue));
        },
        Issue::WireBindingMismatch { net, wire, owner } => {
            add_head(out, ctx, *net);
            out.append(" lists wire ");
            add_wire(out, ctx, *wire);
            out.append(" but wire");
            add_holder(out, ctx, *owner);
            assert(out@ =~= old(out)@ + issue_text(*ctx, *issue));
        },
        Issue::PipBindingMismatch { net, pip, owner } => {
            add_head(out, ctx, *net);
            out.append(" lists pip ");
            add_pip(out, *pip);
            out.append(" but pip");
            add_holder(out, ctx, *owner);
            assert(out@ =~= old(out)@ + issue_text(*ctx, *issue));
        },
    }
}

fn add_bucket(out: &mut String, ctx: &Context, b: &Bucket, label: &str)
    requires
        ctx.wf(),
        bucket_fits(*ctx, *b),
    ensures
        final(out)@ == old(out)@ + bucket_text(*ctx, *b, label@),
{
    if b.total == 0 {
        assert(out@ =~= old(out)@ + bucket_text(*ctx, *b, label@));
        return;
    }
    out.append("  ");
    out.append(label);
    out.append(" (");
    push_digits(out, b.total as u64);
    out.append(" total");
    if b.total > b.examples.len() {
        out.append(", showing first ");
        push_digits(out, b.examples.len() as u64);
    }
    out.append(")\n");
    let ghost start = out@;
    assert(start =~= old(out)@ + ("  "@ + label@ + " ("@ + digits(b.total as nat) + " total"@ + (if b.total
        > b.examples@.len() {
        ", showing first "@ + digits(b.examples@.len()) + ")\n"@
    } else {
        ")\n"@
    })));
    assert(out@ =~= start + examples_text(*ctx, b.examples@, 0));
    for i in 0..b.examples.len()
        invariant
            ctx.wf(),
            bucket_fits(*ctx, *b),
            out@ == start + examples_text(*ctx, b.examples@, i as int),
    {
        assert(issue_fits(*ctx, b.examples@[i as int]));
        out.append("    - ");
        add_issue(out, ctx, &b.examples[i]);
        out.append("\n");
        assert(out@ =~= start + examples_text(*ctx, b.examples@, i + 1));
    }
    assert(out@ =~= old(out)@ + bucket_text(*ctx, *b, label@));
}

/// Adds section `i` of a report.
fn add_section(
    out: &mut String,
    ctx: &Context,
    b: &Bucket,
    label: &str,
    Ghost(report): Ghost<ValidationReport>,
    Ghost(start): Ghost<Seq<char>>,
    Ghost(i): Ghost<int>,
)
    requires
        ctx.wf(),
        report_fits(*ctx, report),
        0 <= i < sections(report).len(),
        sections(report)[i] == (*b, label@),
        old(out)@ == start + sections_text(*ctx, sections(report), i),
    ensures
        final(out)@ == start + sections_text(*ctx, sections(report), i + 1),
{
    assert(bucket_fits(*ctx, sections(report)[i].0));
    add_bucket(out, ctx, b, label);
    assert(out@ =~= start + sections_text(*ctx, sections(report), i + 1));
}

fn sum(a: usize, b: usize) -> (r: usize)
    ensures
        r == crate::router::validate::clip((a + b) as nat),
{
    if a > usize::MAX - b {
        usize::MAX
    } else {
        a + b
    }
}

/// How many issues a report counts.
pub fn issue_count(report: &ValidationReport) -> (r: usize)
    ensures
        r == issues_upto(sections(*report), sections(*report).len() as int),
{
    proof {
        reveal_with_fuel(issues_upto, 12);
    }
    let mut n: usize = report.unplaced_driver.total;
    n = sum(n, report.unplaced_user.total);
    n = sum(n, report.missing_source_wire.total);
    n = sum(n, report.missing_sink_wire.total);
    n = sum(n, report.source_not_in_tree.total);
    n = sum(n, report.sink_not_in_tree.total);
    n = sum(n, report.disconnected_sink.total);
    n = sum(n, report.wire_conflict.total);
    n = sum(n, report.pip_conflict.total);
    n = sum(n, report.wire_binding_mismatch.total);
    sum(n, report.pip_binding_mismatch.total)
}

/// A validation report as text.
#[verifier::spinoff_prover]
#[verifier::rlimit(40)]
pub fn validation_text(ctx: &Context, report: &ValidationReport) -> (r: String)
    requires
        ctx.wf(),
        report_fits(*ctx, *report),
    ensures
        r@ == report_text(*ctx, *report),
{
    let mut s = String::new();
    s.append("Routing validation failed (");
    push_digits(&mut s, issue_count(report) as u64);
    s.append(" issues):\n");
    let out = &mut s;
    let ghost start = out@;
    let ghost whole = *report;
    let ghost parts = sections(whole);
    assert(out@ =~= start + sections_text(*ctx, parts, 0));
    add_section(
        out,
        ctx,
        &report.unplaced_driver,
        "nets with unplaced driver cell",
        Ghost(whole),
        Ghost(start),
        Ghost(0),
    );
    add_section(
        out,
        ctx,
        &report.unplaced_user,
        "nets with unplaced user cell",
        Ghost(whole),
        Ghost(start),
        Ghost(1),
    );
    add_section(
        out,
        ctx,
        &report.missing_source_wire,
        "driver BEL pins with no wire",
        Ghost(whole),
        Ghost(start),
        Ghost(2),
    );
    add_section(
        out,
        ctx,
        &report.missing_sink_wire,
        "user BEL pins with no wire",
        Ghost(whole),
        Ghost(start),
        Ghost(3),
    );
    add_section(
        out,
        ctx,
        &report.source_not_in_tree,
        "nets whose source wire is not in the routing tree",
        Ghost(whole),
        Ghost(start),
        Ghost(4),
    );
    add_section(
        out,
        ctx,
        &report.sink_not_in_tree,
        "sink wires missing from the routing tree",
        Ghost(whole),
        Ghost(start),
        Ghost(5),
    );
    add_section(
        out,
        ctx,
        &report.disconnected_sink,
        "sinks not connected back to the source",
        Ghost(whole),
        Ghost(start),
        Ghost(6),
    );
    add_section(
        out,
        ctx,
        &report.wire_conflict,
        "wires claimed by more than one net",
        Ghost(whole),
        Ghost(start),
        Ghost(7),
    );
    add_section(
        out,
        ctx,
        &report.pip_conflict,
        "pips claimed by more than one net",
        Ghost(whole),
        Ghost(start),
        Ghost(8),
    );
    add_section(
        out,
        ctx,
        &report.wire_binding_mismatch,
        "wires listed in a net but not bound to it in the context",
        Ghost(whole),
        Ghost(start),
        Ghost(9),
    );
    add_section(
        out,
        ctx,
        &report.pip_binding_mismatch,
        "pips listed in a net but not bound to it in the context",
        Ghost(whole),
        Ghost(start),
        Ghost(10),
    );
    assert(s@ =~= report_text(*ctx, *report));
    s
}

} // verus!
