//! What every router offers.

use crate::context::Context;
use crate::netlist::NetId;
use crate::router::error::RouterError;
use vstd::prelude::*;

verus! {

/// The message of a router that cannot route single nets.
pub open spec fn no_increments_text() -> Seq<char> {
    "incremental routing not supported by this algorithm"@
}

/// A net was refused: the error says that single nets cannot be routed, and nothing has changed.
pub open spec fn refused(old_ctx: Context, r: Result<(), RouterError>, new: Context) -> bool {
    &&& r is Err
    &&& r->Err_0 is Generic
    &&& r->Err_0->Generic_0@ == no_increments_text()
    &&& new == old_ctx
}

/// One net was routed, as `done` tells, or refused.
pub open spec fn one_routed(
    done: spec_fn(Context, NetId, Result<(), RouterError>, Context) -> bool,
    old_ctx: Context,
    net: NetId,
    r: Result<(), RouterError>,
    new: Context,
) -> bool {
    done(old_ctx, net, r, new) || refused(old_ctx, r, new)
}

/// The first `n` nets of a list were routed one after the other, each without an error. `trail` is the
/// state before each and after the last.
pub open spec fn routed_upto(
    done: spec_fn(Context, NetId, Result<(), RouterError>, Context) -> bool,
    nets: Seq<NetId>,
    n: int,
    trail: Seq<Context>,
) -> bool {
    &&& 0 <= n <= nets.len()
    &&& n < trail.len()
    &&& forall|i: int|
        0 <= i < n ==> one_routed(done, #[trigger] trail[i], nets[i], Ok(()), trail[i + 1])
}

/// The first `n` nets of a list were routed without an error, and either those are all, or the one
/// after them failed and the error is its own.
pub open spec fn ended_at(
    done: spec_fn(Context, NetId, Result<(), RouterError>, Context) -> bool,
    old_ctx: Context,
    nets: Seq<NetId>,
    r: Result<(), RouterError>,
    new: Context,
    n: int,
    trail: Seq<Context>,
) -> bool {
    &&& routed_upto(done, nets, n, trail)
    &&& trail[0] == old_ctx
    &&& match r {
        Ok(_) => n == nets.len() && new == trail[n],
        Err(e) => n < nets.len() && one_routed(done, trail[n], nets[n], Err(e), new),
    }
}

/// The nets of a list were routed one after the other, up to the first that failed.
pub open spec fn routed_in_turn(
    done: spec_fn(Context, NetId, Result<(), RouterError>, Context) -> bool,
    old_ctx: Context,
    nets: Seq<NetId>,
    r: Result<(), RouterError>,
    new: Context,
) -> bool {
    exists|n: int, trail: Seq<Context>| #[trigger] ended_at(done, old_ctx, nets, r, new, n, trail)
}

/// A routing algorithm. Routing leaves everything as it is but the bindings and the routing of nets.
pub trait Router {
    type Config;

    /// What the algorithm needs of its configuration.
    spec fn config_ok(cfg: &Self::Config) -> bool;

    /// What routing one net does and returns.
    spec fn net_done(
        &self,
        cfg: &Self::Config,
        old_ctx: Context,
        net: NetId,
        r: Result<(), RouterError>,
        new: Context,
    ) -> bool;

    /// Routes all nets that take part in routing.
    fn route(&self, ctx: &mut Context, cfg: &Self::Config) -> (r: Result<(), RouterError>)
        requires
            old(ctx).wf(),
            Self::config_ok(cfg),
        ensures
            final(ctx).wf(),
            final(ctx).same_base(*old(ctx)),
    ;

    /// Routes one net. An algorithm that cannot do so says so and changes nothing.
    fn route_net(&self, ctx: &mut Context, cfg: &Self::Config, net: NetId) -> (r: Result<(), RouterError>)
        requires
            old(ctx).wf(),
            Self::config_ok(cfg),
            old(ctx).design.valid_net(net),
        ensures
            final(ctx).wf(),
            final(ctx).same_base(*old(ctx)),
            final(ctx).design.nets@.len() == old(ctx).design.nets@.len(),
            self.net_done(cfg, *old(ctx), net, r, *final(ctx)) || refused(*old(ctx), r, *final(ctx)),
        default_ensures
            refused(*old(ctx), r, *final(ctx)),
    {
        Err(
            RouterError::Generic(
                String::from_str("incremental routing not supported by this algorithm"),
            ),
        )
    }

    /// Routes a set of nets, given as a list. An algorithm without a way of its own routes one after the other and
    /// stops at the first that fails.
    fn route_nets(&self, ctx: &mut Context, cfg: &Self::Config, nets: &Vec<NetId>) -> (r: Result<
        (),
        RouterError,
    >)
        requires
            old(ctx).wf(),
            Self::config_ok(cfg),
            forall|i: int| 0 <= i < nets@.len() ==> old(ctx).design.valid_net(#[trigger] nets@[i]),
        ensures
            final(ctx).wf(),
            final(ctx).same_base(*old(ctx)),
            final(ctx).design.nets@.len() == old(ctx).design.nets@.len(),
        default_ensures
            routed_in_turn(
                (|o: Context, k: NetId, e: Result<(), RouterError>, c: Context| self.net_done(cfg, o, k, e, c)),
                *old(ctx),
                nets@,
                r,
                *final(ctx),
            ),
    {
        let ghost done = |o: Context, k: NetId, e: Result<(), RouterError>, c: Context|
            self.net_done(cfg, o, k, e, c);
        let ghost mut trail: Seq<Context> = seq![*ctx];
        for i in 0..nets.len()
            invariant
                Self::config_ok(cfg),
                done == (|o: Context, k: NetId, e: Result<(), RouterError>, c: Context|
                    self.net_done(cfg, o, k, e, c)),
                ctx.wf(),
                ctx.same_base(*old(ctx)),
                ctx.design.nets@.len() == old(ctx).design.nets@.len(),
                forall|i: int| 0 <= i < nets@.len() ==> old(ctx).design.valid_net(#[trigger] nets@[i]),
                trail.len() == i + 1,
                trail[0] == *old(ctx),
                trail[i as int] == *ctx,
                routed_upto(done, nets@, i as int, trail),
        {
            assert(old(ctx).design.valid_net(nets@[i as int]));
            let ghost before = *ctx;
            match self.route_net(ctx, cfg, nets[i]) {
                Ok(u) => {
                    proof {
                        assert(u == ());
                        assert(one_routed(done, before, nets@[i as int], Ok(()), *ctx));
                        let longer = trail.push(*ctx);
                        assert forall|k: int| 0 <= k < i + 1 implies one_routed(
                            done,
                            #[trigger] longer[k],
                            nets@[k],
                            Ok(()),
                            longer[k + 1],
                        ) by {
                            if k < i {
                                assert(longer[k] == trail[k]);
                                assert(longer[k + 1] == trail[k + 1]);
                            }
                        }
                        trail = longer;
                    }
                },
                Err(e) => {
                    proof {
                        assert(ended_at(done, *old(ctx), nets@, Err(e), *ctx, i as int, trail));
                    }
                    return Err(e);
                },
            }
        }
        proof {
            assert(ended_at(done, *old(ctx), nets@, Ok(()), *ctx, nets@.len() as int, trail));
        }
        Ok(())
    }
}

} // verus!
