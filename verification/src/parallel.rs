//! Work on many nets at once.

use crate::netlist::NetId;
use rayon::iter::{IntoParallelRefIterator, ParallelIterator};
use vstd::prelude::*;

verus! {

/// Applies a function to the nets of a list, on the threads of rayon: `par_iter` over the list, `map`
/// with the function, and `collect` into a list. The claim is that of an indexed parallel iterator:
/// one result for each net, at the place of the net, and each is a result of the function.
#[verifier::external_body]
pub(crate) fn map_in_parallel<F: Fn(NetId) -> R + Sync + Send, R: Send>(nets: &Vec<NetId>, f: F) -> (r: Vec<R>)
    requires
        forall|i: int| 0 <= i < nets@.len() ==> call_requires(f, (#[trigger] nets@[i],)),
    ensures
        r@.len() == nets@.len(),
        forall|i: int| 0 <= i < nets@.len() ==> call_ensures(f, (nets@[i],), #[trigger] r@[i]),
{
    nets.par_iter().map(|&net| f(net)).collect()
}

} // verus!
