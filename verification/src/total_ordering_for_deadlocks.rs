//! Deadlock prevention by a total order on resources: a worker that needs
//! two resources always locks the lower-numbered one first.

use crate::randomness::random_usize;
use vstd::prelude::*;

verus! {

/// Number of workers competing for the resources.
pub const MAX_WORKERS: usize = 6;

/// Number of resources.
pub const MAX_RESOURCES: usize = 3;

/// The resource that a raw random number picks.
pub fn resource_index(raw: usize) -> (index: usize)
    ensures
        index == raw % MAX_RESOURCES,
        index < MAX_RESOURCES,
{
    raw % MAX_RESOURCES
}

/// Picks a resource at random.
pub fn pick_resource() -> (index: usize)
    ensures
        index < MAX_RESOURCES,
{
    resource_index(random_usize())
}

/// The order in which a worker that wants resources `first` and `second`
/// locks them: lower number first. `None` when both are the same resource,
/// and the worker draws again.
pub fn lock_order(first: usize, second: usize) -> (order: Option<(usize, usize)>)
    ensures
        first == second <==> order is None,
        order matches Some((lower, higher)) ==> {
            &&& lower < higher
            &&& (lower == first && higher == second) || (lower == second && higher == first)
        },
{
    if first == second {
        None
    } else if second < first {
        Some((second, first))
    } else {
        Some((first, second))
    }
}

/// A chain of workers, each holding the resource `.0` and waiting for the
/// resource `.1`, which the next worker in the chain holds.
pub open spec fn waits_in_chain(chain: Seq<(int, int)>) -> bool {
    forall|k: int| 0 <= k < chain.len() - 1 ==> #[trigger] chain[k].1 == chain[k + 1].0
}

/// Every worker waits for a resource numbered above the one it holds, as
/// `lock_order` arranges.
pub open spec fn waits_upward(chain: Seq<(int, int)>) -> bool {
    forall|k: int| 0 <= k < chain.len() ==> #[trigger] chain[k].0 < chain[k].1
}

/// Along a chain of upward waits the held resources grow.
proof fn lemma_chain_grows(chain: Seq<(int, int)>, k: int)
    requires
        waits_in_chain(chain),
        waits_upward(chain),
        0 <= k < chain.len(),
    ensures
        chain[0].0 <= chain[k].0,
        chain[0].0 < chain[k].1,
    decreases k,
{
    if k > 0 {
        lemma_chain_grows(chain, k - 1);
        assert(chain[k - 1].1 == chain[k].0);
    }
    assert(chain[k].0 < chain[k].1);
}

/// No deadlock: when every worker locks its lower resource first, a chain
/// of waiting workers can never close into a cycle, since the last worker
/// waits for a resource above the one the first worker holds.
pub proof fn lemma_no_wait_cycle(chain: Seq<(int, int)>)
    requires
        chain.len() > 0,
        waits_in_chain(chain),
        waits_upward(chain),
    ensures
        chain.last().1 != chain[0].0,
{
    lemma_chain_grows(chain, chain.len() - 1);
}

} // verus!
