//! Choosing which of the images that were found are read.

use rand::seq::SliceRandom;
use vstd::prelude::*;
use vstd::seq_lib::{to_multiset_contains, to_multiset_len};

verus! {

/// The positions `0, 1, .., count - 1` in ascending order.
pub open spec fn in_order(count: nat) -> Seq<usize> {
    Seq::new(count, |i: int| i as usize)
}

/// `picked` names positions below `available`, none of them twice.
pub open spec fn is_selection(picked: Seq<usize>, available: nat) -> bool {
    &&& picked.no_duplicates()
    &&& forall|i: int| 0 <= i < picked.len() ==> (#[trigger] picked[i]) < available
}

/// Brings the positions into a random order.
///
/// Calls `rand::seq::SliceRandom::shuffle` with `rand::thread_rng()`. The outcome depends on
/// chance; the contract claims only that the vector holds the same items as before.
#[verifier::external_body]
fn shuffle(order: &mut Vec<usize>)
    ensures
        final(order)@.to_multiset() == old(order)@.to_multiset(),
{
    order.shuffle(&mut rand::thread_rng());
}

/// A rearrangement of a selection is a selection of the same length.
pub proof fn lemma_rearranged_selection(before: Seq<usize>, after: Seq<usize>, available: nat)
    requires
        is_selection(before, available),
        after.to_multiset() == before.to_multiset(),
    ensures
        is_selection(after, available),
        after.len() == before.len(),
{
    broadcast use to_multiset_contains, to_multiset_len;

    assert(before.len() == before.to_multiset().len());
    before.lemma_multiset_has_no_duplicates();
    after.lemma_multiset_has_no_duplicates_conv();
    assert forall|i: int| 0 <= i < after.len() implies (#[trigger] after[i]) < available by {
        assert(after.to_multiset().count(after[i]) > 0);
    }
}

/// Keeps the first `limit` positions of `order`, all of them where there are no more.
pub fn limit_images(order: Vec<usize>, limit: usize) -> (picked: Vec<usize>)
    ensures
        picked@ == order@.take(if limit <= order@.len() { limit as int } else { order@.len() as int }),
{
    let mut picked = order;
    picked.truncate(limit);
    picked
}

/// Chooses which of `available` images are read, and in which order.
///
/// Without a limit all of them are read in the order in which they were found. With a limit
/// they are brought into a random order and as many as the limit allows are read.
pub fn pick_images(available: usize, n_max_imgs: Option<usize>) -> (picked: Vec<usize>)
    ensures
        is_selection(picked@, available as nat),
        match n_max_imgs {
            None => picked@ == in_order(available as nat),
            Some(limit) => picked@.len() == if limit <= available {
                limit
            } else {
                available
            },
        },
{
    let mut order: Vec<usize> = Vec::new();
    let mut i: usize = 0;
    while i < available
        invariant
            i <= available,
            order@ == in_order(i as nat),
        decreases available - i,
    {
        order.push(i);
        i = i + 1;
    }
    match n_max_imgs {
        None => order,
        Some(limit) => {
            let ghost found = order@;
            shuffle(&mut order);
            proof {
                lemma_rearranged_selection(found, order@, available as nat);
            }
            limit_images(order, limit)
        },
    }
}

} // verus!
