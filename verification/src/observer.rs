//! The chain observer: which of the unspent outputs that a node reports are
//! handed to the reconciliation loop.

use crate::reconcile::{
    output_views, ObservedOutput, OutputView, WATCH_MAX_CONFIRMATIONS, WATCH_MIN_CONFIRMATIONS,
};
use crate::text::views;
use vstd::prelude::*;

verus! {

/// `output` pays to one of `addresses` and has between `min` and `max`
/// confirmations.
pub open spec fn watched(
    output: OutputView,
    addresses: Seq<Seq<char>>,
    min_confirmations: u32,
    max_confirmations: u32,
) -> bool {
    &&& addresses.contains(output.address)
    &&& min_confirmations <= output.confirmations <= max_confirmations
}

/// The outputs of `reported` that are watched, in their order.
pub open spec fn observed(
    reported: Seq<OutputView>,
    addresses: Seq<Seq<char>>,
    min_confirmations: u32,
    max_confirmations: u32,
) -> Seq<OutputView>
    decreases reported.len(),
{
    if reported.len() == 0 {
        Seq::empty()
    } else if watched(reported.last(), addresses, min_confirmations, max_confirmations) {
        observed(reported.drop_last(), addresses, min_confirmations, max_confirmations).push(
            reported.last(),
        )
    } else {
        observed(reported.drop_last(), addresses, min_confirmations, max_confirmations)
    }
}

/// Every output that is observed pays to a watched address and lies in the
/// confirmation window.
pub proof fn lemma_observed_are_watched(
    reported: Seq<OutputView>,
    addresses: Seq<Seq<char>>,
    min_confirmations: u32,
    max_confirmations: u32,
)
    ensures
        forall|i: int|
            0 <= i < observed(reported, addresses, min_confirmations, max_confirmations).len()
                ==> watched(
                #[trigger] observed(reported, addresses, min_confirmations, max_confirmations)[i],
                addresses,
                min_confirmations,
                max_confirmations,
            ),
    decreases reported.len(),
{
    let all = observed(reported, addresses, min_confirmations, max_confirmations);
    if reported.len() > 0 {
        let fewer = observed(
            reported.drop_last(),
            addresses,
            min_confirmations,
            max_confirmations,
        );
        lemma_observed_are_watched(
            reported.drop_last(),
            addresses,
            min_confirmations,
            max_confirmations,
        );
        assert forall|i: int| 0 <= i < all.len() implies watched(
            #[trigger] all[i],
            addresses,
            min_confirmations,
            max_confirmations,
        ) by {
            if i < fewer.len() {
                assert(all[i] == fewer[i]);
            }
        }
    }
}

/// Whether `address` is one of `addresses`.
fn is_watched(address: &String, addresses: &Vec<String>) -> (found: bool)
    ensures
        found == views(addresses@).contains(address@),
{
    let mut i: usize = 0;
    while i < addresses.len()
        invariant
            i <= addresses.len(),
            forall|k: int| 0 <= k < i ==> views(addresses@)[k] != address@,
        decreases addresses.len() - i,
    {
        if addresses[i] == *address {
            assert(views(addresses@)[i as int] == address@);
            return true;
        }
        i += 1;
    }
    false
}

/// Of the outputs that the node reports, those that pay to one of
/// `addresses` with between `min_confirmations` and `max_confirmations`
/// confirmations, in the order in which they were reported.
pub fn observe(
    reported: Vec<ObservedOutput>,
    addresses: &Vec<String>,
    min_confirmations: u32,
    max_confirmations: u32,
) -> (outputs: Vec<ObservedOutput>)
    ensures
        output_views(outputs@) == observed(
            output_views(reported@),
            views(addresses@),
            min_confirmations,
            max_confirmations,
        ),
{
    let ghost all = output_views(reported@);
    let mut outputs: Vec<ObservedOutput> = Vec::new();
    let mut i: usize = 0;
    assert(all.take(0) =~= Seq::empty());
    assert(output_views(outputs@) =~= Seq::empty());
    while i < reported.len()
        invariant
            i <= reported.len(),
            all == output_views(reported@),
            output_views(outputs@) == observed(
                all.take(i as int),
                views(addresses@),
                min_confirmations,
                max_confirmations,
            ),
        decreases reported.len() - i,
    {
        assert(all.take(i + 1).drop_last() =~= all.take(i as int));
        assert(all.take(i + 1).last() == reported[i as int]@);
        if min_confirmations <= reported[i].confirmations && reported[i].confirmations
            <= max_confirmations && is_watched(&reported[i].address, addresses) {
            let ghost sofar = output_views(outputs@);
            outputs.push(
                ObservedOutput {
                    address: reported[i].address.clone(),
                    transaction_id: reported[i].transaction_id.clone(),
                    amount: reported[i].amount,
                    confirmations: reported[i].confirmations,
                },
            );
            assert(output_views(outputs@) =~= sofar.push(reported[i as int]@));
        }
        i += 1;
    }
    assert(all.take(i as int) =~= all);
    outputs
}

/// The outputs to act upon in one tick: those that pay to one of
/// `addresses` with at most [`WATCH_MAX_CONFIRMATIONS`] confirmations.
pub fn observe_tick(reported: Vec<ObservedOutput>, addresses: &Vec<String>) -> (outputs: Vec<
    ObservedOutput,
>)
    ensures
        output_views(outputs@) == observed(
            output_views(reported@),
            views(addresses@),
            WATCH_MIN_CONFIRMATIONS,
            WATCH_MAX_CONFIRMATIONS,
        ),
{
    observe(reported, addresses, WATCH_MIN_CONFIRMATIONS, WATCH_MAX_CONFIRMATIONS)
}

} // verus!
