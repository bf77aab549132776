//! The aggregation loop's decision core: receive one update, store it,
//! publish the recomputed summary.  The surrounding runtime owns the
//! channels and the watch slot; it feeds updates in and forwards each
//! returned summary, so one publication is owed per ingress event and
//! none otherwise.
use vstd::prelude::*;

use crate::orderbook::OrderBookUpdate;
use crate::orderbook::Summary;
use crate::orderbook_data::OrderBookData;
use crate::orderbook_data::entries_wf;
use crate::orderbook_data::lemma_upsert_wf;
use crate::orderbook_data::spec_summary_asks;
use crate::orderbook_data::spec_summary_bids;
use crate::orderbook_data::spec_summary_spread;
use crate::orderbook_data::spec_upsert;

verus! {

/// Marker for the merge-and-publish process; the runtime around the
/// library constructs the channels it runs between.
#[derive(Debug)]
pub struct AggregatorPublisher {}

/// A summary's content is exactly what the given state denotes.
pub open spec fn summary_of_state(r: Summary, s: Seq<OrderBookUpdate>) -> bool {
    &&& r.bids@ == spec_summary_bids(s)
    &&& r.asks@ == spec_summary_asks(s)
    &&& r.spread == spec_summary_spread(s)
}

/// The stored state after a sequence of updates has been processed in
/// order, starting from no exchanges.
pub open spec fn spec_state_after(us: Seq<OrderBookUpdate>) -> Seq<OrderBookUpdate>
    decreases us.len(),
{
    if us.len() == 0 {
        Seq::<OrderBookUpdate>::empty()
    } else {
        spec_upsert(spec_state_after(us.drop_last()), us.last())
    }
}

/// Processing well-formed updates keeps the state well formed.
pub proof fn lemma_state_after_wf(us: Seq<OrderBookUpdate>)
    requires
        forall|i: int| 0 <= i < us.len() ==> (#[trigger] us[i]).wf(),
    ensures
        entries_wf(spec_state_after(us)),
    decreases us.len(),
{
    if us.len() > 0 {
        assert(forall|i: int| 0 <= i < us.len() - 1 ==> (#[trigger] us.drop_last()[i]) == us[i]);
        lemma_state_after_wf(us.drop_last());
        lemma_upsert_wf(spec_state_after(us.drop_last()), us.last());
    }
}

/// One turn of the aggregation loop: replace the exchange's stored
/// snapshot with the received update and publish the summary of the
/// new state.  Publication is never skipped, not even on unchanged
/// content.
pub fn process_update(data: &mut OrderBookData, update: OrderBookUpdate) -> (r: Summary)
    requires
        old(data).wf(),
        update.wf(),
    ensures
        final(data).wf(),
        final(data)@ == spec_upsert(old(data)@, update),
        summary_of_state(r, final(data)@),
        r.wf(),
{
    data.update_exchange_data(update);
    data.summary()
}

/// Replays a whole ingress sequence through the aggregation loop:
/// exactly one publication per update (none for an empty sequence),
/// and the i-th publication carries the summary of the state after
/// the first i+1 updates, so any client reading the publications in
/// order sees them consistent with the updates' arrival order.
#[verifier::loop_isolation(false)]
pub fn summaries_for(updates: Vec<OrderBookUpdate>) -> (r: Vec<Summary>)
    requires
        forall|i: int| 0 <= i < updates@.len() ==> (#[trigger] updates@[i]).wf(),
    ensures
        r@.len() == updates@.len(),
        forall|i: int|
            0 <= i < r@.len() ==> summary_of_state(
                #[trigger] r@[i],
                spec_state_after(updates@.take(i + 1)),
            ),
        forall|i: int| 0 <= i < r@.len() ==> (#[trigger] r@[i]).wf(),
{
    let ghost orig = updates@;
    let mut updates = updates;
    let mut data = OrderBookData::default();
    let mut out: Vec<Summary> = Vec::new();
    let ghost mut i: int = 0;
    proof {
        assert(orig.take(0) =~= Seq::<OrderBookUpdate>::empty());
        assert(orig.skip(0) =~= orig);
    }
    while updates.len() > 0
        invariant
            0 <= i <= orig.len(),
            updates@ == orig.skip(i as int),
            out@.len() == i,
            data.wf(),
            data@ == spec_state_after(orig.take(i as int)),
            forall|k: int|
                0 <= k < i ==> summary_of_state(
                    #[trigger] out@[k],
                    spec_state_after(orig.take(k + 1)),
                ),
            forall|k: int| 0 <= k < i ==> (#[trigger] out@[k]).wf(),
        decreases updates@.len(),
    {
        let u = updates.remove(0);
        proof {
            assert(u == orig[i as int]);
            assert(updates@ =~= orig.skip(i + 1));
            assert(orig.take(i + 1).drop_last() =~= orig.take(i as int));
            assert(orig.take(i + 1).last() == orig[i as int]);
        }
        let s = process_update(&mut data, u);
        out.push(s);
        proof {
            i = i + 1;
        }
    }
    proof {
        assert(i == orig.len());
    }
    out
}

} // verus!
