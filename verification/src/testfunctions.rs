//! Gossip collection used when trying out the network by hand.

use vstd::prelude::*;
use crate::gossip::{views, GossipMsg, GossipView};
use crate::network::{keep_latest, latest_merge};

verus! {

/// `s` with the messages `ms` taken in one after the other (see `latest_merge`).
pub open spec fn latest_merge_all(s: Seq<GossipView>, ms: Seq<GossipView>) -> Seq<GossipView>
    decreases ms.len(),
{
    if ms.len() == 0 {
        s
    } else {
        latest_merge(latest_merge_all(s, ms.drop_last()), ms.last())
    }
}

/// Merges newly received messages into the ones gathered so far, keeping
/// of each node the message with the highest counter.
pub fn collect_gossip(gossip_heartbeats: Vec<GossipMsg>, new_gossip: Vec<GossipMsg>) -> (r: Vec<
    GossipMsg,
>)
    ensures
        views(r@) == latest_merge_all(views(gossip_heartbeats@), views(new_gossip@)),
{
    let ghost ms = views(new_gossip@);
    let ghost s0 = views(gossip_heartbeats@);
    let mut acc = gossip_heartbeats;
    let mut i: usize = 0;
    while i < new_gossip.len()
        invariant
            i <= new_gossip.len(),
            ms == views(new_gossip@),
            views(acc@) == latest_merge_all(s0, ms.take(i as int)),
        decreases new_gossip.len() - i,
    {
        assert(ms.take(i as int + 1).drop_last() =~= ms.take(i as int));
        assert(ms.take(i as int + 1).last() == new_gossip@[i as int]@);
        let m = new_gossip[i].duplicate();
        keep_latest(&mut acc, m);
        i = i + 1;
    }
    assert(ms.take(new_gossip.len() as int) =~= ms);
    acc
}

} // verus!
