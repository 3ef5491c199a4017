//! What a node does with the orders its peers gossip: recovering its own
//! cab orders after a restart, clearing completed orders, and the per-tick
//! work of the master and of a slave.

use vstd::prelude::*;
use crate::types::Order;
use crate::orders::{add_all_unique, copy_orders, push_unique, remove_order, without};
use crate::gossip::{
    find_entry, keys_unique, msg_wf, table_get, table_has, table_of, table_pos, table_value,
    views, GossipMsg, GossipView, PeerOrders, Table,
};
use crate::network::{all_wf, Network};
use crate::assigner::{AssignerView, RequestAssigner};

verus! {

/// The cab orders that the messages `gs` hold for node `id`, message after message.
pub open spec fn recovered(gs: Seq<GossipView>, id: Seq<char>) -> Seq<Order>
    decreases gs.len(),
{
    if gs.len() == 0 {
        Seq::empty()
    } else {
        recovered(gs.drop_last(), id) + table_get(gs.last().peer_cab_orders, id)
    }
}

/// `recovered` of a concatenation.
proof fn lemma_recovered_append(a: Seq<GossipView>, b: Seq<GossipView>, id: Seq<char>)
    ensures
        recovered(a + b, id) == recovered(a, id) + recovered(b, id),
    decreases b.len(),
{
    if b.len() == 0 {
        assert(a + b =~= a);
        assert(recovered(a, id) + recovered(b, id) =~= recovered(a, id));
    } else {
        lemma_recovered_append(a, b.drop_last(), id);
        assert((a + b).drop_last() =~= a + b.drop_last());
        assert((a + b).last() == b.last());
        assert(recovered(a + b, id) =~= recovered(a, id) + recovered(b, id));
    }
}

impl RequestAssigner {
    /// On start-up: restores our own cab orders from the copies that peers
    /// gossip for us, each order once; every order added bumps the counter.
    pub fn recover_cab_orders_from_gossip(&self, gossip: &[GossipMsg], network: &mut Network)
        requires
            all_wf(views(gossip@)),
            old(network).state.counter + add_all_unique(
                old(network).state@.cab_orders,
                recovered(views(gossip@), old(network).state@.id),
            ).len() - old(network).state@.cab_orders.len() <= i32::MAX,
        ensures
            ({
                let o = old(network).state@;
                let cab = add_all_unique(o.cab_orders, recovered(views(gossip@), o.id));
                final(network).state@ == (GossipView {
                    cab_orders: cab,
                    counter: (o.counter + cab.len() - o.cab_orders.len()) as i32,
                    ..o
                })
            }),
            forall|c: Order|
                #[trigger] final(network).state@.cab_orders.contains(c)
                    ==> old(network).state@.cab_orders.contains(c) || exists|m: int|
                    0 <= m < gossip@.len() && #[trigger] table_get(
                        gossip@[m]@.peer_cab_orders,
                        old(network).state@.id,
                    ).contains(c),
            final(network).cleared_at == old(network).cleared_at,
    {
        let ghost gs = views(gossip@);
        let ghost o = network.state@;
        proof {
            crate::laws::lemma_recovery_adds_nothing_else(o, gs);
            assert forall|m: int| 0 <= m < gossip@.len() implies #[trigger] gossip@[m]@ == gs[m] by {}
        }
        let ghost total = recovered(gs, o.id);
        let my_id = network.state.id.clone();
        let mut i: usize = 0;
        while i < gossip.len()
            invariant
                i <= gossip.len(),
                gs == views(gossip@),
                all_wf(gs),
                my_id@ == o.id,
                total == recovered(gs, o.id),
                o.counter + add_all_unique(o.cab_orders, total).len() - o.cab_orders.len() <= i32::MAX,
                network.state@ == (GossipView {
                    cab_orders: add_all_unique(o.cab_orders, recovered(gs.take(i as int), o.id)),
                    counter: (o.counter + add_all_unique(
                        o.cab_orders,
                        recovered(gs.take(i as int), o.id),
                    ).len() - o.cab_orders.len()) as i32,
                    ..o
                }),
                network.cleared_at == old(network).cleared_at,
            decreases gossip.len() - i,
        {
            assert(gs.take(i as int + 1).drop_last() =~= gs.take(i as int));
            assert(gs.take(i as int + 1).last() == gossip@[i as int]@);
            let ghost pre = recovered(gs.take(i as int), o.id);
            let ghost entry = table_get(gs[i as int].peer_cab_orders, o.id);
            proof {
                lemma_recovered_append(gs.take(i as int + 1), gs.skip(i as int + 1), o.id);
                assert(gs.take(i as int + 1) + gs.skip(i as int + 1) =~= gs);
                assert(msg_wf(gs[i as int]));
            }
            let entries = &gossip[i].peer_cab_orders;
            match find_entry(entries, &my_id) {
                Some(p) => {
                    proof {
                        crate::gossip::lemma_table_pos(table_of(entries@), p as int);
                    }
                    let cabs = &entries[p].orders;
                    assert(cabs@ == entry);
                    let mut j: usize = 0;
                    while j < cabs.len()
                        invariant
                            j <= cabs.len(),
                            cabs@ == entry,
                            o.counter + add_all_unique(o.cab_orders, total).len()
                                - o.cab_orders.len() <= i32::MAX,
                            total == pre + entry + recovered(gs.skip(i as int + 1), o.id),
                            network.state@ == (GossipView {
                                cab_orders: add_all_unique(o.cab_orders, pre + entry.take(j as int)),
                                counter: (o.counter + add_all_unique(
                                    o.cab_orders,
                                    pre + entry.take(j as int),
                                ).len() - o.cab_orders.len()) as i32,
                                ..o
                            }),
                            network.cleared_at == old(network).cleared_at,
                        decreases cabs.len() - j,
                    {
                        let c = cabs[j];
                        let ghost next = pre + entry.take(j as int + 1);
                        assert(next.drop_last() =~= pre + entry.take(j as int));
                        assert(next.last() == c);
                        proof {
                            assert(total =~= next + (entry.skip(j as int + 1) + recovered(
                                gs.skip(i as int + 1),
                                o.id,
                            )));
                            crate::orders::lemma_add_all_unique_mono(
                                o.cab_orders,
                                next,
                                entry.skip(j as int + 1) + recovered(gs.skip(i as int + 1), o.id),
                            );
                            crate::orders::lemma_add_all_unique(
                                o.cab_orders,
                                pre + entry.take(j as int),
                            );
                        }
                        if push_unique(&mut network.state.cab_orders, c) {
                            network.state.counter = network.state.counter + 1;
                        }
                        j = j + 1;
                    }
                    assert(entry.take(cabs.len() as int) =~= entry);
                },
                None => {
                    assert(entry =~= Seq::<Order>::empty());
                    assert(pre + entry =~= pre);
                },
            }
            i = i + 1;
        }
        assert(gs.take(gossip.len() as int) =~= gs);
    }
}

/// `t` with `c` removed from the orders stored for `id`, if any.
pub open spec fn table_strip_at(t: Table, id: Seq<char>, c: Order) -> Table {
    if table_has(t, id) {
        t.update(table_pos(t, id), (id, without(table_value(t, id), c)))
    } else {
        t
    }
}

/// What one peer's completed order does to our state: the order leaves
/// our hall orders, our cab orders if the peer is ourselves, and the cab
/// orders we hold for that peer.
pub open spec fn clear_step(s: GossipView, p: GossipView) -> GossipView {
    match p.cleared_order {
        None => s,
        Some(c) => GossipView {
            hall_orders: without(s.hall_orders, c),
            cab_orders: if p.id == s.id {
                without(s.cab_orders, c)
            } else {
                s.cab_orders
            },
            peer_cab_orders: table_strip_at(s.peer_cab_orders, p.id, c),
            ..s
        },
    }
}

/// Our state after the completed orders of `gs`, one peer after the other.
pub open spec fn cleared_state(s: GossipView, gs: Seq<GossipView>) -> GossipView
    decreases gs.len(),
{
    if gs.len() == 0 {
        s
    } else {
        clear_step(cleared_state(s, gs.drop_last()), gs.last())
    }
}

/// The cached peers with `c` removed from their hall orders.
pub open spec fn cache_without(cs: Seq<GossipView>, c: Order) -> Seq<GossipView> {
    cs.map_values(|m: GossipView| GossipView { hall_orders: without(m.hall_orders, c), ..m })
}

/// The cached peers after the completed orders of `gs`.
pub open spec fn cleared_cache(cs: Seq<GossipView>, gs: Seq<GossipView>) -> Seq<GossipView>
    decreases gs.len(),
{
    if gs.len() == 0 {
        cs
    } else {
        let r = cleared_cache(cs, gs.drop_last());
        match gs.last().cleared_order {
            Some(c) => cache_without(r, c),
            None => r,
        }
    }
}

/// Removes `c` from the hall orders of every message of `v`.
pub(crate) fn strip_cache(v: &Vec<GossipMsg>, c: &Order) -> (r: Vec<GossipMsg>)
    ensures
        views(r@) == cache_without(views(v@), *c),
{
    let ghost s = views(v@);
    let mut r: Vec<GossipMsg> = Vec::new();
    let mut k: usize = 0;
    while k < v.len()
        invariant
            k <= v.len(),
            s == views(v@),
            views(r@) == cache_without(s, *c).take(k as int),
        decreases v.len() - k,
    {
        let mut m = v[k].duplicate();
        remove_order(&mut m.hall_orders, c);
        let ghost mv = m@;
        let ghost before = r@;
        r.push(m);
        assert(views(r@) =~= views(before).push(mv));
        k = k + 1;
        assert(views(r@) =~= cache_without(s, *c).take(k as int));
    }
    assert(cache_without(s, *c).take(v.len() as int) =~= cache_without(s, *c));
    r
}

/// Removes `c` from the orders stored for `id` (see `table_strip_at`).
fn strip_entry(v: &mut Vec<PeerOrders>, id: &String, c: &Order)
    requires
        keys_unique(table_of(old(v)@)),
    ensures
        table_of(final(v)@) == table_strip_at(table_of(old(v)@), id@, *c),
        keys_unique(table_of(final(v)@)),
{
    let ghost t = table_of(v@);
    match find_entry(v, id) {
        Some(p) => {
            proof {
                crate::gossip::lemma_table_pos(t, p as int);
            }
            let mut orders = copy_orders(&v[p].orders);
            remove_order(&mut orders, c);
            let e = PeerOrders { id: id.clone(), orders };
            v.set(p, e);
            assert(table_of(v@) =~= t.update(p as int, (id@, without(table_value(t, id@), *c))));
            assert forall|a: int, b: int|
                0 <= a < t.len() && 0 <= b < t.len() && a != b implies #[trigger] table_of(v@)[a].0
                != #[trigger] table_of(v@)[b].0 by {
                assert(t[a].0 != t[b].0);
            }
        },
        None => {},
    }
}

impl RequestAssigner {
    /// Clears the orders that peers advertise as completed: hall orders
    /// everywhere (ours and our cached peers'), cab orders only when the
    /// completion is our own, and the peer's cab orders that we hold.
    pub fn clear_completed_orders_from_gossip(&mut self, gossip: &[GossipMsg], network: &mut Network)
        requires
            msg_wf(old(network).state@),
        ensures
            final(network).state@ == cleared_state(old(network).state@, views(gossip@)),
            forall|o: Order|
                #[trigger] old(network).state@.hall_orders.contains(o) && !(exists|m: int|
                    0 <= m < gossip@.len() && #[trigger] gossip@[m]@.cleared_order == Some(o))
                    ==> final(network).state@.hall_orders.contains(o),
            final(self)@ == (AssignerView {
                cached_peers: cleared_cache(old(self)@.cached_peers, views(gossip@)),
                ..old(self)@
            }),
            msg_wf(final(network).state@),
            final(network).cleared_at == old(network).cleared_at,
    {
        let ghost gs = views(gossip@);
        let my_id = network.state.id.clone();
        let mut i: usize = 0;
        while i < gossip.len()
            invariant
                i <= gossip.len(),
                gs == views(gossip@),
                my_id@ == old(network).state@.id,
                network.state@.id == my_id@,
                msg_wf(network.state@),
                network.state@ == cleared_state(old(network).state@, gs.take(i as int)),
                self@ == (AssignerView {
                    cached_peers: cleared_cache(old(self)@.cached_peers, gs.take(i as int)),
                    ..old(self)@
                }),
                network.cleared_at == old(network).cleared_at,
            decreases gossip.len() - i,
        {
            assert(gs.take(i as int + 1).drop_last() =~= gs.take(i as int));
            assert(gs.take(i as int + 1).last() == gossip@[i as int]@);
            let peer = &gossip[i];
            if let Some(c) = peer.cleared_order {
                remove_order(&mut network.state.hall_orders, &c);
                if peer.id == my_id {
                    remove_order(&mut network.state.cab_orders, &c);
                }
                strip_entry(&mut network.state.peer_cab_orders, &peer.id, &c);
                let cached = strip_cache(&self.cached_peers, &c);
                self.cached_peers = cached;
            }
            i = i + 1;
        }
        assert(gs.take(gossip.len() as int) =~= gs);
        proof {
            crate::laws::lemma_clear_keeps_others(old(network).state@, gs);
            assert forall|o: Order|
                #[trigger] old(network).state@.hall_orders.contains(o) && !(exists|m: int|
                    0 <= m < gossip@.len() && #[trigger] gossip@[m]@.cleared_order == Some(o))
                    implies network.state@.hall_orders.contains(o) by {
                if exists|m: int| 0 <= m < gs.len() && #[trigger] gs[m].cleared_order == Some(o) {
                    let m = choose|m: int| 0 <= m < gs.len() && #[trigger] gs[m].cleared_order == Some(o);
                    assert(gossip@[m]@ == gs[m]);
                }
            }
        }
    }
}

} // verus!
