//! Properties that relate the operations of the library to each other or
//! hold of every state they produce.

use vstd::prelude::*;
use crate::types::{ButtonType, Direction, Order, Roles};
use crate::orders::{add_all_unique, lemma_add_all_unique, lemma_add_unique, lemma_without, without};
use crate::gossip::{keys_unique, table_get, table_has, table_set, GossipView, Table};
use crate::network::{
    after_add, after_completed, all_hall, cleared_of, first_from, latest_merge, merge_entries,
    merge_tables, not_in,
};
use crate::election::{
    after_election, elected_id, fresh, is_elected, lemma_elected_unique, lemma_self_is_live,
    live_seen, new_role, Seen,
};
use crate::ip::{election_key, ip_key_less, lemma_ip_order};
use crate::assigner::AssignerView;
use crate::master::{cleared_list, merge_assignments, strip_caches, strip_tables};
use crate::duties::{cleared_state, recovered};
use crate::fsm::{merged_queue, served, ElevatorFSM};

verus! {

/// What `not_in` keeps: exactly the orders of `s` outside `c`, in order.
pub proof fn lemma_not_in(s: Seq<Order>, c: Seq<Order>)
    ensures
        forall|o: Order| #[trigger] not_in(s, c).contains(o) <==> (s.contains(o) && !c.contains(o)),
        s.no_duplicates() ==> not_in(s, c).no_duplicates(),
    decreases s.len(),
{
    if s.len() > 0 {
        let d = s.drop_last();
        lemma_not_in(d, c);
        let r = not_in(d, c);
        let n = not_in(s, c);
        assert forall|o: Order| #[trigger] n.contains(o) <==> (s.contains(o) && !c.contains(o)) by {
            if s.contains(o) && !c.contains(o) {
                let i = choose|i: int| 0 <= i < s.len() && s[i] == o;
                if i < d.len() {
                    assert(d[i] == o);
                    assert(r.contains(o));
                    let k = choose|k: int| 0 <= k < r.len() && r[k] == o;
                    assert(n[k] == o);
                } else {
                    assert(n[n.len() - 1] == o);
                }
            }
            if n.contains(o) {
                let k = choose|k: int| 0 <= k < n.len() && n[k] == o;
                if k < r.len() {
                    assert(r[k] == o);
                    assert(r.contains(o));
                    let i = choose|i: int| 0 <= i < d.len() && d[i] == o;
                    assert(s[i] == o);
                } else {
                    assert(s[s.len() - 1] == o);
                }
            }
        }
        if s.no_duplicates() {
            assert(d.no_duplicates());
            if !c.contains(s.last()) {
                assert(!r.contains(s.last())) by {
                    if r.contains(s.last()) {
                        let i = choose|i: int| 0 <= i < d.len() && d[i] == s.last();
                        assert(s[i] == s[s.len() - 1]);
                    }
                }
                assert forall|a: int, b: int|
                    0 <= a < n.len() && 0 <= b < n.len() && a != b implies n[a] != n[b] by {
                    if a < r.len() && b < r.len() {
                    } else if a < r.len() {
                        assert(r.contains(r[a]));
                    } else {
                        assert(r.contains(r[b]));
                    }
                }
            }
        }
    }
}

/// The hall orders of a list of messages are those of its messages.
pub proof fn lemma_all_hall(msgs: Seq<GossipView>)
    ensures
        forall|o: Order| #[trigger] all_hall(msgs).contains(o) <==> exists|m: int|
            0 <= m < msgs.len() && #[trigger] msgs[m].hall_orders.contains(o),
    decreases msgs.len(),
{
    if msgs.len() > 0 {
        let d = msgs.drop_last();
        lemma_all_hall(d);
        let a = all_hall(d);
        let l = msgs.last().hall_orders;
        assert forall|o: Order| #[trigger] all_hall(msgs).contains(o) <==> exists|m: int|
            0 <= m < msgs.len() && #[trigger] msgs[m].hall_orders.contains(o) by {
            crate::fsm::lemma_concat_contains(a, l, o);
            if a.contains(o) {
                let m = choose|m: int| 0 <= m < d.len() && #[trigger] d[m].hall_orders.contains(o);
                assert(msgs[m] == d[m]);
            }
            if l.contains(o) {
                assert(msgs[msgs.len() - 1].hall_orders.contains(o));
            }
            if exists|m: int| 0 <= m < msgs.len() && #[trigger] msgs[m].hall_orders.contains(o) {
                let m = choose|m: int| 0 <= m < msgs.len() && #[trigger] msgs[m].hall_orders.contains(o);
                if m < d.len() {
                    assert(d[m] == msgs[m]);
                } else {
                    assert(msgs[m] == msgs.last());
                }
            }
        }
    }
}

/// Law: the completed orders collected from a set of messages are each
/// advertised by one of them, each listed once, and none is missed.
pub proof fn lemma_cleared_of(msgs: Seq<GossipView>)
    ensures
        cleared_of(msgs).no_duplicates(),
        forall|o: Order| #[trigger] cleared_of(msgs).contains(o) <==> exists|m: int|
            0 <= m < msgs.len() && #[trigger] msgs[m].cleared_order == Some(o),
    decreases msgs.len(),
{
    if msgs.len() > 0 {
        let d = msgs.drop_last();
        lemma_cleared_of(d);
        let r = cleared_of(d);
        match msgs.last().cleared_order {
            Some(c) => lemma_add_unique(r, c),
            None => {},
        }
        assert forall|o: Order| #[trigger] cleared_of(msgs).contains(o) <==> exists|m: int|
            0 <= m < msgs.len() && #[trigger] msgs[m].cleared_order == Some(o) by {
            if r.contains(o) {
                let m = choose|m: int| 0 <= m < d.len() && #[trigger] d[m].cleared_order == Some(o);
                assert(msgs[m] == d[m]);
            }
            if exists|m: int| 0 <= m < msgs.len() && #[trigger] msgs[m].cleared_order == Some(o) {
                let m = choose|m: int| 0 <= m < msgs.len() && #[trigger] msgs[m].cleared_order == Some(o);
                if m < d.len() {
                    assert(d[m] == msgs[m]);
                } else {
                    assert(msgs[m] == msgs.last());
                }
            }
        }
    } else {
        assert(cleared_of(msgs) =~= Seq::<Order>::empty());
    }
}

/// Law: pressing the same button twice has the effect of pressing it once,
/// counter included; the second press is always accepted, since the order
/// is then held and needs no room in the counter.
pub proof fn lemma_add_order_idempotent(s: GossipView, o: Order)
    ensures
        after_add(after_add(s, o), o) == after_add(s, o),
        (if o.order_type == ButtonType::CabCall {
            after_add(s, o).cab_orders
        } else {
            after_add(s, o).hall_orders
        }).contains(o),
{
    if o.order_type == ButtonType::CabCall {
        if !s.cab_orders.contains(o) {
            assert(s.cab_orders.push(o)[s.cab_orders.len() as int] == o);
        }
    } else {
        if !s.hall_orders.contains(o) {
            assert(s.hall_orders.push(o)[s.hall_orders.len() as int] == o);
        }
    }
}

/// Law: adding an order never makes an order list hold an order twice,
/// and the order is held afterwards.
pub proof fn lemma_add_order_unique(s: GossipView, o: Order)
    ensures
        s.hall_orders.no_duplicates() ==> after_add(s, o).hall_orders.no_duplicates(),
        s.cab_orders.no_duplicates() ==> after_add(s, o).cab_orders.no_duplicates(),
        o.order_type == ButtonType::CabCall ==> after_add(s, o).cab_orders.contains(o),
        o.order_type != ButtonType::CabCall ==> after_add(s, o).hall_orders.contains(o),
{
    lemma_add_unique(s.cab_orders, o);
    lemma_add_unique(s.hall_orders, o);
}

/// Law: completing an order that a button press has just added takes the
/// order lists back to what they were before the press.
pub proof fn lemma_complete_undoes_add(s: GossipView, o: Order)
    requires
        !s.hall_orders.contains(o),
        !s.cab_orders.contains(o),
    ensures
        after_completed(after_add(s, o), o).hall_orders == s.hall_orders,
        after_completed(after_add(s, o), o).cab_orders == s.cab_orders,
        after_completed(after_add(s, o), o).cleared_order == Some(o),
{
    let h = s.hall_orders;
    let c = s.cab_orders;
    lemma_without(h, o);
    lemma_without(c, o);
    assert(h.push(o).drop_last() =~= h);
    assert(c.push(o).drop_last() =~= c);
}

/// Law: a completed order is held nowhere in our state afterwards.
pub proof fn lemma_completed_is_gone(s: GossipView, o: Order)
    ensures
        !after_completed(s, o).hall_orders.contains(o),
        !after_completed(s, o).cab_orders.contains(o),
        forall|i: int|
            0 <= i < s.peer_cab_orders.len() ==> !(#[trigger] after_completed(
                s,
                o,
            ).peer_cab_orders[i]).1.contains(o),
{
    lemma_without(s.hall_orders, o);
    lemma_without(s.cab_orders, o);
    assert forall|i: int| 0 <= i < s.peer_cab_orders.len() implies !(#[trigger] after_completed(
        s,
        o,
    ).peer_cab_orders[i]).1.contains(o) by {
        lemma_without(s.peer_cab_orders[i].1, o);
    }
}

/// Law (no hall order is lost): merging gossip keeps every hall order we
/// had, adds every hall order of a peer that nobody advertises as
/// completed, adds nothing else, and holds no order twice.
pub proof fn lemma_merge_keeps_hall_orders(s: GossipView, gs: Seq<GossipView>)
    ensures
        ({
            let cleared = cleared_of(seq![s] + gs);
            let n = add_all_unique(s.hall_orders, not_in(all_hall(gs), cleared));
            &&& forall|o: Order| s.hall_orders.contains(o) ==> #[trigger] n.contains(o)
            &&& forall|m: int, o: Order|
                0 <= m < gs.len() && #[trigger] gs[m].hall_orders.contains(o) && !cleared.contains(o)
                    ==> n.contains(o)
            &&& forall|o: Order|
                #[trigger] n.contains(o) ==> s.hall_orders.contains(o) || exists|m: int|
                    0 <= m < gs.len() && #[trigger] gs[m].hall_orders.contains(o)
            &&& s.hall_orders.no_duplicates() ==> n.no_duplicates()
        }),
{
    let cleared = cleared_of(seq![s] + gs);
    let xs = not_in(all_hall(gs), cleared);
    lemma_add_all_unique(s.hall_orders, xs);
    lemma_not_in(all_hall(gs), cleared);
    lemma_all_hall(gs);
    let n = add_all_unique(s.hall_orders, xs);
    assert forall|m: int, o: Order|
        0 <= m < gs.len() && #[trigger] gs[m].hall_orders.contains(o) && !cleared.contains(o)
            implies n.contains(o) by {
        assert(all_hall(gs).contains(o));
        assert(xs.contains(o));
    }
    assert forall|o: Order| #[trigger] n.contains(o) implies s.hall_orders.contains(o) || exists|
        m: int,
    | 0 <= m < gs.len() && #[trigger] gs[m].hall_orders.contains(o) by {
        if !s.hall_orders.contains(o) {
            assert(xs.contains(o));
            assert(all_hall(gs).contains(o));
        }
    }
}

/// Merging the entries of a table keeps what we had, adds to the entry of
/// every other node its orders that are not in `cleared`, adds nothing
/// else, and leaves our own entry alone.
pub proof fn lemma_merge_entries(t: Table, my_id: Seq<char>, es: Table, cleared: Seq<Order>)
    requires
        keys_unique(t),
    ensures
        keys_unique(merge_entries(t, my_id, es, cleared)),
        table_get(merge_entries(t, my_id, es, cleared), my_id) == table_get(t, my_id),
        forall|id: Seq<char>, o: Order|
            #[trigger] table_get(t, id).contains(o) ==> table_get(
                merge_entries(t, my_id, es, cleared),
                id,
            ).contains(o),
        forall|i: int, o: Order|
            0 <= i < es.len() && es[i].0 != my_id && #[trigger] es[i].1.contains(o)
                && !cleared.contains(o) ==> table_get(
                merge_entries(t, my_id, es, cleared),
                es[i].0,
            ).contains(o),
        forall|id: Seq<char>, o: Order|
            #[trigger] table_get(merge_entries(t, my_id, es, cleared), id).contains(o) ==> table_get(
                t,
                id,
            ).contains(o) || (!cleared.contains(o) && exists|i: int|
                0 <= i < es.len() && es[i].0 == id && #[trigger] es[i].1.contains(o)),
    decreases es.len(),
{
    if es.len() > 0 {
        let d = es.drop_last();
        lemma_merge_entries(t, my_id, d, cleared);
        let t1 = merge_entries(t, my_id, d, cleared);
        let e = es.last();
        let r = merge_entries(t, my_id, es, cleared);
        if e.0 != my_id {
            let fresh = not_in(e.1, cleared);
            let v = add_all_unique(table_get(t1, e.0), fresh);
            crate::gossip::lemma_table_get_set(t1, e.0, v);
            lemma_add_all_unique(table_get(t1, e.0), fresh);
            lemma_not_in(e.1, cleared);
            assert(r == table_set(t1, e.0, v));
            assert forall|id: Seq<char>, o: Order| #[trigger] table_get(t, id).contains(o) implies table_get(
                r,
                id,
            ).contains(o) by {
                assert(table_get(t1, id).contains(o));
            }
            assert forall|i: int, o: Order|
                0 <= i < es.len() && es[i].0 != my_id && #[trigger] es[i].1.contains(o)
                    && !cleared.contains(o) implies table_get(r, es[i].0).contains(o) by {
                if i < d.len() {
                    assert(d[i] == es[i]);
                    assert(table_get(t1, es[i].0).contains(o));
                } else {
                    assert(es[i] == e);
                    assert(fresh.contains(o));
                }
            }
            assert forall|id: Seq<char>, o: Order| #[trigger] table_get(r, id).contains(o) implies table_get(
                t,
                id,
            ).contains(o) || (!cleared.contains(o) && exists|i: int|
                0 <= i < es.len() && es[i].0 == id && #[trigger] es[i].1.contains(o)) by {
                if table_get(t1, id).contains(o) {
                    if !table_get(t, id).contains(o) {
                        let i = choose|i: int|
                            0 <= i < d.len() && d[i].0 == id && #[trigger] d[i].1.contains(o);
                        assert(es[i] == d[i]);
                    }
                } else {
                    assert(id == e.0);
                    assert(fresh.contains(o));
                    assert(es[es.len() - 1] == e);
                }
            }
        } else {
            assert forall|i: int, o: Order|
                0 <= i < es.len() && es[i].0 != my_id && #[trigger] es[i].1.contains(o)
                    && !cleared.contains(o) implies table_get(r, es[i].0).contains(o) by {
                if i < d.len() {
                    assert(d[i] == es[i]);
                } else {
                    assert(es[i] == e);
                }
            }
            assert forall|id: Seq<char>, o: Order| #[trigger] table_get(r, id).contains(o) implies table_get(
                t,
                id,
            ).contains(o) || (!cleared.contains(o) && exists|i: int|
                0 <= i < es.len() && es[i].0 == id && #[trigger] es[i].1.contains(o)) by {
                if !table_get(t, id).contains(o) {
                    let i = choose|i: int|
                        0 <= i < d.len() && d[i].0 == id && #[trigger] d[i].1.contains(o);
                    assert(es[i] == d[i]);
                }
            }
        }
    }
}

/// Merging the cab order tables of messages keeps what we had, adds to the
/// entry of every other node its orders that are not in `cleared`, adds
/// nothing else, and leaves our own entry alone.
pub proof fn lemma_merge_tables(
    t: Table,
    my_id: Seq<char>,
    gs: Seq<GossipView>,
    cleared: Seq<Order>,
)
    requires
        keys_unique(t),
    ensures
        keys_unique(merge_tables(t, my_id, gs, cleared)),
        table_get(merge_tables(t, my_id, gs, cleared), my_id) == table_get(t, my_id),
        forall|id: Seq<char>, o: Order|
            #[trigger] table_get(t, id).contains(o) ==> table_get(
                merge_tables(t, my_id, gs, cleared),
                id,
            ).contains(o),
        forall|m: int, i: int, o: Order|
            0 <= m < gs.len() && 0 <= i < gs[m].peer_cab_orders.len() && gs[m].peer_cab_orders[i].0
                != my_id && #[trigger] gs[m].peer_cab_orders[i].1.contains(o) && !cleared.contains(o)
                ==> table_get(merge_tables(t, my_id, gs, cleared), gs[m].peer_cab_orders[i].0).contains(
                o,
            ),
        forall|id: Seq<char>, o: Order|
            #[trigger] table_get(merge_tables(t, my_id, gs, cleared), id).contains(o) ==> table_get(
                t,
                id,
            ).contains(o) || (!cleared.contains(o) && exists|m: int, i: int|
                0 <= m < gs.len() && 0 <= i < gs[m].peer_cab_orders.len()
                    && gs[m].peer_cab_orders[i].0 == id
                    && #[trigger] gs[m].peer_cab_orders[i].1.contains(o)),
    decreases gs.len(),
{
    if gs.len() > 0 {
        let d = gs.drop_last();
        lemma_merge_tables(t, my_id, d, cleared);
        let t1 = merge_tables(t, my_id, d, cleared);
        let es = gs.last().peer_cab_orders;
        lemma_merge_entries(t1, my_id, es, cleared);
        let r = merge_tables(t, my_id, gs, cleared);
        assert(r == merge_entries(t1, my_id, es, cleared));
        assert forall|id: Seq<char>, o: Order| #[trigger] table_get(t, id).contains(o) implies table_get(
            r,
            id,
        ).contains(o) by {
            assert(table_get(t1, id).contains(o));
        }
        assert forall|m: int, i: int, o: Order|
            0 <= m < gs.len() && 0 <= i < gs[m].peer_cab_orders.len() && gs[m].peer_cab_orders[i].0
                != my_id && #[trigger] gs[m].peer_cab_orders[i].1.contains(o) && !cleared.contains(o)
                implies table_get(r, gs[m].peer_cab_orders[i].0).contains(o) by {
            if m < d.len() {
                assert(d[m] == gs[m]);
                assert(d[m].peer_cab_orders[i].1.contains(o));
                assert(table_get(t1, gs[m].peer_cab_orders[i].0).contains(o));
            } else {
                assert(gs[m] == gs.last());
            }
        }
        assert forall|id: Seq<char>, o: Order| #[trigger] table_get(r, id).contains(o) implies table_get(
            t,
            id,
        ).contains(o) || (!cleared.contains(o) && exists|m: int, i: int|
            0 <= m < gs.len() && 0 <= i < gs[m].peer_cab_orders.len()
                && gs[m].peer_cab_orders[i].0 == id
                && #[trigger] gs[m].peer_cab_orders[i].1.contains(o)) by {
            if table_get(t1, id).contains(o) {
                if !table_get(t, id).contains(o) {
                    let (m, i) = choose|m: int, i: int|
                        0 <= m < d.len() && 0 <= i < d[m].peer_cab_orders.len()
                            && d[m].peer_cab_orders[i].0 == id
                            && #[trigger] d[m].peer_cab_orders[i].1.contains(o);
                    assert(gs[m] == d[m]);
                }
            } else {
                let i = choose|i: int| 0 <= i < es.len() && es[i].0 == id && #[trigger] es[i].1.contains(o);
                assert(gs[gs.len() - 1].peer_cab_orders[i] == es[i]);
            }
        }
    }
}

/// Law (no cab order is lost, none comes back): after merging gossip, the
/// cab orders we hold for ourselves are our own cab orders; those we held
/// for other nodes are kept; every cab order a peer holds for another node
/// is added to ours for that node unless we or a peer advertise it as
/// completed; and nothing else is added.
pub proof fn lemma_merge_keeps_cab_orders(s: GossipView, gs: Seq<GossipView>)
    requires
        keys_unique(s.peer_cab_orders),
    ensures
        ({
            let c = cleared_of(seq![s] + gs);
            let t = merge_tables(table_set(s.peer_cab_orders, s.id, s.cab_orders), s.id, gs, c);
            &&& keys_unique(t)
            &&& table_get(t, s.id) == s.cab_orders
            &&& forall|id: Seq<char>, o: Order|
                id != s.id && #[trigger] table_get(s.peer_cab_orders, id).contains(o) ==> table_get(
                    t,
                    id,
                ).contains(o)
            &&& forall|m: int, i: int, o: Order|
                0 <= m < gs.len() && 0 <= i < gs[m].peer_cab_orders.len()
                    && gs[m].peer_cab_orders[i].0 != s.id && #[trigger] gs[m].peer_cab_orders[i].1.contains(
                    o,
                ) && !c.contains(o) ==> table_get(t, gs[m].peer_cab_orders[i].0).contains(o)
            &&& forall|id: Seq<char>, o: Order|
                id != s.id && #[trigger] table_get(t, id).contains(o) && !table_get(
                    s.peer_cab_orders,
                    id,
                ).contains(o) ==> !c.contains(o) && exists|m: int, i: int|
                    0 <= m < gs.len() && 0 <= i < gs[m].peer_cab_orders.len()
                        && gs[m].peer_cab_orders[i].0 == id
                        && #[trigger] gs[m].peer_cab_orders[i].1.contains(o)
        }),
{
    let c = cleared_of(seq![s] + gs);
    let t0 = table_set(s.peer_cab_orders, s.id, s.cab_orders);
    crate::gossip::lemma_table_get_set(s.peer_cab_orders, s.id, s.cab_orders);
    lemma_merge_tables(t0, s.id, gs, c);
    let t = merge_tables(t0, s.id, gs, c);
    assert forall|id: Seq<char>, o: Order|
        id != s.id && #[trigger] table_get(s.peer_cab_orders, id).contains(o) implies table_get(
        t,
        id,
    ).contains(o) by {
        assert(table_get(t0, id).contains(o));
    }
    assert forall|id: Seq<char>, o: Order|
        id != s.id && #[trigger] table_get(t, id).contains(o) && !table_get(
            s.peer_cab_orders,
            id,
        ).contains(o) implies !c.contains(o) && exists|m: int, i: int|
            0 <= m < gs.len() && 0 <= i < gs[m].peer_cab_orders.len()
                && gs[m].peer_cab_orders[i].0 == id
                && #[trigger] gs[m].peer_cab_orders[i].1.contains(o) by {
        assert(table_get(t0, id) == table_get(s.peer_cab_orders, id));
    }
}

/// Law: of each node, the gossip collected keeps a message, and never one
/// with a lower counter than a message received from it.
pub proof fn lemma_latest_merge(s: Seq<GossipView>, m: GossipView)
    ensures
        exists|i: int|
            0 <= i < latest_merge(s, m).len() && #[trigger] latest_merge(s, m)[i].id == m.id
                && latest_merge(s, m)[i].counter >= m.counter,
        forall|i: int|
            0 <= i < s.len() && #[trigger] first_from(s, s[i].id, i) ==> exists|j: int|
                0 <= j < latest_merge(s, m).len() && latest_merge(s, m)[j].id == s[i].id
                    && latest_merge(s, m)[j].counter >= s[i].counter,
{
    let r = latest_merge(s, m);
    if exists|i: int| 0 <= i < s.len() && #[trigger] s[i].id == m.id {
        let w = choose|i: int| 0 <= i < s.len() && #[trigger] s[i].id == m.id;
        let f = choose|i: int| #[trigger] first_from(s, m.id, i);
        assert(exists|i: int| #[trigger] first_from(s, m.id, i)) by {
            lemma_first_exists(s, m.id, w);
        }
        assert(r[f].id == m.id);
        assert forall|i: int|
            0 <= i < s.len() && #[trigger] first_from(s, s[i].id, i) implies exists|j: int|
            0 <= j < r.len() && r[j].id == s[i].id && r[j].counter >= s[i].counter by {
            if i == f {
                assert(r[f].id == s[i].id);
            } else {
                assert(r[i] == s[i]);
            }
        }
    } else {
        assert(r[s.len() as int] == m);
        assert forall|i: int|
            0 <= i < s.len() && #[trigger] first_from(s, s[i].id, i) implies exists|j: int|
            0 <= j < r.len() && r[j].id == s[i].id && r[j].counter >= s[i].counter by {
            assert(r[i] == s[i]);
        }
    }
}

/// Where a message from a node occurs, there is a first one.
pub proof fn lemma_first_exists(s: Seq<GossipView>, id: Seq<char>, w: int)
    requires
        0 <= w < s.len(),
        s[w].id == id,
    ensures
        exists|i: int| #[trigger] first_from(s, id, i),
    decreases w,
{
    if exists|j: int| 0 <= j < w && s[j].id == id {
        let j = choose|j: int| 0 <= j < w && s[j].id == id;
        lemma_first_exists(s, id, j);
    } else {
        assert(first_from(s, id, w));
    }
}

/// Every non-empty table of sightings has an elected position.
pub proof fn lemma_elected_exists(seen: Seen)
    requires
        seen.len() > 0,
    ensures
        exists|idx: int| #[trigger] is_elected(seen, idx),
    decreases seen.len(),
{
    if seen.len() == 1 {
        assert(is_elected(seen, 0));
    } else {
        let d = seen.drop_last();
        lemma_elected_exists(d);
        let idx = choose|idx: int| #[trigger] is_elected(d, idx);
        let n = seen.len() - 1;
        let kl = election_key(seen[n].0);
        let kb = election_key(seen[idx].0);
        assert(seen[idx] == d[idx]);
        if ip_key_less(kl, kb) {
            assert forall|j: int| 0 <= j < seen.len() implies !ip_key_less(
                election_key(#[trigger] seen[j].0),
                kl,
            ) by {
                if j < n {
                    assert(seen[j] == d[j]);
                    lemma_ip_order(election_key(seen[j].0), kl, kb);
                } else {
                    lemma_ip_order(kl, kl, kl);
                }
            }
            assert forall|j: int| 0 <= j < n implies ip_key_less(kl, election_key(#[trigger] seen[j].0)) by {
                assert(seen[j] == d[j]);
                lemma_ip_order(kl, kb, election_key(seen[j].0));
                lemma_ip_order(election_key(seen[j].0), kb, kl);
                if election_key(seen[j].0) != kb {
                    lemma_ip_order(kb, election_key(seen[j].0), kl);
                }
            }
            assert(is_elected(seen, n));
        } else {
            assert forall|j: int| 0 <= j < seen.len() implies !ip_key_less(
                election_key(#[trigger] seen[j].0),
                kb,
            ) by {
                if j < n {
                    assert(seen[j] == d[j]);
                }
            }
            assert forall|j: int| 0 <= j < idx implies ip_key_less(kb, election_key(#[trigger] seen[j].0)) by {
                assert(seen[j] == d[j]);
            }
            assert(is_elected(seen, idx));
        }
    }
}

/// Law (master election): some live peer is elected; no live peer has a
/// lower address than the elected one; we are master exactly when we are
/// the one elected, so a live peer with a lower address than ours makes us
/// a slave; and every sighting kept is fresh.
pub proof fn lemma_master_is_lowest_live(a: AssignerView, gs: Seq<GossipView>, now: u64)
    requires
        crate::gossip::keys_unique(a.last_seen),
    ensures
        ({
            let live = live_seen(a, gs, now);
            &&& exists|idx: int| #[trigger] is_elected(live, idx) && live[idx].0 == elected_id(live)
            &&& forall|i: int|
                0 <= i < live.len() ==> !ip_key_less(
                    election_key(#[trigger] live[i].0),
                    election_key(elected_id(live)),
                )
            &&& (new_role(a, gs, now) == Roles::Master <==> elected_id(live) == a.id)
            &&& (exists|i: int|
                0 <= i < live.len() && ip_key_less(
                    election_key(#[trigger] live[i].0),
                    election_key(a.id),
                )) ==> new_role(a, gs, now) == Roles::Slave
            &&& forall|i: int| 0 <= i < live.len() ==> fresh(#[trigger] live[i].1, now, a.peer_ttl_ms)
        }),
{
    let live = live_seen(a, gs, now);
    lemma_self_is_live(a, gs, now);
    lemma_elected_exists(live);
    let idx = choose|idx: int| #[trigger] is_elected(live, idx);
    let c = choose|i: int| is_elected(live, i);
    lemma_elected_unique(live, c, idx);
    assert(elected_id(live) == live[idx].0);
    crate::election::lemma_fresh_seen(crate::election::sightings(a, gs, now), now, a.peer_ttl_ms);
    assert forall|i: int| 0 <= i < live.len() implies fresh(#[trigger] live[i].1, now, a.peer_ttl_ms) by {
        assert(live.contains(live[i]));
    }
}

/// Law (every gossiping peer is live): after the election at `now`, every
/// node whose message was heard at `now`, and we ourselves, are sighted at
/// `now` among the live peers; so a gossiping peer with a lower address
/// than ours keeps us a slave.
pub proof fn lemma_gossiping_peers_are_live(a: AssignerView, gs: Seq<GossipView>, now: u64)
    requires
        keys_unique(a.last_seen),
    ensures
        forall|m: int|
            0 <= m < gs.len() ==> after_election(a, gs, now).last_seen.contains(
                (#[trigger] gs[m].id, now),
            ),
        after_election(a, gs, now).last_seen.contains((a.id, now)),
        (exists|m: int|
            0 <= m < gs.len() && ip_key_less(election_key(#[trigger] gs[m].id), election_key(a.id)))
            ==> after_election(a, gs, now).role == Roles::Slave,
{
    let t0 = table_set(a.last_seen, a.id, now);
    crate::gossip::lemma_table_set(a.last_seen, a.id, now);
    crate::election::lemma_seen_after_hears(t0, gs, now);
    let seen = crate::election::sightings(a, gs, now);
    let live = live_seen(a, gs, now);
    crate::election::lemma_fresh_seen(seen, now, a.peer_ttl_ms);
    assert forall|id: Seq<char>|
        table_has(seen, id) && crate::gossip::table_value(seen, id) == now implies #[trigger] live.contains(
        (id, now),
    ) by {
        let p = crate::gossip::table_pos(seen, id);
        assert(seen[p] == (id, now));
        assert(seen.contains((id, now)));
    }
    assert forall|m: int| 0 <= m < gs.len() implies after_election(a, gs, now).last_seen.contains(
        (#[trigger] gs[m].id, now),
    ) by {
        assert(live.contains((gs[m].id, now)));
    }
    crate::election::lemma_seen_after(t0, gs, now, a.id);
    assert(live.contains((a.id, now)));
    lemma_master_is_lowest_live(a, gs, now);
    if exists|m: int|
        0 <= m < gs.len() && ip_key_less(election_key(#[trigger] gs[m].id), election_key(a.id)) {
        let m = choose|m: int|
            0 <= m < gs.len() && ip_key_less(election_key(#[trigger] gs[m].id), election_key(a.id));
        assert(live.contains((gs[m].id, now)));
        let k = choose|k: int| 0 <= k < live.len() && live[k] == (gs[m].id, now);
        assert(ip_key_less(election_key(live[k].0), election_key(a.id)));
    }
}

/// Law (no assignment is lost): merging new assignments into the
/// published ones keeps every published order, adds every new one, and
/// keeps each id once.
pub proof fn lemma_merge_assignments(t: Table, es: Table)
    requires
        keys_unique(t),
    ensures
        keys_unique(merge_assignments(t, es)),
        forall|id: Seq<char>, o: Order|
            #[trigger] table_get(t, id).contains(o) ==> table_get(merge_assignments(t, es), id).contains(o),
        forall|i: int, o: Order|
            0 <= i < es.len() && #[trigger] es[i].1.contains(o) ==> table_get(
                merge_assignments(t, es),
                es[i].0,
            ).contains(o),
    decreases es.len(),
{
    if es.len() > 0 {
        let d = es.drop_last();
        lemma_merge_assignments(t, d);
        let t1 = merge_assignments(t, d);
        let e = es.last();
        let v = add_all_unique(table_get(t1, e.0), e.1);
        crate::gossip::lemma_table_get_set(t1, e.0, v);
        lemma_add_all_unique(table_get(t1, e.0), e.1);
        let r = table_set(t1, e.0, v);
        assert forall|id: Seq<char>, o: Order| #[trigger] table_get(t, id).contains(o) implies table_get(
            r,
            id,
        ).contains(o) by {
            assert(table_get(t1, id).contains(o));
        }
        assert forall|i: int, o: Order| 0 <= i < es.len() && #[trigger] es[i].1.contains(o) implies table_get(
            r,
            es[i].0,
        ).contains(o) by {
            if i < d.len() {
                assert(d[i] == es[i]);
                assert(d[i].1.contains(o));
                assert(table_get(t1, es[i].0).contains(o));
            } else {
                assert(es[i] == e);
            }
        }
    }
}

/// The completed orders listed from `msgs` are exactly those some message advertises.
pub proof fn lemma_cleared_list(msgs: Seq<GossipView>)
    ensures
        forall|o: Order| #[trigger] cleared_list(msgs).contains(o) <==> exists|m: int|
            0 <= m < msgs.len() && #[trigger] msgs[m].cleared_order == Some(o),
    decreases msgs.len(),
{
    if msgs.len() > 0 {
        let d = msgs.drop_last();
        lemma_cleared_list(d);
        let r = cleared_list(d);
        let n = cleared_list(msgs);
        assert forall|o: Order| #[trigger] n.contains(o) <==> exists|m: int|
            0 <= m < msgs.len() && #[trigger] msgs[m].cleared_order == Some(o) by {
            if r.contains(o) {
                let m = choose|m: int| 0 <= m < d.len() && #[trigger] d[m].cleared_order == Some(o);
                assert(msgs[m] == d[m]);
                let k = choose|k: int| 0 <= k < r.len() && r[k] == o;
                assert(n[k] == o);
            }
            if n.contains(o) && !r.contains(o) {
                let k = choose|k: int| 0 <= k < n.len() && n[k] == o;
                assert(k == r.len());
                assert(msgs[msgs.len() - 1].cleared_order == Some(o));
            }
            if exists|m: int| 0 <= m < msgs.len() && #[trigger] msgs[m].cleared_order == Some(o) {
                let m = choose|m: int| 0 <= m < msgs.len() && #[trigger] msgs[m].cleared_order == Some(o);
                if m < d.len() {
                    assert(d[m] == msgs[m]);
                    let k = choose|k: int| 0 <= k < r.len() && r[k] == o;
                    if msgs.last().cleared_order is Some {
                        assert(n[k] == o);
                    } else {
                        assert(n[k] == o);
                    }
                } else {
                    assert(n[n.len() - 1] == o);
                }
            }
        }
    }
}

/// Stripping the orders `cs` from a table keeps its ids and removes
/// exactly the orders of `cs` from each entry.
pub proof fn lemma_strip_tables(t: Table, cs: Seq<Order>)
    ensures
        strip_tables(t, cs).len() == t.len(),
        forall|i: int| 0 <= i < t.len() ==> (#[trigger] strip_tables(t, cs)[i]).0 == t[i].0,
        forall|i: int, o: Order|
            0 <= i < t.len() ==> (#[trigger] strip_tables(t, cs)[i].1.contains(o) <==> (
            t[i].1.contains(o) && !cs.contains(o))),
    decreases cs.len(),
{
    if cs.len() > 0 {
        let d = cs.drop_last();
        lemma_strip_tables(t, d);
        let r = strip_tables(t, d);
        let c = cs.last();
        assert forall|i: int, o: Order| 0 <= i < t.len() implies (#[trigger] strip_tables(
            t,
            cs,
        )[i].1.contains(o) <==> (t[i].1.contains(o) && !cs.contains(o))) by {
            lemma_without(r[i].1, c);
            assert(strip_tables(t, cs)[i].1 == without(r[i].1, c));
            assert(r[i].1.contains(o) <==> (t[i].1.contains(o) && !d.contains(o)));
            if d.contains(o) {
                let k = choose|k: int| 0 <= k < d.len() && d[k] == o;
                assert(cs[k] == o);
            }
            if cs.contains(o) && o != c {
                let k = choose|k: int| 0 <= k < cs.len() && cs[k] == o;
                assert(d[k] == o);
            }
            assert(cs[cs.len() - 1] == c);
        }
    }
}

/// Stripping the orders `cs` from cached messages keeps the messages and
/// removes exactly the orders of `cs` from their hall orders.
pub proof fn lemma_strip_caches(c: Seq<GossipView>, cs: Seq<Order>)
    ensures
        strip_caches(c, cs).len() == c.len(),
        forall|i: int| 0 <= i < c.len() ==> (#[trigger] strip_caches(c, cs)[i]).id == c[i].id,
        forall|i: int, o: Order|
            0 <= i < c.len() ==> (#[trigger] strip_caches(c, cs)[i].hall_orders.contains(o) <==> (
            c[i].hall_orders.contains(o) && !cs.contains(o))),
    decreases cs.len(),
{
    if cs.len() > 0 {
        let d = cs.drop_last();
        lemma_strip_caches(c, d);
        let r = strip_caches(c, d);
        let x = cs.last();
        assert forall|i: int, o: Order| 0 <= i < c.len() implies (#[trigger] strip_caches(
            c,
            cs,
        )[i].hall_orders.contains(o) <==> (c[i].hall_orders.contains(o) && !cs.contains(o))) by {
            lemma_without(r[i].hall_orders, x);
            assert(strip_caches(c, cs)[i].hall_orders == without(r[i].hall_orders, x));
            assert(r[i].hall_orders.contains(o) <==> (c[i].hall_orders.contains(o) && !d.contains(o)));
            if d.contains(o) {
                let k = choose|k: int| 0 <= k < d.len() && d[k] == o;
                assert(cs[k] == o);
            }
            if cs.contains(o) && o != x {
                let k = choose|k: int| 0 <= k < cs.len() && cs[k] == o;
                assert(d[k] == o);
            }
            assert(cs[cs.len() - 1] == x);
        }
    }
}

/// An order is advertised as completed by our own state `own` or by one of `gs`.
pub open spec fn advertised(own: GossipView, gs: Seq<GossipView>, o: Order) -> bool {
    own.cleared_order == Some(o) || exists|m: int|
        0 <= m < gs.len() && #[trigger] gs[m].cleared_order == Some(o)
}

/// Law (the master strips completed orders): the master's tick removes
/// from every entry of an assignment table, and from the hall orders of
/// every cached peer, exactly the orders that we ourselves or a peer
/// advertise as completed, and keeps every other order and every id.
pub proof fn lemma_master_strips_completed(
    own: GossipView,
    gs: Seq<GossipView>,
    t: Table,
    c: Seq<GossipView>,
)
    ensures
        ({
            let cs = cleared_list(seq![own] + gs);
            &&& strip_tables(t, cs).len() == t.len()
            &&& forall|i: int| 0 <= i < t.len() ==> (#[trigger] strip_tables(t, cs)[i]).0 == t[i].0
            &&& forall|i: int, o: Order|
                0 <= i < t.len() ==> (#[trigger] strip_tables(t, cs)[i].1.contains(o) <==> (
                t[i].1.contains(o) && !advertised(own, gs, o)))
            &&& strip_caches(c, cs).len() == c.len()
            &&& forall|i: int| 0 <= i < c.len() ==> (#[trigger] strip_caches(c, cs)[i]).id == c[i].id
            &&& forall|i: int, o: Order|
                0 <= i < c.len() ==> (#[trigger] strip_caches(c, cs)[i].hall_orders.contains(o) <==> (
                c[i].hall_orders.contains(o) && !advertised(own, gs, o)))
        }),
{
    let all = seq![own] + gs;
    let cs = cleared_list(all);
    lemma_cleared_list(all);
    lemma_strip_tables(t, cs);
    lemma_strip_caches(c, cs);
    assert forall|o: Order| cs.contains(o) <==> advertised(own, gs, o) by {
        if cs.contains(o) {
            let m = choose|m: int| 0 <= m < all.len() && #[trigger] all[m].cleared_order == Some(o);
            if m > 0 {
                assert(gs[m - 1] == all[m]);
            }
        }
        if own.cleared_order == Some(o) {
            assert(all[0] == own);
        }
        if exists|m: int| 0 <= m < gs.len() && #[trigger] gs[m].cleared_order == Some(o) {
            let m = choose|m: int| 0 <= m < gs.len() && #[trigger] gs[m].cleared_order == Some(o);
            assert(all[m + 1] == gs[m]);
        }
    }
}

/// Law (clearing): after clearing the completions that peers advertise,
/// none of those orders is among our hall orders, our own completions are
/// not among our cab orders, and nothing was added.
pub proof fn lemma_clear_removes(s: GossipView, gs: Seq<GossipView>)
    ensures
        cleared_state(s, gs).id == s.id,
        forall|o: Order|
            #[trigger] cleared_state(s, gs).hall_orders.contains(o) ==> s.hall_orders.contains(o),
        forall|o: Order|
            #[trigger] cleared_state(s, gs).cab_orders.contains(o) ==> s.cab_orders.contains(o),
        forall|m: int|
            0 <= m < gs.len() ==> match #[trigger] gs[m].cleared_order {
                Some(c) => !cleared_state(s, gs).hall_orders.contains(c),
                None => true,
            },
        forall|m: int|
            0 <= m < gs.len() && gs[m].id == s.id ==> match #[trigger] gs[m].cleared_order {
                Some(c) => !cleared_state(s, gs).cab_orders.contains(c),
                None => true,
            },
    decreases gs.len(),
{
    if gs.len() > 0 {
        let d = gs.drop_last();
        lemma_clear_removes(s, d);
        let r = cleared_state(s, d);
        let p = gs.last();
        let n = cleared_state(s, gs);
        match p.cleared_order {
            Some(c) => {
                lemma_without(r.hall_orders, c);
                lemma_without(r.cab_orders, c);
            },
            None => {},
        }
        assert forall|m: int| 0 <= m < gs.len() implies match #[trigger] gs[m].cleared_order {
            Some(c) => !n.hall_orders.contains(c),
            None => true,
        } by {
            if m < d.len() {
                assert(d[m] == gs[m]);
                assert(match d[m].cleared_order {
                    Some(c) => !r.hall_orders.contains(c),
                    None => true,
                });
            }
        }
        assert forall|m: int| 0 <= m < gs.len() && gs[m].id == s.id implies match #[trigger] gs[m].cleared_order {
            Some(c) => !n.cab_orders.contains(c),
            None => true,
        } by {
            if m < d.len() {
                assert(d[m] == gs[m]);
                assert(match d[m].cleared_order {
                    Some(c) => !r.cab_orders.contains(c),
                    None => true,
                });
            }
        }
    }
}

/// Law (clearing removes nothing else): after clearing the completions
/// that `gs` advertise, every hall order we held that no message
/// advertises as completed is still held, and so is every cab order we
/// held that no message from ourselves advertises as completed.
pub proof fn lemma_clear_keeps_others(s: GossipView, gs: Seq<GossipView>)
    ensures
        forall|o: Order|
            #[trigger] s.hall_orders.contains(o) && !(exists|m: int|
                0 <= m < gs.len() && #[trigger] gs[m].cleared_order == Some(o))
                ==> cleared_state(s, gs).hall_orders.contains(o),
        forall|o: Order|
            #[trigger] s.cab_orders.contains(o) && !(exists|m: int|
                0 <= m < gs.len() && gs[m].id == s.id && #[trigger] gs[m].cleared_order == Some(o))
                ==> cleared_state(s, gs).cab_orders.contains(o),
    decreases gs.len(),
{
    if gs.len() > 0 {
        let d = gs.drop_last();
        lemma_clear_keeps_others(s, d);
        lemma_clear_removes(s, d);
        let r = cleared_state(s, d);
        let p = gs.last();
        let n = cleared_state(s, gs);
        assert forall|o: Order|
            #[trigger] s.hall_orders.contains(o) && !(exists|m: int|
                0 <= m < gs.len() && #[trigger] gs[m].cleared_order == Some(o))
                implies n.hall_orders.contains(o) by {
            if exists|m: int| 0 <= m < d.len() && #[trigger] d[m].cleared_order == Some(o) {
                let m = choose|m: int| 0 <= m < d.len() && #[trigger] d[m].cleared_order == Some(o);
                assert(gs[m] == d[m]);
            }
            assert(r.hall_orders.contains(o));
            assert(gs[gs.len() - 1] == p);
            match p.cleared_order {
                Some(c) => {
                    lemma_without(r.hall_orders, c);
                },
                None => {},
            }
        }
        assert forall|o: Order|
            #[trigger] s.cab_orders.contains(o) && !(exists|m: int|
                0 <= m < gs.len() && gs[m].id == s.id && #[trigger] gs[m].cleared_order == Some(o))
                implies n.cab_orders.contains(o) by {
            if exists|m: int|
                0 <= m < d.len() && d[m].id == s.id && #[trigger] d[m].cleared_order == Some(o) {
                let m = choose|m: int|
                    0 <= m < d.len() && d[m].id == s.id && #[trigger] d[m].cleared_order == Some(o);
                assert(gs[m] == d[m]);
            }
            assert(r.cab_orders.contains(o));
            assert(gs[gs.len() - 1] == p);
            match p.cleared_order {
                Some(c) => {
                    lemma_without(r.cab_orders, c);
                },
                None => {},
            }
        }
    }
}

/// The cab orders recovered from a list of messages are those the messages hold for us.
pub proof fn lemma_recovered(gs: Seq<GossipView>, id: Seq<char>)
    ensures
        forall|m: int, o: Order|
            0 <= m < gs.len() && #[trigger] table_get(gs[m].peer_cab_orders, id).contains(o)
                ==> recovered(gs, id).contains(o),
    decreases gs.len(),
{
    if gs.len() > 0 {
        let d = gs.drop_last();
        lemma_recovered(d, id);
        assert forall|m: int, o: Order|
            0 <= m < gs.len() && #[trigger] table_get(gs[m].peer_cab_orders, id).contains(o)
                implies recovered(gs, id).contains(o) by {
            let a = recovered(d, id);
            let b = table_get(gs.last().peer_cab_orders, id);
            crate::fsm::lemma_concat_contains(a, b, o);
            if m < d.len() {
                assert(d[m] == gs[m]);
                assert(table_get(d[m].peer_cab_orders, id).contains(o));
            } else {
                assert(gs[m] == gs.last());
            }
        }
    }
}

/// Law (cab order recovery): after recovery we hold every cab order that
/// a peer holds for us, still hold what we had, and hold no order twice
/// if we held none twice.
pub proof fn lemma_recovery_restores(s: GossipView, gs: Seq<GossipView>)
    ensures
        ({
            let cab = add_all_unique(s.cab_orders, recovered(gs, s.id));
            &&& forall|o: Order| s.cab_orders.contains(o) ==> #[trigger] cab.contains(o)
            &&& forall|m: int, o: Order|
                0 <= m < gs.len() && #[trigger] table_get(gs[m].peer_cab_orders, s.id).contains(o)
                    ==> cab.contains(o)
            &&& s.cab_orders.no_duplicates() ==> cab.no_duplicates()
        }),
{
    lemma_recovered(gs, s.id);
    lemma_add_all_unique(s.cab_orders, recovered(gs, s.id));
}

/// The cab orders recovered from a list of messages all come from the
/// entries the messages hold for us.
pub proof fn lemma_recovered_from(gs: Seq<GossipView>, id: Seq<char>)
    ensures
        forall|o: Order|
            #[trigger] recovered(gs, id).contains(o) ==> exists|m: int|
                0 <= m < gs.len() && #[trigger] table_get(gs[m].peer_cab_orders, id).contains(o),
    decreases gs.len(),
{
    if gs.len() > 0 {
        let d = gs.drop_last();
        lemma_recovered_from(d, id);
        let a = recovered(d, id);
        let b = table_get(gs.last().peer_cab_orders, id);
        assert forall|o: Order| #[trigger] recovered(gs, id).contains(o) implies exists|m: int|
            0 <= m < gs.len() && #[trigger] table_get(gs[m].peer_cab_orders, id).contains(o) by {
            crate::fsm::lemma_concat_contains(a, b, o);
            if a.contains(o) {
                let m = choose|m: int|
                    0 <= m < d.len() && #[trigger] table_get(d[m].peer_cab_orders, id).contains(o);
                assert(gs[m] == d[m]);
            } else {
                assert(gs[gs.len() - 1] == gs.last());
            }
        }
    }
}

/// Law (recovery adds nothing else): every cab order held after recovery
/// was held before or is in the entry that some message holds for our id;
/// so neither a peer's own cab orders nor those it holds for another node
/// become ours.
pub proof fn lemma_recovery_adds_nothing_else(s: GossipView, gs: Seq<GossipView>)
    ensures
        forall|o: Order|
            #[trigger] add_all_unique(s.cab_orders, recovered(gs, s.id)).contains(o)
                ==> s.cab_orders.contains(o) || exists|m: int|
                0 <= m < gs.len() && #[trigger] table_get(gs[m].peer_cab_orders, s.id).contains(o),
{
    lemma_recovered_from(gs, s.id);
    lemma_add_all_unique(s.cab_orders, recovered(gs, s.id));
}

/// Law (slave queue): a slave queues no order that anyone advertises as
/// completed, and queues each of its own cab orders that nobody does.
pub proof fn lemma_slave_queue(assigned: Seq<Order>, cabs: Seq<Order>, cleared: Seq<Order>)
    ensures
        ({
            let q = add_all_unique(not_in(assigned, cleared), not_in(cabs, cleared));
            &&& forall|o: Order| #[trigger] q.contains(o) ==> !cleared.contains(o)
            &&& forall|o: Order| cabs.contains(o) && !cleared.contains(o) ==> #[trigger] q.contains(o)
            &&& forall|o: Order|
                assigned.contains(o) && !cleared.contains(o) ==> #[trigger] q.contains(o)
        }),
{
    lemma_not_in(assigned, cleared);
    lemma_not_in(cabs, cleared);
    lemma_add_all_unique(not_in(assigned, cleared), not_in(cabs, cleared));
}

/// Law (serving): serving takes exactly the served order out of the queue,
/// at the current floor.
pub proof fn lemma_serve_removes_one(
    s: ElevatorFSM,
    q: Seq<Order>,
    ns: ElevatorFSM,
    nq: Seq<Order>,
    o: Order,
)
    requires
        served(s, q, ns, nq, Some(o)),
    ensures
        o.floor == s.floor,
        exists|pos: int| 0 <= pos <= nq.len() && q == nq.insert(pos, o),
{
    let pos = choose|pos: int| #[trigger] crate::fsm::is_first_servable(q, s.floor, s.direction, pos)
        && o == q[pos] && nq == q.remove(pos) && ns == (ElevatorFSM {
        serving: None,
        direction: if crate::fsm::has_beyond(nq, s.floor, s.direction) {
            s.direction
        } else {
            crate::types::Direction::Stop
        },
        ..s
    });
    assert(q =~= nq.insert(pos, o));
}

/// Law (serving suits the direction of travel): a served order is a queued
/// order at the current floor, never a down call for a car travelling up
/// nor an up call for a car travelling down; and nothing is served only
/// when every queued order at the current floor is such a call.
pub proof fn lemma_serve_suits_direction(
    s: ElevatorFSM,
    q: Seq<Order>,
    ns: ElevatorFSM,
    nq: Seq<Order>,
    r: Option<Order>,
)
    requires
        served(s, q, ns, nq, r),
    ensures
        r matches Some(o) ==> {
            &&& q.contains(o)
            &&& o.floor == s.floor
            &&& s.direction == Direction::Down ==> o.order_type != ButtonType::HallUp
            &&& s.direction == Direction::Up ==> o.order_type != ButtonType::HallDown
        },
        r is None ==> forall|i: int|
            0 <= i < q.len() && #[trigger] q[i].floor == s.floor ==> (s.direction == Direction::Down
                && q[i].order_type == ButtonType::HallUp) || (s.direction == Direction::Up
                && q[i].order_type == ButtonType::HallDown),
{
    match r {
        Some(o) => {
            let pos = choose|pos: int| #[trigger] crate::fsm::is_first_servable(
                q,
                s.floor,
                s.direction,
                pos,
            ) && o == q[pos] && nq == q.remove(pos) && ns == (ElevatorFSM {
                serving: None,
                direction: if crate::fsm::has_beyond(nq, s.floor, s.direction) {
                    s.direction
                } else {
                    Direction::Stop
                },
                ..s
            });
            assert(q[pos] == o);
        },
        None => {
            assert forall|i: int| 0 <= i < q.len() && #[trigger] q[i].floor == s.floor implies (
            s.direction == Direction::Down && q[i].order_type == ButtonType::HallUp) || (s.direction
                == Direction::Up && q[i].order_type == ButtonType::HallDown) by {
                assert(!crate::fsm::servable(q[i], s.floor, s.direction));
            }
        },
    }
}

/// Law (queue replacement): the order in progress is never dropped from
/// the queue, every given order is queued, and nothing else is.
pub proof fn lemma_set_queue_keeps_serving(orders: Seq<Order>, serving: Option<Order>)
    ensures
        serving matches Some(c) ==> merged_queue(orders, serving).contains(c),
        forall|o: Order| orders.contains(o) ==> #[trigger] merged_queue(orders, serving).contains(o),
        forall|o: Order|
            #[trigger] merged_queue(orders, serving).contains(o) ==> orders.contains(o) || serving
                == Some(o),
{
    match serving {
        Some(c) => {
            if !orders.contains(c) {
                crate::fsm::lemma_concat_contains(seq![c], orders, c);
                assert(seq![c].contains(c)) by {
                    assert(seq![c][0] == c);
                }
                assert forall|o: Order| orders.contains(o) implies #[trigger] merged_queue(
                    orders,
                    serving,
                ).contains(o) by {
                    crate::fsm::lemma_concat_contains(seq![c], orders, o);
                }
                assert forall|o: Order| #[trigger] merged_queue(orders, serving).contains(o) implies orders.contains(
                    o,
                ) || serving == Some(o) by {
                    crate::fsm::lemma_concat_contains(seq![c], orders, o);
                    if seq![c].contains(o) {
                        let k = choose|k: int| 0 <= k < 1 && seq![c][k] == o;
                        assert(seq![c][k] == c);
                    }
                }
            }
        },
        None => {},
    }
}

} // verus!
