//! This node's broadcast state: the orders it knows of, what it has
//! completed, and how it folds in what its peers broadcast.

use vstd::prelude::*;
use crate::types::{Behaviour, ButtonType, Direction, Order, Roles, CLEARED_ORDER_WINDOW_MS};
use crate::orders::{
    add_all_unique, add_unique, contains_order, copy_orders, extend_unique, push_unique,
    remove_order, without,
};
use crate::gossip::{
    get_entry, keys_unique, msg_wf, set_entry, table_get, table_of, table_set, views, GossipMsg,
    GossipView, PeerOrders, Table,
};

verus! {

/// This node's gossip state and when its advertised completion expires.
#[derive(Debug)]
pub struct Network {
    /// Our own state, broadcast to peers every tick.
    pub state: GossipMsg,
    /// When to stop advertising `state.cleared_order` (ms on the node's clock).
    pub cleared_at: Option<u64>,
}

/// The completed orders advertised by `msgs`, first occurrences only, in order.
pub open spec fn cleared_of(msgs: Seq<GossipView>) -> Seq<Order>
    decreases msgs.len(),
{
    if msgs.len() == 0 {
        Seq::empty()
    } else {
        let rest = cleared_of(msgs.drop_last());
        match msgs.last().cleared_order {
            Some(o) => add_unique(rest, o),
            None => rest,
        }
    }
}

/// The hall orders of all `msgs`, one message after the other.
pub open spec fn all_hall(msgs: Seq<GossipView>) -> Seq<Order>
    decreases msgs.len(),
{
    if msgs.len() == 0 {
        Seq::empty()
    } else {
        all_hall(msgs.drop_last()) + msgs.last().hall_orders
    }
}

/// The orders of `s` that are not in `c`, in order.
pub open spec fn not_in(s: Seq<Order>, c: Seq<Order>) -> Seq<Order>
    decreases s.len(),
{
    if s.len() == 0 {
        s
    } else {
        let rest = not_in(s.drop_last(), c);
        if c.contains(s.last()) {
            rest
        } else {
            rest.push(s.last())
        }
    }
}

/// Every order list of `t` with `o` removed.
pub open spec fn table_without(t: Table, o: Order) -> Table {
    t.map_values(|e: (Seq<char>, Seq<Order>)| (e.0, without(e.1, o)))
}

/// `t` with the entries `es` of another table folded in: each entry but
/// the one for `my_id` adds its orders that are not in `cleared` to ours
/// for that id.
pub open spec fn merge_entries(t: Table, my_id: Seq<char>, es: Table, cleared: Seq<Order>) -> Table
    decreases es.len(),
{
    if es.len() == 0 {
        t
    } else {
        let t1 = merge_entries(t, my_id, es.drop_last(), cleared);
        let e = es.last();
        if e.0 == my_id {
            t1
        } else {
            table_set(t1, e.0, add_all_unique(table_get(t1, e.0), not_in(e.1, cleared)))
        }
    }
}

/// `t` with the cab order tables of all `msgs` folded in, message by
/// message, leaving out the orders in `cleared`.
pub open spec fn merge_tables(
    t: Table,
    my_id: Seq<char>,
    msgs: Seq<GossipView>,
    cleared: Seq<Order>,
) -> Table
    decreases msgs.len(),
{
    if msgs.len() == 0 {
        t
    } else {
        merge_entries(
            merge_tables(t, my_id, msgs.drop_last(), cleared),
            my_id,
            msgs.last().peer_cab_orders,
            cleared,
        )
    }
}

/// The initial state message of a node with id `id`.
pub open spec fn initial_state(id: Seq<char>) -> GossipView {
    GossipView {
        id,
        hall_orders: Seq::empty(),
        cab_orders: Seq::empty(),
        floor: 0,
        direction: Direction::Stop,
        behaviour: Behaviour::Idle,
        counter: 0,
        role: Roles::Slave,
        assignments: Seq::empty(),
        peer_cab_orders: Seq::empty(),
        cleared_order: None,
    }
}

/// Our state after a button for `o` was pressed: the order is appended to
/// the cab or hall orders unless already there, which bumps the counter.
pub open spec fn after_add(s: GossipView, o: Order) -> GossipView {
    if o.order_type == ButtonType::CabCall {
        if s.cab_orders.contains(o) {
            s
        } else {
            GossipView { cab_orders: s.cab_orders.push(o), counter: (s.counter + 1) as i32, ..s }
        }
    } else {
        if s.hall_orders.contains(o) {
            s
        } else {
            GossipView { hall_orders: s.hall_orders.push(o), counter: (s.counter + 1) as i32, ..s }
        }
    }
}

/// Our state after completing `o`: it leaves our hall and cab orders and
/// every peer's cab orders, and is advertised as cleared.
pub open spec fn after_completed(s: GossipView, o: Order) -> GossipView {
    GossipView {
        hall_orders: without(s.hall_orders, o),
        cab_orders: without(s.cab_orders, o),
        peer_cab_orders: table_without(s.peer_cab_orders, o),
        cleared_order: Some(o),
        counter: (s.counter + 1) as i32,
        ..s
    }
}

/// The orders of `s` that are not in `c`.
pub fn orders_not_in(s: &Vec<Order>, c: &Vec<Order>) -> (r: Vec<Order>)
    ensures
        r@ == not_in(s@, c@),
{
    let mut r: Vec<Order> = Vec::new();
    let mut i: usize = 0;
    while i < s.len()
        invariant
            i <= s.len(),
            r@ == not_in(s@.take(i as int), c@),
        decreases s.len() - i,
    {
        assert(s@.take(i as int + 1).drop_last() =~= s@.take(i as int));
        assert(s@.take(i as int + 1).last() == s@[i as int]);
        if !contains_order(c, &s[i]) {
            r.push(s[i]);
        }
        i = i + 1;
    }
    assert(s@.take(s.len() as int) =~= s@);
    r
}

/// Each message of `s` is well formed.
pub open spec fn all_wf(s: Seq<GossipView>) -> bool {
    forall|i: int| 0 <= i < s.len() ==> msg_wf(#[trigger] s[i])
}

/// No two messages of `s` come from the same node.
pub open spec fn ids_unique(s: Seq<GossipView>) -> bool {
    forall|i: int, j: int| 0 <= i < s.len() && 0 <= j < s.len() && i != j ==> #[trigger] s[i].id != #[trigger] s[j].id
}

/// `i` is the first position of a message from node `id` in `s`.
pub open spec fn first_from(s: Seq<GossipView>, id: Seq<char>, i: int) -> bool {
    0 <= i < s.len() && s[i].id == id && forall|j: int| 0 <= j < i ==> #[trigger] s[j].id != id
}

/// `s` with message `m` taken in: it replaces the first message from the
/// same node if its counter is higher, is dropped if not, and is appended
/// if that node was not heard from yet.
pub open spec fn latest_merge(s: Seq<GossipView>, m: GossipView) -> Seq<GossipView> {
    if exists|i: int| 0 <= i < s.len() && #[trigger] s[i].id == m.id {
        let i = choose|i: int| #[trigger] first_from(s, m.id, i);
        if m.counter > s[i].counter {
            s.update(i, m)
        } else {
            s
        }
    } else {
        s.push(m)
    }
}

/// The first position of a message from a node is unique.
proof fn lemma_first_from_unique(s: Seq<GossipView>, id: Seq<char>, i: int, k: int)
    requires
        first_from(s, id, i),
        first_from(s, id, k),
    ensures
        i == k,
{
    if i < k {
        assert(s[i].id != id);
    } else if k < i {
        assert(s[k].id != id);
    }
}

/// The position of the message from node `id` in `v`, if any.
pub(crate) fn find_msg(v: &Vec<GossipMsg>, id: &String) -> (r: Option<usize>)
    ensures
        match r {
            Some(i) => i < v@.len() && views(v@)[i as int].id == id@ && forall|j: int|
                0 <= j < i ==> #[trigger] views(v@)[j].id != id@,
            None => forall|j: int| 0 <= j < v@.len() ==> #[trigger] views(v@)[j].id != id@,
        },
{
    let mut i: usize = 0;
    while i < v.len()
        invariant
            i <= v.len(),
            forall|j: int| 0 <= j < i ==> #[trigger] views(v@)[j].id != id@,
        decreases v.len() - i,
    {
        if v[i].id == *id {
            return Some(i);
        }
        i = i + 1;
    }
    None
}

/// Takes `msg` into `collected` (see `latest_merge`).
pub fn keep_latest(collected: &mut Vec<GossipMsg>, msg: GossipMsg)
    ensures
        views(final(collected)@) == latest_merge(views(old(collected)@), msg@),
        ids_unique(views(old(collected)@)) ==> ids_unique(views(final(collected)@)),
{
    let ghost s = views(collected@);
    let ghost m = msg@;
    match find_msg(collected, &msg.id) {
        Some(i) => {
            assert(s[i as int].id == m.id);
            assert(first_from(s, m.id, i as int));
            let ghost k = choose|k: int| #[trigger] first_from(s, m.id, k);
            proof {
                lemma_first_from_unique(s, m.id, i as int, k);
            }
            assert(s[i as int].counter == collected@[i as int].counter);
            if msg.counter > collected[i].counter {
                collected.set(i, msg);
                assert(views(collected@) =~= s.update(i as int, m));
                assert(ids_unique(s) ==> ids_unique(views(collected@))) by {
                    if ids_unique(s) {
                        assert forall|a: int, b: int|
                            0 <= a < s.len() && 0 <= b < s.len() && a != b implies #[trigger] views(
                            collected@,
                        )[a].id != #[trigger] views(collected@)[b].id by {
                            assert(s[a].id != s[b].id);
                        }
                    }
                }
            }
        },
        None => {
            collected.push(msg);
            assert(views(collected@) =~= s.push(m));
            assert(!(exists|j: int| 0 <= j < s.len() && #[trigger] s[j].id == m.id));
            assert(ids_unique(s) ==> ids_unique(views(collected@))) by {
                if ids_unique(s) {
                    assert forall|a: int, b: int|
                        0 <= a < s.len() + 1 && 0 <= b < s.len() + 1 && a != b implies #[trigger] views(
                        collected@,
                    )[a].id != #[trigger] views(collected@)[b].id by {
                        if a < s.len() && b < s.len() {
                            assert(s[a].id != s[b].id);
                        } else if a < s.len() {
                            assert(s[a].id != m.id);
                        } else {
                            assert(s[b].id != m.id);
                        }
                    }
                }
            }
        },
    }
}

impl Network {
    /// The network state of a node with id `id`, before anything happened.
    pub fn new(id: String) -> (n: Network)
        ensures
            n.state@ == initial_state(id@),
            n.cleared_at.is_none(),
            msg_wf(n.state@),
    {
        let state = GossipMsg {
            id,
            hall_orders: Vec::new(),
            cab_orders: Vec::new(),
            floor: 0,
            direction: Direction::Stop,
            behaviour: Behaviour::Idle,
            counter: 0,
            role: Roles::Slave,
            assignments: Vec::new(),
            peer_cab_orders: Vec::new(),
            cleared_order: None,
        };
        assert(table_of(state.assignments@) =~= Seq::empty());
        assert(table_of(state.peer_cab_orders@) =~= Seq::empty());
        Network { state, cleared_at: None }
    }

    /// This node's id.
    pub fn id(&self) -> (r: &str)
        ensures
            r@ == self.state.id@,
    {
        self.state.id.as_str()
    }

    /// All recently completed orders advertised by ourselves and by `gossip`,
    /// each once, in order of first appearance.
    pub fn collect_cleared_orders(&self, gossip: &[GossipMsg]) -> (r: Vec<Order>)
        ensures
            r@ == cleared_of(seq![self.state@] + views(gossip@)),
    {
        let ghost all = seq![self.state@] + views(gossip@);
        let mut result: Vec<Order> = Vec::new();
        if let Some(o) = self.state.cleared_order {
            result.push(o);
        }
        assert(all.take(1).drop_last() =~= Seq::<GossipView>::empty());
        assert(all.take(1).last() == self.state@);
        assert(cleared_of(Seq::<GossipView>::empty()) =~= Seq::<Order>::empty());
        assert(!Seq::<Order>::empty().contains(self.state.cleared_order->0));
        assert(result@ =~= cleared_of(all.take(1)));
        let mut i: usize = 0;
        while i < gossip.len()
            invariant
                i <= gossip.len(),
                all == seq![self.state@] + views(gossip@),
                result@ == cleared_of(all.take(i as int + 1)),
            decreases gossip.len() - i,
        {
            assert(all.take(i as int + 2).drop_last() =~= all.take(i as int + 1));
            assert(all.take(i as int + 2).last() == gossip@[i as int]@);
            if let Some(o) = gossip[i].cleared_order {
                push_unique(&mut result, o);
            }
            i = i + 1;
        }
        assert(all.take(gossip.len() as int + 1) =~= all);
        result
    }

    /// Marks `order` completed at time `now_ms`: removes it from our hall
    /// and cab orders and from every peer's cab orders, and advertises it as
    /// cleared for the next second.
    pub fn order_completed(&mut self, order: Order, now_ms: u64)
        requires
            old(self).state.counter < i32::MAX,
            now_ms + CLEARED_ORDER_WINDOW_MS <= u64::MAX,
        ensures
            final(self).state@ == after_completed(old(self).state@, order),
            final(self).cleared_at == Some((now_ms + CLEARED_ORDER_WINDOW_MS) as u64),
    {
        remove_order(&mut self.state.hall_orders, &order);
        remove_order(&mut self.state.cab_orders, &order);
        let mut cabs: Vec<PeerOrders> = Vec::new();
        let mut i: usize = 0;
        while i < self.state.peer_cab_orders.len()
            invariant
                i <= self.state.peer_cab_orders.len(),
                cabs@.len() == i,
                table_of(cabs@) == table_without(table_of(self.state.peer_cab_orders@), order).take(
                    i as int,
                ),
            decreases self.state.peer_cab_orders.len() - i,
        {
            let id = self.state.peer_cab_orders[i].id.clone();
            let mut orders = copy_orders(&self.state.peer_cab_orders[i].orders);
            remove_order(&mut orders, &order);
            let e = PeerOrders { id, orders };
            let ghost before = cabs@;
            cabs.push(e);
            assert(cabs@[i as int] == e);
            assert(table_of(cabs@) =~= table_without(table_of(self.state.peer_cab_orders@), order).take(
                i as int + 1,
            ));
            i = i + 1;
        }
        assert(table_of(cabs@) =~= table_without(table_of(self.state.peer_cab_orders@), order));
        self.state.peer_cab_orders = cabs;
        self.state.cleared_order = Some(order);
        self.state.counter = self.state.counter + 1;
        self.cleared_at = Some(now_ms + CLEARED_ORDER_WINDOW_MS);
    }

    /// Copies the car's floor, direction and behaviour into our state.
    pub fn update_state(&mut self, s: (u8, Direction, Behaviour))
        ensures
            final(self).state@ == (GossipView {
                floor: s.0,
                direction: s.1,
                behaviour: s.2,
                ..old(self).state@
            }),
            final(self).cleared_at == old(self).cleared_at,
    {
        let (floor, direction, behaviour) = s;
        self.state.floor = floor;
        self.state.direction = direction;
        self.state.behaviour = behaviour;
    }

    /// Adds a newly pressed button to the cab or hall orders, unless it is
    /// already there; a change bumps the counter.
    pub fn add_order(&mut self, order: Order)
        requires
            old(self).state.counter < i32::MAX || (if order.order_type == ButtonType::CabCall {
                old(self).state@.cab_orders
            } else {
                old(self).state@.hall_orders
            }).contains(order),
        ensures
            final(self).state@ == after_add(old(self).state@, order),
            final(self).cleared_at == old(self).cleared_at,
    {
        let added = match order.order_type {
            ButtonType::CabCall => push_unique(&mut self.state.cab_orders, order),
            _ => push_unique(&mut self.state.hall_orders, order),
        };
        if added {
            self.state.counter = self.state.counter + 1;
        }
    }

    /// Stops advertising the completed order once its window has passed at
    /// time `now_ms`; this bumps the counter.
    pub fn tick_cleared_order(&mut self, now_ms: u64)
        requires
            (old(self).cleared_at matches Some(e) && now_ms >= e) ==> old(self).state.counter
                < i32::MAX,
        ensures
            (old(self).cleared_at matches Some(e) && now_ms >= e) ==> {
                &&& final(self).state@ == (GossipView {
                    cleared_order: None,
                    counter: (old(self).state.counter + 1) as i32,
                    ..old(self).state@
                })
                &&& final(self).cleared_at.is_none()
            },
            !(old(self).cleared_at matches Some(e) && now_ms >= e) ==> {
                &&& final(self).state@ == old(self).state@
                &&& final(self).cleared_at == old(self).cleared_at
            },
    {
        if let Some(expire_at) = self.cleared_at {
            if now_ms >= expire_at {
                self.state.cleared_order = None;
                self.state.counter = self.state.counter + 1;
                self.cleared_at = None;
            }
        }
    }

    /// Merges the hall and cab orders of `gossip` into our state, skipping
    /// the orders that we or any peer advertise as completed: every such
    /// hall order of a peer is added (once); our own cab orders are
    /// published under our id; every peer's cab orders for any other
    /// elevator are added (once) to ours for that elevator.
    pub fn merge_gossip_orders(&mut self, gossip: &[GossipMsg])
        requires
            msg_wf(old(self).state@),
            all_wf(views(gossip@)),
        ensures
            ({
                let o = old(self).state@;
                let c = cleared_of(seq![o] + views(gossip@));
                final(self).state@ == (GossipView {
                    hall_orders: add_all_unique(o.hall_orders, not_in(all_hall(views(gossip@)), c)),
                    peer_cab_orders: merge_tables(
                        table_set(o.peer_cab_orders, o.id, o.cab_orders),
                        o.id,
                        views(gossip@),
                        c,
                    ),
                    ..o
                })
            }),
            msg_wf(final(self).state@),
            final(self).cleared_at == old(self).cleared_at,
    {
        let ghost v = views(gossip@);
        let cleared = self.collect_cleared_orders(gossip);
        let mut hall = copy_orders(&self.state.hall_orders);
        let mut i: usize = 0;
        while i < gossip.len()
            invariant
                i <= gossip.len(),
                v == views(gossip@),
                hall@ == add_all_unique(
                    self.state@.hall_orders,
                    not_in(all_hall(v.take(i as int)), cleared@),
                ),
            decreases gossip.len() - i,
        {
            assert(v.take(i as int + 1).drop_last() =~= v.take(i as int));
            assert(v.take(i as int + 1).last() == gossip@[i as int]@);
            let peer_hall = &gossip[i].hall_orders;
            let mut j: usize = 0;
            while j < peer_hall.len()
                invariant
                    i < gossip.len(),
                    j <= peer_hall.len(),
                    v == views(gossip@),
                    peer_hall@ == gossip@[i as int].hall_orders@,
                    hall@ == add_all_unique(
                        self.state@.hall_orders,
                        not_in(all_hall(v.take(i as int)) + peer_hall@.take(j as int), cleared@),
                    ),
                decreases peer_hall.len() - j,
            {
                let o = peer_hall[j];
                let ghost prev = all_hall(v.take(i as int)) + peer_hall@.take(j as int);
                assert((all_hall(v.take(i as int)) + peer_hall@.take(j as int + 1)).drop_last()
                    =~= prev);
                assert((all_hall(v.take(i as int)) + peer_hall@.take(j as int + 1)).last() == o);
                if !contains_order(&cleared, &o) {
                    let ghost nprev = not_in(prev, cleared@);
                    assert(not_in(prev.push(o), cleared@) == nprev.push(o)) by {
                        assert(prev.push(o).drop_last() =~= prev);
                    }
                    assert(add_all_unique(self.state@.hall_orders, nprev.push(o)) == add_unique(
                        add_all_unique(self.state@.hall_orders, nprev),
                        o,
                    )) by {
                        assert(nprev.push(o).drop_last() =~= nprev);
                    }
                    assert(prev.push(o) =~= all_hall(v.take(i as int)) + peer_hall@.take(
                        j as int + 1,
                    ));
                    push_unique(&mut hall, o);
                } else {
                    assert(prev.push(o) =~= all_hall(v.take(i as int)) + peer_hall@.take(
                        j as int + 1,
                    ));
                    assert(not_in(prev.push(o), cleared@) == not_in(prev, cleared@)) by {
                        assert(prev.push(o).drop_last() =~= prev);
                    }
                }
                j = j + 1;
            }
            assert(peer_hall@.take(peer_hall.len() as int) =~= peer_hall@);
            assert(all_hall(v.take(i as int + 1)) == all_hall(v.take(i as int)) + peer_hall@);
            i = i + 1;
        }
        assert(v.take(gossip.len() as int) =~= v);

        let my_id = self.state.id.clone();
        let mut table = crate::gossip::copy_table(&self.state.peer_cab_orders);
        set_entry(&mut table, &my_id, copy_orders(&self.state.cab_orders));
        proof {
            crate::gossip::lemma_table_get_set(
                self.state@.peer_cab_orders,
                my_id@,
                self.state@.cab_orders,
            );
        }
        let ghost t1 = table_of(table@);
        let mut i: usize = 0;
        while i < gossip.len()
            invariant
                i <= gossip.len(),
                v == views(gossip@),
                all_wf(v),
                keys_unique(table_of(table@)),
                cleared@ == cleared_of(seq![old(self).state@] + v),
                table_of(table@) == merge_tables(t1, my_id@, v.take(i as int), cleared@),
            decreases gossip.len() - i,
        {
            assert(v.take(i as int + 1).drop_last() =~= v.take(i as int));
            assert(v.take(i as int + 1).last() == gossip@[i as int]@);
            assert(msg_wf(v[i as int]));
            let entries = &gossip[i].peer_cab_orders;
            let ghost es = table_of(entries@);
            let ghost base = merge_tables(t1, my_id@, v.take(i as int), cleared@);
            let mut j: usize = 0;
            while j < entries.len()
                invariant
                    i < gossip.len(),
                    j <= entries.len(),
                    es == table_of(entries@),
                    keys_unique(table_of(table@)),
                    table_of(table@) == merge_entries(base, my_id@, es.take(j as int), cleared@),
                decreases entries.len() - j,
            {
                assert(es.take(j as int + 1).drop_last() =~= es.take(j as int));
                assert(es.take(j as int + 1).last() == es[j as int]);
                assert(es[j as int] == (entries@[j as int].id@, entries@[j as int].orders@));
                if entries[j].id != my_id {
                    let mut cur = get_entry(&table, &entries[j].id);
                    let fresh_orders = orders_not_in(&entries[j].orders, &cleared);
                    extend_unique(&mut cur, &fresh_orders);
                    proof {
                        crate::gossip::lemma_table_get_set(
                            table_of(table@),
                            entries@[j as int].id@,
                            cur@,
                        );
                    }
                    set_entry(&mut table, &entries[j].id, cur);
                }
                j = j + 1;
            }
            assert(es.take(entries.len() as int) =~= es);
            i = i + 1;
        }
        assert(v.take(gossip.len() as int) =~= v);
        self.state.hall_orders = hall;
        self.state.peer_cab_orders = table;
    }

    /// Takes one message received while collecting gossip: a message from
    /// ourselves is ignored; of each peer only the message with the highest
    /// counter is kept.
    pub fn collect_gossip(&self, collected: &mut Vec<GossipMsg>, msg: GossipMsg)
        ensures
            msg@.id == self.state@.id ==> views(final(collected)@) == views(old(collected)@),
            msg@.id != self.state@.id ==> views(final(collected)@) == latest_merge(
                views(old(collected)@),
                msg@,
            ),
            ids_unique(views(old(collected)@)) ==> ids_unique(views(final(collected)@)),
    {
        if msg.id != self.state.id {
            keep_latest(collected, msg);
        }
    }
}

} // verus!
