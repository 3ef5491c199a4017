//! The state message that every node broadcasts to its peers, and the
//! per-peer order tables that it carries.

use vstd::prelude::*;
use crate::types::{Behaviour, Direction, Order, Roles};
use crate::orders::copy_orders;

verus! {

/// The orders held for one peer, keyed by the peer's id.
#[derive(Debug)]
pub struct PeerOrders {
    pub id: String,
    pub orders: Vec<Order>,
}

/// A table from peer ids to order lists, as a sequence of entries.
pub type Table = Seq<(Seq<char>, Seq<Order>)>;

/// The state message broadcast to all peers each network tick.
#[derive(Debug)]
pub struct GossipMsg {
    pub id: String,
    pub hall_orders: Vec<Order>,
    pub cab_orders: Vec<Order>,
    pub floor: u8,
    pub direction: Direction,
    pub behaviour: Behaviour,
    pub counter: i32,
    pub role: Roles,
    pub assignments: Vec<PeerOrders>,
    /// Each elevator's cab orders, gossiped across peers for crash recovery.
    pub peer_cab_orders: Vec<PeerOrders>,
    pub cleared_order: Option<Order>,
}

/// The mathematical value of a state message.
pub struct GossipView {
    pub id: Seq<char>,
    pub hall_orders: Seq<Order>,
    pub cab_orders: Seq<Order>,
    pub floor: u8,
    pub direction: Direction,
    pub behaviour: Behaviour,
    pub counter: i32,
    pub role: Roles,
    pub assignments: Table,
    pub peer_cab_orders: Table,
    pub cleared_order: Option<Order>,
}

/// The table that a list of entries stands for.
pub open spec fn table_of(v: Seq<PeerOrders>) -> Table {
    v.map_values(|e: PeerOrders| (e.id@, e.orders@))
}

impl View for GossipMsg {
    type V = GossipView;

    open spec fn view(&self) -> GossipView {
        GossipView {
            id: self.id@,
            hall_orders: self.hall_orders@,
            cab_orders: self.cab_orders@,
            floor: self.floor,
            direction: self.direction,
            behaviour: self.behaviour,
            counter: self.counter,
            role: self.role,
            assignments: table_of(self.assignments@),
            peer_cab_orders: table_of(self.peer_cab_orders@),
            cleared_order: self.cleared_order,
        }
    }
}

/// The values of a list of state messages.
pub open spec fn views(s: Seq<GossipMsg>) -> Seq<GossipView> {
    s.map_values(|m: GossipMsg| m@)
}

/// No id occurs twice among the keys of `t`.
pub open spec fn keys_unique<V>(t: Seq<(Seq<char>, V)>) -> bool {
    forall|i: int, j: int|
        0 <= i < t.len() && 0 <= j < t.len() && i != j ==> #[trigger] t[i].0 != #[trigger] t[j].0
}

/// `t` has an entry for `id`.
pub open spec fn table_has<V>(t: Seq<(Seq<char>, V)>, id: Seq<char>) -> bool {
    exists|i: int| 0 <= i < t.len() && #[trigger] t[i].0 == id
}

/// The position of the entry for `id` (meaningful when `table_has`).
pub open spec fn table_pos<V>(t: Seq<(Seq<char>, V)>, id: Seq<char>) -> int {
    choose|i: int| 0 <= i < t.len() && #[trigger] t[i].0 == id
}

/// The value stored for `id` (meaningful when `table_has`).
pub open spec fn table_value<V>(t: Seq<(Seq<char>, V)>, id: Seq<char>) -> V {
    t[table_pos(t, id)].1
}

/// The orders stored for `id`, or none.
pub open spec fn table_get(t: Table, id: Seq<char>) -> Seq<Order> {
    if table_has(t, id) {
        table_value(t, id)
    } else {
        Seq::empty()
    }
}

/// `t` with the value for `id` set to `v`: the entry is replaced in place,
/// or appended when there was none.
pub open spec fn table_set<V>(t: Seq<(Seq<char>, V)>, id: Seq<char>, v: V) -> Seq<(Seq<char>, V)> {
    if table_has(t, id) {
        t.update(table_pos(t, id), (id, v))
    } else {
        t.push((id, v))
    }
}

/// Both tables of a message have unique keys.
pub open spec fn msg_wf(m: GossipView) -> bool {
    keys_unique(m.assignments) && keys_unique(m.peer_cab_orders)
}

/// In a table with unique keys, the entry for an id is at the one position
/// that holds that id.
pub proof fn lemma_table_pos<V>(t: Seq<(Seq<char>, V)>, i: int)
    requires
        keys_unique(t),
        0 <= i < t.len(),
    ensures
        table_has(t, t[i].0),
        table_pos(t, t[i].0) == i,
        table_value(t, t[i].0) == t[i].1,
{
    assert(t[i].0 == t[i].0);
    let p = table_pos(t, t[i].0);
    assert(t[p].0 == t[i].0);
}

/// What `table_set` does to lookups and to the keys.
pub proof fn lemma_table_set<V>(t: Seq<(Seq<char>, V)>, id: Seq<char>, v: V)
    requires
        keys_unique(t),
    ensures
        keys_unique(table_set(t, id, v)),
        table_has(table_set(t, id, v), id),
        table_value(table_set(t, id, v), id) == v,
        forall|k: Seq<char>|
            #[trigger] table_has(table_set(t, id, v), k) <==> (table_has(t, k) || k == id),
        forall|k: Seq<char>|
            k != id && table_has(t, k) ==> #[trigger] table_value(table_set(t, id, v), k)
                == table_value(t, k),
{
    let n = table_set(t, id, v);
    if table_has(t, id) {
        let p = table_pos(t, id);
        assert(n[p].0 == id);
        assert forall|i: int, j: int|
            0 <= i < n.len() && 0 <= j < n.len() && i != j implies #[trigger] n[i].0
            != #[trigger] n[j].0 by {
            if i != p && j != p {
                assert(t[i].0 != t[j].0);
            } else if i == p {
                assert(t[j].0 != t[p].0);
            } else {
                assert(t[i].0 != t[p].0);
            }
        }
        lemma_table_pos(n, p);
    } else {
        let p = t.len() as int;
        assert(n[p].0 == id);
        assert forall|i: int, j: int|
            0 <= i < n.len() && 0 <= j < n.len() && i != j implies #[trigger] n[i].0
            != #[trigger] n[j].0 by {
            if i < t.len() && j < t.len() {
                assert(t[i].0 != t[j].0);
            } else if i < t.len() {
                assert(t[i].0 != id);
            } else {
                assert(t[j].0 != id);
            }
        }
        lemma_table_pos(n, p);
    }
    assert forall|k: Seq<char>| #[trigger] table_has(n, k) <==> (table_has(t, k) || k == id) by {
        if table_has(t, k) && k != id {
            let q = choose|i: int| 0 <= i < t.len() && #[trigger] t[i].0 == k;
            assert(n[q].0 == k);
        }
        if table_has(n, k) && k != id {
            let q = choose|i: int| 0 <= i < n.len() && #[trigger] n[i].0 == k;
            assert(t[q].0 == k);
        }
    }
    assert forall|k: Seq<char>| k != id && table_has(t, k) implies #[trigger] table_value(n, k)
        == table_value(t, k) by {
        let q = choose|i: int| 0 <= i < t.len() && #[trigger] t[i].0 == k;
        lemma_table_pos(t, q);
        assert(n[q].0 == k);
        assert(n[q] == t[q]);
        lemma_table_pos(n, q);
    }
}

/// `table_get` after `table_set`.
pub proof fn lemma_table_get_set(t: Table, id: Seq<char>, v: Seq<Order>)
    requires
        keys_unique(t),
    ensures
        keys_unique(table_set(t, id, v)),
        table_get(table_set(t, id, v), id) == v,
        forall|k: Seq<char>| k != id ==> #[trigger] table_get(table_set(t, id, v), k) == table_get(t, k),
{
    lemma_table_set(t, id, v);
}

/// The position of the entry for `id` in `v`, if any.
pub fn find_entry(v: &Vec<PeerOrders>, id: &String) -> (r: Option<usize>)
    ensures
        match r {
            Some(i) => i < v@.len() && v@[i as int].id@ == id@ && table_has(table_of(v@), id@)
                && (keys_unique(table_of(v@)) ==> table_pos(table_of(v@), id@) == i),
            None => !table_has(table_of(v@), id@),
        },
{
    let mut i: usize = 0;
    while i < v.len()
        invariant
            i <= v.len(),
            forall|j: int| 0 <= j < i ==> #[trigger] table_of(v@)[j].0 != id@,
        decreases v.len() - i,
    {
        if v[i].id == *id {
            assert(table_of(v@)[i as int].0 == id@);
            return Some(i);
        }
        i = i + 1;
    }
    None
}

/// A copy of an entry list.
pub fn copy_table(v: &Vec<PeerOrders>) -> (r: Vec<PeerOrders>)
    ensures
        table_of(r@) == table_of(v@),
{
    let mut r: Vec<PeerOrders> = Vec::new();
    let mut i: usize = 0;
    while i < v.len()
        invariant
            i <= v.len(),
            r@.len() == i,
            table_of(r@) == table_of(v@).take(i as int),
        decreases v.len() - i,
    {
        let id = v[i].id.clone();
        let orders = copy_orders(&v[i].orders);
        assert(id@ == v@[i as int].id@);
        assert(orders@ == v@[i as int].orders@);
        let e = PeerOrders { id, orders };
        let ghost before = r@;
        r.push(e);
        assert(r@ == before.push(e));
        assert(r@[i as int] == e);
        assert(table_of(r@)[i as int] == (e.id@, e.orders@));
        assert(table_of(r@) =~= table_of(before).push(table_of(v@)[i as int]));
        i = i + 1;
        assert(table_of(r@) =~= table_of(v@).take(i as int));
    }
    assert(table_of(v@).take(v.len() as int) =~= table_of(v@));
    r
}

/// Sets the orders for `id` in `v` (see `table_set`).
pub fn set_entry(v: &mut Vec<PeerOrders>, id: &String, orders: Vec<Order>)
    requires
        keys_unique(table_of(old(v)@)),
    ensures
        table_of(final(v)@) == table_set(table_of(old(v)@), id@, orders@),
{
    match find_entry(v, id) {
        Some(i) => {
            let ghost before = table_of(v@);
            v.set(i, PeerOrders { id: id.clone(), orders });
            assert(table_of(v@) =~= before.update(i as int, (id@, orders@)));
        },
        None => {
            let ghost before = table_of(v@);
            v.push(PeerOrders { id: id.clone(), orders });
            assert(table_of(v@) =~= before.push((id@, orders@)));
        },
    }
}

/// A copy of the orders stored for `id` in `v`, or none.
pub fn get_entry(v: &Vec<PeerOrders>, id: &String) -> (r: Vec<Order>)
    requires
        keys_unique(table_of(v@)),
    ensures
        r@ == table_get(table_of(v@), id@),
{
    match find_entry(v, id) {
        Some(i) => copy_orders(&v[i].orders),
        None => Vec::new(),
    }
}

impl GossipMsg {
    /// A copy of the message.
    pub fn duplicate(&self) -> (r: GossipMsg)
        ensures
            r@ == self@,
    {
        GossipMsg {
            id: self.id.clone(),
            hall_orders: copy_orders(&self.hall_orders),
            cab_orders: copy_orders(&self.cab_orders),
            floor: self.floor,
            direction: self.direction,
            behaviour: self.behaviour,
            counter: self.counter,
            role: self.role,
            assignments: copy_table(&self.assignments),
            peer_cab_orders: copy_table(&self.peer_cab_orders),
            cleared_order: self.cleared_order,
        }
    }
}

} // verus!
