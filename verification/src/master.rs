//! The per-tick work of the master, which assigns new hall orders, and of
//! a slave, which follows the master's assignment.

use vstd::prelude::*;
use crate::types::{ButtonType, Order, Roles, NUM_FLOORS};
use crate::orders::{add_all_unique, copy_orders, extend_unique, remove_order};
use crate::gossip::{
    get_entry, keys_unique, msg_wf, set_entry, table_get, table_of, table_set, views, GossipMsg,
    GossipView, PeerOrders, Table,
};
use crate::network::{all_wf, cleared_of, ids_unique, not_in, orders_not_in, table_without, Network};
use crate::assigner::{
    has_hall, hall_button, hall_matrix, other_peers, rows, states_of, AssignerView,
    RequestAssigner,
};
use crate::duties::{cache_without, strip_cache};
use crate::laws::advertised;

verus! {

/// Every completed order advertised by `msgs`, repeats included, in order.
pub open spec fn cleared_list(msgs: Seq<GossipView>) -> Seq<Order>
    decreases msgs.len(),
{
    if msgs.len() == 0 {
        Seq::empty()
    } else {
        let r = cleared_list(msgs.drop_last());
        match msgs.last().cleared_order {
            Some(c) => r.push(c),
            None => r,
        }
    }
}

/// `t` with each order of `cs` removed from every entry.
pub open spec fn strip_tables(t: Table, cs: Seq<Order>) -> Table
    decreases cs.len(),
{
    if cs.len() == 0 {
        t
    } else {
        table_without(strip_tables(t, cs.drop_last()), cs.last())
    }
}

/// The cached peers with each order of `cs` removed from their hall orders.
pub open spec fn strip_caches(c: Seq<GossipView>, cs: Seq<Order>) -> Seq<GossipView>
    decreases cs.len(),
{
    if cs.len() == 0 {
        c
    } else {
        cache_without(strip_caches(c, cs.drop_last()), cs.last())
    }
}

/// Some entry of `t` holds a hall order for floor `f`, column `k`.
pub open spec fn table_has_hall(t: Table, f: int, k: int) -> bool {
    exists|i: int| 0 <= i < t.len() && #[trigger] has_hall(t[i].1, f, k)
}

/// The hall request matrix `h` with the requests already assigned in `t`
/// (or in `extra`) turned off.
pub open spec fn masked_by(h: Seq<Seq<bool>>, t: Table, extra: Seq<Order>) -> Seq<Seq<bool>> {
    Seq::new(
        h.len(),
        |f: int|
            Seq::new(
                2,
                |k: int| h[f][k] && !table_has_hall(t, f, k) && !has_hall(extra, f, k),
            ),
    )
}

/// The hall request matrix `h` with the requests already assigned in `t` turned off.
pub open spec fn masked(h: Seq<Seq<bool>>, t: Table) -> Seq<Seq<bool>> {
    masked_by(h, t, Seq::empty())
}

/// Some hall request of `h` is on.
pub open spec fn any_request(h: Seq<Seq<bool>>) -> bool {
    exists|f: int, k: int| 0 <= f < h.len() && 0 <= k < 2 && #[trigger] h[f][k]
}

/// `t` with `c` removed from every entry.
fn strip_table(v: &Vec<PeerOrders>, c: &Order) -> (r: Vec<PeerOrders>)
    ensures
        table_of(r@) == table_without(table_of(v@), *c),
        keys_unique(table_of(v@)) ==> keys_unique(table_of(r@)),
{
    let ghost t = table_of(v@);
    let mut r: Vec<PeerOrders> = Vec::new();
    let mut i: usize = 0;
    while i < v.len()
        invariant
            i <= v.len(),
            t == table_of(v@),
            r@.len() == i,
            table_of(r@) == table_without(t, *c).take(i as int),
        decreases v.len() - i,
    {
        let id = v[i].id.clone();
        let mut orders = copy_orders(&v[i].orders);
        remove_order(&mut orders, c);
        let e = PeerOrders { id, orders };
        r.push(e);
        assert(r@[i as int] == e);
        assert(table_of(r@) =~= table_without(t, *c).take(i as int + 1));
        i = i + 1;
    }
    assert(table_without(t, *c).take(v.len() as int) =~= table_without(t, *c));
    proof {
        if keys_unique(t) {
            let w = table_without(t, *c);
            assert forall|a: int, b: int|
                0 <= a < w.len() && 0 <= b < w.len() && a != b implies #[trigger] w[a].0
                != #[trigger] w[b].0 by {
                assert(t[a].0 != t[b].0);
            }
        }
    }
    r
}

/// Every completed order advertised by ourselves and by `gossip`.
fn all_cleared(own: &GossipMsg, gossip: &[GossipMsg]) -> (r: Vec<Order>)
    ensures
        r@ == cleared_list(seq![own@] + views(gossip@)),
{
    let ghost all = seq![own@] + views(gossip@);
    let mut r: Vec<Order> = Vec::new();
    if let Some(c) = own.cleared_order {
        r.push(c);
    }
    assert(all.take(1).drop_last() =~= Seq::<GossipView>::empty());
    assert(all.take(1).last() == own@);
    assert(cleared_list(Seq::<GossipView>::empty()) =~= Seq::<Order>::empty());
    assert(r@ =~= cleared_list(all.take(1)));
    let mut i: usize = 0;
    while i < gossip.len()
        invariant
            i <= gossip.len(),
            all == seq![own@] + views(gossip@),
            r@ == cleared_list(all.take(i as int + 1)),
        decreases gossip.len() - i,
    {
        assert(all.take(i as int + 2).drop_last() =~= all.take(i as int + 1));
        assert(all.take(i as int + 2).last() == gossip@[i as int]@);
        if let Some(c) = gossip[i].cleared_order {
            r.push(c);
        }
        i = i + 1;
    }
    assert(all.take(gossip.len() as int + 1) =~= all);
    r
}

/// The ids of a stripped cache are those of the cache.
proof fn lemma_strip_caches_ids(c: Seq<GossipView>, cs: Seq<Order>)
    ensures
        strip_caches(c, cs).len() == c.len(),
        forall|i: int| 0 <= i < c.len() ==> #[trigger] strip_caches(c, cs)[i].id == c[i].id,
    decreases cs.len(),
{
    if cs.len() > 0 {
        lemma_strip_caches_ids(c, cs.drop_last());
    }
}

impl RequestAssigner {
    /// The master's first half of a tick: strips every advertised completed
    /// order from the cached peers, our published assignments and the ones
    /// we remember; builds the cost function input; and turns off the hall
    /// requests that are already assigned. Says whether any new hall
    /// request is left to assign.
    #[verifier::spinoff_prover]
    pub fn master(&mut self, gossip: &[GossipMsg], network: &mut Network) -> (r: bool)
        requires
            keys_unique(old(self)@.last_published_assignments),
            ids_unique(old(self)@.cached_peers),
            msg_wf(old(network).state@),
        ensures
            ({
                let own0 = old(network).state@;
                let cs = cleared_list(seq![own0] + views(gossip@));
                let own1 = GossipView { assignments: strip_tables(own0.assignments, cs), ..own0 };
                let cache1 = strip_caches(old(self)@.cached_peers, cs);
                let lpa1 = strip_tables(old(self)@.last_published_assignments, cs);
                let msgs = seq![own1] + other_peers(cache1, old(self)@.id);
                &&& final(network).state@ == own1
                &&& final(self)@ == (AssignerView {
                    hall_requests: masked(hall_matrix(msgs, NUM_FLOORS as nat), lpa1),
                    states: states_of(msgs, NUM_FLOORS as nat),
                    cached_peers: cache1,
                    last_published_assignments: lpa1,
                    ..old(self)@
                })
            }),
            r == any_request(final(self)@.hall_requests),
            forall|i: int, o: Order|
                0 <= i < final(network).state@.assignments.len() && advertised(
                    old(network).state@,
                    views(gossip@),
                    o,
                ) ==> !(#[trigger] final(network).state@.assignments[i].1.contains(o)),
            forall|i: int, o: Order|
                0 <= i < final(self)@.last_published_assignments.len() && advertised(
                    old(network).state@,
                    views(gossip@),
                    o,
                ) ==> !(#[trigger] final(self)@.last_published_assignments[i].1.contains(o)),
            keys_unique(final(self)@.last_published_assignments),
            keys_unique(final(self)@.states),
            ids_unique(final(self)@.cached_peers),
            msg_wf(final(network).state@),
            final(network).cleared_at == old(network).cleared_at,
    {
        let ghost a = self@;
        let ghost own0 = network.state@;
        let cleared = all_cleared(&network.state, gossip);
        let ghost cs = cleared@;
        let mut i: usize = 0;
        while i < cleared.len()
            invariant
                i <= cleared.len(),
                cs == cleared@,
                keys_unique(self@.last_published_assignments),
                msg_wf(network.state@),
                self@ == (AssignerView {
                    cached_peers: strip_caches(a.cached_peers, cs.take(i as int)),
                    last_published_assignments: strip_tables(
                        a.last_published_assignments,
                        cs.take(i as int),
                    ),
                    ..a
                }),
                network.state@ == (GossipView {
                    assignments: strip_tables(own0.assignments, cs.take(i as int)),
                    ..own0
                }),
                network.cleared_at == old(network).cleared_at,
            decreases cleared.len() - i,
        {
            assert(cs.take(i as int + 1).drop_last() =~= cs.take(i as int));
            assert(cs.take(i as int + 1).last() == cs[i as int]);
            let c = cleared[i];
            let cache = strip_cache(&self.cached_peers, &c);
            self.cached_peers = cache;
            let published = strip_table(&network.state.assignments, &c);
            network.state.assignments = published;
            let remembered = strip_table(&self.last_published_assignments, &c);
            self.last_published_assignments = remembered;
            i = i + 1;
        }
        assert(cs.take(cleared.len() as int) =~= cs);
        proof {
            lemma_strip_caches_ids(a.cached_peers, cs);
            let c1 = strip_caches(a.cached_peers, cs);
            assert forall|x: int, y: int|
                0 <= x < c1.len() && 0 <= y < c1.len() && x != y implies #[trigger] c1[x].id
                != #[trigger] c1[y].id by {
                assert(a.cached_peers[x].id != a.cached_peers[y].id);
            }
        }
        self.build_cost_input(&network.state);
        let ghost h0 = self@.hall_requests;
        let ghost t = self@.last_published_assignments;
        let mut hr = crate::assigner::copy_rows(&self.message.hall_requests);
        proof {
            crate::assigner::lemma_rows_len(hr@);
            assert(masked_by(h0, t.take(0), Seq::empty()) =~= h0) by {
                assert forall|f: int| 0 <= f < h0.len() implies #[trigger] masked_by(
                    h0,
                    t.take(0),
                    Seq::empty(),
                )[f] =~= h0[f] by {}
            }
        }
        let mut e: usize = 0;
        while e < self.last_published_assignments.len()
            invariant
                e <= self.last_published_assignments.len(),
                t == table_of(self.last_published_assignments@),
                h0.len() == hr@.len(),
                forall|f: int| 0 <= f < h0.len() ==> #[trigger] h0[f].len() == 2,
                rows(hr@) == masked_by(h0, t.take(e as int), Seq::empty()),
            decreases self.last_published_assignments.len() - e,
        {
            let orders = &self.last_published_assignments[e].orders;
            assert(orders@.take(0) =~= Seq::<Order>::empty());
            let mut j: usize = 0;
            while j < orders.len()
                invariant
                    j <= orders.len(),
                    e < self.last_published_assignments.len(),
                    t == table_of(self.last_published_assignments@),
                    orders@ == t[e as int].1,
                    h0.len() == hr@.len(),
                    forall|f: int| 0 <= f < h0.len() ==> #[trigger] h0[f].len() == 2,
                    rows(hr@) == masked_by(h0, t.take(e as int), orders@.take(j as int)),
                decreases orders.len() - j,
            {
                let o = orders[j];
                let f = o.floor as usize;
                let ghost before = hr@;
                if f < hr.len() {
                    let mut row = hr[f];
                    match o.order_type {
                        ButtonType::HallUp => {
                            row[0] = false;
                        },
                        ButtonType::HallDown => {
                            row[1] = false;
                        },
                        _ => {},
                    }
                    hr.set(f, row);
                }
                proof {
                    let ex = orders@.take(j as int + 1);
                    let m = masked_by(h0, t.take(e as int), ex);
                    assert forall|g: int| 0 <= g < h0.len() implies #[trigger] rows(hr@)[g] == m[g] by {
                        assert forall|k: int| 0 <= k < 2 implies #[trigger] rows(hr@)[g][k] == m[g][k] by {
                            assert(ex[j as int] == o);
                            if has_hall(orders@.take(j as int), g, k) {
                                let q = choose|q: int|
                                    0 <= q < j && #[trigger] orders@.take(j as int)[q].floor == g
                                        && orders@.take(j as int)[q].order_type == hall_button(k);
                                assert(ex[q] == orders@.take(j as int)[q]);
                            }
                            if has_hall(ex, g, k) {
                                let q = choose|q: int|
                                    0 <= q < ex.len() && #[trigger] ex[q].floor == g && ex[q].order_type
                                        == hall_button(k);
                                if q < j {
                                    assert(orders@.take(j as int)[q] == ex[q]);
                                }
                            }
                            assert(rows(before)[g] == before[g]@);
                        }
                        assert(rows(hr@)[g] =~= m[g]);
                    }
                    assert(rows(hr@) =~= m);
                }
                j = j + 1;
            }
            proof {
                assert(orders@.take(orders.len() as int) =~= orders@);
                let m1 = masked_by(h0, t.take(e as int), orders@);
                let m2 = masked_by(h0, t.take(e as int + 1), Seq::empty());
                assert forall|g: int| 0 <= g < h0.len() implies #[trigger] m1[g] == m2[g] by {
                    assert forall|k: int| 0 <= k < 2 implies #[trigger] m1[g][k] == m2[g][k] by {
                        let tt = t.take(e as int + 1);
                        assert(tt[e as int] == t[e as int]);
                        if table_has_hall(t.take(e as int), g, k) {
                            let q = choose|q: int|
                                0 <= q < e && #[trigger] has_hall(t.take(e as int)[q].1, g, k);
                            assert(tt[q] == t.take(e as int)[q]);
                        }
                        if table_has_hall(tt, g, k) {
                            let q = choose|q: int| 0 <= q < tt.len() && #[trigger] has_hall(tt[q].1, g, k);
                            if q < e {
                                assert(t.take(e as int)[q] == tt[q]);
                            }
                        }
                        assert(!has_hall(Seq::<Order>::empty(), g, k));
                    }
                    assert(m1[g] =~= m2[g]);
                }
                assert(m1 =~= m2);
            }
            e = e + 1;
        }
        assert(t.take(self.last_published_assignments.len() as int) =~= t);
        self.message.hall_requests = hr;
        let mut any = false;
        let mut f: usize = 0;
        while f < self.message.hall_requests.len()
            invariant
                f <= self.message.hall_requests.len(),
                forall|g: int| 0 <= g < h0.len() ==> #[trigger] h0[g].len() == 2,
                rows(self.message.hall_requests@).len() == self.message.hall_requests@.len(),
                any == exists|g: int, k: int|
                    0 <= g < f && 0 <= k < 2 && #[trigger] rows(self.message.hall_requests@)[g][k],
            decreases self.message.hall_requests.len() - f,
        {
            let row = self.message.hall_requests[f];
            assert(rows(self.message.hall_requests@)[f as int] == row@);
            if row[0] || row[1] {
                assert(rows(self.message.hall_requests@)[f as int][0] || rows(
                    self.message.hall_requests@,
                )[f as int][1]);
                any = true;
            }
            f = f + 1;
        }
        proof {
            crate::laws::lemma_master_strips_completed(
                own0,
                views(gossip@),
                own0.assignments,
                a.cached_peers,
            );
            crate::laws::lemma_master_strips_completed(
                own0,
                views(gossip@),
                a.last_published_assignments,
                a.cached_peers,
            );
        }
        any
    }
}

/// `t` with the entries `es` merged in: the orders of each entry are added
/// (once) to those stored for its id.
pub open spec fn merge_assignments(t: Table, es: Table) -> Table
    decreases es.len(),
{
    if es.len() == 0 {
        t
    } else {
        let t1 = merge_assignments(t, es.drop_last());
        let e = es.last();
        table_set(t1, e.0, add_all_unique(table_get(t1, e.0), e.1))
    }
}

/// Whether two order lists are equal.
fn orders_equal(a: &Vec<Order>, b: &Vec<Order>) -> (r: bool)
    ensures
        r == (a@ == b@),
{
    if a.len() != b.len() {
        return false;
    }
    let mut i: usize = 0;
    while i < a.len()
        invariant
            i <= a.len(),
            a.len() == b.len(),
            forall|j: int| 0 <= j < i ==> a@[j] == b@[j],
        decreases a.len() - i,
    {
        if a[i] != b[i] {
            return false;
        }
        i = i + 1;
    }
    assert(a@ =~= b@);
    true
}

/// Whether two entry lists stand for the same table.
fn tables_equal(a: &Vec<PeerOrders>, b: &Vec<PeerOrders>) -> (r: bool)
    ensures
        r == (table_of(a@) == table_of(b@)),
{
    if a.len() != b.len() {
        assert(table_of(a@).len() != table_of(b@).len());
        return false;
    }
    let mut i: usize = 0;
    while i < a.len()
        invariant
            i <= a.len(),
            a.len() == b.len(),
            forall|j: int| 0 <= j < i ==> table_of(a@)[j] == table_of(b@)[j],
        decreases a.len() - i,
    {
        if a[i].id != b[i].id {
            assert(table_of(a@)[i as int] != table_of(b@)[i as int]);
            return false;
        }
        if !orders_equal(&a[i].orders, &b[i].orders) {
            assert(table_of(a@)[i as int] != table_of(b@)[i as int]);
            return false;
        }
        assert(table_of(a@)[i as int] == table_of(b@)[i as int]);
        i = i + 1;
    }
    assert(table_of(a@) =~= table_of(b@));
    true
}

impl RequestAssigner {
    /// The master's second half of a tick: merges the new assignments into
    /// the ones already published (publishing, and bumping the counter,
    /// only on a change) and returns our own queue: the hall orders
    /// assigned to us followed by our cab orders, each once.
    pub fn publish_assignments(
        &mut self,
        new_assignments: &Vec<PeerOrders>,
        network: &mut Network,
    ) -> (queue: Vec<Order>)
        requires
            keys_unique(old(self)@.last_published_assignments),
            msg_wf(old(network).state@),
            merge_assignments(old(self)@.last_published_assignments, table_of(new_assignments@))
                != old(self)@.last_published_assignments ==> old(network).state.counter < i32::MAX,
        ensures
            ({
                let m = merge_assignments(
                    old(self)@.last_published_assignments,
                    table_of(new_assignments@),
                );
                let o = old(network).state@;
                &&& final(self)@ == (AssignerView { last_published_assignments: m, ..old(self)@ })
                &&& final(network).state@ == if m != old(self)@.last_published_assignments {
                    GossipView { assignments: m, counter: (o.counter + 1) as i32, ..o }
                } else {
                    o
                }
                &&& queue@ == add_all_unique(
                    table_get(final(network).state@.assignments, o.id),
                    o.cab_orders,
                )
            }),
            keys_unique(final(self)@.last_published_assignments),
            msg_wf(final(network).state@),
            final(network).cleared_at == old(network).cleared_at,
    {
        let ghost t0 = table_of(self.last_published_assignments@);
        let ghost es = table_of(new_assignments@);
        let mut merged = crate::gossip::copy_table(&self.last_published_assignments);
        let mut i: usize = 0;
        while i < new_assignments.len()
            invariant
                i <= new_assignments.len(),
                es == table_of(new_assignments@),
                keys_unique(table_of(merged@)),
                table_of(merged@) == merge_assignments(t0, es.take(i as int)),
            decreases new_assignments.len() - i,
        {
            assert(es.take(i as int + 1).drop_last() =~= es.take(i as int));
            assert(es.take(i as int + 1).last() == es[i as int]);
            assert(es[i as int] == (new_assignments@[i as int].id@, new_assignments@[i as int].orders@));
            let mut entry = get_entry(&merged, &new_assignments[i].id);
            extend_unique(&mut entry, &new_assignments[i].orders);
            proof {
                crate::gossip::lemma_table_get_set(table_of(merged@), new_assignments@[i as int].id@, entry@);
            }
            set_entry(&mut merged, &new_assignments[i].id, entry);
            i = i + 1;
        }
        assert(es.take(new_assignments.len() as int) =~= es);
        if !tables_equal(&merged, &self.last_published_assignments) {
            self.last_published_assignments = crate::gossip::copy_table(&merged);
            network.state.assignments = merged;
            network.state.counter = network.state.counter + 1;
        }
        let mut my_orders = get_entry(&network.state.assignments, &network.state.id);
        extend_unique(&mut my_orders, &network.state.cab_orders);
        my_orders
    }
}

/// The raw output of the cost function: for each elevator id, for each
/// floor, the hall up, hall down and cab flags.
pub type RawAssignment = Seq<(Seq<char>, Seq<Seq<bool>>)>;

/// What `serde_json` makes of the cost function's output `bytes`, read as
/// a JSON object from elevator ids to per-floor lists of flags.
pub uninterp spec fn assigner_output(bytes: Seq<u8>) -> Option<RawAssignment>;

/// The value of a raw assignment.
pub open spec fn raw_view(v: Seq<(String, Vec<Vec<bool>>)>) -> RawAssignment {
    v.map_values(|e: (String, Vec<Vec<bool>>)| (e.0@, e.1@.map_values(|c: Vec<bool>| c@)))
}

/// Parses the cost function's output with `serde_json::from_slice` into a
/// `BTreeMap` from ids to flag lists, and lists its entries. The result is
/// named, not stated: `None` exactly when `serde_json` rejects the bytes,
/// and otherwise the map's entries, no id twice (a map has each key once);
/// JSON syntax, escapes and the order of the entries are left to
/// `serde_json` and `BTreeMap`.
#[verifier::external_body]
fn parse_assigner_output(bytes: &[u8]) -> (r: Option<Vec<(String, Vec<Vec<bool>>)>>)
    ensures
        match r {
            Some(v) => assigner_output(bytes@) == Some(raw_view(v@)) && keys_unique(raw_view(v@)),
            None => assigner_output(bytes@).is_none(),
        },
{
    match serde_json::from_slice::<std::collections::BTreeMap<String, Vec<Vec<bool>>>>(bytes) {
        Ok(m) => Some(m.into_iter().collect()),
        Err(_) => None,
    }
}

/// Flag `k` of a floor's flags; a missing flag is off.
pub open spec fn flag(cols: Seq<bool>, k: int) -> bool {
    k < cols.len() && cols[k]
}

/// The orders that floor `f`'s flags stand for: hall up, hall down, cab.
pub open spec fn floor_orders(cols: Seq<bool>, f: int) -> Seq<Order> {
    (if flag(cols, 0) {
        seq![Order { floor: f as u8, order_type: ButtonType::HallUp }]
    } else {
        Seq::empty()
    }) + (if flag(cols, 1) {
        seq![Order { floor: f as u8, order_type: ButtonType::HallDown }]
    } else {
        Seq::empty()
    }) + (if flag(cols, 2) {
        seq![Order { floor: f as u8, order_type: ButtonType::CabCall }]
    } else {
        Seq::empty()
    })
}

/// The orders that a list of per-floor flags stands for, floor by floor.
pub open spec fn flags_orders(per_floor: Seq<Seq<bool>>) -> Seq<Order>
    decreases per_floor.len(),
{
    if per_floor.len() == 0 {
        Seq::empty()
    } else {
        flags_orders(per_floor.drop_last()) + floor_orders(
            per_floor.last(),
            per_floor.len() - 1,
        )
    }
}

/// The assignment table that a raw assignment stands for.
pub open spec fn assignment_table(raw: RawAssignment) -> Table {
    raw.map_values(|e: (Seq<char>, Seq<Seq<bool>>)| (e.0, flags_orders(e.1)))
}

/// Flag `k` of a floor's flags; a missing flag is off.
fn get_flag(cols: &Vec<bool>, k: usize) -> (r: bool)
    ensures
        r == flag(cols@, k as int),
{
    k < cols.len() && cols[k]
}

/// The orders that a list of per-floor flags stands for.
pub fn orders_from_flags(per_floor: &Vec<Vec<bool>>) -> (r: Vec<Order>)
    ensures
        r@ == flags_orders(per_floor@.map_values(|c: Vec<bool>| c@)),
{
    let ghost pf = per_floor@.map_values(|c: Vec<bool>| c@);
    let mut r: Vec<Order> = Vec::new();
    let mut f: usize = 0;
    while f < per_floor.len()
        invariant
            f <= per_floor.len(),
            pf == per_floor@.map_values(|c: Vec<bool>| c@),
            r@ == flags_orders(pf.take(f as int)),
        decreases per_floor.len() - f,
    {
        assert(pf.take(f as int + 1).drop_last() =~= pf.take(f as int));
        assert(pf.take(f as int + 1).last() == per_floor@[f as int]@);
        let cols = &per_floor[f];
        let fl = f as u8;
        let ghost before = r@;
        if get_flag(cols, 0) {
            r.push(Order { floor: fl, order_type: ButtonType::HallUp });
        }
        if get_flag(cols, 1) {
            r.push(Order { floor: fl, order_type: ButtonType::HallDown });
        }
        if get_flag(cols, 2) {
            r.push(Order { floor: fl, order_type: ButtonType::CabCall });
        }
        assert(r@ =~= before + floor_orders(cols@, f as int));
        f = f + 1;
    }
    assert(pf.take(per_floor.len() as int) =~= pf);
    r
}

/// The assignment table that a parsed cost function output stands for.
pub fn assignments_from_raw(raw: &Vec<(String, Vec<Vec<bool>>)>) -> (r: Vec<PeerOrders>)
    ensures
        table_of(r@) == assignment_table(raw_view(raw@)),
{
    let ghost rv = assignment_table(raw_view(raw@));
    let mut r: Vec<PeerOrders> = Vec::new();
    let mut i: usize = 0;
    while i < raw.len()
        invariant
            i <= raw.len(),
            rv == assignment_table(raw_view(raw@)),
            r@.len() == i,
            table_of(r@) == rv.take(i as int),
        decreases raw.len() - i,
    {
        let id = raw[i].0.clone();
        let orders = orders_from_flags(&raw[i].1);
        let e = PeerOrders { id, orders };
        r.push(e);
        assert(r@[i as int] == e);
        assert(table_of(r@) =~= rv.take(i as int + 1));
        i = i + 1;
    }
    assert(rv.take(raw.len() as int) =~= rv);
    r
}

impl RequestAssigner {
    /// The new assignments from the cost function's run: none if it failed,
    /// otherwise what its output stands for; `None` when the output is not
    /// the expected JSON.
    pub fn assign_hall_orders(success: bool, stdout: &[u8]) -> (r: Option<Vec<PeerOrders>>)
        ensures
            !success ==> (r matches Some(v) && table_of(v@) == Table::empty()),
            success ==> match assigner_output(stdout@) {
                None => r.is_none(),
                Some(raw) => (r matches Some(v) && table_of(v@) == assignment_table(raw)
                    && keys_unique(raw)),
            },
    {
        if !success {
            let v: Vec<PeerOrders> = Vec::new();
            assert(table_of(v@) =~= Table::empty());
            return Some(v);
        }
        match parse_assigner_output(stdout) {
            Some(raw) => Some(assignments_from_raw(&raw)),
            None => None,
        }
    }
}

/// What a slave asks of its elevator this tick.
#[derive(Debug)]
pub struct SlavePlan {
    /// The orders to queue.
    pub queue: Vec<Order>,
    /// The hall and cab orders whose lamps to light, if a master is visible.
    pub lights: Option<(Vec<Order>, Vec<Order>)>,
}

/// `m` is the position of the first master among `gs`.
pub open spec fn is_first_master(gs: Seq<GossipView>, m: int) -> bool {
    &&& 0 <= m < gs.len()
    &&& gs[m].role == Roles::Master
    &&& forall|j: int| 0 <= j < m ==> #[trigger] gs[j].role != Roles::Master
}

impl RequestAssigner {
    /// A slave's tick: with a master visible, queue the hall orders the
    /// first master assigns to us and then our cab orders, leaving out
    /// recently completed ones, and light the master's hall orders and our
    /// cab orders; with none visible, queue our own cab orders.
    pub fn slave(&self, gossip: &[GossipMsg], network: &Network) -> (plan: SlavePlan)
        requires
            all_wf(views(gossip@)),
        ensures
            ({
                let gs = views(gossip@);
                let o = network.state@;
                let cleared = cleared_of(seq![o] + gs);
                &&& (forall|j: int| 0 <= j < gs.len() ==> #[trigger] gs[j].role != Roles::Master)
                    ==> plan.queue@ == o.cab_orders && plan.lights.is_none()
                &&& forall|m: int| #[trigger] is_first_master(gs, m) ==> {
                    &&& plan.queue@ == add_all_unique(
                        not_in(table_get(gs[m].assignments, o.id), cleared),
                        not_in(o.cab_orders, cleared),
                    )
                    &&& (plan.lights matches Some(l) && l.0@ == not_in(gs[m].hall_orders, cleared)
                        && l.1@ == not_in(o.cab_orders, cleared))
                }
            }),
    {
        let ghost gs = views(gossip@);
        let cleared = network.collect_cleared_orders(gossip);
        let mut i: usize = 0;
        while i < gossip.len()
            invariant
                i <= gossip.len(),
                gs == views(gossip@),
                all_wf(gs),
                cleared@ == cleared_of(seq![network.state@] + gs),
                forall|j: int| 0 <= j < i ==> #[trigger] gs[j].role != Roles::Master,
            decreases gossip.len() - i,
        {
            if gossip[i].role == Roles::Master {
                let master = &gossip[i];
                assert(is_first_master(gs, i as int));
                proof {
                    assert(msg_wf(gs[i as int]));
                    assert forall|m: int| #[trigger] is_first_master(gs, m) implies m == i as int by {
                        if m < i {
                        } else if m > i {
                            assert(gs[i as int].role == Roles::Master);
                        }
                    }
                }
                let assigned = get_entry(&master.assignments, &network.state.id);
                let mut my_orders = orders_not_in(&assigned, &cleared);
                let cabs = orders_not_in(&network.state.cab_orders, &cleared);
                extend_unique(&mut my_orders, &cabs);
                let hall = orders_not_in(&master.hall_orders, &cleared);
                assert(gs[i as int].assignments == table_of(master.assignments@));
                return SlavePlan { queue: my_orders, lights: Some((hall, cabs)) };
            }
            i = i + 1;
        }
        SlavePlan { queue: copy_orders(&network.state.cab_orders), lights: None }
    }
}

} // verus!
