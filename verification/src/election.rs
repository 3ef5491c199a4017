//! Master election: the master is the live peer with the lowest address;
//! peers not heard from within the time to live drop out.

use vstd::prelude::*;
use crate::types::Roles;
use crate::gossip::{
    keys_unique, table_has, table_of, table_pos, table_set, views, GossipMsg, GossipView,
    PeerOrders, Table,
};
use crate::network::{ids_unique, Network};
use crate::assigner::{seen_table, AssignerView, PeerSeen, RequestAssigner};
use crate::ip::{election_key, ip_key_less, ip_key_lt, key_of_id};

verus! {

/// A table of sightings: when each peer was last heard from.
pub type Seen = Seq<(Seq<char>, u64)>;

/// A sighting at `t` is still fresh at `now`: no more than `ttl` ms ago
/// (a sighting from the future counts as just now).
pub open spec fn fresh(t: u64, now: u64, ttl: u64) -> bool {
    now < t || now - t <= ttl
}

/// `s` with `m` stored as the message of its node: replacing the one from
/// the same node, or appended.
pub open spec fn peer_set(s: Seq<GossipView>, m: GossipView) -> Seq<GossipView> {
    if exists|i: int| 0 <= i < s.len() && #[trigger] s[i].id == m.id {
        s.update(choose|i: int| 0 <= i < s.len() && #[trigger] s[i].id == m.id, m)
    } else {
        s.push(m)
    }
}

/// Every node of `gs` seen at `now`.
pub open spec fn seen_after(seen: Seen, gs: Seq<GossipView>, now: u64) -> Seen
    decreases gs.len(),
{
    if gs.len() == 0 {
        seen
    } else {
        table_set(seen_after(seen, gs.drop_last(), now), gs.last().id, now)
    }
}

/// Every message of `gs` cached, one after the other.
pub open spec fn cached_after(c: Seq<GossipView>, gs: Seq<GossipView>) -> Seq<GossipView>
    decreases gs.len(),
{
    if gs.len() == 0 {
        c
    } else {
        peer_set(cached_after(c, gs.drop_last()), gs.last())
    }
}

/// `t` without the entry for `id`.
pub open spec fn table_remove(t: Table, id: Seq<char>) -> Table {
    if table_has(t, id) {
        t.remove(table_pos(t, id))
    } else {
        t
    }
}

/// `t` without the entries of the peers whose sighting in `seen` is stale.
pub open spec fn drop_timed_out(t: Table, seen: Seen, now: u64, ttl: u64) -> Table
    decreases seen.len(),
{
    if seen.len() == 0 {
        t
    } else {
        let r = drop_timed_out(t, seen.drop_last(), now, ttl);
        if fresh(seen.last().1, now, ttl) {
            r
        } else {
            table_remove(r, seen.last().0)
        }
    }
}

/// The fresh sightings of `seen`, in order.
pub open spec fn fresh_seen(seen: Seen, now: u64, ttl: u64) -> Seen
    decreases seen.len(),
{
    if seen.len() == 0 {
        seen
    } else {
        let r = fresh_seen(seen.drop_last(), now, ttl);
        if fresh(seen.last().1, now, ttl) {
            r.push(seen.last())
        } else {
            r
        }
    }
}

/// The messages of `c` whose node has a sighting in `seen`, in order.
pub open spec fn keep_seen(c: Seq<GossipView>, seen: Seen) -> Seq<GossipView>
    decreases c.len(),
{
    if c.len() == 0 {
        c
    } else {
        let r = keep_seen(c.drop_last(), seen);
        if table_has(seen, c.last().id) {
            r.push(c.last())
        } else {
            r
        }
    }
}

/// `idx` is the position of the first of the lowest addresses in `seen`.
pub open spec fn is_elected(seen: Seen, idx: int) -> bool {
    &&& 0 <= idx < seen.len()
    &&& forall|j: int|
        0 <= j < seen.len() ==> !ip_key_less(
            election_key(#[trigger] seen[j].0),
            election_key(seen[idx].0),
        )
    &&& forall|j: int|
        0 <= j < idx ==> ip_key_less(election_key(seen[idx].0), election_key(#[trigger] seen[j].0))
}

/// The id elected among the sightings `seen`.
pub open spec fn elected_id(seen: Seen) -> Seq<char> {
    seen[choose|idx: int| is_elected(seen, idx)].0
}

/// The sightings after hearing from ourselves and from `gs` at `now`.
pub open spec fn sightings(a: AssignerView, gs: Seq<GossipView>, now: u64) -> Seen {
    seen_after(table_set(a.last_seen, a.id, now), gs, now)
}

/// The live sightings after hearing from ourselves and from `gs` at `now`.
pub open spec fn live_seen(a: AssignerView, gs: Seq<GossipView>, now: u64) -> Seen {
    fresh_seen(sightings(a, gs, now), now, a.peer_ttl_ms)
}

/// Our role after the election at `now`.
pub open spec fn new_role(a: AssignerView, gs: Seq<GossipView>, now: u64) -> Roles {
    if elected_id(live_seen(a, gs, now)) == a.id {
        Roles::Master
    } else {
        Roles::Slave
    }
}

/// The assigner after the election at `now`, hearing from `gs`.
pub open spec fn after_election(a: AssignerView, gs: Seq<GossipView>, now: u64) -> AssignerView {
    let seen = sightings(a, gs, now);
    let live = fresh_seen(seen, now, a.peer_ttl_ms);
    AssignerView {
        last_seen: live,
        cached_peers: keep_seen(cached_after(a.cached_peers, gs), live),
        last_published_assignments: drop_timed_out(
            a.last_published_assignments,
            seen,
            now,
            a.peer_ttl_ms,
        ),
        role: new_role(a, gs, now),
        ..a
    }
}

/// Law: the elected position is unique.
pub proof fn lemma_elected_unique(seen: Seen, i: int, j: int)
    requires
        is_elected(seen, i),
        is_elected(seen, j),
    ensures
        i == j,
{
    if i < j {
        assert(ip_key_less(election_key(seen[j].0), election_key(seen[i].0)));
    } else if j < i {
        assert(ip_key_less(election_key(seen[i].0), election_key(seen[j].0)));
    }
}

/// The position of the sighting of `id`, if any.
fn find_seen(v: &Vec<PeerSeen>, id: &String) -> (r: Option<usize>)
    ensures
        match r {
            Some(i) => i < v@.len() && seen_table(v@)[i as int].0 == id@,
            None => !table_has(seen_table(v@), id@),
        },
{
    let mut i: usize = 0;
    while i < v.len()
        invariant
            i <= v.len(),
            forall|j: int| 0 <= j < i ==> #[trigger] seen_table(v@)[j].0 != id@,
        decreases v.len() - i,
    {
        if v[i].id == *id {
            return Some(i);
        }
        i = i + 1;
    }
    None
}

/// Records a sighting of `id` at `at` (see `table_set`).
fn set_seen(v: &mut Vec<PeerSeen>, id: &String, at: u64)
    requires
        keys_unique(seen_table(old(v)@)),
    ensures
        seen_table(final(v)@) == table_set(seen_table(old(v)@), id@, at),
        keys_unique(seen_table(final(v)@)),
{
    proof {
        crate::gossip::lemma_table_set(seen_table(v@), id@, at);
    }
    let ghost before = seen_table(v@);
    match find_seen(v, id) {
        Some(i) => {
            proof {
                crate::gossip::lemma_table_pos(before, i as int);
            }
            v.set(i, PeerSeen { id: id.clone(), at_ms: at });
            assert(seen_table(v@) =~= before.update(i as int, (id@, at)));
        },
        None => {
            v.push(PeerSeen { id: id.clone(), at_ms: at });
            assert(seen_table(v@) =~= before.push((id@, at)));
        },
    }
}

/// Caches `m` as the message of its node (see `peer_set`).
fn set_cached(v: &mut Vec<GossipMsg>, m: GossipMsg)
    requires
        ids_unique(views(old(v)@)),
    ensures
        views(final(v)@) == peer_set(views(old(v)@), m@),
        ids_unique(views(final(v)@)),
{
    let ghost s = views(v@);
    let ghost mv = m@;
    match crate::network::find_msg(v, &m.id) {
        Some(i) => {
            let ghost k = choose|k: int| 0 <= k < s.len() && #[trigger] s[k].id == mv.id;
            assert(s[i as int].id == mv.id);
            assert(k == i as int);
            v.set(i, m);
            assert(views(v@) =~= s.update(i as int, mv));
            assert forall|a: int, b: int|
                0 <= a < s.len() && 0 <= b < s.len() && a != b implies #[trigger] views(v@)[a].id
                != #[trigger] views(v@)[b].id by {
                if a != i && b != i {
                    assert(s[a].id != s[b].id);
                } else if a == i {
                    assert(s[b].id != s[a].id);
                } else {
                    assert(s[a].id != s[b].id);
                }
            }
        },
        None => {
            v.push(m);
            assert(views(v@) =~= s.push(mv));
            assert(!(exists|j: int| 0 <= j < s.len() && #[trigger] s[j].id == mv.id));
            assert forall|a: int, b: int|
                0 <= a < s.len() + 1 && 0 <= b < s.len() + 1 && a != b implies #[trigger] views(
                v@,
            )[a].id != #[trigger] views(v@)[b].id by {
                if a < s.len() && b < s.len() {
                    assert(s[a].id != s[b].id);
                } else if a < s.len() {
                    assert(s[a].id != mv.id);
                } else {
                    assert(s[b].id != mv.id);
                }
            }
        },
    }
}

/// Removing an entry keeps the keys unique.
proof fn lemma_remove_unique<V>(t: Seq<(Seq<char>, V)>, i: int)
    requires
        keys_unique(t),
        0 <= i < t.len(),
    ensures
        keys_unique(t.remove(i)),
{
    let r = t.remove(i);
    assert forall|a: int, b: int|
        0 <= a < r.len() && 0 <= b < r.len() && a != b implies #[trigger] r[a].0 != #[trigger] r[b].0 by {
        let a2 = if a < i { a } else { a + 1 };
        let b2 = if b < i { b } else { b + 1 };
        assert(r[a] == t[a2]);
        assert(r[b] == t[b2]);
    }
}

/// Removes the entry for `id` (see `table_remove`).
fn remove_entry(v: &mut Vec<PeerOrders>, id: &String)
    requires
        keys_unique(table_of(old(v)@)),
    ensures
        table_of(final(v)@) == table_remove(table_of(old(v)@), id@),
        keys_unique(table_of(final(v)@)),
{
    let ghost before = table_of(v@);
    match crate::gossip::find_entry(v, id) {
        Some(i) => {
            proof {
                lemma_remove_unique(before, i as int);
            }
            v.remove(i);
            assert(table_of(v@) =~= before.remove(i as int));
        },
        None => {},
    }
}

/// The keys of a filtered table come from the table.
pub proof fn lemma_fresh_seen(seen: Seen, now: u64, ttl: u64)
    ensures
        forall|e: (Seq<char>, u64)| #[trigger] fresh_seen(seen, now, ttl).contains(e) <==> (
        seen.contains(e) && fresh(e.1, now, ttl)),
        keys_unique(seen) ==> keys_unique(fresh_seen(seen, now, ttl)),
    decreases seen.len(),
{
    if seen.len() > 0 {
        let d = seen.drop_last();
        lemma_fresh_seen(d, now, ttl);
        let r = fresh_seen(d, now, ttl);
        let f = fresh_seen(seen, now, ttl);
        assert forall|e: (Seq<char>, u64)| #[trigger] f.contains(e) <==> (seen.contains(e) && fresh(
            e.1,
            now,
            ttl,
        )) by {
            if seen.contains(e) && fresh(e.1, now, ttl) {
                let i = choose|i: int| 0 <= i < seen.len() && seen[i] == e;
                if i < d.len() {
                    assert(d[i] == e);
                    assert(r.contains(e));
                    let k = choose|k: int| 0 <= k < r.len() && r[k] == e;
                    assert(f[k] == e);
                } else {
                    assert(f[f.len() - 1] == e);
                }
            }
            if f.contains(e) {
                let k = choose|k: int| 0 <= k < f.len() && f[k] == e;
                if k < r.len() {
                    assert(r[k] == e);
                    assert(r.contains(e));
                    let i = choose|i: int| 0 <= i < d.len() && d[i] == e;
                    assert(seen[i] == e);
                } else {
                    assert(seen[seen.len() - 1] == e);
                }
            }
        }
        if keys_unique(seen) {
            assert(keys_unique(d));
            if fresh(seen.last().1, now, ttl) {
                assert forall|a: int, b: int|
                    0 <= a < f.len() && 0 <= b < f.len() && a != b implies #[trigger] f[a].0
                    != #[trigger] f[b].0 by {
                    if a < r.len() && b < r.len() {
                    } else if a < r.len() {
                        assert(r.contains(r[a]));
                        let i = choose|i: int| 0 <= i < d.len() && d[i] == r[a];
                        assert(seen[i] == d[i]);
                        assert(seen[seen.len() - 1].0 != seen[i].0);
                    } else {
                        assert(r.contains(r[b]));
                        let i = choose|i: int| 0 <= i < d.len() && d[i] == r[b];
                        assert(seen[i] == d[i]);
                        assert(seen[seen.len() - 1].0 != seen[i].0);
                    }
                }
            }
        }
    }
}

/// The messages kept by `keep_seen` come from `c`; node ids stay unique.
pub proof fn lemma_keep_seen(c: Seq<GossipView>, seen: Seen)
    ensures
        forall|m: GossipView| #[trigger] keep_seen(c, seen).contains(m) ==> c.contains(m),
        ids_unique(c) ==> ids_unique(keep_seen(c, seen)),
    decreases c.len(),
{
    if c.len() > 0 {
        let d = c.drop_last();
        lemma_keep_seen(d, seen);
        let r = keep_seen(d, seen);
        let f = keep_seen(c, seen);
        assert forall|m: GossipView| #[trigger] f.contains(m) implies c.contains(m) by {
            let k = choose|k: int| 0 <= k < f.len() && f[k] == m;
            if k < r.len() {
                assert(r[k] == m);
                assert(r.contains(m));
                let i = choose|i: int| 0 <= i < d.len() && d[i] == m;
                assert(c[i] == m);
            } else {
                assert(c[c.len() - 1] == m);
            }
        }
        if ids_unique(c) {
            assert(ids_unique(d));
            if table_has(seen, c.last().id) {
                assert forall|a: int, b: int|
                    0 <= a < f.len() && 0 <= b < f.len() && a != b implies #[trigger] f[a].id
                    != #[trigger] f[b].id by {
                    if a < r.len() && b < r.len() {
                    } else if a < r.len() {
                        assert(r.contains(r[a]));
                        let i = choose|i: int| 0 <= i < d.len() && d[i] == r[a];
                        assert(c[i] == d[i]);
                        assert(c[c.len() - 1].id != c[i].id);
                    } else {
                        assert(r.contains(r[b]));
                        let i = choose|i: int| 0 <= i < d.len() && d[i] == r[b];
                        assert(c[i] == d[i]);
                        assert(c[c.len() - 1].id != c[i].id);
                    }
                }
            }
        }
    }
}

/// The fresh sightings of `v` at `now`.
fn fresh_only(v: &Vec<PeerSeen>, now: u64, ttl: u64) -> (r: Vec<PeerSeen>)
    ensures
        seen_table(r@) == fresh_seen(seen_table(v@), now, ttl),
{
    let ghost s = seen_table(v@);
    let mut r: Vec<PeerSeen> = Vec::new();
    let mut i: usize = 0;
    while i < v.len()
        invariant
            i <= v.len(),
            s == seen_table(v@),
            seen_table(r@) == fresh_seen(s.take(i as int), now, ttl),
        decreases v.len() - i,
    {
        assert(s.take(i as int + 1).drop_last() =~= s.take(i as int));
        assert(s.take(i as int + 1).last() == s[i as int]);
        let at = v[i].at_ms;
        if !(now >= at && now - at > ttl) {
            let e = PeerSeen { id: v[i].id.clone(), at_ms: at };
            let ghost before = r@;
            r.push(e);
            assert(seen_table(r@) =~= seen_table(before).push((e.id@, e.at_ms)));
        }
        i = i + 1;
    }
    assert(s.take(v.len() as int) =~= s);
    r
}

/// Copies of the cached messages whose node has a sighting in `seen`.
fn seen_only(c: &Vec<GossipMsg>, seen: &Vec<PeerSeen>) -> (r: Vec<GossipMsg>)
    ensures
        views(r@) == keep_seen(views(c@), seen_table(seen@)),
{
    let ghost s = views(c@);
    let mut r: Vec<GossipMsg> = Vec::new();
    let mut i: usize = 0;
    while i < c.len()
        invariant
            i <= c.len(),
            s == views(c@),
            views(r@) == keep_seen(s.take(i as int), seen_table(seen@)),
        decreases c.len() - i,
    {
        assert(s.take(i as int + 1).drop_last() =~= s.take(i as int));
        assert(s.take(i as int + 1).last() == c@[i as int]@);
        if find_seen(seen, &c[i].id).is_some() {
            let m = c[i].duplicate();
            let ghost before = r@;
            r.push(m);
            assert(views(r@) =~= views(before).push(m@));
        }
        i = i + 1;
    }
    assert(s.take(c.len() as int) =~= s);
    r
}

/// The position of the first of the lowest addresses among the sightings.
fn elect(v: &Vec<PeerSeen>) -> (r: usize)
    requires
        v@.len() > 0,
    ensures
        is_elected(seen_table(v@), r as int),
{
    let ghost s = seen_table(v@);
    let mut best: usize = 0;
    let mut best_key = key_of_id(v[0].id.as_str());
    let mut j: usize = 1;
    while j < v.len()
        invariant
            1 <= j <= v.len(),
            s == seen_table(v@),
            best < j,
            best_key == election_key(s[best as int].0),
            forall|m: int| 0 <= m < j ==> !ip_key_less(election_key(#[trigger] s[m].0), best_key),
            forall|m: int| 0 <= m < best ==> ip_key_less(best_key, election_key(#[trigger] s[m].0)),
        decreases v.len() - j,
    {
        let k = key_of_id(v[j].id.as_str());
        assert(k == election_key(s[j as int].0));
        if ip_key_lt(k, best_key) {
            proof {
                assert forall|m: int| 0 <= m < j implies !ip_key_less(
                    election_key(#[trigger] s[m].0),
                    k,
                ) by {
                    crate::ip::lemma_ip_order(election_key(s[m].0), k, best_key);
                    crate::ip::lemma_ip_order(k, best_key, election_key(s[m].0));
                    crate::ip::lemma_ip_order(election_key(s[m].0), best_key, k);
                }
                assert forall|m: int| 0 <= m < j implies ip_key_less(
                    k,
                    election_key(#[trigger] s[m].0),
                ) by {
                    crate::ip::lemma_ip_order(k, best_key, election_key(s[m].0));
                    crate::ip::lemma_ip_order(best_key, election_key(s[m].0), k);
                }
            }
            best = j;
            best_key = k;
        }
        j = j + 1;
    }
    best
}

/// Sightings recorded at `now` keep the keys unique, and a sighting at
/// `now` stays one.
pub proof fn lemma_seen_after(t: Seen, gs: Seq<GossipView>, now: u64, id: Seq<char>)
    requires
        keys_unique(t),
    ensures
        keys_unique(seen_after(t, gs, now)),
        table_has(t, id) && crate::gossip::table_value(t, id) == now ==> table_has(seen_after(t, gs, now), id)
            && crate::gossip::table_value(seen_after(t, gs, now), id) == now,
    decreases gs.len(),
{
    if gs.len() > 0 {
        let t1 = seen_after(t, gs.drop_last(), now);
        lemma_seen_after(t, gs.drop_last(), now, id);
        crate::gossip::lemma_table_set(t1, gs.last().id, now);
    }
}

/// Every node that sent a message of `gs` has a sighting at `now`.
pub proof fn lemma_seen_after_hears(t: Seen, gs: Seq<GossipView>, now: u64)
    requires
        keys_unique(t),
    ensures
        keys_unique(seen_after(t, gs, now)),
        forall|m: int|
            0 <= m < gs.len() ==> table_has(seen_after(t, gs, now), #[trigger] gs[m].id)
                && crate::gossip::table_value(seen_after(t, gs, now), gs[m].id) == now,
    decreases gs.len(),
{
    if gs.len() > 0 {
        let d = gs.drop_last();
        lemma_seen_after_hears(t, d, now);
        let t1 = seen_after(t, d, now);
        crate::gossip::lemma_table_set(t1, gs.last().id, now);
        assert forall|m: int| 0 <= m < gs.len() implies table_has(
            seen_after(t, gs, now),
            #[trigger] gs[m].id,
        ) && crate::gossip::table_value(seen_after(t, gs, now), gs[m].id) == now by {
            if m < d.len() {
                assert(d[m] == gs[m]);
            }
        }
    }
}

/// Law: after hearing from the network at `now`, our own id is among the
/// live sightings, so there is always someone to elect.
pub proof fn lemma_self_is_live(a: AssignerView, gs: Seq<GossipView>, now: u64)
    requires
        keys_unique(a.last_seen),
    ensures
        table_has(live_seen(a, gs, now), a.id),
        keys_unique(live_seen(a, gs, now)),
        live_seen(a, gs, now).len() > 0,
{
    let t0 = table_set(a.last_seen, a.id, now);
    crate::gossip::lemma_table_set(a.last_seen, a.id, now);
    lemma_seen_after(t0, gs, now, a.id);
    let seen = sightings(a, gs, now);
    lemma_fresh_seen(seen, now, a.peer_ttl_ms);
    let p = crate::gossip::table_pos(seen, a.id);
    let e = seen[p];
    assert(e.0 == a.id);
    assert(e.1 == now);
    assert(seen.contains(e));
    let live = live_seen(a, gs, now);
    assert(live.contains(e));
    let k = choose|k: int| 0 <= k < live.len() && live[k] == e;
    assert(live[k].0 == a.id);
}

/// The elected id is the id at the elected position.
proof fn lemma_elected_id(seen: Seen, idx: int)
    requires
        is_elected(seen, idx),
    ensures
        elected_id(seen) == seen[idx].0,
{
    let c = choose|i: int| is_elected(seen, i);
    lemma_elected_unique(seen, c, idx);
}

impl RequestAssigner {
    /// Hears from ourselves and from `gossip` at `now_ms`, forgets peers not
    /// heard from within the time to live (and the hall orders assigned to
    /// them), and elects as master the live peer with the lowest address;
    /// a change of our role bumps the counter of our state.
    pub fn elect_master(&mut self, gossip: &[GossipMsg], network: &mut Network, now_ms: u64)
        requires
            keys_unique(old(self)@.last_seen),
            ids_unique(old(self)@.cached_peers),
            keys_unique(old(self)@.last_published_assignments),
            new_role(old(self)@, views(gossip@), now_ms) != old(self).role ==> old(
                network,
            ).state.counter < i32::MAX,
        ensures
            final(self)@ == after_election(old(self)@, views(gossip@), now_ms),
            forall|m: int|
                0 <= m < gossip@.len() ==> final(self)@.last_seen.contains(
                    (#[trigger] gossip@[m]@.id, now_ms),
                ),
            final(self)@.last_seen.contains((old(self)@.id, now_ms)),
            keys_unique(final(self)@.last_seen),
            ids_unique(final(self)@.cached_peers),
            keys_unique(final(self)@.last_published_assignments),
            final(network).state@ == (GossipView {
                role: new_role(old(self)@, views(gossip@), now_ms),
                counter: if new_role(old(self)@, views(gossip@), now_ms) != old(self).role {
                    (old(network).state.counter + 1) as i32
                } else {
                    old(network).state.counter
                },
                ..old(network).state@
            }),
            final(network).cleared_at == old(network).cleared_at,
    {
        let ghost a = self@;
        let ghost gs = views(gossip@);
        set_seen(&mut self.last_seen, &self.id, now_ms);
        let ghost t0 = seen_table(self.last_seen@);
        let mut i: usize = 0;
        while i < gossip.len()
            invariant
                i <= gossip.len(),
                gs == views(gossip@),
                a == old(self)@,
                t0 == table_set(a.last_seen, a.id, now_ms),
                keys_unique(self@.last_seen),
                ids_unique(self@.cached_peers),
                self@ == (AssignerView {
                    last_seen: seen_after(t0, gs.take(i as int), now_ms),
                    cached_peers: cached_after(a.cached_peers, gs.take(i as int)),
                    ..a
                }),
            decreases gossip.len() - i,
        {
            assert(gs.take(i as int + 1).drop_last() =~= gs.take(i as int));
            assert(gs.take(i as int + 1).last() == gossip@[i as int]@);
            set_seen(&mut self.last_seen, &gossip[i].id, now_ms);
            let m = gossip[i].duplicate();
            set_cached(&mut self.cached_peers, m);
            i = i + 1;
        }
        assert(gs.take(gossip.len() as int) =~= gs);
        let ghost seen = sightings(a, gs, now_ms);
        assert(self@.last_seen == seen);
        let ttl = self.peer_ttl_ms;
        let mut k: usize = 0;
        while k < self.last_seen.len()
            invariant
                k <= self.last_seen.len(),
                seen == seen_table(self.last_seen@),
                ttl == a.peer_ttl_ms,
                keys_unique(table_of(self.last_published_assignments@)),
                table_of(self.last_published_assignments@) == drop_timed_out(
                    a.last_published_assignments,
                    seen.take(k as int),
                    now_ms,
                    ttl,
                ),
                self@ == (AssignerView {
                    last_published_assignments: self@.last_published_assignments,
                    last_seen: seen,
                    cached_peers: cached_after(a.cached_peers, gs),
                    ..a
                }),
            decreases self.last_seen.len() - k,
        {
            assert(seen.take(k as int + 1).drop_last() =~= seen.take(k as int));
            assert(seen.take(k as int + 1).last() == seen[k as int]);
            let at = self.last_seen[k].at_ms;
            if now_ms >= at && now_ms - at > ttl {
                remove_entry(&mut self.last_published_assignments, &self.last_seen[k].id);
            }
            k = k + 1;
        }
        assert(seen.take(self.last_seen.len() as int) =~= seen);
        let live = fresh_only(&self.last_seen, now_ms, ttl);
        self.last_seen = live;
        let kept = seen_only(&self.cached_peers, &self.last_seen);
        self.cached_peers = kept;
        proof {
            lemma_self_is_live(a, gs, now_ms);
            crate::laws::lemma_gossiping_peers_are_live(a, gs, now_ms);
            assert forall|m: int| 0 <= m < gossip@.len() implies #[trigger] gossip@[m]@.id == gs[m].id by {}
            lemma_keep_seen(cached_after(a.cached_peers, gs), seen_table(self.last_seen@));
        }
        let e = elect(&self.last_seen);
        proof {
            lemma_elected_id(seen_table(self.last_seen@), e as int);
        }
        let role = if self.last_seen[e].id == self.id {
            Roles::Master
        } else {
            Roles::Slave
        };
        if self.role != role {
            self.role = role;
            network.state.counter = network.state.counter + 1;
        }
        network.state.role = role;
    }
}

impl RequestAssigner {
    /// Runs the election (see `elect_master`) when the counter of our state
    /// has room for the bump a role change makes; otherwise changes nothing.
    /// Says whether it ran.
    pub fn try_elect_master(&mut self, gossip: &[GossipMsg], network: &mut Network, now_ms: u64) -> (ran:
        bool)
        requires
            keys_unique(old(self)@.last_seen),
            ids_unique(old(self)@.cached_peers),
            keys_unique(old(self)@.last_published_assignments),
        ensures
            ran == (old(network).state.counter < i32::MAX),
            ran ==> final(self)@ == after_election(old(self)@, views(gossip@), now_ms),
            ran ==> final(network).state@ == (GossipView {
                role: new_role(old(self)@, views(gossip@), now_ms),
                counter: if new_role(old(self)@, views(gossip@), now_ms) != old(self).role {
                    (old(network).state.counter + 1) as i32
                } else {
                    old(network).state.counter
                },
                ..old(network).state@
            }),
            !ran ==> final(self)@ == old(self)@ && final(network).state@ == old(network).state@,
            keys_unique(final(self)@.last_seen),
            ids_unique(final(self)@.cached_peers),
            keys_unique(final(self)@.last_published_assignments),
            final(network).cleared_at == old(network).cleared_at,
    {
        if network.state.counter < i32::MAX {
            self.elect_master(gossip, network, now_ms);
            true
        } else {
            false
        }
    }
}

} // verus!
