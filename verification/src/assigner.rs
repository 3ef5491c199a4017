//! Hall order assignment: the input handed to the cost function, master
//! election among live peers, and what master and slaves do each tick.

use vstd::prelude::*;
use crate::types::{
    Behaviour, ButtonType, Direction, Order, Roles, MASTER_ELECTION_TIMEOUT_MS, NUM_FLOORS,
};
use crate::gossip::{
    keys_unique, table_has, table_of, table_set, views, GossipMsg, GossipView, PeerOrders, Table,
};

verus! {

/// Per-elevator state handed to the cost function.
#[derive(Debug)]
pub struct AssignmentState {
    pub behaviour: Behaviour,
    pub floor: u8,
    pub direction: Direction,
    pub cab_requests: Vec<bool>,
}

/// The state handed to the cost function for one elevator, keyed by its id.
#[derive(Debug)]
pub struct StateEntry {
    pub id: String,
    pub state: AssignmentState,
}

/// Input to the cost function: for each floor whether hall up and hall
/// down are requested, and the state of each elevator.
#[derive(Debug)]
pub struct Message {
    pub hall_requests: Vec<[bool; 2]>,
    pub states: Vec<StateEntry>,
}

/// When a peer was last heard from (ms on the node's clock).
#[derive(Debug)]
pub struct PeerSeen {
    pub id: String,
    pub at_ms: u64,
}

/// The master election and hall order assignment of one node.
#[derive(Debug)]
pub struct RequestAssigner {
    pub message: Message,
    pub id: String,
    pub role: Roles,
    pub last_published_assignments: Vec<PeerOrders>,
    pub last_seen: Vec<PeerSeen>,
    /// Most recently received state for each live peer.
    pub cached_peers: Vec<GossipMsg>,
    pub peer_ttl_ms: u64,
}

/// The value of an elevator's state for the cost function.
pub struct AssignmentView {
    pub behaviour: Behaviour,
    pub floor: u8,
    pub direction: Direction,
    pub cab_requests: Seq<bool>,
}

/// The value of a request assigner.
pub struct AssignerView {
    pub hall_requests: Seq<Seq<bool>>,
    pub states: Seq<(Seq<char>, AssignmentView)>,
    pub id: Seq<char>,
    pub role: Roles,
    pub last_published_assignments: Table,
    pub last_seen: Seq<(Seq<char>, u64)>,
    pub cached_peers: Seq<GossipView>,
    pub peer_ttl_ms: u64,
}

impl AssignmentState {
    pub open spec fn view(&self) -> AssignmentView {
        AssignmentView {
            behaviour: self.behaviour,
            floor: self.floor,
            direction: self.direction,
            cab_requests: self.cab_requests@,
        }
    }
}

/// The table that a list of state entries stands for.
pub open spec fn states_table(v: Seq<StateEntry>) -> Seq<(Seq<char>, AssignmentView)> {
    v.map_values(|e: StateEntry| (e.id@, e.state.view()))
}

/// The table that a list of sightings stands for.
pub open spec fn seen_table(v: Seq<PeerSeen>) -> Seq<(Seq<char>, u64)> {
    v.map_values(|e: PeerSeen| (e.id@, e.at_ms))
}

/// The rows of the hall request matrix.
pub open spec fn rows(v: Seq<[bool; 2]>) -> Seq<Seq<bool>> {
    v.map_values(|a: [bool; 2]| a@)
}

impl View for RequestAssigner {
    type V = AssignerView;

    open spec fn view(&self) -> AssignerView {
        AssignerView {
            hall_requests: rows(self.message.hall_requests@),
            states: states_table(self.message.states@),
            id: self.id@,
            role: self.role,
            last_published_assignments: table_of(self.last_published_assignments@),
            last_seen: seen_table(self.last_seen@),
            cached_peers: views(self.cached_peers@),
            peer_ttl_ms: self.peer_ttl_ms,
        }
    }
}

/// The tables of an assigner keep each id once.
pub open spec fn assigner_wf(a: AssignerView) -> bool {
    &&& keys_unique(a.states)
    &&& keys_unique(a.last_published_assignments)
    &&& keys_unique(a.last_seen)
    &&& crate::network::ids_unique(a.cached_peers)
}

/// The hall button of column `k` of the hall request matrix.
pub open spec fn hall_button(k: int) -> ButtonType {
    if k == 0 {
        ButtonType::HallUp
    } else {
        ButtonType::HallDown
    }
}

/// Some order of `s` is for floor `f` with the hall button of column `k`.
pub open spec fn has_hall(s: Seq<Order>, f: int, k: int) -> bool {
    exists|i: int| 0 <= i < s.len() && #[trigger] s[i].floor == f && s[i].order_type == hall_button(k)
}

/// Some message of `msgs` holds a hall order for floor `f`, column `k`.
pub open spec fn hall_flag(msgs: Seq<GossipView>, f: int, k: int) -> bool {
    exists|m: int| 0 <= m < msgs.len() && #[trigger] has_hall(msgs[m].hall_orders, f, k)
}

/// Some order of `s` is a cab call for floor `f`.
pub open spec fn has_cab(s: Seq<Order>, f: int) -> bool {
    exists|i: int| 0 <= i < s.len() && #[trigger] s[i].floor == f && s[i].order_type == ButtonType::CabCall
}

/// The state of elevator `m` for the cost function over `n` floors.
pub open spec fn assignment_of(m: GossipView, n: nat) -> AssignmentView {
    AssignmentView {
        behaviour: m.behaviour,
        floor: m.floor,
        direction: m.direction,
        cab_requests: Seq::new(n, |f: int| has_cab(m.cab_orders, f)),
    }
}

/// The elevator states of `msgs`, added one after the other to an empty table.
pub open spec fn states_of(msgs: Seq<GossipView>, n: nat) -> Seq<(Seq<char>, AssignmentView)>
    decreases msgs.len(),
{
    if msgs.len() == 0 {
        Seq::empty()
    } else {
        let m = msgs.last();
        table_set(states_of(msgs.drop_last(), n), m.id, assignment_of(m, n))
    }
}

/// The cached peers other than ourselves.
pub open spec fn other_peers(cached: Seq<GossipView>, id: Seq<char>) -> Seq<GossipView>
    decreases cached.len(),
{
    if cached.len() == 0 {
        cached
    } else {
        let rest = other_peers(cached.drop_last(), id);
        if cached.last().id == id {
            rest
        } else {
            rest.push(cached.last())
        }
    }
}

impl RequestAssigner {
    /// A slave with nothing seen yet and no hall requests.
    pub fn new(id: String) -> (r: RequestAssigner)
        ensures
            r@.hall_requests == Seq::new(NUM_FLOORS as nat, |f: int| seq![false, false]),
            r@.states == Seq::<(Seq<char>, AssignmentView)>::empty(),
            r@.id == id@,
            r@.role == Roles::Slave,
            r@.last_published_assignments == Table::empty(),
            r@.last_seen == Seq::<(Seq<char>, u64)>::empty(),
            r@.cached_peers == Seq::<GossipView>::empty(),
            r@.peer_ttl_ms == MASTER_ELECTION_TIMEOUT_MS,
            assigner_wf(r@),
    {
        let r = RequestAssigner {
            message: Message { hall_requests: fresh_hall_requests(NUM_FLOORS as usize), states: Vec::new() },
            id,
            role: Roles::Slave,
            last_published_assignments: Vec::new(),
            last_seen: Vec::new(),
            cached_peers: Vec::new(),
            peer_ttl_ms: MASTER_ELECTION_TIMEOUT_MS,
        };
        assert(r@.states =~= Seq::<(Seq<char>, AssignmentView)>::empty());
        assert(r@.last_published_assignments =~= Table::empty());
        assert(r@.last_seen =~= Seq::<(Seq<char>, u64)>::empty());
        assert(r@.cached_peers =~= Seq::<GossipView>::empty());
        r
    }
}

/// A hall request matrix of `n` floors with nothing requested.
fn fresh_hall_requests(n: usize) -> (r: Vec<[bool; 2]>)
    ensures
        rows(r@) == Seq::new(n as nat, |f: int| seq![false, false]),
{
    let mut r: Vec<[bool; 2]> = Vec::new();
    let mut i: usize = 0;
    while i < n
        invariant
            i <= n,
            r@.len() == i,
            rows(r@) == Seq::new(i as nat, |f: int| seq![false, false]),
        decreases n - i,
    {
        let row = [false, false];
        assert(row@ =~= seq![false, false]);
        let ghost before = r@;
        r.push(row);
        assert(r@ == before.push(row));
        assert(rows(r@) =~= rows(before).push(row@));
        i = i + 1;
        assert(rows(r@) =~= Seq::new(i as nat, |f: int| seq![false, false]));
    }
    r
}


/// Hall flags of a list of messages with one more message.
proof fn lemma_hall_flag_push(msgs: Seq<GossipView>, m: GossipView, f: int, k: int)
    ensures
        hall_flag(msgs.push(m), f, k) == (hall_flag(msgs, f, k) || has_hall(m.hall_orders, f, k)),
{
    let n = msgs.push(m);
    if hall_flag(msgs, f, k) {
        let j = choose|j: int| 0 <= j < msgs.len() && #[trigger] has_hall(msgs[j].hall_orders, f, k);
        assert(n[j] == msgs[j]);
    }
    if has_hall(m.hall_orders, f, k) {
        assert(n[msgs.len() as int] == m);
    }
    if hall_flag(n, f, k) {
        let j = choose|j: int| 0 <= j < n.len() && #[trigger] has_hall(n[j].hall_orders, f, k);
        if j < msgs.len() {
            assert(n[j] == msgs[j]);
        }
    }
}

/// The position of the state entry for `id`, if any.
fn find_state(v: &Vec<StateEntry>, id: &String) -> (r: Option<usize>)
    ensures
        match r {
            Some(i) => i < v@.len() && states_table(v@)[i as int].0 == id@,
            None => !table_has(states_table(v@), id@),
        },
{
    let mut i: usize = 0;
    while i < v.len()
        invariant
            i <= v.len(),
            forall|j: int| 0 <= j < i ==> #[trigger] states_table(v@)[j].0 != id@,
        decreases v.len() - i,
    {
        if v[i].id == *id {
            return Some(i);
        }
        i = i + 1;
    }
    None
}

/// Sets the state for `id` (see `table_set`).
fn set_state(v: &mut Vec<StateEntry>, id: &String, st: AssignmentState)
    requires
        keys_unique(states_table(old(v)@)),
    ensures
        states_table(final(v)@) == table_set(states_table(old(v)@), id@, st.view()),
        keys_unique(states_table(final(v)@)),
{
    proof {
        crate::gossip::lemma_table_set(states_table(v@), id@, st.view());
    }
    let ghost before = states_table(v@);
    let ghost sv = st.view();
    match find_state(v, id) {
        Some(i) => {
            proof {
                crate::gossip::lemma_table_pos(before, i as int);
            }
            v.set(i, StateEntry { id: id.clone(), state: st });
            assert(states_table(v@) =~= before.update(i as int, (id@, sv)));
        },
        None => {
            v.push(StateEntry { id: id.clone(), state: st });
            assert(states_table(v@) =~= before.push((id@, sv)));
        },
    }
}

/// The cab request row of `peer` over `n` floors.
fn cab_request_row(peer: &GossipMsg, n: usize) -> (r: Vec<bool>)
    ensures
        r@ == Seq::new(n as nat, |f: int| has_cab(peer@.cab_orders, f)),
{
    let mut row: Vec<bool> = Vec::new();
    let mut i: usize = 0;
    while i < n
        invariant
            i <= n,
            row@ == Seq::new(i as nat, |f: int| false),
        decreases n - i,
    {
        row.push(false);
        i = i + 1;
        assert(row@ =~= Seq::new(i as nat, |f: int| false));
    }
    let cabs = &peer.cab_orders;
    let mut j: usize = 0;
    while j < cabs.len()
        invariant
            j <= cabs.len(),
            cabs@ == peer@.cab_orders,
            row@.len() == n,
            forall|f: int| 0 <= f < n ==> #[trigger] row@[f] == has_cab(cabs@.take(j as int), f),
        decreases cabs.len() - j,
    {
        let o = cabs[j];
        let ghost before = row@;
        if o.order_type == ButtonType::CabCall && (o.floor as usize) < n {
            row.set(o.floor as usize, true);
        }
        assert forall|f: int| 0 <= f < n implies #[trigger] row@[f] == has_cab(
            cabs@.take(j as int + 1),
            f,
        ) by {
            let t = cabs@.take(j as int + 1);
            assert(t[j as int] == o);
            if has_cab(cabs@.take(j as int), f) {
                let i = choose|i: int|
                    0 <= i < j && #[trigger] cabs@.take(j as int)[i].floor == f
                        && cabs@.take(j as int)[i].order_type == ButtonType::CabCall;
                assert(t[i] == cabs@.take(j as int)[i]);
            }
            if has_cab(t, f) {
                let i = choose|i: int|
                    0 <= i < t.len() && #[trigger] t[i].floor == f && t[i].order_type
                        == ButtonType::CabCall;
                if i < j {
                    assert(cabs@.take(j as int)[i] == t[i]);
                }
            }
        }
        j = j + 1;
    }
    assert(cabs@.take(cabs.len() as int) =~= cabs@);
    assert(row@ =~= Seq::new(n as nat, |f: int| has_cab(peer@.cab_orders, f)));
    row
}

/// A copy of a hall request matrix.
pub(crate) fn copy_rows(v: &Vec<[bool; 2]>) -> (r: Vec<[bool; 2]>)
    ensures
        r@ == v@,
{
    let mut r: Vec<[bool; 2]> = Vec::new();
    let mut i: usize = 0;
    while i < v.len()
        invariant
            i <= v.len(),
            r@ == v@.take(i as int),
        decreases v.len() - i,
    {
        r.push(v[i]);
        i = i + 1;
        assert(r@ =~= v@.take(i as int));
    }
    assert(v@.take(v.len() as int) =~= v@);
    r
}

/// Every row of the hall request matrix has two entries.
pub proof fn lemma_rows_len(v: Seq<[bool; 2]>)
    ensures
        forall|f: int| 0 <= f < v.len() ==> #[trigger] rows(v)[f].len() == 2,
{
    broadcast use vstd::array::array_len_matches_n;

    assert forall|f: int| 0 <= f < v.len() implies #[trigger] rows(v)[f].len() == 2 by {
        let a = v[f];
        assert(rows(v)[f] == a@);
        assert(a@.len() == 2);
    }
}

/// Which hall request entries a message turns on.
pub open spec fn with_hall(h: Seq<Seq<bool>>, s: Seq<Order>, n: int) -> Seq<Seq<bool>> {
    Seq::new(
        h.len(),
        |f: int| Seq::new(2, |k: int| h[f][k] || (f < n && has_hall(s, f, k))),
    )
}

impl RequestAssigner {
    /// Records `peer`'s state, over `num_floors` floors, for the cost function.
    pub fn add_elevator_state(&mut self, peer: &GossipMsg, num_floors: usize)
        requires
            keys_unique(old(self)@.states),
        ensures
            final(self)@ == (AssignerView {
                states: table_set(
                    old(self)@.states,
                    peer@.id,
                    assignment_of(peer@, num_floors as nat),
                ),
                ..old(self)@
            }),
            keys_unique(final(self)@.states),
    {
        let cab_requests = cab_request_row(peer, num_floors);
        let state = AssignmentState {
            behaviour: peer.behaviour,
            floor: peer.floor,
            direction: peer.direction,
            cab_requests,
        };
        assert(state.view() == assignment_of(peer@, num_floors as nat));
        set_state(&mut self.message.states, &peer.id, state);
    }

    /// Turns on the hall requests of `peer`'s hall orders below `num_floors`.
    pub fn add_hall_requests_from_peer(&mut self, peer: &GossipMsg, num_floors: usize)
        requires
            num_floors <= old(self)@.hall_requests.len(),
        ensures
            final(self)@ == (AssignerView {
                hall_requests: with_hall(
                    old(self)@.hall_requests,
                    peer@.hall_orders,
                    num_floors as int,
                ),
                ..old(self)@
            }),
    {
        let mut hr = copy_rows(&self.message.hall_requests);
        let ghost h0 = rows(hr@);
        proof {
            lemma_rows_len(hr@);
        }
        let hall = &peer.hall_orders;
        let mut j: usize = 0;
        while j < hall.len()
            invariant
                j <= hall.len(),
                hall@ == peer@.hall_orders,
                num_floors <= h0.len(),
                hr@.len() == h0.len(),
                forall|f: int| 0 <= f < h0.len() ==> #[trigger] h0[f].len() == 2,
                forall|f: int, k: int|
                    0 <= f < h0.len() && 0 <= k < 2 ==> #[trigger] rows(
                        hr@,
                    )[f][k] == (h0[f][k] || (f < num_floors && has_hall(hall@.take(j as int), f, k))),
            decreases hall.len() - j,
        {
            let o = hall[j];
            let floor = o.floor as usize;
            let ghost before = hr@;
            if floor < num_floors {
                let mut row = hr[floor];
                match o.order_type {
                    ButtonType::HallUp => {
                        row[0] = true;
                    },
                    ButtonType::HallDown => {
                        row[1] = true;
                    },
                    _ => {},
                }
                hr.set(floor, row);
            }
            assert forall|f: int, k: int| 0 <= f < h0.len() && 0 <= k < 2 implies #[trigger] rows(
                hr@,
            )[f][k] == (h0[f][k] || (f < num_floors && has_hall(hall@.take(j as int + 1), f, k))) by {
                let t = hall@.take(j as int + 1);
                assert(t[j as int] == o);
                if has_hall(hall@.take(j as int), f, k) {
                    let i = choose|i: int|
                        0 <= i < j && #[trigger] hall@.take(j as int)[i].floor == f
                            && hall@.take(j as int)[i].order_type == hall_button(k);
                    assert(t[i] == hall@.take(j as int)[i]);
                }
                if has_hall(t, f, k) {
                    let i = choose|i: int|
                        0 <= i < t.len() && #[trigger] t[i].floor == f && t[i].order_type
                            == hall_button(k);
                    if i < j {
                        assert(hall@.take(j as int)[i] == t[i]);
                    }
                }
                assert(rows(before)[f] == before[f]@);
            }
            j = j + 1;
        }
        assert(hall@.take(hall.len() as int) =~= hall@);
        proof {
            lemma_rows_len(hr@);
        }
        let ghost h1 = rows(hr@);
        let ghost w = with_hall(h0, peer@.hall_orders, num_floors as int);
        assert forall|f: int| 0 <= f < h0.len() implies #[trigger] h1[f] == w[f] by {
            assert(h1[f] =~= w[f]);
        }
        assert(h1 =~= w);
        self.message.hall_requests = hr;
    }
}


/// The hall request matrix of `msgs` over `n` floors.
pub open spec fn hall_matrix(msgs: Seq<GossipView>, n: nat) -> Seq<Seq<bool>> {
    Seq::new(n, |f: int| Seq::new(2, |k: int| hall_flag(msgs, f, k)))
}

/// Copies of the cached peers other than ourselves.
fn others(cached: &Vec<GossipMsg>, id: &String) -> (r: Vec<GossipMsg>)
    ensures
        views(r@) == other_peers(views(cached@), id@),
{
    let ghost c = views(cached@);
    let mut r: Vec<GossipMsg> = Vec::new();
    let mut i: usize = 0;
    while i < cached.len()
        invariant
            i <= cached.len(),
            c == views(cached@),
            views(r@) == other_peers(c.take(i as int), id@),
        decreases cached.len() - i,
    {
        assert(c.take(i as int + 1).drop_last() =~= c.take(i as int));
        assert(c.take(i as int + 1).last() == cached@[i as int]@);
        if cached[i].id != *id {
            let m = cached[i].duplicate();
            let ghost before = r@;
            r.push(m);
            assert(views(r@) =~= views(before).push(m@));
        }
        i = i + 1;
    }
    assert(c.take(cached.len() as int) =~= c);
    r
}

/// Adding a message's hall orders to a hall request matrix.
proof fn lemma_hall_matrix_push(msgs: Seq<GossipView>, m: GossipView, n: nat)
    ensures
        with_hall(hall_matrix(msgs, n), m.hall_orders, n as int) == hall_matrix(msgs.push(m), n),
{
    let a = with_hall(hall_matrix(msgs, n), m.hall_orders, n as int);
    let b = hall_matrix(msgs.push(m), n);
    assert forall|f: int| 0 <= f < n implies #[trigger] a[f] == b[f] by {
        assert forall|k: int| 0 <= k < 2 implies #[trigger] a[f][k] == b[f][k] by {
            lemma_hall_flag_push(msgs, m, f, k);
        }
        assert(a[f] =~= b[f]);
    }
    assert(a =~= b);
}

impl RequestAssigner {
    /// Builds the input of the cost function from our own state and every
    /// cached peer other than ourselves: their states, and the hall
    /// requests that any of them holds.
    pub fn build_cost_input(&mut self, own_state: &GossipMsg)
        ensures
            ({
                let msgs = seq![own_state@] + other_peers(old(self)@.cached_peers, old(self)@.id);
                final(self)@ == (AssignerView {
                    hall_requests: hall_matrix(msgs, NUM_FLOORS as nat),
                    states: states_of(msgs, NUM_FLOORS as nat),
                    ..old(self)@
                })
            }),
            keys_unique(final(self)@.states),
    {
        let num_floors = NUM_FLOORS as usize;
        let ghost n = NUM_FLOORS as nat;
        let gossip = others(&self.cached_peers, &self.id);
        let ghost msgs = seq![own_state@] + views(gossip@);
        self.message.states = Vec::new();
        self.message.hall_requests = fresh_hall_requests(num_floors);
        assert(states_table(self.message.states@) =~= Seq::<(Seq<char>, AssignmentView)>::empty());
        self.add_elevator_state(own_state, num_floors);
        self.add_hall_requests_from_peer(own_state, num_floors);
        proof {
            let e = Seq::<GossipView>::empty();
            lemma_hall_matrix_push(e, own_state@, n);
            assert(hall_matrix(e, n) =~= Seq::new(n, |f: int| seq![false, false])) by {
                assert forall|f: int| 0 <= f < n implies #[trigger] hall_matrix(e, n)[f] =~= seq![
                    false,
                    false,
                ] by {}
            }
            assert(e.push(own_state@) =~= msgs.take(1));
            assert(msgs.take(1).drop_last() =~= e);
            assert(states_of(e, n) =~= Seq::<(Seq<char>, AssignmentView)>::empty());
        }
        let mut i: usize = 0;
        while i < gossip.len()
            invariant
                i <= gossip.len(),
                num_floors == NUM_FLOORS as usize,
                msgs == seq![own_state@] + views(gossip@),
                keys_unique(self@.states),
                self@ == (AssignerView {
                    hall_requests: hall_matrix(msgs.take(i as int + 1), NUM_FLOORS as nat),
                    states: states_of(msgs.take(i as int + 1), NUM_FLOORS as nat),
                    ..old(self)@
                }),
            decreases gossip.len() - i,
        {
            let ghost prev = msgs.take(i as int + 1);
            assert(msgs.take(i as int + 2) =~= prev.push(gossip@[i as int]@));
            assert(msgs.take(i as int + 2).drop_last() =~= prev);
            assert(msgs.take(i as int + 2).last() == gossip@[i as int]@);
            proof {
                lemma_hall_matrix_push(prev, gossip@[i as int]@, NUM_FLOORS as nat);
            }
            self.add_elevator_state(&gossip[i], num_floors);
            self.add_hall_requests_from_peer(&gossip[i], num_floors);
            i = i + 1;
        }
        assert(msgs.take(gossip.len() as int + 1) =~= msgs);
    }
}

} // verus!
