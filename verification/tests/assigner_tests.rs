use elevatorlab::assigner::RequestAssigner;
use elevatorlab::gossip::{GossipMsg, PeerOrders};
use elevatorlab::master::{assignments_from_raw, orders_from_flags};
use elevatorlab::network::Network;
use elevatorlab::types::{Behaviour, ButtonType, Direction, Order, Roles, NUM_FLOORS};

fn order(floor: u8, order_type: ButtonType) -> Order {
    Order { floor, order_type }
}

fn msg(id: &str, counter: i32) -> GossipMsg {
    GossipMsg {
        id: id.to_string(),
        hall_orders: vec![],
        cab_orders: vec![],
        floor: 0,
        direction: Direction::Stop,
        behaviour: Behaviour::Idle,
        counter,
        role: Roles::Slave,
        assignments: vec![],
        peer_cab_orders: vec![],
        cleared_order: None,
    }
}

fn entry(id: &str, orders: Vec<Order>) -> PeerOrders {
    PeerOrders { id: id.to_string(), orders }
}

fn lookup<'a>(t: &'a [PeerOrders], id: &str) -> Option<&'a Vec<Order>> {
    t.iter().find(|e| e.id == id).map(|e| &e.orders)
}

#[test]
fn new_assigner_is_slave_without_requests() {
    let a = RequestAssigner::new("10.0.0.1".to_string());
    assert_eq!(a.role, Roles::Slave);
    assert_eq!(a.message.hall_requests, vec![[false, false]; NUM_FLOORS as usize]);
    assert!(a.message.states.is_empty());
    assert_eq!(a.peer_ttl_ms, 500);
}

#[test]
fn add_elevator_state_records_cab_requests() {
    let mut a = RequestAssigner::new("a".to_string());
    let mut p = msg("b", 0);
    p.floor = 2;
    p.direction = Direction::Up;
    p.behaviour = Behaviour::Moving;
    p.cab_orders = vec![order(3, ButtonType::CabCall), order(9, ButtonType::CabCall), order(1, ButtonType::HallUp)];
    a.add_elevator_state(&p, 4);
    assert_eq!(a.message.states.len(), 1);
    let s = &a.message.states[0];
    assert_eq!(s.id, "b");
    assert_eq!(s.state.floor, 2);
    assert_eq!(s.state.direction, Direction::Up);
    assert_eq!(s.state.behaviour, Behaviour::Moving);
    assert_eq!(s.state.cab_requests, vec![false, false, false, true]);
    p.floor = 3;
    a.add_elevator_state(&p, 4);
    assert_eq!(a.message.states.len(), 1);
    assert_eq!(a.message.states[0].state.floor, 3);
}

#[test]
fn add_hall_requests_sets_columns() {
    let mut a = RequestAssigner::new("a".to_string());
    let mut p = msg("b", 0);
    p.hall_orders = vec![order(0, ButtonType::HallUp), order(2, ButtonType::HallDown), order(7, ButtonType::HallUp), order(1, ButtonType::CabCall)];
    a.add_hall_requests_from_peer(&p, 4);
    assert_eq!(a.message.hall_requests, vec![[true, false], [false, false], [false, true], [false, false]]);
}

#[test]
fn build_cost_input_uses_own_state_and_other_peers() {
    let mut a = RequestAssigner::new("a".to_string());
    let mut own = msg("a", 0);
    own.hall_orders = vec![order(1, ButtonType::HallUp)];
    let mut b = msg("b", 0);
    b.hall_orders = vec![order(3, ButtonType::HallDown)];
    let mut stale_self = msg("a", 0);
    stale_self.hall_orders = vec![order(2, ButtonType::HallUp)];
    a.cached_peers = vec![b, stale_self];
    a.message.hall_requests = vec![[true, true]; 4];
    a.build_cost_input(&own);
    assert_eq!(a.message.hall_requests, vec![[false, false], [true, false], [false, false], [false, true]]);
    let ids: Vec<&str> = a.message.states.iter().map(|s| s.id.as_str()).collect();
    assert_eq!(ids, vec!["a", "b"]);
}

#[test]
fn elect_master_picks_lowest_address_not_lowest_string() {
    let mut a = RequestAssigner::new("10.0.0.10".to_string());
    let mut n = Network::new("10.0.0.10".to_string());
    a.elect_master(&[msg("10.0.0.2", 0)], &mut n, 1000);
    assert_eq!(a.role, Roles::Slave);
    assert_eq!(n.state.role, Roles::Slave);
    assert_eq!(n.state.counter, 0);

    let mut b = RequestAssigner::new("10.0.0.2".to_string());
    let mut m = Network::new("10.0.0.2".to_string());
    b.elect_master(&[msg("10.0.0.10", 0)], &mut m, 1000);
    assert_eq!(b.role, Roles::Master);
    assert_eq!(m.state.role, Roles::Master);
    assert_eq!(m.state.counter, 1);
}

#[test]
fn elect_master_ranks_non_addresses_last() {
    let mut a = RequestAssigner::new("not-an-ip".to_string());
    let mut n = Network::new("not-an-ip".to_string());
    a.elect_master(&[msg("192.168.1.1", 0)], &mut n, 0);
    assert_eq!(a.role, Roles::Slave);
}

#[test]
fn elect_master_forgets_timed_out_peers() {
    let mut a = RequestAssigner::new("10.0.0.5".to_string());
    let mut n = Network::new("10.0.0.5".to_string());
    a.elect_master(&[msg("10.0.0.1", 0)], &mut n, 1000);
    assert_eq!(a.role, Roles::Slave);
    a.last_published_assignments = vec![entry("10.0.0.1", vec![order(2, ButtonType::HallUp)]), entry("10.0.0.5", vec![])];
    a.elect_master(&[], &mut n, 1500);
    assert_eq!(a.role, Roles::Slave);
    assert_eq!(a.cached_peers.len(), 1);
    a.elect_master(&[], &mut n, 1501);
    assert_eq!(a.role, Roles::Master);
    assert_eq!(n.state.role, Roles::Master);
    assert!(a.cached_peers.is_empty());
    assert_eq!(a.last_seen.len(), 1);
    assert_eq!(a.last_published_assignments.len(), 1);
    assert_eq!(a.last_published_assignments[0].id, "10.0.0.5");
}

#[test]
fn master_masks_assigned_requests() {
    let mut a = RequestAssigner::new("a".to_string());
    let mut n = Network::new("a".to_string());
    n.state.hall_orders = vec![order(1, ButtonType::HallUp), order(2, ButtonType::HallDown)];
    a.last_published_assignments = vec![entry("a", vec![order(1, ButtonType::HallUp)])];
    assert!(a.master(&[], &mut n));
    assert_eq!(a.message.hall_requests, vec![[false, false], [false, false], [false, true], [false, false]]);
    n.state.hall_orders = vec![order(1, ButtonType::HallUp)];
    assert!(!a.master(&[], &mut n));
}

#[test]
fn master_strips_cleared_orders() {
    let mut a = RequestAssigner::new("a".to_string());
    let mut n = Network::new("a".to_string());
    n.state.assignments = vec![entry("b", vec![order(3, ButtonType::HallDown), order(0, ButtonType::HallUp)])];
    a.last_published_assignments = vec![entry("b", vec![order(3, ButtonType::HallDown)])];
    let mut p = msg("b", 1);
    p.cleared_order = Some(order(3, ButtonType::HallDown));
    let mut cached = msg("b", 1);
    cached.hall_orders = vec![order(3, ButtonType::HallDown)];
    a.cached_peers = vec![cached];
    a.master(&[p], &mut n);
    assert_eq!(n.state.assignments[0].orders, vec![order(0, ButtonType::HallUp)]);
    assert!(a.last_published_assignments[0].orders.is_empty());
    assert!(a.cached_peers[0].hall_orders.is_empty());
}

#[test]
fn publish_assignments_merges_and_builds_queue() {
    let mut a = RequestAssigner::new("a".to_string());
    let mut n = Network::new("a".to_string());
    n.state.cab_orders = vec![order(0, ButtonType::CabCall)];
    a.last_published_assignments = vec![entry("a", vec![order(1, ButtonType::HallUp)])];
    let new = vec![entry("a", vec![order(2, ButtonType::HallDown), order(1, ButtonType::HallUp)]), entry("b", vec![order(3, ButtonType::HallDown)])];
    let queue = a.publish_assignments(&new, &mut n);
    assert_eq!(queue, vec![order(1, ButtonType::HallUp), order(2, ButtonType::HallDown), order(0, ButtonType::CabCall)]);
    assert_eq!(n.state.counter, 1);
    assert_eq!(lookup(&n.state.assignments, "b"), Some(&vec![order(3, ButtonType::HallDown)]));
    let again = a.publish_assignments(&new, &mut n);
    assert_eq!(again, queue);
    assert_eq!(n.state.counter, 1);
}

#[test]
fn assign_hall_orders_parses_cost_function_output() {
    let out = br#"{"b": [[false, false, false], [false, true, false]], "a": [[true, false, true], [false, false, false]]}"#;
    let r = RequestAssigner::assign_hall_orders(true, out).expect("valid output");
    assert_eq!(r.len(), 2);
    assert_eq!(lookup(&r, "a"), Some(&vec![order(0, ButtonType::HallUp), order(0, ButtonType::CabCall)]));
    assert_eq!(lookup(&r, "b"), Some(&vec![order(1, ButtonType::HallDown)]));
}

#[test]
fn assign_hall_orders_failure_and_garbage() {
    assert_eq!(RequestAssigner::assign_hall_orders(false, b"whatever").map(|v| v.len()), Some(0));
    assert!(RequestAssigner::assign_hall_orders(true, b"not json").is_none());
}

#[test]
fn flags_become_orders_floor_by_floor() {
    let flags = vec![vec![true, true, true], vec![], vec![false, false, true, true]];
    assert_eq!(
        orders_from_flags(&flags),
        vec![order(0, ButtonType::HallUp), order(0, ButtonType::HallDown), order(0, ButtonType::CabCall), order(2, ButtonType::CabCall)]
    );
    let raw = vec![("x".to_string(), vec![vec![false, true]])];
    let t = assignments_from_raw(&raw);
    assert_eq!(t[0].id, "x");
    assert_eq!(t[0].orders, vec![order(0, ButtonType::HallDown)]);
}

#[test]
fn slave_follows_first_master_minus_cleared() {
    let a = RequestAssigner::new("a".to_string());
    let mut n = Network::new("a".to_string());
    n.state.cab_orders = vec![order(2, ButtonType::CabCall), order(1, ButtonType::CabCall)];
    let mut m = msg("m", 0);
    m.role = Roles::Master;
    m.hall_orders = vec![order(3, ButtonType::HallDown), order(0, ButtonType::HallUp)];
    m.assignments = vec![entry("a", vec![order(3, ButtonType::HallDown), order(0, ButtonType::HallUp)])];
    let mut other = msg("o", 0);
    other.cleared_order = Some(order(0, ButtonType::HallUp));
    let mut second_master = msg("z", 0);
    second_master.role = Roles::Master;
    let plan = a.slave(&[other, m, second_master], &n);
    assert_eq!(plan.queue, vec![order(3, ButtonType::HallDown), order(2, ButtonType::CabCall), order(1, ButtonType::CabCall)]);
    let (hall, cab) = plan.lights.expect("lights");
    assert_eq!(hall, vec![order(3, ButtonType::HallDown)]);
    assert_eq!(cab, vec![order(2, ButtonType::CabCall), order(1, ButtonType::CabCall)]);
}

#[test]
fn slave_without_master_serves_own_cabs() {
    let a = RequestAssigner::new("a".to_string());
    let mut n = Network::new("a".to_string());
    n.state.cab_orders = vec![order(2, ButtonType::CabCall)];
    let plan = a.slave(&[msg("b", 0)], &n);
    assert_eq!(plan.queue, vec![order(2, ButtonType::CabCall)]);
    assert!(plan.lights.is_none());
}

#[test]
fn clear_completed_orders_respects_ownership() {
    let mut a = RequestAssigner::new("a".to_string());
    let mut n = Network::new("a".to_string());
    n.state.hall_orders = vec![order(1, ButtonType::HallUp), order(2, ButtonType::HallUp)];
    n.state.cab_orders = vec![order(1, ButtonType::CabCall), order(3, ButtonType::CabCall)];
    n.state.peer_cab_orders = vec![entry("b", vec![order(3, ButtonType::CabCall)])];
    let mut cached = msg("b", 0);
    cached.hall_orders = vec![order(1, ButtonType::HallUp)];
    a.cached_peers = vec![cached];
    let mut b = msg("b", 1);
    b.cleared_order = Some(order(3, ButtonType::CabCall));
    let mut c = msg("c", 1);
    c.cleared_order = Some(order(1, ButtonType::HallUp));
    let mut me = msg("a", 1);
    me.cleared_order = Some(order(1, ButtonType::CabCall));
    a.clear_completed_orders_from_gossip(&[b, c, me], &mut n);
    assert_eq!(n.state.hall_orders, vec![order(2, ButtonType::HallUp)]);
    assert_eq!(n.state.cab_orders, vec![order(3, ButtonType::CabCall)]);
    assert!(n.state.peer_cab_orders[0].orders.is_empty());
    assert!(a.cached_peers[0].hall_orders.is_empty());
}

#[test]
fn recover_cab_orders_restores_own_orders_once() {
    let a = RequestAssigner::new("a".to_string());
    let mut n = Network::new("a".to_string());
    n.state.cab_orders = vec![order(1, ButtonType::CabCall)];
    let mut p = msg("b", 0);
    p.peer_cab_orders = vec![entry("a", vec![order(1, ButtonType::CabCall), order(3, ButtonType::CabCall)]), entry("b", vec![order(0, ButtonType::CabCall)])];
    let mut q = msg("c", 0);
    q.peer_cab_orders = vec![entry("a", vec![order(3, ButtonType::CabCall), order(2, ButtonType::CabCall)])];
    a.recover_cab_orders_from_gossip(&[p, q], &mut n);
    assert_eq!(n.state.cab_orders, vec![order(1, ButtonType::CabCall), order(3, ButtonType::CabCall), order(2, ButtonType::CabCall)]);
    assert_eq!(n.state.counter, 2);
}

#[test]
fn try_elect_master_refuses_without_counter_room() {
    let mut a = RequestAssigner::new("10.0.0.1".to_string());
    let mut n = Network::new("10.0.0.1".to_string());
    n.state.counter = i32::MAX;
    assert!(!a.try_elect_master(&[], &mut n, 10));
    assert_eq!(a.role, Roles::Slave);
    assert!(a.last_seen.is_empty());
    n.state.counter = 0;
    assert!(a.try_elect_master(&[], &mut n, 10));
    assert_eq!(a.role, Roles::Master);
    assert_eq!(n.state.counter, 1);
}
