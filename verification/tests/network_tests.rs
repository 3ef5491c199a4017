use elevatorlab::gossip::{GossipMsg, PeerOrders};
use elevatorlab::network::{keep_latest, Network};
use elevatorlab::testfunctions::collect_gossip;
use elevatorlab::types::{Behaviour, ButtonType, Direction, Order, Roles};

fn order(floor: u8, order_type: ButtonType) -> Order {
    Order { floor, order_type }
}

fn msg(id: &str, counter: i32) -> GossipMsg {
    GossipMsg {
        id: id.to_string(),
        hall_orders: vec![],
        cab_orders: vec![],
        floor: 0,
        direction: Direction::Stop,
        behaviour: Behaviour::Idle,
        counter,
        role: Roles::Slave,
        assignments: vec![],
        peer_cab_orders: vec![],
        cleared_order: None,
    }
}

fn entry(id: &str, orders: Vec<Order>) -> PeerOrders {
    PeerOrders { id: id.to_string(), orders }
}

fn lookup<'a>(t: &'a [PeerOrders], id: &str) -> Option<&'a Vec<Order>> {
    t.iter().find(|e| e.id == id).map(|e| &e.orders)
}

#[test]
fn new_network_starts_empty() {
    let n = Network::new("10.0.0.1".to_string());
    assert_eq!(n.id(), "10.0.0.1");
    assert!(n.state.hall_orders.is_empty() && n.state.cab_orders.is_empty());
    assert_eq!(n.state.counter, 0);
    assert_eq!(n.state.role, Roles::Slave);
    assert_eq!(n.cleared_at, None);
}

#[test]
fn add_order_dedups_and_bumps_counter() {
    let mut n = Network::new("a".to_string());
    n.add_order(order(1, ButtonType::HallUp));
    n.add_order(order(2, ButtonType::CabCall));
    n.add_order(order(1, ButtonType::HallUp));
    assert_eq!(n.state.hall_orders, vec![order(1, ButtonType::HallUp)]);
    assert_eq!(n.state.cab_orders, vec![order(2, ButtonType::CabCall)]);
    assert_eq!(n.state.counter, 2);
}

#[test]
fn add_twice_equals_add_once() {
    let mut once = Network::new("a".to_string());
    once.add_order(order(3, ButtonType::HallDown));
    let mut twice = Network::new("a".to_string());
    twice.add_order(order(3, ButtonType::HallDown));
    twice.add_order(order(3, ButtonType::HallDown));
    assert_eq!(once.state.hall_orders, twice.state.hall_orders);
    assert_eq!(once.state.counter, twice.state.counter);
}

#[test]
fn order_completed_removes_everywhere_and_advertises() {
    let mut n = Network::new("a".to_string());
    n.add_order(order(2, ButtonType::CabCall));
    n.add_order(order(1, ButtonType::HallUp));
    n.state.peer_cab_orders = vec![entry("b", vec![order(2, ButtonType::CabCall), order(0, ButtonType::CabCall)])];
    n.order_completed(order(2, ButtonType::CabCall), 5000);
    assert!(n.state.cab_orders.is_empty());
    assert_eq!(n.state.hall_orders, vec![order(1, ButtonType::HallUp)]);
    assert_eq!(n.state.peer_cab_orders[0].orders, vec![order(0, ButtonType::CabCall)]);
    assert_eq!(n.state.cleared_order, Some(order(2, ButtonType::CabCall)));
    assert_eq!(n.state.counter, 3);
    assert_eq!(n.cleared_at, Some(6000));
}

#[test]
fn complete_undoes_add() {
    let mut n = Network::new("a".to_string());
    n.add_order(order(0, ButtonType::HallUp));
    let before = n.state.hall_orders.clone();
    n.add_order(order(3, ButtonType::HallDown));
    n.order_completed(order(3, ButtonType::HallDown), 0);
    assert_eq!(n.state.hall_orders, before);
}

#[test]
fn tick_cleared_order_expires_after_window() {
    let mut n = Network::new("a".to_string());
    n.order_completed(order(1, ButtonType::CabCall), 100);
    n.tick_cleared_order(1099);
    assert_eq!(n.state.cleared_order, Some(order(1, ButtonType::CabCall)));
    assert_eq!(n.state.counter, 1);
    n.tick_cleared_order(1100);
    assert_eq!(n.state.cleared_order, None);
    assert_eq!(n.state.counter, 2);
    assert_eq!(n.cleared_at, None);
    n.tick_cleared_order(5000);
    assert_eq!(n.state.counter, 2);
}

#[test]
fn update_state_copies_car_state() {
    let mut n = Network::new("a".to_string());
    n.update_state((3, Direction::Down, Behaviour::Moving));
    assert_eq!(n.state.floor, 3);
    assert_eq!(n.state.direction, Direction::Down);
    assert_eq!(n.state.behaviour, Behaviour::Moving);
}

#[test]
fn collect_cleared_orders_lists_each_once() {
    let mut n = Network::new("a".to_string());
    n.state.cleared_order = Some(order(1, ButtonType::HallUp));
    let mut p = msg("b", 0);
    p.cleared_order = Some(order(1, ButtonType::HallUp));
    let mut q = msg("c", 0);
    q.cleared_order = Some(order(2, ButtonType::CabCall));
    let r = n.collect_cleared_orders(&[p, msg("d", 0), q]);
    assert_eq!(r, vec![order(1, ButtonType::HallUp), order(2, ButtonType::CabCall)]);
}

#[test]
fn merge_gossip_orders_adds_uncleared_hall_orders_and_cab_tables() {
    let mut n = Network::new("a".to_string());
    n.add_order(order(0, ButtonType::HallUp));
    n.add_order(order(2, ButtonType::CabCall));
    n.state.peer_cab_orders = vec![entry("c", vec![order(1, ButtonType::CabCall)])];
    let mut p = msg("b", 4);
    p.hall_orders = vec![order(0, ButtonType::HallUp), order(3, ButtonType::HallDown), order(2, ButtonType::HallUp)];
    p.cleared_order = Some(order(2, ButtonType::HallUp));
    p.peer_cab_orders = vec![
        entry("a", vec![order(3, ButtonType::CabCall)]),
        entry("c", vec![order(0, ButtonType::CabCall), order(1, ButtonType::CabCall)]),
        entry("b", vec![order(2, ButtonType::CabCall)]),
    ];
    n.merge_gossip_orders(&[p]);
    assert_eq!(n.state.hall_orders, vec![order(0, ButtonType::HallUp), order(3, ButtonType::HallDown)]);
    assert_eq!(lookup(&n.state.peer_cab_orders, "a"), Some(&vec![order(2, ButtonType::CabCall)]));
    assert_eq!(
        lookup(&n.state.peer_cab_orders, "c"),
        Some(&vec![order(1, ButtonType::CabCall), order(0, ButtonType::CabCall)])
    );
    assert_eq!(lookup(&n.state.peer_cab_orders, "b"), Some(&vec![order(2, ButtonType::CabCall)]));
    assert_eq!(n.state.peer_cab_orders.len(), 3);
}

#[test]
fn merge_gossip_orders_skips_cleared_cab_orders() {
    let mut n = Network::new("a".to_string());
    n.state.cleared_order = Some(order(0, ButtonType::CabCall));
    let mut p = msg("b", 1);
    p.cleared_order = Some(order(2, ButtonType::CabCall));
    p.peer_cab_orders = vec![entry("x", vec![order(2, ButtonType::CabCall)])];
    let mut q = msg("c", 1);
    q.peer_cab_orders = vec![entry(
        "y",
        vec![order(0, ButtonType::CabCall), order(3, ButtonType::CabCall), order(2, ButtonType::CabCall)],
    )];
    n.merge_gossip_orders(&[p, q]);
    assert_eq!(lookup(&n.state.peer_cab_orders, "x"), Some(&vec![]));
    assert_eq!(lookup(&n.state.peer_cab_orders, "y"), Some(&vec![order(3, ButtonType::CabCall)]));
}

#[test]
fn collect_gossip_keeps_highest_counter_and_skips_self() {
    let n = Network::new("a".to_string());
    let mut collected = vec![];
    n.collect_gossip(&mut collected, msg("b", 3));
    n.collect_gossip(&mut collected, msg("a", 9));
    n.collect_gossip(&mut collected, msg("b", 2));
    n.collect_gossip(&mut collected, msg("c", 1));
    n.collect_gossip(&mut collected, msg("b", 5));
    let ids: Vec<(String, i32)> = collected.iter().map(|m| (m.id.clone(), m.counter)).collect();
    assert_eq!(ids, vec![("b".to_string(), 5), ("c".to_string(), 1)]);
}

#[test]
fn keep_latest_replaces_only_newer() {
    let mut v = vec![msg("x", 2)];
    keep_latest(&mut v, msg("x", 2));
    assert_eq!(v[0].counter, 2);
    keep_latest(&mut v, msg("x", 3));
    assert_eq!(v[0].counter, 3);
    assert_eq!(v.len(), 1);
}

#[test]
fn testfunctions_collect_gossip_merges_lists() {
    let r = collect_gossip(vec![msg("a", 1), msg("b", 5)], vec![msg("b", 4), msg("c", 0), msg("a", 2)]);
    let ids: Vec<(String, i32)> = r.iter().map(|m| (m.id.clone(), m.counter)).collect();
    assert_eq!(ids, vec![("a".to_string(), 2), ("b".to_string(), 5), ("c".to_string(), 0)]);
}

#[test]
fn duplicate_copies_message() {
    let mut m = msg("z", 7);
    m.hall_orders = vec![order(1, ButtonType::HallUp)];
    m.assignments = vec![entry("z", vec![order(1, ButtonType::HallUp)])];
    let d = m.duplicate();
    assert_eq!(d.id, "z");
    assert_eq!(d.hall_orders, m.hall_orders);
    assert_eq!(d.assignments[0].orders, m.assignments[0].orders);
}
