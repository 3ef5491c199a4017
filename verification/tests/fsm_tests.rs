use elevatorlab::fsm::{DoorStep, ElevatorFSM, ElevatorGuard, FsmStep, StartupStep};
use elevatorlab::types::{Behaviour, ButtonType, Direction, Order, OrderResult, NUM_FLOORS};

fn order(floor: u8, order_type: ButtonType) -> Order {
    Order { floor, order_type }
}

fn guard(floor: u8, direction: Direction, queue: Vec<Order>) -> ElevatorGuard {
    let mut g = ElevatorGuard::new(floor);
    g.state.direction = direction;
    g.queue = queue;
    g
}

#[test]
fn new_guard_is_idle_at_floor() {
    let g = ElevatorGuard::new(2);
    assert_eq!(
        g.state,
        ElevatorFSM { floor: 2, direction: Direction::Stop, behaviour: Behaviour::Idle, serving: None }
    );
    assert!(g.queue.is_empty());
    assert_eq!(g.get_state(), (2, Direction::Stop, Behaviour::Idle));
}

#[test]
fn next_target_up_prefers_nearest_ahead() {
    let q = vec![order(3, ButtonType::CabCall), order(2, ButtonType::HallUp), order(0, ButtonType::CabCall)];
    assert_eq!(ElevatorGuard::next_target(&q, 1, Direction::Up), 2);
}

#[test]
fn next_target_up_skips_hall_down_ahead() {
    let q = vec![order(2, ButtonType::HallDown), order(3, ButtonType::HallUp)];
    assert_eq!(ElevatorGuard::next_target(&q, 1, Direction::Up), 3);
}

#[test]
fn next_target_up_with_nothing_ahead_goes_highest() {
    let q = vec![order(0, ButtonType::CabCall), order(1, ButtonType::HallDown)];
    assert_eq!(ElevatorGuard::next_target(&q, 2, Direction::Up), 1);
}

#[test]
fn next_target_down_prefers_nearest_below() {
    let q = vec![order(0, ButtonType::CabCall), order(1, ButtonType::HallDown), order(3, ButtonType::CabCall)];
    assert_eq!(ElevatorGuard::next_target(&q, 2, Direction::Down), 1);
}

#[test]
fn next_target_down_with_nothing_below_goes_lowest() {
    let q = vec![order(3, ButtonType::CabCall), order(2, ButtonType::HallUp)];
    assert_eq!(ElevatorGuard::next_target(&q, 1, Direction::Down), 2);
}

#[test]
fn next_target_stop_picks_first_closest() {
    let q = vec![order(3, ButtonType::CabCall), order(1, ButtonType::CabCall), order(3, ButtonType::HallUp)];
    assert_eq!(ElevatorGuard::next_target(&q, 2, Direction::Stop), 3);
    let q2 = vec![order(0, ButtonType::CabCall), order(2, ButtonType::CabCall)];
    assert_eq!(ElevatorGuard::next_target(&q2, 1, Direction::Stop), 0);
}

#[test]
fn next_target_empty_queue_is_current_floor() {
    assert_eq!(ElevatorGuard::next_target(&vec![], 2, Direction::Up), 2);
    assert_eq!(ElevatorGuard::next_target(&vec![], 3, Direction::Stop), 3);
}

#[test]
fn read_floor_keeps_floor_between_floors() {
    let mut g = ElevatorGuard::new(1);
    g.read_floor(None);
    assert_eq!(g.state.floor, 1);
    g.read_floor(Some(3));
    assert_eq!(g.state.floor, 3);
}

#[test]
fn stop_clears_motion() {
    let mut g = guard(1, Direction::Up, vec![]);
    g.state.behaviour = Behaviour::Moving;
    g.state.serving = Some(order(3, ButtonType::CabCall));
    g.stop();
    assert_eq!(g.state.direction, Direction::Stop);
    assert_eq!(g.state.behaviour, Behaviour::Idle);
    assert_eq!(g.state.serving, None);
}

#[test]
fn move_toward_remembers_first_order_at_target() {
    let mut g = guard(0, Direction::Stop, vec![order(1, ButtonType::CabCall), order(2, ButtonType::HallDown), order(2, ButtonType::CabCall)]);
    g.move_toward(2);
    assert_eq!(g.state.direction, Direction::Up);
    assert_eq!(g.state.behaviour, Behaviour::Moving);
    assert_eq!(g.state.serving, Some(order(2, ButtonType::HallDown)));
    g.move_toward(0);
    assert_eq!(g.state.direction, Direction::Down);
    assert_eq!(g.state.serving, None);
}

#[test]
fn serve_order_takes_compatible_order_and_keeps_direction_with_orders_beyond() {
    let mut g = guard(1, Direction::Up, vec![order(1, ButtonType::HallDown), order(1, ButtonType::HallUp), order(3, ButtonType::CabCall)]);
    let served = g.serve_order();
    assert_eq!(served, Some(order(1, ButtonType::HallUp)));
    assert_eq!(g.queue, vec![order(1, ButtonType::HallDown), order(3, ButtonType::CabCall)]);
    assert_eq!(g.state.direction, Direction::Up);
}

#[test]
fn serve_order_stops_without_orders_beyond() {
    let mut g = guard(2, Direction::Down, vec![order(2, ButtonType::CabCall), order(3, ButtonType::CabCall)]);
    assert_eq!(g.serve_order(), Some(order(2, ButtonType::CabCall)));
    assert_eq!(g.state.direction, Direction::Stop);
    assert_eq!(g.queue, vec![order(3, ButtonType::CabCall)]);
}

#[test]
fn serve_order_none_leaves_everything() {
    let mut g = guard(2, Direction::Up, vec![order(2, ButtonType::HallDown)]);
    assert_eq!(g.serve_order(), None);
    assert_eq!(g.queue, vec![order(2, ButtonType::HallDown)]);
    assert_eq!(g.state.direction, Direction::Up);
}

#[test]
fn process_empty_queue_finishes_empty() {
    let mut g = guard(2, Direction::Up, vec![]);
    g.state.behaviour = Behaviour::Moving;
    assert_eq!(g.process_next_order(Some(3), 0), FsmStep::Finished(OrderResult::Empty));
    assert_eq!(g.state.floor, 3);
    assert_eq!(g.state.direction, Direction::Stop);
    assert_eq!(g.state.behaviour, Behaviour::Idle);
}

#[test]
fn process_times_out() {
    let mut g = guard(0, Direction::Up, vec![order(3, ButtonType::CabCall)]);
    assert_eq!(g.process_next_order(None, 9001), FsmStep::Finished(OrderResult::Failed));
    assert_eq!(g.state.direction, Direction::Stop);
    assert_eq!(g.queue.len(), 1);
}

#[test]
fn process_at_limit_does_not_time_out() {
    let mut g = guard(0, Direction::Stop, vec![order(3, ButtonType::CabCall)]);
    assert_eq!(g.process_next_order(None, 9000), FsmStep::Moving(Direction::Up));
    assert_eq!(g.state.serving, Some(order(3, ButtonType::CabCall)));
}

#[test]
fn process_serves_at_target() {
    let mut g = guard(1, Direction::Up, vec![order(2, ButtonType::CabCall)]);
    assert_eq!(g.process_next_order(Some(2), 10), FsmStep::Serving(order(2, ButtonType::CabCall)));
    assert!(g.queue.is_empty());
    assert_eq!(g.state.direction, Direction::Stop);
}

#[test]
fn process_holds_when_nothing_servable() {
    let mut g = guard(2, Direction::Up, vec![order(2, ButtonType::HallDown)]);
    assert_eq!(g.process_next_order(None, 10), FsmStep::Holding);
    assert_eq!(g.state.direction, Direction::Stop);
    assert_eq!(g.queue.len(), 1);
    assert_eq!(g.process_next_order(None, 20), FsmStep::Serving(order(2, ButtonType::HallDown)));
}

#[test]
fn door_closes_when_clear_and_times_out_when_obstructed() {
    let mut g = ElevatorGuard::new(1);
    g.open_door();
    assert_eq!(g.state.behaviour, Behaviour::DoorOpen);
    assert_eq!(g.door_step(true, 100), DoorStep::Waiting);
    assert_eq!(g.state.behaviour, Behaviour::DoorOpen);
    assert_eq!(g.door_step(true, 3001), DoorStep::TimedOut);
    assert_eq!(g.door_step(false, 5000), DoorStep::Closed);
    assert_eq!(g.state.behaviour, Behaviour::Idle);
}

#[test]
fn set_queue_keeps_order_in_progress_first() {
    let mut g = ElevatorGuard::new(0);
    g.state.serving = Some(order(3, ButtonType::HallDown));
    g.set_queue(&[order(1, ButtonType::CabCall)]);
    assert_eq!(g.queue, vec![order(3, ButtonType::HallDown), order(1, ButtonType::CabCall)]);
    g.set_queue(&[order(1, ButtonType::CabCall), order(3, ButtonType::HallDown)]);
    assert_eq!(g.queue, vec![order(1, ButtonType::CabCall), order(3, ButtonType::HallDown)]);
    g.state.serving = None;
    g.set_queue(&[]);
    assert!(g.queue.is_empty());
}

#[test]
fn poll_buttons_ignores_cab_of_floor_being_passed() {
    let mut pressed = vec![[false; 3]; NUM_FLOORS as usize];
    pressed[1] = [true, true, false];
    pressed[3] = [false, false, true];
    let g = guard(1, Direction::Up, vec![]);
    assert_eq!(g.poll_buttons(&pressed), vec![order(1, ButtonType::HallUp), order(3, ButtonType::HallDown)]);
    let idle = guard(1, Direction::Stop, vec![]);
    assert_eq!(
        idle.poll_buttons(&pressed),
        vec![order(1, ButtonType::CabCall), order(1, ButtonType::HallUp), order(3, ButtonType::HallDown)]
    );
}

#[test]
fn button_lights_follow_orders() {
    let lights = ElevatorGuard::set_button_light(&[order(0, ButtonType::HallUp)], &[order(2, ButtonType::CabCall)]);
    assert_eq!(lights, vec![[false, true, false], [false, false, false], [true, false, false], [false, false, false]]);
}

#[test]
fn startup_descends_until_a_floor_is_read() {
    assert_eq!(ElevatorGuard::startup_step(None), StartupStep::KeepDescending);
    assert_eq!(ElevatorGuard::startup_step(Some(0)), StartupStep::Arrived(0));
    assert_eq!(ElevatorGuard::startup_step(Some(3)), StartupStep::Arrived(3));
}
