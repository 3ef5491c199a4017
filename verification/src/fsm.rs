//! The elevator car: which floor to head for, which order to serve on
//! arrival, and how the door and the button panel behave.

use vstd::prelude::*;
use crate::types::{
    button_at, Behaviour, ButtonType, Direction, Order, OrderResult, NUM_FLOORS,
    OBSTRUCTION_TIMEOUT_MS, ORDER_TIMEOUT_MS,
};
use crate::orders::contains_order;

verus! {

/// Physical elevator state: current floor, direction, behaviour and the
/// order the car is on its way to.
#[derive(Debug, Clone, Copy, PartialEq, Eq, Structural)]
pub struct ElevatorFSM {
    pub floor: u8,
    pub direction: Direction,
    pub behaviour: Behaviour,
    pub serving: Option<Order>,
}

/// The elevator: its state and its queue of orders.
#[derive(Debug)]
pub struct ElevatorGuard {
    pub state: ElevatorFSM,
    pub queue: Vec<Order>,
}

/// What one tick of order processing asks of the hardware and the caller.
#[derive(Debug, Clone, Copy, PartialEq, Eq, Structural)]
pub enum FsmStep {
    /// Processing ended; the motor is to be stopped.
    Finished(OrderResult),
    /// The motor is to run in this direction; tick again.
    Moving(Direction),
    /// At the target but nothing there can be served; motor stopped, tick again.
    Holding,
    /// This order was served at the current floor; open the door.
    Serving(Order),
}

/// What one poll of the door asks of the caller.
#[derive(Debug, Clone, Copy, PartialEq, Eq, Structural)]
pub enum DoorStep {
    /// The door closed; the car is idle again.
    Closed,
    /// Still obstructed; poll again.
    Waiting,
    /// Obstructed for too long; the node must restart.
    TimedOut,
}

/// What one floor sensor reading at start-up asks of the caller.
#[derive(Debug, Clone, Copy, PartialEq, Eq, Structural)]
pub enum StartupStep {
    /// Between floors: keep the car going down and read the sensor again.
    KeepDescending,
    /// At this floor: stop the motor, show the floor, clear every button
    /// lamp, wait until the door is clear, and start idle here.
    Arrived(u8),
}

/// Distance between two floors.
pub open spec fn floor_dist(a: u8, b: u8) -> int {
    if a >= b {
        a - b
    } else {
        b - a
    }
}

/// An order the car may head for when deciding where to go next.
pub open spec fn ahead_for_target(o: Order, floor: u8, dir: Direction) -> bool {
    match dir {
        Direction::Up => o.floor >= floor && o.order_type != ButtonType::HallDown,
        Direction::Down => o.floor <= floor && o.order_type != ButtonType::HallUp,
        Direction::Stop => true,
    }
}

/// Some queued order lies ahead in the sense of `ahead_for_target`.
pub open spec fn has_ahead(q: Seq<Order>, floor: u8, dir: Direction) -> bool {
    exists|i: int| 0 <= i < q.len() && #[trigger] ahead_for_target(q[i], floor, dir)
}

/// `t` is the floor to head for: going up, the lowest floor of an order
/// ahead (else the highest queued floor); going down, the highest floor of
/// an order ahead (else the lowest queued floor); standing still, the floor
/// of the first order among the closest ones; with an empty queue, the
/// current floor.
pub open spec fn target_spec(q: Seq<Order>, floor: u8, dir: Direction, t: u8) -> bool {
    if q.len() == 0 {
        t == floor
    } else {
        match dir {
            Direction::Up => if has_ahead(q, floor, dir) {
                &&& exists|i: int|
                    0 <= i < q.len() && ahead_for_target(q[i], floor, dir) && #[trigger] q[i].floor
                        == t
                &&& forall|j: int|
                    0 <= j < q.len() && ahead_for_target(q[j], floor, dir) ==> t <= #[trigger] q[j].floor
            } else {
                &&& exists|i: int| 0 <= i < q.len() && #[trigger] q[i].floor == t
                &&& forall|j: int| 0 <= j < q.len() ==> #[trigger] q[j].floor <= t
            },
            Direction::Down => if has_ahead(q, floor, dir) {
                &&& exists|i: int|
                    0 <= i < q.len() && ahead_for_target(q[i], floor, dir) && #[trigger] q[i].floor
                        == t
                &&& forall|j: int|
                    0 <= j < q.len() && ahead_for_target(q[j], floor, dir) ==> t >= #[trigger] q[j].floor
            } else {
                &&& exists|i: int| 0 <= i < q.len() && #[trigger] q[i].floor == t
                &&& forall|j: int| 0 <= j < q.len() ==> #[trigger] q[j].floor >= t
            },
            Direction::Stop => exists|i: int|
                0 <= i < q.len() && #[trigger] q[i].floor == t && (forall|j: int|
                    0 <= j < q.len() ==> floor_dist(#[trigger] q[j].floor, floor) >= floor_dist(t, floor))
                    && (forall|j: int|
                    0 <= j < i ==> floor_dist(#[trigger] q[j].floor, floor) > floor_dist(t, floor)),
        }
    }
}

/// Law: the floor to head for is determined by the queue, the floor and the direction.
pub proof fn lemma_target_unique(q: Seq<Order>, floor: u8, dir: Direction, t1: u8, t2: u8)
    requires
        target_spec(q, floor, dir, t1),
        target_spec(q, floor, dir, t2),
    ensures
        t1 == t2,
{
    if q.len() > 0 {
        match dir {
            Direction::Up => {
                if has_ahead(q, floor, dir) {
                    let i1 = choose|i: int|
                        0 <= i < q.len() && ahead_for_target(q[i], floor, dir) && #[trigger] q[i].floor
                            == t1;
                    let i2 = choose|i: int|
                        0 <= i < q.len() && ahead_for_target(q[i], floor, dir) && #[trigger] q[i].floor
                            == t2;
                    assert(t1 <= q[i2].floor);
                    assert(t2 <= q[i1].floor);
                } else {
                    let i1 = choose|i: int| 0 <= i < q.len() && #[trigger] q[i].floor == t1;
                    let i2 = choose|i: int| 0 <= i < q.len() && #[trigger] q[i].floor == t2;
                    assert(q[i2].floor <= t1);
                    assert(q[i1].floor <= t2);
                }
            },
            Direction::Down => {
                if has_ahead(q, floor, dir) {
                    let i1 = choose|i: int|
                        0 <= i < q.len() && ahead_for_target(q[i], floor, dir) && #[trigger] q[i].floor
                            == t1;
                    let i2 = choose|i: int|
                        0 <= i < q.len() && ahead_for_target(q[i], floor, dir) && #[trigger] q[i].floor
                            == t2;
                    assert(t1 >= q[i2].floor);
                    assert(t2 >= q[i1].floor);
                } else {
                    let i1 = choose|i: int| 0 <= i < q.len() && #[trigger] q[i].floor == t1;
                    let i2 = choose|i: int| 0 <= i < q.len() && #[trigger] q[i].floor == t2;
                    assert(q[i2].floor >= t1);
                    assert(q[i1].floor >= t2);
                }
            },
            Direction::Stop => {
                let i1 = choose|i: int|
                    0 <= i < q.len() && #[trigger] q[i].floor == t1 && (forall|j: int|
                        0 <= j < q.len() ==> floor_dist(#[trigger] q[j].floor, floor) >= floor_dist(
                            t1,
                            floor,
                        )) && (forall|j: int|
                        0 <= j < i ==> floor_dist(#[trigger] q[j].floor, floor) > floor_dist(
                            t1,
                            floor,
                        ));
                let i2 = choose|i: int|
                    0 <= i < q.len() && #[trigger] q[i].floor == t2 && (forall|j: int|
                        0 <= j < q.len() ==> floor_dist(#[trigger] q[j].floor, floor) >= floor_dist(
                            t2,
                            floor,
                        )) && (forall|j: int|
                        0 <= j < i ==> floor_dist(#[trigger] q[j].floor, floor) > floor_dist(
                            t2,
                            floor,
                        ));
                assert(floor_dist(q[i1].floor, floor) >= floor_dist(t2, floor));
                assert(floor_dist(q[i2].floor, floor) >= floor_dist(t1, floor));
                if i1 < i2 {
                    assert(floor_dist(q[i1].floor, floor) > floor_dist(t2, floor));
                } else if i2 < i1 {
                    assert(floor_dist(q[i2].floor, floor) > floor_dist(t1, floor));
                }
            },
        }
    }
}

/// The floor to head for (see `target_spec`).
pub open spec fn spec_next_target(q: Seq<Order>, floor: u8, dir: Direction) -> u8 {
    choose|t: u8| target_spec(q, floor, dir, t)
}

/// Law: with a non-empty queue, the floor to head for is the floor of a queued order.
pub proof fn lemma_target_is_queued(q: Seq<Order>, floor: u8, dir: Direction, t: u8)
    requires
        target_spec(q, floor, dir, t),
        q.len() > 0,
    ensures
        exists|i: int| 0 <= i < q.len() && q[i].floor == t,
{
    match dir {
        Direction::Up => {
            if has_ahead(q, floor, dir) {
                let i = choose|i: int|
                    0 <= i < q.len() && ahead_for_target(q[i], floor, dir) && #[trigger] q[i].floor == t;
                assert(q[i].floor == t);
            } else {
                let i = choose|i: int| 0 <= i < q.len() && #[trigger] q[i].floor == t;
                assert(q[i].floor == t);
            }
        },
        Direction::Down => {
            if has_ahead(q, floor, dir) {
                let i = choose|i: int|
                    0 <= i < q.len() && ahead_for_target(q[i], floor, dir) && #[trigger] q[i].floor == t;
                assert(q[i].floor == t);
            } else {
                let i = choose|i: int| 0 <= i < q.len() && #[trigger] q[i].floor == t;
                assert(q[i].floor == t);
            }
        },
        Direction::Stop => {},
    }
}

/// An order that may be served at `floor` by a car that travelled in `travel`.
pub open spec fn servable(o: Order, floor: u8, travel: Direction) -> bool {
    &&& o.floor == floor
    &&& match travel {
        Direction::Up => o.order_type != ButtonType::HallDown,
        Direction::Down => o.order_type != ButtonType::HallUp,
        Direction::Stop => true,
    }
}

/// `pos` is the first position of an order servable at `floor`.
pub open spec fn is_first_servable(q: Seq<Order>, floor: u8, travel: Direction, pos: int) -> bool {
    &&& 0 <= pos < q.len()
    &&& servable(q[pos], floor, travel)
    &&& forall|j: int| 0 <= j < pos ==> !servable(#[trigger] q[j], floor, travel)
}

/// An order lies strictly beyond `floor` in the direction of travel.
pub open spec fn beyond(o: Order, floor: u8, travel: Direction) -> bool {
    match travel {
        Direction::Up => o.floor > floor,
        Direction::Down => o.floor < floor,
        Direction::Stop => false,
    }
}

/// Some queued order lies strictly beyond `floor` in the direction of travel.
pub open spec fn has_beyond(q: Seq<Order>, floor: u8, travel: Direction) -> bool {
    exists|i: int| 0 <= i < q.len() && #[trigger] beyond(q[i], floor, travel)
}

/// `s` is the order to remember as being served when heading for `target`:
/// the first queued order at that floor, if any.
pub open spec fn serving_choice(q: Seq<Order>, target: u8, s: Option<Order>) -> bool {
    match s {
        None => forall|i: int| 0 <= i < q.len() ==> #[trigger] q[i].floor != target,
        Some(o) => exists|i: int|
            0 <= i < q.len() && q[i] == o && #[trigger] q[i].floor == target && (forall|j: int|
                0 <= j < i ==> #[trigger] q[j].floor != target),
    }
}

/// The state after stopping: idle, not moving, serving nothing.
pub open spec fn stopped(s: ElevatorFSM) -> ElevatorFSM {
    ElevatorFSM { direction: Direction::Stop, behaviour: Behaviour::Idle, serving: None, ..s }
}

/// The state after reading the floor sensor.
pub open spec fn after_sensor(s: ElevatorFSM, sensor: Option<u8>) -> ElevatorFSM {
    match sensor {
        Some(f) => ElevatorFSM { floor: f, ..s },
        None => s,
    }
}

/// The state after starting to move from `s.floor` toward `target`.
pub open spec fn moving_toward(s: ElevatorFSM, q: Seq<Order>, target: u8, n: ElevatorFSM) -> bool {
    &&& n.floor == s.floor
    &&& n.behaviour == Behaviour::Moving
    &&& n.direction == (if s.floor < target { Direction::Up } else { Direction::Down })
    &&& serving_choice(q, target, n.serving)
}

/// What serving at the current floor does to the state and the queue.
pub open spec fn served(
    s: ElevatorFSM,
    q: Seq<Order>,
    ns: ElevatorFSM,
    nq: Seq<Order>,
    r: Option<Order>,
) -> bool {
    match r {
        None => {
            &&& forall|i: int| 0 <= i < q.len() ==> !servable(#[trigger] q[i], s.floor, s.direction)
            &&& ns == s
            &&& nq == q
        },
        Some(o) => exists|pos: int|
            {
                &&& #[trigger] is_first_servable(q, s.floor, s.direction, pos)
                &&& o == q[pos]
                &&& nq == q.remove(pos)
                &&& ns == ElevatorFSM {
                    serving: None,
                    direction: if has_beyond(nq, s.floor, s.direction) {
                        s.direction
                    } else {
                        Direction::Stop
                    },
                    ..s
                }
            },
    }
}

/// The queue after replacing it by `orders`, keeping the order in progress first.
pub open spec fn merged_queue(orders: Seq<Order>, serving: Option<Order>) -> Seq<Order> {
    match serving {
        Some(c) => if orders.contains(c) {
            orders
        } else {
            seq![c] + orders
        },
        None => orders,
    }
}

/// A pressed button that does not become an order: the cab button of the
/// floor the car is just passing.
pub open spec fn press_suppressed(floor: u8, button: ButtonType, s: ElevatorFSM) -> bool {
    button == ButtonType::CabCall && floor == s.floor && s.direction != Direction::Stop
}

/// The scan position of an order on the button panel.
pub open spec fn panel_rank(o: Order) -> int {
    o.floor * 3 + o.order_type.spec_index()
}

/// The first queued order at `target`, if any.
fn first_at_floor(q: &Vec<Order>, target: u8) -> (r: Option<Order>)
    ensures
        serving_choice(q@, target, r),
{
    let mut i: usize = 0;
    while i < q.len()
        invariant
            i <= q.len(),
            forall|j: int| 0 <= j < i ==> #[trigger] q@[j].floor != target,
        decreases q.len() - i,
    {
        if q[i].floor == target {
            assert(q@[i as int].floor == target);
            return Some(q[i]);
        }
        i = i + 1;
    }
    None
}

/// The position of the first order servable at `floor`, if any.
fn first_servable_pos(q: &Vec<Order>, floor: u8, travel: Direction) -> (r: Option<usize>)
    ensures
        match r {
            Some(p) => is_first_servable(q@, floor, travel, p as int),
            None => forall|i: int| 0 <= i < q.len() ==> !servable(#[trigger] q@[i], floor, travel),
        },
{
    let mut i: usize = 0;
    while i < q.len()
        invariant
            i <= q.len(),
            forall|j: int| 0 <= j < i ==> !servable(#[trigger] q@[j], floor, travel),
        decreases q.len() - i,
    {
        let o = q[i];
        let compatible = match travel {
            Direction::Up => o.order_type != ButtonType::HallDown,
            Direction::Down => o.order_type != ButtonType::HallUp,
            Direction::Stop => true,
        };
        if o.floor == floor && compatible {
            return Some(i);
        }
        i = i + 1;
    }
    None
}

/// Whether some queued order lies strictly beyond `floor` in the direction of travel.
fn any_beyond(q: &Vec<Order>, floor: u8, travel: Direction) -> (r: bool)
    ensures
        r == has_beyond(q@, floor, travel),
{
    let mut k: usize = 0;
    while k < q.len()
        invariant
            k <= q.len(),
            forall|j: int| 0 <= j < k ==> !beyond(#[trigger] q@[j], floor, travel),
        decreases q.len() - k,
    {
        let o = q[k];
        let ahead = match travel {
            Direction::Up => o.floor > floor,
            Direction::Down => o.floor < floor,
            Direction::Stop => false,
        };
        if ahead {
            assert(beyond(q@[k as int], floor, travel));
            return true;
        }
        k = k + 1;
    }
    false
}

/// What the scan for the best order ahead knows after the first `i` orders.
spec fn best_ahead_inv(q: Seq<Order>, floor: u8, dir: Direction, i: int, best: Option<u8>) -> bool {
    match best {
        None => forall|j: int| 0 <= j < i ==> !#[trigger] ahead_for_target(q[j], floor, dir),
        Some(b) => {
            &&& exists|k: int|
                0 <= k < i && ahead_for_target(q[k], floor, dir) && #[trigger] q[k].floor == b
                    && (dir == Direction::Stop ==> forall|j: int|
                    0 <= j < k ==> floor_dist(#[trigger] q[j].floor, floor) > floor_dist(b, floor))
            &&& forall|j: int|
                0 <= j < i && ahead_for_target(q[j], floor, dir) ==> match dir {
                    Direction::Up => b <= #[trigger] q[j].floor,
                    Direction::Down => b >= q[j].floor,
                    Direction::Stop => floor_dist(q[j].floor, floor) >= floor_dist(b, floor),
                }
        },
    }
}

/// Distance between two floors.
fn dist(a: u8, b: u8) -> (d: u8)
    ensures
        d == floor_dist(a, b),
{
    if a >= b {
        a - b
    } else {
        b - a
    }
}

/// The highest queued floor, or `default` for an empty queue.
fn max_floor(q: &Vec<Order>, default: u8) -> (m: u8)
    ensures
        q.len() == 0 ==> m == default,
        q.len() > 0 ==> (exists|i: int| 0 <= i < q.len() && #[trigger] q@[i].floor == m),
        forall|j: int| 0 <= j < q.len() ==> #[trigger] q@[j].floor <= m,
{
    if q.len() == 0 {
        return default;
    }
    let mut m = q[0].floor;
    let mut i: usize = 1;
    while i < q.len()
        invariant
            1 <= i <= q.len(),
            exists|k: int| 0 <= k < i && #[trigger] q@[k].floor == m,
            forall|j: int| 0 <= j < i ==> #[trigger] q@[j].floor <= m,
        decreases q.len() - i,
    {
        if q[i].floor > m {
            m = q[i].floor;
        }
        i = i + 1;
    }
    m
}

/// The lowest queued floor, or `default` for an empty queue.
fn min_floor(q: &Vec<Order>, default: u8) -> (m: u8)
    ensures
        q.len() == 0 ==> m == default,
        q.len() > 0 ==> (exists|i: int| 0 <= i < q.len() && #[trigger] q@[i].floor == m),
        forall|j: int| 0 <= j < q.len() ==> #[trigger] q@[j].floor >= m,
{
    if q.len() == 0 {
        return default;
    }
    let mut m = q[0].floor;
    let mut i: usize = 1;
    while i < q.len()
        invariant
            1 <= i <= q.len(),
            exists|k: int| 0 <= k < i && #[trigger] q@[k].floor == m,
            forall|j: int| 0 <= j < i ==> #[trigger] q@[j].floor >= m,
        decreases q.len() - i,
    {
        if q[i].floor < m {
            m = q[i].floor;
        }
        i = i + 1;
    }
    m
}

/// The floor of the first among the queued orders closest to `floor`, or
/// `floor` itself for an empty queue.
fn closest_floor(q: &Vec<Order>, floor: u8) -> (c: u8)
    ensures
        target_spec(q@, floor, Direction::Stop, c),
{
    let mut closest: Option<u8> = None;
    let mut i: usize = 0;
    while i < q.len()
        invariant
            i <= q.len(),
            best_ahead_inv(q@, floor, Direction::Stop, i as int, closest),
            i > 0 ==> closest.is_some(),
        decreases q.len() - i,
    {
        let o = q[i];
        let better = match closest {
            None => true,
            Some(prev) => dist(o.floor, floor) < dist(prev, floor),
        };
        if better {
            closest = Some(o.floor);
        }
        assert(ahead_for_target(q@[i as int], floor, Direction::Stop));
        i = i + 1;
    }
    match closest {
        Some(c) => c,
        None => floor,
    }
}

impl ElevatorGuard {
    /// The floor to head for next (see `target_spec`).
    pub fn next_target(queue: &Vec<Order>, floor: u8, direction: Direction) -> (t: u8)
        ensures
            target_spec(queue@, floor, direction, t),
            t == spec_next_target(queue@, floor, direction),
    {
        let mut best: Option<u8> = None;
        let mut i: usize = 0;
        while i < queue.len()
            invariant
                i <= queue.len(),
                best_ahead_inv(queue@, floor, direction, i as int, best),
            decreases queue.len() - i,
        {
            let o = queue[i];
            let ahead = match direction {
                Direction::Up => o.floor >= floor && o.order_type != ButtonType::HallDown,
                Direction::Down => o.floor <= floor && o.order_type != ButtonType::HallUp,
                Direction::Stop => true,
            };
            if ahead {
                let better = match best {
                    None => true,
                    Some(prev) => match direction {
                        Direction::Up => o.floor < prev,
                        Direction::Down => o.floor > prev,
                        Direction::Stop => dist(o.floor, floor) < dist(prev, floor),
                    },
                };
                if better {
                    best = Some(o.floor);
                }
            }
            i = i + 1;
        }
        let t = match best {
            Some(f) => f,
            None => match direction {
                Direction::Up => max_floor(queue, floor),
                Direction::Down => min_floor(queue, floor),
                Direction::Stop => closest_floor(queue, floor),
            },
        };
        proof {
            lemma_target_unique(queue@, floor, direction, t, spec_next_target(queue@, floor, direction));
        }
        t
    }
}

/// A pressed button that becomes an order, given the panel `pressed`.
pub open spec fn press_accepted(pressed: Seq<[bool; 3]>, o: Order, s: ElevatorFSM) -> bool {
    &&& o.floor < NUM_FLOORS
    &&& pressed[o.floor as int]@[o.order_type.spec_index()]
    &&& !press_suppressed(o.floor, o.order_type, s)
}

impl ElevatorGuard {
    /// The elevator once the car has found a floor at start-up: idle there
    /// with an empty queue.
    pub fn new(floor: u8) -> (g: ElevatorGuard)
        ensures
            g.state == (ElevatorFSM {
                floor,
                direction: Direction::Stop,
                behaviour: Behaviour::Idle,
                serving: None,
            }),
            g.queue@ == Seq::<Order>::empty(),
    {
        ElevatorGuard {
            state: ElevatorFSM {
                floor,
                direction: Direction::Stop,
                behaviour: Behaviour::Idle,
                serving: None,
            },
            queue: Vec::new(),
        }
    }

    /// Decides a step of start-up, where the car drives down until the floor
    /// sensor reads a floor.
    pub fn startup_step(sensor: Option<u8>) -> (r: StartupStep)
        ensures
            r == (match sensor {
                Some(f) => StartupStep::Arrived(f),
                None => StartupStep::KeepDescending,
            }),
    {
        match sensor {
            Some(f) => StartupStep::Arrived(f),
            None => StartupStep::KeepDescending,
        }
    }

    /// Takes in a floor sensor reading; no reading leaves the floor as it was.
    pub fn read_floor(&mut self, sensor: Option<u8>)
        ensures
            final(self).state == after_sensor(old(self).state, sensor),
            final(self).queue@ == old(self).queue@,
    {
        if let Some(floor) = sensor {
            self.state.floor = floor;
        }
    }

    /// Stops the car.
    pub fn stop(&mut self)
        ensures
            final(self).state == stopped(old(self).state),
            final(self).queue@ == old(self).queue@,
    {
        self.state.direction = Direction::Stop;
        self.state.behaviour = Behaviour::Idle;
        self.state.serving = None;
    }

    /// Starts the car toward `target`, remembering the first queued order there.
    pub fn move_toward(&mut self, target: u8)
        ensures
            moving_toward(old(self).state, old(self).queue@, target, final(self).state),
            final(self).queue@ == old(self).queue@,
    {
        self.state.behaviour = Behaviour::Moving;
        self.state.serving = first_at_floor(&self.queue, target);
        self.state.direction = if self.state.floor < target {
            Direction::Up
        } else {
            Direction::Down
        };
    }

    /// Serves the first order at the current floor that suits the direction
    /// of travel; the car keeps its direction only if orders lie beyond.
    pub fn serve_order(&mut self) -> (r: Option<Order>)
        ensures
            served(old(self).state, old(self).queue@, final(self).state, final(self).queue@, r),
            r matches Some(o) ==> {
                &&& o.floor == old(self).state.floor
                &&& old(self).state.direction == Direction::Down ==> o.order_type
                    != ButtonType::HallUp
                &&& old(self).state.direction == Direction::Up ==> o.order_type
                    != ButtonType::HallDown
            },
    {
        let travel = self.state.direction;
        let floor = self.state.floor;
        let p = match first_servable_pos(&self.queue, floor, travel) {
            Some(p) => p,
            None => {
                return None;
            },
        };
        let ghost q0 = self.queue@;
        let served_order = self.queue.remove(p);
        self.state.serving = None;
        let has_orders_ahead = any_beyond(&self.queue, floor, travel);
        self.state.direction = if has_orders_ahead {
            travel
        } else {
            Direction::Stop
        };
        assert(is_first_servable(q0, floor, travel, p as int));
        Some(served_order)
    }
    /// One tick of order processing, after the floor sensor was read as
    /// `sensor` and `elapsed_ms` passed since the order processing began:
    /// stop when the queue is empty or the order took too long; otherwise
    /// head for the next target, or serve at the current floor.
    pub fn process_next_order(&mut self, sensor: Option<u8>, elapsed_ms: u64) -> (r: FsmStep)
        ensures
            ({
                let s1 = after_sensor(old(self).state, sensor);
                let q = old(self).queue@;
                if q.len() == 0 {
                    &&& r == FsmStep::Finished(OrderResult::Empty)
                    &&& final(self).state == stopped(s1)
                    &&& final(self).queue@ == q
                } else if elapsed_ms > ORDER_TIMEOUT_MS {
                    &&& r == FsmStep::Finished(OrderResult::Failed)
                    &&& final(self).state == stopped(s1)
                    &&& final(self).queue@ == q
                } else if s1.floor != spec_next_target(q, s1.floor, s1.direction) {
                    &&& r == FsmStep::Moving(final(self).state.direction)
                    &&& moving_toward(
                        s1,
                        q,
                        spec_next_target(q, s1.floor, s1.direction),
                        final(self).state,
                    )
                    &&& final(self).queue@ == q
                } else {
                    match r {
                        FsmStep::Holding => {
                            &&& forall|i: int|
                                0 <= i < q.len() ==> !servable(#[trigger] q[i], s1.floor, s1.direction)
                            &&& final(self).state == (ElevatorFSM { direction: Direction::Stop, ..s1 })
                            &&& final(self).queue@ == q
                        },
                        FsmStep::Serving(o) => served(
                            s1,
                            q,
                            final(self).state,
                            final(self).queue@,
                            Some(o),
                        ),
                        _ => false,
                    }
                }
            }),
    {
        self.read_floor(sensor);
        if self.queue.len() == 0 {
            self.stop();
            return FsmStep::Finished(OrderResult::Empty);
        }
        if elapsed_ms > ORDER_TIMEOUT_MS {
            self.stop();
            return FsmStep::Finished(OrderResult::Failed);
        }
        let target = Self::next_target(&self.queue, self.state.floor, self.state.direction);
        if self.state.floor != target {
            self.move_toward(target);
            return FsmStep::Moving(self.state.direction);
        }
        match self.serve_order() {
            Some(order) => FsmStep::Serving(order),
            None => {
                self.state.direction = Direction::Stop;
                FsmStep::Holding
            },
        }
    }

    /// Opens the door at the served floor.
    pub fn open_door(&mut self)
        ensures
            final(self).state == (ElevatorFSM { behaviour: Behaviour::DoorOpen, ..old(self).state }),
            final(self).queue@ == old(self).queue@,
    {
        self.state.behaviour = Behaviour::DoorOpen;
    }

    /// One poll of the open door, given the obstruction switch and the time
    /// it has been waiting: close when clear, give up when obstructed too long.
    pub fn door_step(&mut self, obstructed: bool, elapsed_ms: u64) -> (r: DoorStep)
        ensures
            !obstructed ==> r == DoorStep::Closed && final(self).state == (ElevatorFSM {
                behaviour: Behaviour::Idle,
                ..old(self).state
            }),
            obstructed ==> final(self).state == old(self).state && r == (if elapsed_ms
                > OBSTRUCTION_TIMEOUT_MS {
                DoorStep::TimedOut
            } else {
                DoorStep::Waiting
            }),
            final(self).queue@ == old(self).queue@,
    {
        if !obstructed {
            self.state.behaviour = Behaviour::Idle;
            return DoorStep::Closed;
        }
        if elapsed_ms > OBSTRUCTION_TIMEOUT_MS {
            DoorStep::TimedOut
        } else {
            DoorStep::Waiting
        }
    }

    /// Floor, direction and behaviour of the car.
    pub fn get_state(&self) -> (r: (u8, Direction, Behaviour))
        ensures
            r == (self.state.floor, self.state.direction, self.state.behaviour),
    {
        (self.state.floor, self.state.direction, self.state.behaviour)
    }

    /// Replaces the queue by `orders`, putting the order in progress first
    /// when `orders` lacks it, so that it is not interrupted.
    pub fn set_queue(&mut self, orders: &[Order])
        ensures
            final(self).queue@ == merged_queue(orders@, old(self).state.serving),
            final(self).state == old(self).state,
    {
        let mut new_queue: Vec<Order> = Vec::new();
        let mut i: usize = 0;
        while i < orders.len()
            invariant
                i <= orders.len(),
                new_queue@ == orders@.take(i as int),
            decreases orders.len() - i,
        {
            new_queue.push(orders[i]);
            i = i + 1;
            assert(new_queue@ =~= orders@.take(i as int));
        }
        assert(orders@.take(orders.len() as int) =~= orders@);
        if let Some(current) = self.state.serving {
            if !contains_order(orders, &current) {
                new_queue.insert(0, current);
                assert(new_queue@ =~= seq![current] + orders@);
            }
        }
        self.queue = new_queue;
    }

    /// The orders made by the pressed buttons, `pressed[f][b]` telling
    /// whether button `b` (in scan order: cab, hall up, hall down) of floor
    /// `f` is pressed; the cab button of a floor the car is passing is
    /// ignored. Orders come in scan order.
    pub fn poll_buttons(&self, pressed: &Vec<[bool; 3]>) -> (r: Vec<Order>)
        requires
            pressed@.len() == NUM_FLOORS as int,
        ensures
            forall|o: Order| #[trigger] r@.contains(o) <==> press_accepted(pressed@, o, self.state),
            forall|i: int, j: int|
                0 <= i < j < r@.len() ==> panel_rank(#[trigger] r@[i]) < panel_rank(#[trigger] r@[j]),
    {
        let mut out: Vec<Order> = Vec::new();
        let mut f: u8 = 0;
        while f < NUM_FLOORS
            invariant
                f <= NUM_FLOORS,
                pressed@.len() == NUM_FLOORS as int,
                forall|i: int| 0 <= i < out@.len() ==> panel_rank(#[trigger] out@[i]) < f * 3,
                forall|i: int, j: int|
                    0 <= i < j < out@.len() ==> panel_rank(#[trigger] out@[i]) < panel_rank(
                        #[trigger] out@[j],
                    ),
                forall|o: Order|
                    #[trigger] out@.contains(o) <==> (press_accepted(pressed@, o, self.state)
                        && o.floor < f),
            decreases NUM_FLOORS - f,
        {
            let row = pressed[f as usize];
            let mut b: usize = 0;
            while b < 3
                invariant
                    b <= 3,
                    f < NUM_FLOORS,
                    row == pressed@[f as int],
                    pressed@.len() == NUM_FLOORS as int,
                    forall|i: int| 0 <= i < out@.len() ==> panel_rank(#[trigger] out@[i]) < f * 3 + b,
                    forall|i: int, j: int|
                        0 <= i < j < out@.len() ==> panel_rank(#[trigger] out@[i]) < panel_rank(
                            #[trigger] out@[j],
                        ),
                    forall|o: Order|
                        #[trigger] out@.contains(o) <==> (press_accepted(pressed@, o, self.state)
                            && (o.floor < f || (o.floor == f && o.order_type.spec_index() < b))),
                decreases 3 - b,
            {
                let button = ButtonType::from_index(b);
                if row[b] {
                    let skip = button == ButtonType::CabCall && f == self.state.floor
                        && self.state.direction != Direction::Stop;
                    if !skip {
                        let ghost before = out@;
                        let o = Order { floor: f, order_type: button };
                        out.push(o);
                        assert forall|p: Order| #[trigger] out@.contains(p) <==> (press_accepted(
                            pressed@,
                            p,
                            self.state,
                        ) && (p.floor < f || (p.floor == f && p.order_type.spec_index() < b + 1))) by {
                            if p == o {
                                assert(out@[out@.len() - 1] == o);
                            } else if out@.contains(p) {
                                let k = choose|k: int| 0 <= k < out@.len() && out@[k] == p;
                                assert(before[k] == p);
                                assert(before.contains(p));
                            } else if press_accepted(pressed@, p, self.state) && (p.floor < f || (
                            p.floor == f && p.order_type.spec_index() < b + 1)) {
                                assert(before.contains(p));
                                let k = choose|k: int| 0 <= k < before.len() && before[k] == p;
                                assert(out@[k] == p);
                            }
                        }
                    }
                }
                b = b + 1;
            }
            f = f + 1;
        }
        out
    }

    /// Which button lamps to light: `r[f][b]` tells whether an order of
    /// button `b` (in scan order) at floor `f` is among `hall_orders` or
    /// `cab_orders`.
    pub fn set_button_light(hall_orders: &[Order], cab_orders: &[Order]) -> (r: Vec<[bool; 3]>)
        ensures
            r@.len() == NUM_FLOORS as int,
            forall|f: int, b: int|
                0 <= f < NUM_FLOORS && 0 <= b < 3 ==> #[trigger] r@[f]@[b] == (hall_orders@
                    + cab_orders@).contains(Order { floor: f as u8, order_type: button_at(b) }),
    {
        let mut lights: Vec<[bool; 3]> = Vec::new();
        let mut f: u8 = 0;
        while f < NUM_FLOORS
            invariant
                f <= NUM_FLOORS,
                lights@.len() == f as int,
                forall|g: int, b: int|
                    0 <= g < f && 0 <= b < 3 ==> #[trigger] lights@[g]@[b] == (hall_orders@
                        + cab_orders@).contains(Order { floor: g as u8, order_type: button_at(b) }),
            decreases NUM_FLOORS - f,
        {
            let mut row = [false, false, false];
            let mut b: usize = 0;
            while b < 3
                invariant
                    b <= 3,
                    f < NUM_FLOORS,
                    forall|c: int|
                        0 <= c < b ==> #[trigger] row@[c] == (hall_orders@ + cab_orders@).contains(
                            Order { floor: f, order_type: button_at(c) },
                        ),
                decreases 3 - b,
            {
                let o = Order { floor: f, order_type: ButtonType::from_index(b) };
                let active = contains_order(hall_orders, &o) || contains_order(cab_orders, &o);
                proof {
                    lemma_concat_contains(hall_orders@, cab_orders@, o);
                }
                row[b] = active;
                b = b + 1;
            }
            lights.push(row);
            f = f + 1;
        }
        lights
    }
}

/// An order lies in a concatenation iff it lies in one of the parts.
pub proof fn lemma_concat_contains(a: Seq<Order>, b: Seq<Order>, o: Order)
    ensures
        (a + b).contains(o) <==> (a.contains(o) || b.contains(o)),
{
    if a.contains(o) {
        let i = choose|i: int| 0 <= i < a.len() && a[i] == o;
        assert((a + b)[i] == o);
    }
    if b.contains(o) {
        let i = choose|i: int| 0 <= i < b.len() && b[i] == o;
        assert((a + b)[a.len() + i] == o);
    }
    if (a + b).contains(o) {
        let i = choose|i: int| 0 <= i < (a + b).len() && (a + b)[i] == o;
        if i < a.len() {
            assert(a[i] == o);
        } else {
            assert(b[i - a.len()] == o);
        }
    }
}

} // verus!
