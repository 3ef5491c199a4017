//! Values shared by the elevator controller, the gossip layer and the
//! request assigner.

use vstd::prelude::*;

verus! {

/// Number of floors served by one elevator.
pub const NUM_FLOORS: u8 = 4;
/// UDP port on which peers broadcast their gossip.
pub const MSG_PORT: u16 = 20009;
/// TCP port of the elevator hardware server.
pub const ELEVATOR_PORT: u16 = 15657;
/// A peer that has not been heard from for longer than this is dead (ms).
pub const MASTER_ELECTION_TIMEOUT_MS: u64 = 500;
/// Longest time the door may stay obstructed before the node restarts (ms).
pub const OBSTRUCTION_TIMEOUT_MS: u64 = 3000;
/// Longest time one order may take before the node restarts (ms).
pub const ORDER_TIMEOUT_MS: u64 = 9000;
/// How long the door stays open at a served floor (ms).
pub const DOOR_OPEN_MS: u64 = 3000;
/// How long a completed order is advertised as cleared (ms).
pub const CLEARED_ORDER_WINDOW_MS: u64 = 1000;

/// Motor command code for "down" on the elevator hardware.
pub const DIRN_DOWN: u8 = 255;
/// Motor command code for "stop" on the elevator hardware.
pub const DIRN_STOP: u8 = 0;
/// Motor command code for "up" on the elevator hardware.
pub const DIRN_UP: u8 = 1;

/// The kind of button that produced an order.
#[derive(Debug, Clone, Copy, PartialEq, Eq, Structural, Hash)]
pub enum ButtonType {
    CabCall,
    HallUp,
    HallDown,
}

/// A request to serve a floor, made with a given button.
#[derive(Debug, Clone, Copy, PartialEq, Eq, Structural, Hash)]
pub struct Order {
    pub floor: u8,
    pub order_type: ButtonType,
}

/// What an attempt to serve the next order ended with.
#[derive(Debug, Clone, Copy, PartialEq, Eq, Structural)]
pub enum OrderResult {
    Completed(Order),
    Empty,
    Failed,
}

/// Whether this node currently assigns hall orders.
#[derive(Debug, Clone, Copy, PartialEq, Eq, Structural)]
pub enum Roles {
    Master,
    Slave,
}

/// What the elevator car is doing.
#[derive(Debug, Clone, Copy, PartialEq, Eq, Structural)]
pub enum Behaviour {
    Idle,
    Moving,
    DoorOpen,
}

/// Direction of travel of the car.
#[derive(Debug, Clone, Copy, PartialEq, Eq, Structural)]
pub enum Direction {
    Stop,
    Up,
    Down,
}

/// The buttons of one floor, in the order in which the panel is scanned.
pub open spec fn button_at(i: int) -> ButtonType {
    if i == 0 {
        ButtonType::CabCall
    } else if i == 1 {
        ButtonType::HallUp
    } else {
        ButtonType::HallDown
    }
}

impl ButtonType {
    /// The hardware code of a button.
    pub open spec fn spec_code(self) -> u8 {
        match self {
            ButtonType::HallUp => 0,
            ButtonType::HallDown => 1,
            ButtonType::CabCall => 2,
        }
    }

    /// The hardware code of a button: hall up 0, hall down 1, cab 2.
    pub fn code(self) -> (c: u8)
        ensures
            c == self.spec_code(),
    {
        match self {
            ButtonType::HallUp => 0,
            ButtonType::HallDown => 1,
            ButtonType::CabCall => 2,
        }
    }

    /// The button scanned at position `i` of a floor panel.
    pub fn from_index(i: usize) -> (b: ButtonType)
        requires
            i < 3,
        ensures
            b == button_at(i as int),
    {
        if i == 0 {
            ButtonType::CabCall
        } else if i == 1 {
            ButtonType::HallUp
        } else {
            ButtonType::HallDown
        }
    }

    /// Position of the button in the panel scan; inverse of `from_index`.
    pub open spec fn spec_index(self) -> int {
        match self {
            ButtonType::CabCall => 0,
            ButtonType::HallUp => 1,
            ButtonType::HallDown => 2,
        }
    }

    /// Position of the button in the panel scan: cab 0, hall up 1, hall down 2.
    pub fn index(self) -> (i: usize)
        ensures
            i == self.spec_index(),
            button_at(i as int) == self,
    {
        match self {
            ButtonType::CabCall => 0,
            ButtonType::HallUp => 1,
            ButtonType::HallDown => 2,
        }
    }
}

impl Direction {
    /// The motor command code of a direction.
    pub open spec fn spec_motor_code(self) -> u8 {
        match self {
            Direction::Stop => DIRN_STOP,
            Direction::Up => DIRN_UP,
            Direction::Down => DIRN_DOWN,
        }
    }

    /// The motor command code of a direction.
    pub fn motor_code(self) -> (c: u8)
        ensures
            c == self.spec_motor_code(),
    {
        match self {
            Direction::Stop => DIRN_STOP,
            Direction::Up => DIRN_UP,
            Direction::Down => DIRN_DOWN,
        }
    }

    /// The direction a motor command code stands for; unknown codes mean stop.
    pub open spec fn spec_from_motor_code(code: u8) -> Direction {
        if code == DIRN_UP {
            Direction::Up
        } else if code == DIRN_DOWN {
            Direction::Down
        } else {
            Direction::Stop
        }
    }

    /// The direction a motor command code stands for; unknown codes mean stop.
    pub fn from_motor_code(code: u8) -> (d: Direction)
        ensures
            d == Direction::spec_from_motor_code(code),
    {
        if code == DIRN_UP {
            Direction::Up
        } else if code == DIRN_DOWN {
            Direction::Down
        } else {
            Direction::Stop
        }
    }
}

/// Law: a direction survives the round trip through its motor code.
pub proof fn lemma_motor_code_round_trip(d: Direction)
    ensures
        Direction::spec_from_motor_code(d.spec_motor_code()) == d,
{
}

} // verus!
