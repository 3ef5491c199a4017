//! Small pieces of logic from the warm-up exercises: framing of
//! NUL-terminated TCP messages and steering a single car to a floor.

use vstd::prelude::*;
use crate::types::{DIRN_DOWN, DIRN_UP};

verus! {

/// Whether a received buffer holds a complete message: one ending in NUL.
pub fn frame_complete(total: &[u8]) -> (r: bool)
    ensures
        r == total@.contains(0u8),
{
    let mut i: usize = 0;
    while i < total.len()
        invariant
            i <= total.len(),
            forall|j: int| 0 <= j < i ==> total@[j] != 0u8,
        decreases total.len() - i,
    {
        if total[i] == 0 {
            assert(total@[i as int] == 0u8);
            return true;
        }
        i = i + 1;
    }
    false
}

/// The length of the text of a received buffer: up to the first NUL, or
/// all of it when there is none.
pub fn received_len(total: &[u8]) -> (len: usize)
    ensures
        len <= total@.len(),
        forall|j: int| 0 <= j < len ==> total@[j] != 0u8,
        len < total@.len() ==> total@[len as int] == 0u8,
{
    let mut i: usize = 0;
    while i < total.len()
        invariant
            i <= total.len(),
            forall|j: int| 0 <= j < i ==> total@[j] != 0u8,
        decreases total.len() - i,
    {
        if total[i] == 0 {
            return i;
        }
        i = i + 1;
    }
    total.len()
}

/// The motor command that takes the car from the floor it reads toward
/// `goal_floor`: down when above it or between floors, up otherwise.
pub fn get_direction_blocking(sensor: Option<u8>, goal_floor: u8) -> (d: u8)
    ensures
        d == match sensor {
            Some(floor) => if floor > goal_floor {
                DIRN_DOWN
            } else {
                DIRN_UP
            },
            None => DIRN_DOWN,
        },
{
    match sensor {
        Some(floor) => {
            if floor > goal_floor {
                DIRN_DOWN
            } else {
                DIRN_UP
            }
        },
        None => DIRN_DOWN,
    }
}

/// Whether the car, reading `sensor`, has reached `goal_floor`.
pub fn at_floor(sensor: Option<u8>, goal_floor: u8) -> (r: bool)
    ensures
        r == (sensor == Some(goal_floor)),
{
    match sensor {
        Some(floor) => floor == goal_floor,
        None => false,
    }
}

} // verus!
