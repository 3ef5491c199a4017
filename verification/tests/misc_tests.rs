use elevatorlab::exercises::{at_floor, frame_complete, get_direction_blocking, received_len};
use elevatorlab::ip::{key_of_id, IpKey};
use elevatorlab::types::{ButtonType, Direction, DIRN_DOWN, DIRN_STOP, DIRN_UP};

#[test]
fn button_codes_match_hardware() {
    assert_eq!(ButtonType::HallUp.code(), 0);
    assert_eq!(ButtonType::HallDown.code(), 1);
    assert_eq!(ButtonType::CabCall.code(), 2);
    for i in 0..3 {
        assert_eq!(ButtonType::from_index(i).index(), i);
    }
    assert_eq!(ButtonType::from_index(0), ButtonType::CabCall);
}

#[test]
fn motor_codes_round_trip() {
    for d in [Direction::Stop, Direction::Up, Direction::Down] {
        assert_eq!(Direction::from_motor_code(d.motor_code()), d);
    }
    assert_eq!(Direction::Down.motor_code(), DIRN_DOWN);
    assert_eq!(Direction::Up.motor_code(), DIRN_UP);
    assert_eq!(Direction::Stop.motor_code(), DIRN_STOP);
    assert_eq!(Direction::from_motor_code(7), Direction::Stop);
}

#[test]
fn ip_keys() {
    assert_eq!(key_of_id("10.0.0.2"), IpKey::V4(0x0A00_0002));
    assert_eq!(key_of_id("::1"), IpKey::V6(1));
    assert_eq!(key_of_id("elevator"), IpKey::V4(0xFFFF_FFFF));
}

#[test]
fn nul_framing() {
    assert!(!frame_complete(b"hello"));
    assert!(frame_complete(b"hi\0there"));
    assert_eq!(received_len(b"hi\0there"), 2);
    assert_eq!(received_len(b"hello"), 5);
    assert_eq!(received_len(b""), 0);
}

#[test]
fn steering_single_car() {
    assert_eq!(get_direction_blocking(Some(3), 1), DIRN_DOWN);
    assert_eq!(get_direction_blocking(Some(1), 1), DIRN_UP);
    assert_eq!(get_direction_blocking(None, 1), DIRN_DOWN);
    assert!(at_floor(Some(2), 2));
    assert!(!at_floor(None, 2));
    assert!(!at_floor(Some(1), 2));
}
