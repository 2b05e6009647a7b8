use msg_dispatch::geometry::{Angle, AngleWrapping, FULL_TURN, HALF_TURN};

/// Four radians, in binary angle units; more than half a turn, so it wraps
/// to a negative value under the turn centred on zero.
const RAW_4RAD: i64 = 2734261102;

#[test]
fn angle_wrap_round_trip() {
    let pm = Angle::new(RAW_4RAD, AngleWrapping::PlusMinusPi);
    assert_eq!(pm.value(), RAW_4RAD - FULL_TURN);
    assert!(-HALF_TURN < pm.value() && pm.value() <= HALF_TURN);

    let tp = Angle::new(RAW_4RAD, AngleWrapping::TwoPi);
    assert_eq!(tp.value(), RAW_4RAD);
    assert!(0 <= tp.value() && tp.value() < FULL_TURN);
}

#[test]
fn wrapping_negative_values() {
    assert_eq!(Angle::new(-1, AngleWrapping::TwoPi).value(), FULL_TURN - 1);
    assert_eq!(Angle::new(-1, AngleWrapping::PlusMinusPi).value(), -1);
    assert_eq!(Angle::new(-FULL_TURN, AngleWrapping::TwoPi).value(), 0);
}

#[test]
fn wrapping_whole_turns() {
    assert_eq!(Angle::new(FULL_TURN + 1, AngleWrapping::TwoPi).value(), 1);
    assert_eq!(Angle::new(FULL_TURN, AngleWrapping::PlusMinusPi).value(), 0);
    assert_eq!(Angle::new(HALF_TURN, AngleWrapping::PlusMinusPi).value(), HALF_TURN);
    assert_eq!(Angle::new(HALF_TURN + 1, AngleWrapping::PlusMinusPi).value(), 1 - HALF_TURN);
}

#[test]
fn angle_addition_wraps() {
    let a = Angle::new(HALF_TURN, AngleWrapping::PlusMinusPi);
    let b = Angle::new(1, AngleWrapping::PlusMinusPi);
    assert_eq!(a.plus(&b).value(), 1 - HALF_TURN);
    assert_eq!(a.minus(&b).value(), HALF_TURN - 1);
    let c = Angle::new(FULL_TURN - 1, AngleWrapping::TwoPi);
    assert_eq!(c.plus(&b).value(), 0);
}
