use sequencer::types::{u2, u4, u7, Controller, Note, OutOfRange, Param};

#[test]
fn u2_bounds() {
    assert_eq!(u2::try_from(0).unwrap().get(), 0);
    assert_eq!(u2::try_from(3).unwrap().get(), 3);
    assert_eq!(u2::try_from(4), Err(OutOfRange));
    assert_eq!(u2::MAX, 3);
}

#[test]
fn u4_bounds() {
    assert_eq!(u4::try_from(0).unwrap().get(), 0);
    assert_eq!(u4::try_from(15).unwrap().get(), 15);
    assert_eq!(u4::try_from(16), Err(OutOfRange));
    assert_eq!(u4::MAX, 15);
}

#[test]
fn u7_bounds() {
    assert_eq!(u7::try_from(0).unwrap().get(), 0);
    assert_eq!(u7::try_from(127).unwrap().get(), 127);
    assert_eq!(u7::try_from(128), Err(OutOfRange));
    assert_eq!(u7::MAX, 127);
}

#[test]
fn u4_wrapping() {
    let a = u4::try_from(9).unwrap();
    let b = u4::try_from(9).unwrap();
    // Sums above 15 wrap by subtracting 15: 9 + 9 = 18 -> 3.
    assert_eq!(a.wrapping_add(b).get(), 3);
    let c = u4::try_from(7).unwrap();
    let d = u4::try_from(8).unwrap();
    assert_eq!(c.wrapping_add(d).get(), 15);
    let z = u4::try_from(0).unwrap();
    assert_eq!(z.wrapping_add(z).get(), 0);
}

#[test]
fn note_from_pitch() {
    let n = Note::from_pitch(u7::try_from(42).unwrap());
    assert_eq!(n.pitch.get(), 42);
    assert_eq!(n.velocity.get(), 0);
    assert_eq!(n.duration.get(), 0);
}

#[test]
fn param_from_controller() {
    let p = Param::from_controller(Controller::Breath);
    assert_eq!(p.controller, Controller::Breath);
    assert_eq!(p.value.get(), 0);
}

#[test]
fn controller_numbers() {
    // The fixed protocol mapping: Modulation=1, Breath=2, Volume=7, Pan=10.
    assert_eq!(Controller::Modulation.number().get(), 1);
    assert_eq!(Controller::Breath.number().get(), 2);
    assert_eq!(Controller::Volume.number().get(), 7);
    assert_eq!(Controller::Pan.number().get(), 10);
}
