use cctag::marker::Status;

#[test]
fn status_codes() {
    assert_eq!(Status::Undetermined.code(), 0);
    assert_eq!(Status::IdReliable.code(), 1);
    assert_eq!(Status::TooFewOuterPointsOrNoCuts.code(), -1);
    assert_eq!(Status::NoSelectedCuts.code(), -2);
    assert_eq!(Status::OptiHasDiverged.code(), -3);
    assert_eq!(Status::IdNotReliable.code(), -4);
    assert_eq!(Status::Degenerate.code(), -5);
}

#[test]
fn status_code_roundtrip() {
    for s in [
        Status::Undetermined,
        Status::IdReliable,
        Status::TooFewOuterPointsOrNoCuts,
        Status::NoSelectedCuts,
        Status::OptiHasDiverged,
        Status::IdNotReliable,
        Status::Degenerate,
    ] {
        assert_eq!(Status::from_code(s.code()), s);
    }
    assert_eq!(Status::from_code(7), Status::Undetermined);
    assert_eq!(Status::from_code(-6), Status::Undetermined);
}

#[test]
fn only_id_reliable_is_reliable() {
    assert!(Status::IdReliable.is_reliable());
    assert!(!Status::Undetermined.is_reliable());
    assert!(!Status::IdNotReliable.is_reliable());
}
