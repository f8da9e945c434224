use guck::error::ErrorKind;
use guck::process::{delivery, liveness, SignalOutcome};

#[test]
fn liveness_reads_each_outcome() {
    assert_eq!(liveness(SignalOutcome::Delivered), Ok(true));
    assert_eq!(liveness(SignalOutcome::NoSuchProcess), Ok(false));
    assert_eq!(
        liveness(SignalOutcome::Refused),
        Err(ErrorKind::ProcessControlFailure)
    );
}

#[test]
fn delivery_reads_each_outcome() {
    assert_eq!(delivery(SignalOutcome::Delivered), Ok(()));
    assert_eq!(
        delivery(SignalOutcome::NoSuchProcess),
        Err(ErrorKind::ProcessControlFailure)
    );
    assert_eq!(
        delivery(SignalOutcome::Refused),
        Err(ErrorKind::ProcessControlFailure)
    );
}
