use greetd_session::child::{Delivery, Pid, SessionChild, Signal};

#[test]
fn a_session_owns_its_two_processes_and_no_other() {
    let child = SessionChild::new(Pid::from_raw(100), Pid::from_raw(4242));
    assert!(child.owns_pid(Pid::from_raw(100)));
    assert!(child.owns_pid(Pid::from_raw(4242)));
    for other in [0, 1, 99, 101, 4241, 4243, -100, i32::MAX, i32::MIN] {
        assert!(!child.owns_pid(Pid::from_raw(other)));
    }
    let same = SessionChild::new(Pid::from_raw(7), Pid::from_raw(7));
    assert!(same.owns_pid(Pid::from_raw(7)));
    assert!(!same.owns_pid(Pid::from_raw(8)));
}

#[test]
fn term_asks_the_reported_process_alone() {
    let child = SessionChild::new(Pid::from_raw(100), Pid::from_raw(4242));
    assert_eq!(
        child.term(),
        vec![Delivery { target: Pid::from_raw(4242), signal: Signal::Terminate }]
    );
}

#[test]
fn kill_ends_the_reported_process_and_then_the_worker() {
    let child = SessionChild::new(Pid::from_raw(100), Pid::from_raw(4242));
    assert_eq!(
        child.kill(),
        vec![
            Delivery { target: Pid::from_raw(4242), signal: Signal::Kill },
            Delivery { target: Pid::from_raw(100), signal: Signal::Kill },
        ]
    );
}

#[test]
fn term_of_a_session_that_is_gone_is_no_failure() {
    let gone = SessionChild::new(Pid::from_raw(100), Pid::from_raw(i32::MAX));
    let signals = gone.term();
    assert_eq!(signals.len(), 1);
    let delivered = signals
        .iter()
        .map(|delivery| {
            nix::sys::signal::kill(nix::unistd::Pid::from_raw(delivery.target.as_raw()), None)
        })
        .filter(|outcome| outcome.is_ok())
        .count();
    assert_eq!(delivered, 0);
    assert_eq!(gone.term(), signals);
}

#[test]
fn a_process_identifier_is_its_number() {
    assert_eq!(Pid::from_raw(4242).as_raw(), 4242);
    assert_eq!(Pid::from_raw(-1).as_raw(), -1);
    assert_eq!(Pid::from_raw(5), Pid { raw: 5 });
    assert_ne!(Pid::from_raw(5), Pid::from_raw(6));
}
