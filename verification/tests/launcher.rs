use greetd_session::launcher::{
    decimal_text, inheritable, worker_arguments, WORKER_FLAG,
};

#[test]
fn numbers_are_written_in_decimal() {
    assert_eq!(decimal_text(0), "0");
    assert_eq!(decimal_text(7), "7");
    assert_eq!(decimal_text(9), "9");
    assert_eq!(decimal_text(10), "10");
    assert_eq!(decimal_text(101), "101");
    assert_eq!(decimal_text(4242), "4242");
    assert_eq!(decimal_text(1000000), "1000000");
    assert_eq!(decimal_text(usize::MAX), usize::MAX.to_string());
    for number in 0..2000usize {
        assert_eq!(decimal_text(number), number.to_string());
    }
}

#[test]
fn the_worker_is_given_the_flag_and_the_descriptor() {
    assert_eq!(WORKER_FLAG, "--session-worker");
    assert_eq!(worker_arguments(5), vec!["--session-worker".to_string(), "5".to_string()]);
    assert_eq!(worker_arguments(0), vec!["--session-worker".to_string(), "0".to_string()]);
    assert_eq!(worker_arguments(1023), vec!["--session-worker".to_string(), "1023".to_string()]);
}

#[test]
fn the_given_bits_are_cleared_and_no_other() {
    assert_eq!(inheritable(0b101, 0b001), 0b100);
    assert_eq!(inheritable(0b100, 0b001), 0b100);
    assert_eq!(inheritable(0b001, 0b001), 0);
    assert_eq!(inheritable(0, 0b001), 0);
    assert_eq!(inheritable(-1, 1), -2);
    assert_eq!(inheritable(0x7fff_ffff, 0x0100_0000), 0x7eff_ffff);
    assert_eq!(inheritable(0b1111, 0b0110), 0b1001);
    assert_eq!(inheritable(0b1111, 0), 0b1111);
}

#[test]
fn an_inheritable_descriptor_is_not_closed_on_exec() {
    let close_on_exec = nix::fcntl::FdFlag::FD_CLOEXEC.bits();
    assert_ne!(close_on_exec, 0);
    for flags in [0, close_on_exec, !close_on_exec, -1, 0b1010, i32::MAX, i32::MIN] {
        let cleared = inheritable(flags, close_on_exec);
        assert_eq!(cleared, flags & !close_on_exec);
        assert_eq!(cleared & close_on_exec, 0);
        assert_eq!(cleared | (flags & close_on_exec), flags);
        assert_eq!(cleared & !flags, 0);
        assert_eq!(inheritable(cleared, close_on_exec), cleared);
        let given = nix::fcntl::FdFlag::from_bits_retain(cleared);
        assert!(!given.contains(nix::fcntl::FdFlag::FD_CLOEXEC));
    }
}

#[test]
fn a_set_flag_is_cleared_and_a_clear_one_stays_clear() {
    assert_eq!(inheritable(1, 1), 0);
    assert_eq!(inheritable(0, 1), 0);
    assert_eq!(inheritable(3, 1), 2);
    assert_eq!(inheritable(2, 1), 2);
    assert_eq!(inheritable(0x0100_0001, 0x0100_0000), 1);
    assert_eq!(inheritable(i32::MIN, i32::MIN), 0);
    assert_eq!(inheritable(-1, -1), 0);
}
