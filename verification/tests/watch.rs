use obs_gamepad::watch::{ReloadGate, QUIET};

const MS: u128 = 1_000_000;

#[test]
fn quiet_time_is_half_a_second() {
    assert_eq!(QUIET, 500 * MS);
}

#[test]
fn changes_right_after_the_start_are_ignored() {
    let mut gate = ReloadGate::new(1000 * MS);
    assert!(!gate.pass(1000 * MS, true));
    assert!(!gate.pass(1499 * MS, true));
    assert_eq!(gate.last_change, 1000 * MS);
    assert!(gate.pass(1500 * MS, true));
    assert_eq!(gate.last_change, 1500 * MS);
}

#[test]
fn changes_in_quick_succession_count_once() {
    let mut gate = ReloadGate::new(0);
    let times = [600, 610, 900, 1099, 1100, 1101, 1700];
    let passed: Vec<u128> =
        times.iter().copied().filter(|t| gate.pass(t * MS, true)).collect();
    assert_eq!(passed, vec![600, 1100, 1700]);
}

#[test]
fn a_change_of_another_file_is_no_reason_but_counts() {
    let mut gate = ReloadGate::new(0);
    assert!(!gate.pass(600 * MS, false));
    assert!(!gate.pass(700 * MS, true));
    assert!(gate.pass(1100 * MS, true));
}

#[test]
fn a_time_before_the_last_change_is_too_soon() {
    let mut gate = ReloadGate::new(900 * MS);
    assert!(!gate.pass(100 * MS, true));
    assert_eq!(gate.last_change, 900 * MS);
}
