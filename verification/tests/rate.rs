use pico_demux::rate::RateCalc;

const SECOND: u64 = 1_000_000_000;

#[test]
fn new_estimator_keeps_nothing() {
    let calc = RateCalc::new(5 * SECOND);
    assert_eq!(calc.len(), 0);
}

#[test]
fn first_delivery_has_no_time_to_be_held_against() {
    let mut calc = RateCalc::new(5 * SECOND);
    assert_eq!(calc.get_value(7 * SECOND, 50), u64::MAX);
    assert_eq!(calc.len(), 1);
    let mut calc = RateCalc::new(5 * SECOND);
    assert_eq!(calc.get_value(7 * SECOND, 0), 0);
}

#[test]
fn rate_counts_the_oldest_delivery_while_none_is_outdated() {
    let mut calc = RateCalc::new(5 * SECOND);
    calc.get_value(0, 100);
    assert_eq!(calc.get_value(SECOND, 100), 200);
    assert_eq!(calc.get_value(2 * SECOND, 100), 150);
    assert_eq!(calc.get_value(4 * SECOND, 500), 200);
    assert_eq!(calc.len(), 4);
}

#[test]
fn rate_is_rounded_down() {
    let mut calc = RateCalc::new(5 * SECOND);
    calc.get_value(0, 3);
    assert_eq!(calc.get_value(3 * SECOND, 7), 3);
    let mut calc = RateCalc::new(5 * SECOND);
    calc.get_value(0, 0);
    assert_eq!(calc.get_value(3, 2), 666_666_666);
}

#[test]
fn outdated_deliveries_are_forgotten_but_for_the_last() {
    let mut calc = RateCalc::new(5 * SECOND);
    for second in 0..6u64 {
        calc.get_value(second * SECOND, 100);
    }
    assert_eq!(calc.len(), 6);
    // At 6 s the delivery at 0 s is outdated, and it is the only one: it
    // stays as the start of the measured time, and its samples count no more.
    assert_eq!(calc.get_value(6 * SECOND, 100), 100);
    assert_eq!(calc.len(), 7);
    // At 7 s the deliveries at 0 s and 1 s are outdated: the first goes.
    assert_eq!(calc.get_value(7 * SECOND, 160), 110);
    assert_eq!(calc.len(), 7);
    // At 20 s everything before is outdated.
    assert_eq!(calc.get_value(20 * SECOND, 26), 2);
    assert_eq!(calc.len(), 2);
}

#[test]
fn delivery_exactly_one_window_old_is_not_outdated() {
    let mut calc = RateCalc::new(5 * SECOND);
    calc.get_value(0, 1000);
    calc.get_value(SECOND, 1000);
    assert_eq!(calc.get_value(5 * SECOND, 500), 500);
    assert_eq!(calc.len(), 3);
    // One nanosecond later it is: its 1000 samples count no more.
    assert_eq!(calc.get_value(5 * SECOND + 1, 0), 299);
}

#[test]
fn delivery_from_the_future_is_not_outdated() {
    let mut calc = RateCalc::new(5 * SECOND);
    calc.get_value(10 * SECOND, 40);
    assert_eq!(calc.get_value(9 * SECOND, 2), u64::MAX);
    assert_eq!(calc.len(), 2);
    assert_eq!(calc.get_value(12 * SECOND, 0), 21);
}

#[test]
fn rate_is_held_to_the_range() {
    let mut calc = RateCalc::new(5 * SECOND);
    calc.get_value(0, 0);
    assert_eq!(calc.get_value(1, usize::MAX), u64::MAX);
    let mut calc = RateCalc::new(5 * SECOND);
    calc.get_value(0, 0);
    assert_eq!(calc.get_value(SECOND, 18_446_744_073), 18_446_744_073);
    let mut calc = RateCalc::new(5 * SECOND);
    calc.get_value(0, 0);
    assert_eq!(calc.get_value(1, 18_446_744_073), 18_446_744_073_000_000_000);
    let mut calc = RateCalc::new(5 * SECOND);
    calc.get_value(0, 0);
    assert_eq!(calc.get_value(1, 18_446_744_074), u64::MAX);
}

#[test]
fn zero_window_outdates_everything_older_than_now() {
    let mut calc = RateCalc::new(0);
    calc.get_value(0, 10);
    calc.get_value(1, 10);
    assert_eq!(calc.get_value(2, 10), 10 * SECOND);
    assert_eq!(calc.len(), 2);
}
