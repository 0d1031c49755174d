use shortcut::timer::{total_millis, CycleCounter, Stopwatch};

#[test]
fn stopwatch_has_one_lap_per_pair_of_clicks() {
    let mut s = Stopwatch::new();
    assert!(s.laps_millis().is_empty());
    s.click();
    assert!(s.laps_millis().is_empty());
    s.click();
    s.click();
    assert_eq!(s.laps_millis().len(), 2);
}

#[test]
fn total_millis_exact_and_saturating() {
    assert_eq!(total_millis(2, 345), 2345);
    assert_eq!(total_millis(0, 999), 999);
    assert_eq!(total_millis(u64::MAX, 0), u64::MAX);
}

#[test]
fn cycle_counter_laps() {
    let mut c = CycleCounter::new();
    assert!(c.laps().is_empty());
    c.click(10);
    c.click(25);
    c.click(5);
    assert_eq!(c.laps(), vec![15, -20]);
}

#[test]
fn cycle_counter_wraps() {
    let mut c = CycleCounter::new();
    c.click(i64::MAX);
    c.click(i64::MIN);
    assert_eq!(c.laps(), vec![1]);
}
