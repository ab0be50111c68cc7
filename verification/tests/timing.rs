use profi::timing::{average, checked_sum, percent, Timing};

fn timing_row(name: &str, label: &str, durations: &[u64], total: u64, thread: usize) -> Timing {
    Timing::from_durations(name.to_string(), label.to_string(), &durations.to_vec(), total, thread).unwrap()
}

#[test]
fn sum_of_durations_is_checked() {
    assert_eq!(checked_sum(&Vec::new()), Some(0));
    assert_eq!(checked_sum(&vec![1, 2, 3]), Some(6));
    assert_eq!(checked_sum(&vec![u64::MAX]), Some(u64::MAX));
    assert_eq!(checked_sum(&vec![u64::MAX, 0, 0]), Some(u64::MAX));
    assert_eq!(checked_sum(&vec![u64::MAX, 1]), None);
    assert_eq!(checked_sum(&vec![1, u64::MAX, 5]), None);
}

#[test]
fn percent_is_in_hundredths_rounded_down() {
    assert_eq!(percent(1, 3), 3_333);
    assert_eq!(percent(2, 3), 6_666);
    assert_eq!(percent(3, 3), 10_000);
    assert_eq!(percent(0, 3), 0);
    assert_eq!(percent(6, 3), 20_000);
    assert_eq!(percent(u64::MAX, 1), u64::MAX as u128 * 10_000);
}

#[test]
fn percent_of_nothing_is_full() {
    assert_eq!(percent(0, 0), 10_000);
    assert_eq!(percent(17, 0), 10_000);
}

#[test]
fn average_is_time_per_call() {
    assert_eq!(average(30, 2), 15);
    assert_eq!(average(31, 2), 15);
    assert_eq!(average(5, 0), 5);
    assert_eq!(average(0, 4), 0);
}

#[test]
fn figures_of_one_scope_come_from_its_durations() {
    let t = timing_row("io", "  io", &[10, 20, 30], 120, 3);
    assert_eq!(t.name, "io");
    assert_eq!(t.formatted_name, "  io");
    assert_eq!(t.calls, 3);
    assert_eq!(t.total_real, 60);
    assert_eq!(t.total_cpu, 60);
    assert_eq!(t.thread_real, 60);
    assert_eq!(t.average, 20);
    assert_eq!(t.percent_app, 5_000);
    assert_eq!(t.percent_cpu, 5_000);
    assert_eq!(t.thread, 3);
    assert_eq!(t.last_thread, 3);
}

#[test]
fn scope_that_never_ended_has_no_calls() {
    let t = timing_row("open", "open", &[], 0, 0);
    assert_eq!(t.calls, 0);
    assert_eq!(t.total_real, 0);
    assert_eq!(t.average, 0);
    assert_eq!(t.percent_app, 10_000);
}

#[test]
fn durations_that_do_not_fit_give_no_figures() {
    assert!(Timing::from_durations("x".to_string(), "x".to_string(), &vec![u64::MAX, 1], 1, 0).is_none());
}

#[test]
fn merge_of_another_thread_takes_the_longer_time() {
    let mut a = timing_row("x", "x", &[10], 10, 0);
    let b = timing_row("x", "x", &[20], 20, 1);
    assert!(a.merge(&b));
    assert_eq!(a.calls, 2);
    assert_eq!(a.total_cpu, 30);
    assert_eq!(a.total_real, 20);
    assert_eq!(a.average, 15);
    assert_eq!(a.thread, 0);
    assert_eq!(a.last_thread, 1);
    assert_eq!(a.thread_real, 20);
    let c = timing_row("x", "x", &[5], 5, 2);
    assert!(a.merge(&c));
    assert_eq!(a.calls, 3);
    assert_eq!(a.total_cpu, 35);
    assert_eq!(a.total_real, 20);
    assert_eq!(a.thread, 0);
    assert_eq!(a.last_thread, 2);
    assert_eq!(a.thread_real, 5);
}

#[test]
fn merge_of_the_same_thread_adds_the_time() {
    let mut a = timing_row("x", " x", &[10], 100, 4);
    let b = timing_row("x", "  x", &[20, 30], 100, 4);
    assert!(a.merge(&b));
    assert_eq!(a.calls, 3);
    assert_eq!(a.total_cpu, 60);
    assert_eq!(a.total_real, 60);
    assert_eq!(a.thread_real, 60);
    assert_eq!(a.average, 20);
    assert_eq!(a.formatted_name, " x");
}

#[test]
fn merge_keeps_the_shorter_label() {
    let mut a = timing_row("x", "   x", &[1], 1, 0);
    let b = timing_row("x", " x", &[1], 1, 1);
    assert!(a.merge(&b));
    assert_eq!(a.formatted_name, " x");
    let c = timing_row("x", " y", &[1], 1, 2);
    assert!(a.merge(&c));
    assert_eq!(a.formatted_name, " x");
}

#[test]
fn merge_that_does_not_fit_changes_nothing() {
    let mut a = timing_row("x", "x", &[u64::MAX], 1, 0);
    let b = timing_row("x", "xx", &[1], 1, 1);
    assert!(!a.merge(&b));
    assert_eq!(a.calls, 1);
    assert_eq!(a.total_cpu, u64::MAX);
    assert_eq!(a.thread, 0);
    let mut many = timing_row("x", "x", &[1], 1, 0);
    many.calls = usize::MAX;
    assert!(!many.merge(&b));
    assert_eq!(many.calls, usize::MAX);
    assert_eq!(many.total_cpu, 1);
}

#[test]
fn percentages_are_set_against_the_totals() {
    let mut t = timing_row("x", "x", &[30], 30, 0);
    t.total_real = 20;
    t.update_percent(40, 120);
    assert_eq!(t.percent_app, 5_000);
    assert_eq!(t.percent_cpu, 2_500);
    assert_eq!(t.total_real, 20);
    assert_eq!(t.total_cpu, 30);
    t.update_percent(0, 0);
    assert_eq!(t.percent_app, 10_000);
    assert_eq!(t.percent_cpu, 10_000);
}

#[test]
fn duplicate_is_equal_in_every_field() {
    let t = timing_row("x", " x", &[3, 4], 10, 2);
    let d = t.duplicate();
    assert_eq!(format!("{:?}", t), format!("{:?}", d));
}
