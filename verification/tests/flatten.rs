use profi::aggregate::key_of;
use profi::flat::__LocalProfilerGuard;
use profi::flatten::{timings_under, to_timings};
use profi::forest::into_tree;
use profi::measure::Measure;
use profi::report::{merge_threads, ReportError};
use profi::rows::Hierarchy;
use profi::timing::Timing;

fn flatten_events(steps: &[&str]) -> Vec<Measure> {
    // A name enters a scope, an empty string leaves one; the clock goes on
    // by ten with every event.
    let mut log = Vec::new();
    let mut clock = 0;
    for step in steps {
        clock += 10;
        if step.is_empty() {
            log.push(Measure::end(clock));
        } else {
            log.push(Measure::start(step.to_string(), clock));
        }
    }
    log
}

fn flatten_log() -> Vec<Measure> {
    // main { a { b } a { b c } d }, then a second root
    flatten_events(&["main", "a", "b", "", "", "a", "b", "", "c", "", "", "d", "", "", "tail", ""])
}

fn flatten_row(name: &str, label: &str, durations: &[u64], thread: usize) -> Timing {
    Timing::from_durations(name.to_string(), label.to_string(), &durations.to_vec(), 1_000, thread).unwrap()
}

#[test]
fn rows_come_in_pre_order() {
    let forest = into_tree(&flatten_log(), Hierarchy::Collapsed);
    let rows = to_timings(&forest, 160, 7).unwrap();
    let labels: Vec<&str> = rows.iter().map(|t| t.formatted_name.as_str()).collect();
    assert_eq!(labels, vec!["main", " a", "  b", "  c", " d", "tail"]);
    let names: Vec<&str> = rows.iter().map(|t| t.name.as_str()).collect();
    assert_eq!(names, vec!["main", "a", "b", "c", "d", "tail"]);
    assert!(rows.iter().all(|t| t.thread == 7));
}

#[test]
fn rows_hold_the_figures_of_their_scope() {
    let forest = into_tree(&flatten_log(), Hierarchy::Collapsed);
    let rows = to_timings(&forest, 160, 0).unwrap();
    let calls: Vec<usize> = rows.iter().map(|t| t.calls).collect();
    assert_eq!(calls, vec![1, 2, 2, 1, 1, 1]);
    let totals: Vec<u64> = rows.iter().map(|t| t.total_real).collect();
    assert_eq!(totals, vec![130, 30 + 50, 10 + 10, 10, 10, 10]);
    assert_eq!(rows[0].percent_app, 130 * 10_000 / 160);
    assert_eq!(rows[1].average, 40);
    assert_eq!(rows[5].percent_app, 625);
}

#[test]
fn rows_under_one_scope_leave_the_rest_out() {
    let forest = into_tree(&flatten_log(), Hierarchy::Collapsed);
    let under_main = timings_under(&forest, Some(0), 160, 0).unwrap();
    let names: Vec<&str> = under_main.iter().map(|t| t.name.as_str()).collect();
    assert_eq!(names, vec!["a", "b", "c", "d"]);
    let under_a = timings_under(&forest, Some(1), 160, 0).unwrap();
    assert_eq!(under_a.len(), 2);
    assert!(timings_under(&forest, Some(2), 160, 0).unwrap().is_empty());
}

#[test]
fn rows_fail_when_a_scope_took_too_long() {
    let log = vec![
        Measure::start("fine".to_string(), 0),
        Measure::end(5),
        Measure::start("long".to_string(), 0),
        Measure::end(u64::MAX),
        Measure::start("long".to_string(), 0),
        Measure::end(1),
    ];
    let forest = into_tree(&log, Hierarchy::Collapsed);
    assert!(to_timings(&forest, 1, 0).is_none());
}

#[test]
fn a_parent_has_no_smaller_share_than_a_child() {
    let forest = into_tree(&flatten_log(), Hierarchy::Collapsed);
    let rows = to_timings(&forest, 160, 0).unwrap();
    let share = |name: &str| rows.iter().find(|t| t.name == name).unwrap().percent_app;
    assert!(share("main") >= share("a"));
    assert!(share("main") >= share("d"));
    assert!(share("a") >= share("b"));
    assert!(share("a") >= share("c"));
    assert!(share("main") >= share("a") + share("d"));
}

#[test]
fn outermost_scopes_share_no_more_than_the_whole() {
    let forest = into_tree(&flatten_log(), Hierarchy::Collapsed);
    let rows = to_timings(&forest, 150, 0).unwrap();
    let roots: u128 = rows.iter().filter(|t| t.formatted_name == t.name).map(|t| t.percent_app).sum();
    assert_eq!(roots, 130 * 10_000 / 150 + 10 * 10_000 / 150);
    assert!(roots <= 10_000);
}

#[test]
fn calls_of_the_table_add_up_to_the_starts() {
    let worker = ["a", "a", "", "", "tail", ""];
    let starts = flatten_log().iter().filter(|m| m.is_start()).count()
        + worker.iter().filter(|step| !step.is_empty()).count();
    assert_eq!(starts, 11);
    for mode in [Hierarchy::Collapsed, Hierarchy::Deep] {
        let threads = vec![(160, flatten_log()), (60, flatten_events(&worker))];
        let timings = merge_threads(&threads, mode).unwrap();
        assert_eq!(timings.iter().map(|t| t.calls).sum::<usize>(), starts);
    }
}

#[test]
fn key_is_the_name_or_the_label() {
    let row = flatten_row("x", "  x", &[1], 0);
    assert_eq!(key_of(&row, Hierarchy::Collapsed), "x");
    assert_eq!(key_of(&row, Hierarchy::Deep), "  x");
}

#[test]
fn scopes_of_one_name_fall_into_one_entry() {
    // x at the root for 10, x two levels down for 10, and x alone on a
    // second thread for 30
    let first = flatten_events(&["x", "", "y", "z", "x", "", "", ""]);
    let second = vec![Measure::start("x".to_string(), 0), Measure::end(30)];
    let timings = merge_threads(&vec![(80, first), (40, second)], Hierarchy::Collapsed).unwrap();
    let names: Vec<&str> = timings.iter().map(|t| t.name.as_str()).collect();
    assert_eq!(names, vec!["x", "y", "z"]);
    let x = &timings[0];
    assert_eq!(x.calls, 3);
    assert_eq!(x.total_cpu, 50);
    assert_eq!(x.total_real, 30);
    assert_eq!(x.average, 16);
    assert_eq!(x.formatted_name, "x");
    assert_eq!(x.percent_app, 3_750);
    // all CPU time: x 50, y 50, z 30
    assert_eq!(x.percent_cpu, 50 * 10_000 / 130);
    assert_eq!(timings[1].percent_cpu, 50 * 10_000 / 130);
    assert_eq!(timings[2].percent_cpu, 30 * 10_000 / 130);
}

#[test]
fn scopes_of_one_name_keep_their_depths_apart_in_deep_hierarchy() {
    let first = flatten_events(&["x", "", "y", "z", "x", "", "", ""]);
    let second = flatten_events(&["x", ""]);
    let timings = merge_threads(&vec![(80, first), (40, second)], Hierarchy::Deep).unwrap();
    let labels: Vec<&str> = timings.iter().map(|t| t.formatted_name.as_str()).collect();
    assert_eq!(labels, vec!["x", "y", " z", "  x"]);
    assert_eq!(timings[0].calls, 2);
    assert_eq!(timings[0].total_cpu, 20);
    assert_eq!(timings[0].total_real, 10);
    assert_eq!(timings[3].calls, 1);
    assert_eq!(timings[3].name, "x");
}

#[test]
fn entry_that_does_not_fit_fails_the_table() {
    let first = vec![Measure::start("x".to_string(), 0), Measure::end(u64::MAX)];
    let second = vec![
        Measure::start("y".to_string(), 0),
        Measure::end(5),
        Measure::start("x".to_string(), 5),
        Measure::end(6),
    ];
    assert_eq!(
        merge_threads(&vec![(1, first), (1, second)], Hierarchy::Collapsed).unwrap_err(),
        ReportError::Overflow
    );
}

#[test]
fn stopwatch_gives_its_name_and_the_time() {
    let watch = __LocalProfilerGuard::starting_at("load".to_string(), 100);
    assert_eq!(watch.stop_at(175), ("load".to_string(), 75));
    let early = __LocalProfilerGuard::starting_at("odd".to_string(), 100);
    assert_eq!(early.stop_at(50), ("odd".to_string(), 0));
    let (name, _) = __LocalProfilerGuard::new("now".to_string()).stop();
    assert_eq!(name, "now");
}
