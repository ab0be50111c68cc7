use profi::measure::Measure;
use profi::report::{merge_threads, print_timings, ReportError};
use profi::rows::Hierarchy;
use profi::timing::Timing;

const MS: u64 = 1_000_000;

fn report_scope(name: &str, from: u64, to: u64) -> Vec<Measure> {
    vec![Measure::start(name.to_string(), from), Measure::end(to)]
}

fn report_recursion(name: &str, levels: u64) -> Vec<Measure> {
    let mut log = Vec::new();
    for level in 0..levels {
        log.push(Measure::start(name.to_string(), level * MS));
    }
    for level in 0..levels {
        log.push(Measure::end((10 + level) * MS));
    }
    log
}

fn report_find<'a>(timings: &'a [Timing], name: &str) -> &'a Timing {
    timings.iter().find(|t| t.name == name).unwrap()
}

#[test]
fn merge_across_threads_sums_cpu_and_takes_longest_real() {
    let threads = vec![(10 * MS, report_scope("X", 0, 10 * MS)), (20 * MS, report_scope("X", 0, 20 * MS))];
    let timings = merge_threads(&threads, Hierarchy::Collapsed).unwrap();
    assert_eq!(timings.len(), 1);
    let x = &timings[0];
    assert_eq!(x.name, "X");
    assert_eq!(x.calls, 2);
    assert_eq!(x.total_cpu, 30 * MS);
    assert_eq!(x.total_real, 20 * MS);
    assert_eq!(x.average, 15 * MS);
    assert_eq!(x.percent_app, 10_000);
    assert_eq!(x.percent_cpu, 10_000);
    assert_eq!(x.thread, 0);
    assert_eq!(x.last_thread, 1);
}

#[test]
fn merge_does_not_depend_on_which_thread_was_longer() {
    let threads = vec![(20 * MS, report_scope("X", 0, 20 * MS)), (10 * MS, report_scope("X", 0, 10 * MS))];
    let timings = merge_threads(&threads, Hierarchy::Collapsed).unwrap();
    assert_eq!(timings.len(), 1);
    assert_eq!(timings[0].calls, 2);
    assert_eq!(timings[0].total_cpu, 30 * MS);
    assert_eq!(timings[0].total_real, 20 * MS);
    assert_eq!(timings[0].average, 15 * MS);
}

#[test]
fn recursion_collapses_into_one_entry() {
    let threads = vec![(13 * MS, report_recursion("A", 4))];
    let timings = merge_threads(&threads, Hierarchy::Collapsed).unwrap();
    assert_eq!(timings.len(), 1);
    assert_eq!(timings[0].name, "A");
    assert_eq!(timings[0].formatted_name, "A");
    assert_eq!(timings[0].calls, 4);
    // the innermost call ran 3..10, then 2..11, 1..12, the outermost 0..13
    assert_eq!(timings[0].total_cpu, (7 + 9 + 11 + 13) * MS);
    assert_eq!(timings[0].total_real, (7 + 9 + 11 + 13) * MS);
    assert_eq!(timings[0].average, 10 * MS);
}

#[test]
fn recursion_keeps_each_depth_in_deep_hierarchy() {
    let threads = vec![(13 * MS, report_recursion("A", 4))];
    let timings = merge_threads(&threads, Hierarchy::Deep).unwrap();
    assert_eq!(timings.len(), 4);
    let labels: Vec<&str> = timings.iter().map(|t| t.formatted_name.as_str()).collect();
    assert_eq!(labels, vec!["A", " A", "  A", "   A"]);
    for t in &timings {
        assert_eq!(t.name, "A");
        assert_eq!(t.calls, 1);
    }
    assert_eq!(timings[0].total_real, 13 * MS);
    assert_eq!(timings[3].total_real, 7 * MS);
    assert_eq!(timings[0].percent_app, 10_000);
    assert_eq!(timings[3].percent_app, 7 * 10_000 / 13);
}

#[test]
fn zero_total_reports_full_percent() {
    let threads = vec![(0, report_scope("only", 5, 5))];
    let timings = merge_threads(&threads, Hierarchy::Collapsed).unwrap();
    assert_eq!(timings.len(), 1);
    assert_eq!(timings[0].total_real, 0);
    assert_eq!(timings[0].percent_app, 10_000);
    assert_eq!(timings[0].percent_cpu, 10_000);
    assert_eq!(timings[0].calls, 1);
    assert_eq!(timings[0].average, 0);
}

#[test]
fn no_threads_give_an_empty_table() {
    let timings = merge_threads(&Vec::new(), Hierarchy::Collapsed).unwrap();
    assert!(timings.is_empty());
}

#[test]
fn entries_come_in_first_seen_order() {
    let main = vec![
        Measure::start("main".to_string(), 0),
        Measure::start("load".to_string(), 1 * MS),
        Measure::end(3 * MS),
        Measure::start("work".to_string(), 3 * MS),
        Measure::end(9 * MS),
        Measure::end(10 * MS),
    ];
    let worker = vec![
        Measure::start("work".to_string(), 0),
        Measure::end(4 * MS),
        Measure::start("idle".to_string(), 4 * MS),
        Measure::end(5 * MS),
    ];
    let threads = vec![(10 * MS, main), (5 * MS, worker)];
    let timings = merge_threads(&threads, Hierarchy::Collapsed).unwrap();
    let names: Vec<&str> = timings.iter().map(|t| t.name.as_str()).collect();
    assert_eq!(names, vec!["main", "load", "work", "idle"]);
    let work = report_find(&timings, "work");
    assert_eq!(work.calls, 2);
    assert_eq!(work.total_cpu, 10 * MS);
    assert_eq!(work.total_real, 6 * MS);
    assert_eq!(work.average, 5 * MS);
    assert_eq!(work.percent_app, 6_000);
    // all CPU time: main 10, load 2, work 10, idle 1
    assert_eq!(work.percent_cpu, 10 * 10_000 / 23);
    // the shorter label stays: the root of the worker
    assert_eq!(work.formatted_name, "work");
    assert_eq!(report_find(&timings, "load").formatted_name, " load");
    assert_eq!(report_find(&timings, "idle").percent_app, 1_000);
    assert_eq!(report_find(&timings, "main").percent_app, 10_000);
}

#[test]
fn time_of_the_run_is_the_longest_thread() {
    let threads = vec![
        (4 * MS, report_scope("a", 0, 2 * MS)),
        (8 * MS, report_scope("b", 0, 2 * MS)),
        (6 * MS, report_scope("c", 0, 3 * MS)),
    ];
    let timings = merge_threads(&threads, Hierarchy::Collapsed).unwrap();
    assert_eq!(report_find(&timings, "a").percent_app, 2_500);
    assert_eq!(report_find(&timings, "b").percent_app, 2_500);
    assert_eq!(report_find(&timings, "c").percent_app, 3_750);
    assert_eq!(report_find(&timings, "a").percent_cpu, 2 * 10_000 / 7);
    assert_eq!(report_find(&timings, "c").percent_cpu, 3 * 10_000 / 7);
}

#[test]
fn same_scope_twice_in_one_thread_adds_up_in_real_time() {
    let log = vec![
        Measure::start("x".to_string(), 0),
        Measure::start("io".to_string(), 1 * MS),
        Measure::end(2 * MS),
        Measure::end(3 * MS),
        Measure::start("y".to_string(), 3 * MS),
        Measure::start("io".to_string(), 4 * MS),
        Measure::end(7 * MS),
        Measure::end(8 * MS),
    ];
    let other = report_scope("io", 0, 2 * MS);
    let timings = merge_threads(&vec![(8 * MS, log), (2 * MS, other)], Hierarchy::Collapsed).unwrap();
    let io = report_find(&timings, "io");
    assert_eq!(io.calls, 3);
    assert_eq!(io.total_cpu, 6 * MS);
    assert_eq!(io.total_real, 4 * MS);
    assert_eq!(io.average, 2 * MS);
}

#[test]
fn unmatched_exit_is_reported_with_its_place() {
    let good = report_scope("fine", 0, 1);
    let bad = vec![Measure::start("a".to_string(), 0), Measure::end(1), Measure::end(2)];
    let worse = vec![Measure::end(0)];
    let threads = vec![(1, good), (2, bad), (3, worse)];
    assert_eq!(
        merge_threads(&threads, Hierarchy::Collapsed).unwrap_err(),
        ReportError::UnmatchedExit { thread: 1, at: 2 }
    );
    let mut sink = b"kept".to_vec();
    assert_eq!(
        print_timings(&threads, Hierarchy::Deep, &mut sink),
        Err(ReportError::UnmatchedExit { thread: 1, at: 2 })
    );
    assert_eq!(sink, b"kept".to_vec());
}

#[test]
fn scope_that_is_never_left_is_reported() {
    let good = report_scope("fine", 0, 1);
    let open = vec![Measure::start("a".to_string(), 0), Measure::start("b".to_string(), 1), Measure::end(2)];
    let bad = vec![Measure::end(0)];
    let threads = vec![(1, good), (2, open), (3, bad)];
    assert_eq!(
        merge_threads(&threads, Hierarchy::Collapsed).unwrap_err(),
        ReportError::OpenScope { thread: 1 }
    );
    let mut sink = Vec::new();
    assert_eq!(
        print_timings(&threads, Hierarchy::Deep, &mut sink),
        Err(ReportError::OpenScope { thread: 1 })
    );
    assert!(sink.is_empty());
    let only = vec![(5, vec![Measure::start("A".to_string(), 0)])];
    assert_eq!(merge_threads(&only, Hierarchy::Collapsed).unwrap_err(), ReportError::OpenScope { thread: 0 });
}

#[test]
fn first_thread_with_a_fault_is_reported() {
    let open = vec![Measure::start("a".to_string(), 0)];
    let bad = vec![Measure::end(0)];
    let both = vec![Measure::end(0), Measure::start("a".to_string(), 1)];
    assert_eq!(
        merge_threads(&vec![(1, bad), (1, open)], Hierarchy::Collapsed).unwrap_err(),
        ReportError::UnmatchedExit { thread: 0, at: 0 }
    );
    assert_eq!(
        merge_threads(&vec![(1, both)], Hierarchy::Collapsed).unwrap_err(),
        ReportError::UnmatchedExit { thread: 0, at: 0 }
    );
}

#[test]
fn time_that_does_not_fit_is_reported() {
    let log = vec![
        Measure::start("long".to_string(), 0),
        Measure::end(u64::MAX),
        Measure::start("long".to_string(), 0),
        Measure::end(1),
    ];
    assert_eq!(merge_threads(&vec![(5, log)], Hierarchy::Collapsed).unwrap_err(), ReportError::Overflow);
    let threads = vec![(5, report_scope("long", 0, u64::MAX)), (5, report_scope("long", 0, 1))];
    assert_eq!(merge_threads(&threads, Hierarchy::Collapsed).unwrap_err(), ReportError::Overflow);
    let threads = vec![(5, report_scope("long", 0, u64::MAX)), (5, report_scope("short", 0, 1))];
    let timings = merge_threads(&threads, Hierarchy::Collapsed).unwrap();
    assert_eq!(timings[0].total_cpu, u64::MAX);
    assert_eq!(timings[1].total_cpu, 1);
}

#[test]
fn report_is_the_same_when_made_twice() {
    let threads = vec![(10 * MS, report_recursion("A", 3)), (20 * MS, report_scope("X", 0, 20 * MS))];
    let mut first = Vec::new();
    let mut second = Vec::new();
    assert_eq!(print_timings(&threads, Hierarchy::Collapsed, &mut first), Ok(()));
    assert_eq!(print_timings(&threads, Hierarchy::Collapsed, &mut second), Ok(()));
    assert!(!first.is_empty());
    assert_eq!(first, second);
    assert_eq!(*first.last().unwrap(), b'\n');
}

#[test]
fn report_is_appended_to_the_sink() {
    let threads = vec![(10 * MS, report_scope("X", 0, 10 * MS))];
    let mut fresh = Vec::new();
    print_timings(&threads, Hierarchy::Collapsed, &mut fresh).unwrap();
    let mut sink = b"before\n".to_vec();
    print_timings(&threads, Hierarchy::Collapsed, &mut sink).unwrap();
    assert_eq!(&sink[..7], b"before\n");
    assert_eq!(&sink[7..], &fresh[..]);
}
