use profi::measure::Measure;
use profi::profiler::{GlobalProfiler, ThreadProfiler};
use profi::report::merge_threads;
use profi::rows::Hierarchy;
use profi::zz_private::{print_timings_to, Guard, MiniprofDrop, ProfiDrop, ScopeGuard};

fn profiler_log(name: &str, calls: u64) -> ThreadProfiler {
    let mut thread = ThreadProfiler::starting_at(0);
    for call in 0..calls {
        thread.push_at(name.to_string(), call * 10);
        thread.pop(call * 10 + 5);
    }
    thread
}

#[test]
fn registry_starts_with_the_reporting_thread() {
    let global = GlobalProfiler::new();
    assert_eq!(global.active_threads(), 1);
    assert!(global.is_quiescent());
    assert!(global.finished().is_empty());
}

#[test]
fn registry_is_quiescent_only_when_all_workers_are_done() {
    let mut global = GlobalProfiler::new();
    global.register_thread();
    global.register_thread();
    assert_eq!(global.active_threads(), 3);
    assert!(!global.is_quiescent());
    global.finalize_thread(7, vec![Measure::start("w".to_string(), 0), Measure::end(7)], false);
    assert_eq!(global.active_threads(), 2);
    assert!(!global.is_quiescent());
    global.finalize_thread(9, vec![Measure::start("w".to_string(), 0), Measure::end(9)], false);
    assert_eq!(global.active_threads(), 1);
    assert!(global.is_quiescent());
    assert_eq!(global.finished().len(), 2);
}

#[test]
fn reporting_thread_goes_first_and_stays_counted() {
    let mut global = GlobalProfiler::new();
    global.register_thread();
    global.finalize_thread(5, vec![Measure::start("worker".to_string(), 0), Measure::end(5)], false);
    global.finalize_thread(9, vec![Measure::start("main".to_string(), 0), Measure::end(9)], true);
    assert_eq!(global.active_threads(), 1);
    let logs = global.finished();
    assert_eq!(logs.len(), 2);
    assert_eq!(logs[0].0, 9);
    assert_eq!(logs[1].0, 5);
    assert!(logs[0].1[0].is_start());
}

#[test]
fn empty_log_is_not_kept() {
    let mut global = GlobalProfiler::new();
    global.register_thread();
    global.finalize_thread(5, Vec::new(), false);
    assert!(global.finished().is_empty());
    assert_eq!(global.active_threads(), 1);
    global.finalize_thread(5, Vec::new(), true);
    assert!(global.finished().is_empty());
    assert_eq!(global.active_threads(), 1);
}

#[test]
fn last_worker_hands_in_at_a_count_of_one() {
    let mut global = GlobalProfiler::new();
    let mut worker = profiler_log("w", 2);
    worker.manual_drop_at(&mut global, false, 40);
    assert_eq!(global.active_threads(), 0);
    assert!(global.is_quiescent());
    assert_eq!(global.finished().len(), 1);
    assert_eq!(global.finished()[0].0, 40);
    assert_eq!(global.finished()[0].1.len(), 4);
}

#[test]
fn reporting_thread_leaves_the_count_after_the_report() {
    let mut global = GlobalProfiler::new();
    global.register_thread();
    let mut worker = profiler_log("w", 1);
    let mut main = profiler_log("m", 1);
    assert!(worker.manual_drop(&mut global, false));
    assert!(!main.manual_drop(&mut global, true));
    assert_eq!(global.active_threads(), 1);
    let timings = merge_threads(global.finished(), Hierarchy::Collapsed).unwrap();
    assert_eq!(timings.len(), 2);
    assert!(main.manual_drop(&mut global, false));
    assert_eq!(global.active_threads(), 0);
    assert_eq!(global.finished().len(), 2);
}

#[test]
fn second_hand_in_adds_no_log() {
    let mut global = GlobalProfiler::new();
    global.register_thread();
    global.register_thread();
    let mut worker = profiler_log("w", 1);
    worker.manual_drop_at(&mut global, false, 10);
    worker.manual_drop_at(&mut global, false, 20);
    assert_eq!(global.finished().len(), 1);
    assert_eq!(global.active_threads(), 1);
}

#[test]
fn thread_time_is_settled_once() {
    let mut thread = ThreadProfiler::starting_at(100);
    assert_eq!(thread.get_thread_time_at(130), 30);
    assert_eq!(thread.get_thread_time_at(90), 0);
    thread.set_thread_time_at(150);
    assert_eq!(thread.get_thread_time_at(400), 50);
    thread.set_thread_time_at(900);
    assert_eq!(thread.get_thread_time_at(1_000), 50);
    assert_eq!(thread.get_thread_time(), 50);
}

#[test]
fn finalize_hands_out_the_log_and_empties_it() {
    let mut thread = profiler_log("s", 2);
    let (elapsed, events) = thread.finalize_at(40);
    assert_eq!(elapsed, 40);
    assert_eq!(events.len(), 4);
    assert!(events[0].is_start());
    assert!(!events[1].is_start());
    assert_eq!(events[2].time, 10);
    assert_eq!(events[3].time, 15);
    let (again, rest) = thread.finalize_at(70);
    assert_eq!(again, 70);
    assert!(rest.is_empty());
}

#[test]
fn manual_drop_flushes_into_the_registry() {
    let mut global = GlobalProfiler::new();
    global.register_thread();
    let mut worker = profiler_log("w", 3);
    let mut main = profiler_log("m", 1);
    worker.manual_drop_at(&mut global, false, 30);
    assert!(global.is_quiescent());
    main.manual_drop_at(&mut global, true, 50);
    assert_eq!(global.active_threads(), 1);
    let logs = global.finished();
    assert_eq!(logs.len(), 2);
    assert_eq!((logs[0].0, logs[0].1.len()), (50, 2));
    assert_eq!((logs[1].0, logs[1].1.len()), (30, 6));
}

#[test]
fn manual_drop_tells_whether_to_wake_the_reporter() {
    let mut global = GlobalProfiler::new();
    let mut worker = ThreadProfiler::new(&mut global);
    assert_eq!(global.active_threads(), 2);
    worker.push("w".to_string());
    worker.pop(u64::MAX);
    worker.set_thread_time();
    let mut main = profiler_log("m", 1);
    assert!(worker.manual_drop(&mut global, false));
    assert!(!main.manual_drop(&mut global, true));
    assert_eq!(global.active_threads(), 1);
    assert_eq!(global.finished().len(), 2);
    assert_eq!(global.finished()[1].1.len(), 2);
}

#[test]
fn counts_do_not_depend_on_the_order_in_which_workers_finish() {
    let orders: [[usize; 4]; 4] = [[0, 1, 2, 3], [3, 2, 1, 0], [2, 0, 3, 1], [1, 3, 0, 2]];
    for order in orders {
        let mut global = GlobalProfiler::new();
        let mut workers: Vec<Option<ThreadProfiler>> = Vec::new();
        for w in 0..4u64 {
            global.register_thread();
            let name = if w < 3 { "3 first" } else { "1 last" };
            workers.push(Some(profiler_log(name, 10 * (w + 1))));
        }
        let mut main = profiler_log("main", 1);
        for (step, w) in order.iter().enumerate() {
            assert!(!global.is_quiescent());
            let mut worker = workers[*w].take().unwrap();
            worker.manual_drop_at(&mut global, false, 1_000 + step as u64);
        }
        assert!(global.is_quiescent());
        main.manual_drop_at(&mut global, true, 2_000);
        let timings = merge_threads(global.finished(), Hierarchy::Collapsed).unwrap();
        let names: Vec<&str> = timings.iter().map(|t| t.name.as_str()).collect();
        assert_eq!(names[0], "main");
        let first = timings.iter().find(|t| t.name == "3 first").unwrap();
        let last = timings.iter().find(|t| t.name == "1 last").unwrap();
        assert_eq!(first.calls, 10 + 20 + 30);
        assert_eq!(last.calls, 40);
        assert_eq!(first.total_cpu, 60 * 5);
        assert_eq!(first.total_real, 30 * 5);
        assert_eq!(timings.iter().map(|t| t.calls).sum::<usize>(), 101);
    }
}

#[test]
fn guard_records_enter_and_exit() {
    let mut thread = ThreadProfiler::starting_at(0);
    let outer = ScopeGuard::new_at(&mut thread, "outer".to_string(), 1);
    let inner = ScopeGuard::new_at(&mut thread, "inner".to_string(), 2);
    inner.stop_at(&mut thread, 5);
    outer.stop_at(&mut thread, 9);
    let (_, events) = thread.finalize_at(10);
    let shape: Vec<(bool, u64)> = events.iter().map(|m| (m.is_start(), m.time)).collect();
    assert_eq!(shape, vec![(true, 1), (true, 2), (false, 5), (false, 9)]);
}

#[test]
fn guard_reads_the_clock() {
    let mut thread = ThreadProfiler::starting_at(0);
    let guard = ScopeGuard::new(&mut thread, "timed".to_string());
    guard.stop(&mut thread);
    let (_, events) = thread.finalize_at(0);
    assert_eq!(events.len(), 2);
    assert!(events[0].is_start());
    assert!(!events[1].is_start());
    assert!(events[0].time <= events[1].time);
}

#[test]
fn value_guard_hands_its_value_back() {
    let mut thread = ThreadProfiler::starting_at(0);
    let guard = Guard::new(vec![1, 2, 3], &mut thread, "names".to_string());
    assert_eq!(guard.as_ref().len(), 3);
    let value = guard.into_inner(&mut thread);
    assert_eq!(value, vec![1, 2, 3]);
    let (_, events) = thread.finalize_at(0);
    assert_eq!(events.len(), 2);
}

#[test]
fn sinks_are_kept_for_the_end() {
    let kept = ProfiDrop::new(vec![1u8, 2], 7i32);
    assert_eq!(kept.0, vec![1, 2]);
    assert_eq!(kept.1, 7);
    let later = MiniprofDrop::new(|| 5u8);
    assert_eq!((later.0)(), 5);
}

#[test]
fn report_of_the_registry_is_the_same_when_made_twice() {
    let mut global = GlobalProfiler::new();
    global.register_thread();
    profiler_log("w", 3).manual_drop_at(&mut global, false, 30);
    profiler_log("m", 1).manual_drop_at(&mut global, true, 50);
    let mut first = Vec::new();
    let mut second = Vec::new();
    assert_eq!(print_timings_to(&global, Hierarchy::Collapsed, &mut first), Ok(()));
    assert_eq!(print_timings_to(&global, Hierarchy::Collapsed, &mut second), Ok(()));
    assert_eq!(first, second);
    let text = String::from_utf8(first).unwrap();
    assert!(text.contains("│ m    ┆ 10.00%"));
    assert!(text.contains("│ w    ┆ 30.00%"));
    assert!(text.ends_with("┘\n"));
}
