use profi::forest::into_tree;
use profi::measure::{duration_between, Measure};
use profi::rows::Hierarchy;
use profi::tree::{first_unmatched_exit, open_scopes};

fn tree_start(name: &str, time: u64) -> Measure {
    Measure::start(name.to_string(), time)
}

fn tree_nested_log() -> Vec<Measure> {
    // main { a { b } a { b c } d }
    vec![
        tree_start("main", 0),
        tree_start("a", 10),
        tree_start("b", 12),
        Measure::end(15),
        Measure::end(20),
        tree_start("a", 30),
        tree_start("b", 31),
        Measure::end(33),
        tree_start("c", 34),
        Measure::end(39),
        Measure::end(40),
        tree_start("d", 50),
        Measure::end(58),
        Measure::end(100),
    ]
}

#[test]
fn duration_between_saturates() {
    assert_eq!(duration_between(10, 25), 15);
    assert_eq!(duration_between(25, 10), 0);
    assert_eq!(duration_between(7, 7), 0);
    assert_eq!(duration_between(0, u64::MAX), u64::MAX);
}

#[test]
fn empty_log_gives_empty_forest() {
    let forest = into_tree(&Vec::new(), Hierarchy::Collapsed);
    assert_eq!(forest.len(), 0);
    assert_eq!(forest.child_count(None), 0);
}

#[test]
fn scopes_are_listed_in_first_seen_order() {
    let forest = into_tree(&tree_nested_log(), Hierarchy::Collapsed);
    assert_eq!(forest.len(), 5);
    let names: Vec<&str> = (0..forest.len()).map(|i| forest.name(i).as_str()).collect();
    assert_eq!(names, vec!["main", "a", "b", "c", "d"]);
    let depths: Vec<usize> = (0..forest.len()).map(|i| forest.depth(i)).collect();
    assert_eq!(depths, vec![0, 1, 2, 2, 1]);
}

#[test]
fn same_name_under_same_parent_is_one_scope() {
    let forest = into_tree(&tree_nested_log(), Hierarchy::Collapsed);
    assert_eq!(forest.measures(0), &vec![100]);
    assert_eq!(forest.measures(1), &vec![10, 10]);
    assert_eq!(forest.measures(2), &vec![3, 2]);
    assert_eq!(forest.measures(3), &vec![5]);
    assert_eq!(forest.measures(4), &vec![8]);
}

#[test]
fn children_keep_first_seen_order() {
    let forest = into_tree(&tree_nested_log(), Hierarchy::Collapsed);
    assert_eq!(forest.child_count(None), 1);
    assert_eq!(forest.child(None, 0), 0);
    assert_eq!(forest.child_count(Some(0)), 2);
    assert_eq!(forest.child(Some(0), 0), 1);
    assert_eq!(forest.child(Some(0), 1), 4);
    assert_eq!(forest.child_count(Some(1)), 2);
    assert_eq!(forest.child(Some(1), 0), 2);
    assert_eq!(forest.child(Some(1), 1), 3);
    assert_eq!(forest.child_count(Some(4)), 0);
}

#[test]
fn same_name_under_other_parent_is_another_scope() {
    let log = vec![
        tree_start("x", 0),
        tree_start("leaf", 1),
        Measure::end(2),
        Measure::end(3),
        tree_start("y", 4),
        tree_start("leaf", 5),
        Measure::end(9),
        Measure::end(10),
        tree_start("leaf", 11),
        Measure::end(12),
    ];
    let forest = into_tree(&log, Hierarchy::Collapsed);
    assert_eq!(forest.len(), 5);
    assert_eq!(forest.name(1), "leaf");
    assert_eq!(forest.name(3), "leaf");
    assert_eq!(forest.name(4), "leaf");
    assert_eq!(forest.depth(4), 0);
    assert_eq!(forest.measures(1), &vec![1]);
    assert_eq!(forest.measures(3), &vec![4]);
    assert_eq!(forest.measures(4), &vec![1]);
    assert_eq!(forest.child_count(None), 3);
}

#[test]
fn durations_number_as_many_as_enters_when_balanced() {
    let log = tree_nested_log();
    let enters = log.iter().filter(|m| m.is_start()).count();
    let forest = into_tree(&log, Hierarchy::Collapsed);
    let durations: usize = (0..forest.len()).map(|i| forest.measures(i).len()).sum();
    assert_eq!(durations, enters);
    assert_eq!(durations, 7);
}

#[test]
fn open_scopes_are_counted() {
    let log = vec![tree_start("outer", 0), tree_start("inner", 5), Measure::end(9)];
    assert_eq!(first_unmatched_exit(&log), None);
    assert_eq!(open_scopes(&log), 1);
    assert_eq!(open_scopes(&tree_nested_log()), 0);
    assert_eq!(open_scopes(&Vec::new()), 0);
    assert_eq!(open_scopes(&vec![Measure::end(1), tree_start("a", 2), tree_start("b", 3)]), 2);
}

fn tree_recursion() -> Vec<Measure> {
    vec![
        tree_start("A", 0),
        tree_start("A", 1),
        tree_start("A", 2),
        tree_start("A", 3),
        Measure::end(4),
        Measure::end(5),
        Measure::end(6),
        Measure::end(7),
    ]
}

#[test]
fn scope_that_calls_itself_stays_one_scope_when_collapsed() {
    let forest = into_tree(&tree_recursion(), Hierarchy::Collapsed);
    assert_eq!(forest.len(), 1);
    assert_eq!(forest.name(0), "A");
    assert_eq!(forest.depth(0), 0);
    assert_eq!(forest.measures(0), &vec![1, 3, 5, 7]);
    assert_eq!(forest.child_count(Some(0)), 0);
    assert_eq!(forest.child_count(None), 1);
}

#[test]
fn scope_that_calls_itself_goes_deeper_in_deep_hierarchy() {
    let forest = into_tree(&tree_recursion(), Hierarchy::Deep);
    assert_eq!(forest.len(), 4);
    for at in 0..4 {
        assert_eq!(forest.name(at), "A");
        assert_eq!(forest.depth(at), at);
        assert_eq!(forest.measures(at).len(), 1);
    }
    assert_eq!(forest.measures(0), &vec![7]);
    assert_eq!(forest.measures(3), &vec![1]);
}

#[test]
fn scope_under_a_scope_that_calls_itself_hangs_under_the_one_scope() {
    // A { A { b } b } A { }
    let log = vec![
        tree_start("A", 0),
        tree_start("A", 1),
        tree_start("b", 2),
        Measure::end(3),
        Measure::end(4),
        tree_start("b", 5),
        Measure::end(7),
        Measure::end(8),
        tree_start("A", 9),
        Measure::end(10),
    ];
    let collapsed = into_tree(&log, Hierarchy::Collapsed);
    assert_eq!(collapsed.len(), 2);
    assert_eq!(collapsed.measures(0), &vec![3, 8, 1]);
    assert_eq!(collapsed.name(1), "b");
    assert_eq!(collapsed.depth(1), 1);
    assert_eq!(collapsed.measures(1), &vec![1, 2]);
    let deep = into_tree(&log, Hierarchy::Deep);
    assert_eq!(deep.len(), 4);
    assert_eq!(deep.measures(0), &vec![8, 1]);
    assert_eq!(deep.measures(1), &vec![3]);
    assert_eq!(deep.depth(2), 2);
    assert_eq!(deep.measures(3), &vec![2]);
}

#[test]
fn same_name_further_down_is_another_scope_when_collapsed() {
    // A { b { A } }: the inner A is not called by A itself
    let log = vec![
        tree_start("A", 0),
        tree_start("b", 1),
        tree_start("A", 2),
        Measure::end(3),
        Measure::end(4),
        Measure::end(5),
    ];
    let forest = into_tree(&log, Hierarchy::Collapsed);
    assert_eq!(forest.len(), 3);
    assert_eq!(forest.depth(2), 2);
    assert_eq!(forest.measures(0), &vec![5]);
    assert_eq!(forest.measures(2), &vec![1]);
}

#[test]
fn exit_before_its_enter_counts_zero() {
    let log = vec![tree_start("late", 50), Measure::end(20)];
    let forest = into_tree(&log, Hierarchy::Collapsed);
    assert_eq!(forest.measures(0), &vec![0]);
}

#[test]
fn unmatched_exit_is_found() {
    let log = vec![
        tree_start("a", 0),
        Measure::end(1),
        Measure::end(2),
        tree_start("b", 3),
        Measure::end(4),
        Measure::end(5),
    ];
    assert_eq!(first_unmatched_exit(&log), Some(2));
    assert_eq!(first_unmatched_exit(&vec![Measure::end(0)]), Some(0));
    assert_eq!(first_unmatched_exit(&tree_nested_log()), None);
    assert_eq!(first_unmatched_exit(&Vec::new()), None);
}
