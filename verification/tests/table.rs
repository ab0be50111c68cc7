use profi::table::{cells, create_table, format_percent, header, render};
use profi::text::{format_name, push_decimal, push_depth_tag, push_spaces};
use profi::timing::Timing;

fn table_entry(label: &str, percent_app: u128, real: u64, percent_cpu: u128, cpu: u64, average: u64, calls: usize) -> Timing {
    Timing {
        formatted_name: label.to_string(),
        name: label.trim_start().to_string(),
        percent_app,
        total_real: real,
        percent_cpu,
        total_cpu: cpu,
        average,
        calls,
        thread: 0,
        last_thread: 0,
        thread_real: real,
    }
}

fn table_texts(timing: &Timing) -> Vec<String> {
    cells(timing).into_iter().map(|c| c.text).collect()
}

#[test]
fn decimal_is_written_without_leading_zeros() {
    for (n, expected) in [(0u128, "0"), (7, "7"), (10, "10"), (409, "409"), (1_000_000, "1000000")] {
        let mut text = String::from("n=");
        push_decimal(&mut text, n);
        assert_eq!(text, format!("n={}", expected));
    }
    let mut text = String::new();
    push_decimal(&mut text, u128::MAX);
    assert_eq!(text, "340282366920938463463374607431768211455");
}

#[test]
fn spaces_are_appended() {
    let mut text = String::from("a");
    push_spaces(&mut text, 3);
    assert_eq!(text, "a   ");
    push_spaces(&mut text, 0);
    assert_eq!(text, "a   ");
}

#[test]
fn depth_tag_names_the_depth() {
    let mut text = String::new();
    push_depth_tag(&mut text, 25);
    assert_eq!(text, "(+25) ");
}

#[test]
fn name_is_indented_by_depth() {
    let name = "scope".to_string();
    assert_eq!(format_name(0, &name), "scope");
    assert_eq!(format_name(1, &name), " scope");
    assert_eq!(format_name(19, &name), format!("{}scope", " ".repeat(19)));
}

#[test]
fn deep_name_carries_a_depth_tag_padded_to_twenty() {
    let name = "scope".to_string();
    assert_eq!(format_name(20, &name), format!("{}(+20) scope", " ".repeat(14)));
    assert_eq!(format_name(123, &name), format!("{}(+123) scope", " ".repeat(13)));
    let huge = format_name(usize::MAX, &name);
    assert_eq!(huge, format!("(+{}) scope", usize::MAX));
}

#[test]
fn percent_has_two_decimals() {
    assert_eq!(format_percent(10_000), "100.00%");
    assert_eq!(format_percent(9_999), "99.99%");
    assert_eq!(format_percent(5_455), "54.55%");
    assert_eq!(format_percent(7), "0.07%");
    assert_eq!(format_percent(0), "0.00%");
    assert_eq!(format_percent(123_456), "1234.56%");
}

#[test]
fn header_has_seven_titles() {
    assert_eq!(
        header(),
        vec!["Name", "% Application Time", "Real Time", "% CPU Time", "CPU Time", "Average time", "Calls"]
    );
}

#[test]
fn single_call_on_one_thread_shows_dashes() {
    let timing = table_entry("main", 10_000, 200_130_000, 10_000, 200_130_000, 200_130_000, 1);
    assert_eq!(table_texts(&timing), vec!["main", "100.00%", "200.13ms", "-", "-", "-", "1"]);
    let row = cells(&timing);
    assert_eq!(row[0].alignment, comfy_table::CellAlignment::Left);
    assert_eq!(row[3].alignment, comfy_table::CellAlignment::Center);
    assert_eq!(row[4].alignment, comfy_table::CellAlignment::Center);
    assert_eq!(row[5].alignment, comfy_table::CellAlignment::Center);
    assert_eq!(row[6].alignment, comfy_table::CellAlignment::Right);
}

#[test]
fn many_calls_on_many_threads_show_every_figure() {
    let timing = table_entry(" 6 first", 9_998, 1_010_000_000, 5_455, 6_040_000_000, 10_080_000, 600);
    assert_eq!(
        table_texts(&timing),
        vec![" 6 first", "99.98%", "1.01s", "54.55%", "6.04s", "10.08ms/call", "600"]
    );
    let row = cells(&timing);
    assert_eq!(row[3].alignment, comfy_table::CellAlignment::Left);
    assert_eq!(row[5].alignment, comfy_table::CellAlignment::Left);
}

#[test]
fn scope_without_calls_shows_a_dash_for_calls() {
    let timing = table_entry("open", 0, 0, 0, 0, 0, 0);
    assert_eq!(table_texts(&timing), vec!["open", "0.00%", "0.00ns", "-", "-", "-", "-"]);
}

#[test]
fn zero_average_shows_a_dash() {
    let timing = table_entry("quick", 0, 0, 0, 0, 0, 5);
    assert_eq!(table_texts(&timing)[5], "-");
    assert_eq!(table_texts(&timing)[6], "5");
    let timing = table_entry("slow", 10_000, 3_000, 10_000, 3_000, 1_500, 2);
    assert_eq!(table_texts(&timing)[5], "1.50\u{b5}s/call");
}

#[test]
fn table_has_one_row_per_entry() {
    let timings = vec![
        table_entry("a", 10_000, 5, 10_000, 5, 5, 1),
        table_entry(" b", 2_000, 1, 2_000, 1, 1, 1),
    ];
    let rows = create_table(&timings);
    assert_eq!(rows.len(), 2);
    assert_eq!(rows[0].len(), 7);
    assert_eq!(rows[1][0].text, " b");
    assert!(create_table(&Vec::new()).is_empty());
}

#[test]
fn table_is_drawn_with_frame_and_alignment() {
    let timings = vec![table_entry("simple::main", 10_000, 200_130_000, 10_000, 200_130_000, 200_130_000, 1)];
    let expected = "\
┌──────────────┬────────────────────┬───────────┬────────────┬──────────┬──────────────┬───────┐
│ Name         ┆ % Application Time ┆ Real Time ┆ % CPU Time ┆ CPU Time ┆ Average time ┆ Calls │
╞══════════════╪════════════════════╪═══════════╪════════════╪══════════╪══════════════╪═══════╡
│ simple::main ┆ 100.00%            ┆ 200.13ms  ┆      -     ┆     -    ┆       -      ┆     1 │
└──────────────┴────────────────────┴───────────┴────────────┴──────────┴──────────────┴───────┘";
    assert_eq!(render(&timings), expected);
}

#[test]
fn rows_are_divided_by_dashed_lines() {
    let timings = vec![
        table_entry("loop::main", 10_000, 1_010_000_000, 10_000, 1_010_000_000, 1_010_000_000, 1),
        table_entry("iteration", 9_999, 1_010_000_000, 9_999, 1_010_000_000, 10_100_000, 100),
    ];
    let expected = "\
┌────────────┬────────────────────┬───────────┬────────────┬──────────┬──────────────┬───────┐
│ Name       ┆ % Application Time ┆ Real Time ┆ % CPU Time ┆ CPU Time ┆ Average time ┆ Calls │
╞════════════╪════════════════════╪═══════════╪════════════╪══════════╪══════════════╪═══════╡
│ loop::main ┆ 100.00%            ┆ 1.01s     ┆      -     ┆     -    ┆       -      ┆     1 │
├╌╌╌╌╌╌╌╌╌╌╌╌┼╌╌╌╌╌╌╌╌╌╌╌╌╌╌╌╌╌╌╌╌┼╌╌╌╌╌╌╌╌╌╌╌┼╌╌╌╌╌╌╌╌╌╌╌╌┼╌╌╌╌╌╌╌╌╌╌┼╌╌╌╌╌╌╌╌╌╌╌╌╌╌┼╌╌╌╌╌╌╌┤
│ iteration  ┆ 99.99%             ┆ 1.01s     ┆      -     ┆     -    ┆ 10.10ms/call ┆   100 │
└────────────┴────────────────────┴───────────┴────────────┴──────────┴──────────────┴───────┘";
    assert_eq!(render(&timings), expected);
}

#[test]
fn empty_table_is_only_the_header() {
    let expected = "\
┌──────┬────────────────────┬───────────┬────────────┬──────────┬──────────────┬───────┐
│ Name ┆ % Application Time ┆ Real Time ┆ % CPU Time ┆ CPU Time ┆ Average time ┆ Calls │
╞══════╪════════════════════╪═══════════╪════════════╪══════════╪══════════════╪═══════╡
└──────┴────────────────────┴───────────┴────────────┴──────────┴──────────────┴───────┘";
    assert_eq!(render(&Vec::new()), expected);
}
