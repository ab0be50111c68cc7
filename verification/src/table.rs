//! The table of timings as text: which cell says what, and the drawing of the
//! table by `comfy_table`.

use crate::text::{decimal, digit, digit_text, push_decimal};
use crate::timing::Timing;
use comfy_table::CellAlignment;
use vstd::prelude::*;
use vstd::string::StringExecFns;

verus! {

/// `comfy_table::CellAlignment`, the side to which the text of a cell goes:
/// an enum of the three variants `Left`, `Right` and `Center`, without
/// fields.
#[verifier::external_type_specification]
pub struct ExCellAlignment(CellAlignment);

/// One cell of the table: its text and the side to which it is aligned.
pub struct TableCell {
    pub text: String,
    pub alignment: CellAlignment,
}

/// A cell as a pair of plain values: its text, and 0, 1 or 2 for a cell
/// aligned to the left, to the right or to the centre.
pub open spec fn cell_view(cell: TableCell) -> (Seq<char>, int) {
    (
        cell.text@,
        match cell.alignment {
            CellAlignment::Left => 0,
            CellAlignment::Right => 1,
            CellAlignment::Center => 2,
        },
    )
}

/// A row of cells as plain values.
pub open spec fn row_view(row: Seq<TableCell>) -> Seq<(Seq<char>, int)> {
    Seq::new(row.len(), |i: int| cell_view(row[i]))
}

/// The rows of a table as plain values.
pub open spec fn rows_view(rows: Seq<Vec<TableCell>>) -> Seq<Seq<(Seq<char>, int)>> {
    Seq::new(rows.len(), |i: int| row_view(rows[i]@))
}

/// A list of texts as plain values.
pub open spec fn texts_view(texts: Seq<String>) -> Seq<Seq<char>> {
    Seq::new(texts.len(), |i: int| texts[i]@)
}

/// The text that `std` gives for a duration of `nanos` nanoseconds when it is
/// formatted as `{:.2?}`, such as `200.13ms` for 200 130 000 nanoseconds.
pub uninterp spec fn duration_text(nanos: u64) -> Seq<char>;

/// The text of the table that `comfy_table` draws in its style `UTF8_FULL`
/// with the header `header` and the rows `rows`, each cell given as its text
/// and 0, 1 or 2 for left, right or centre.
pub uninterp spec fn drawn(header: Seq<Seq<char>>, rows: Seq<Seq<(Seq<char>, int)>>) -> Seq<char>;

/// Formats `std::time::Duration::from_nanos(nanos)` as `{:.2?}` with
/// `format!`. The text depends on `nanos` alone, so it is given the name
/// [`duration_text`]; nothing else is claimed of it.
#[verifier::external_body]
fn format_duration(nanos: u64) -> (text: String)
    ensures
        text@ == duration_text(nanos),
{
    format!("{:.2?}", std::time::Duration::from_nanos(nanos))
}

/// Draws a table with `comfy_table`: `Table::new`, `Table::load_preset` with
/// `presets::UTF8_FULL`, `Table::set_header` with `header`, `Table::add_rows`
/// with the rows, whose cells are made by `Cell::new` and
/// `Cell::set_alignment`, and the table's `to_string`. The text depends on
/// the header and the rows alone, so it is given the name [`drawn`]; nothing
/// else is claimed of it.
#[verifier::external_body]
fn draw(header: &Vec<String>, rows: &Vec<Vec<TableCell>>) -> (text: String)
    ensures
        text@ == drawn(texts_view(header@), rows_view(rows@)),
{
    let mut table = comfy_table::Table::new();
    table.load_preset(comfy_table::presets::UTF8_FULL);
    table.set_header(header);
    table.add_rows(rows.iter().map(|row| {
        row.iter().map(|cell| comfy_table::Cell::new(&cell.text).set_alignment(cell.alignment))
    }));
    table.to_string()
}

/// A percentage given in hundredths as text: the whole percents, a point,
/// two decimals and the percent sign.
pub open spec fn percent_text(p: nat) -> Seq<char> {
    decimal(p / 100) + seq!['.', digit(p % 100 / 10), digit(p % 10), '%']
}

/// Computes [`percent_text`].
pub fn format_percent(p: u128) -> (text: String)
    ensures
        text@ == percent_text(p as nat),
{
    proof {
        reveal_strlit(".");
        reveal_strlit("%");
    }
    let mut text = String::new();
    push_decimal(&mut text, p / 100);
    text.append(".");
    let tens: u8 = (p % 100 / 10) as u8;
    let ones: u8 = (p % 10) as u8;
    text.append(digit_text(tens));
    text.append(digit_text(ones));
    text.append("%");
    assert(text@ =~= percent_text(p as nat));
    text
}

/// The cell that stands for "nothing to say": a centred dash.
pub open spec fn empty_cell() -> (Seq<char>, int) {
    (seq!['-'], 2)
}

/// The seven cells of the entry `t`: its formatted name; its share of the
/// run; its wall-clock time; its share of CPU time and its CPU time, or two
/// empty cells where CPU time and wall-clock time are the same; the average
/// with `/call`, or an empty cell where it is zero or the scope was called
/// at most once; the number of calls to the right, or an empty cell where it
/// is zero.
pub open spec fn cells_of(t: Timing) -> Seq<(Seq<char>, int)> {
    seq![
        (t.formatted_name@, 0),
        (percent_text(t.percent_app as nat), 0),
        (duration_text(t.total_real), 0),
        if t.total_real == t.total_cpu {
            empty_cell()
        } else {
            (percent_text(t.percent_cpu as nat), 0)
        },
        if t.total_real == t.total_cpu {
            empty_cell()
        } else {
            (duration_text(t.total_cpu), 0)
        },
        if t.average == 0 || t.calls <= 1 {
            empty_cell()
        } else {
            (duration_text(t.average) + seq!['/', 'c', 'a', 'l', 'l'], 0)
        },
        if t.calls == 0 {
            empty_cell()
        } else {
            (decimal(t.calls as nat), 1)
        },
    ]
}

/// The cells of all entries, one row each.
pub open spec fn table_of(timings: Seq<Timing>) -> Seq<Seq<(Seq<char>, int)>> {
    Seq::new(timings.len(), |i: int| cells_of(timings[i]))
}

/// The titles of the seven columns.
pub open spec fn header_texts() -> Seq<Seq<char>> {
    seq![
        "Name"@,
        "% Application Time"@,
        "Real Time"@,
        "% CPU Time"@,
        "CPU Time"@,
        "Average time"@,
        "Calls"@,
    ]
}

/// The table of the entries `timings` as text.
pub open spec fn table_text(timings: Seq<Timing>) -> Seq<char> {
    drawn(header_texts(), table_of(timings))
}

/// A cell with the text `text`, aligned to the left.
fn plain(text: String) -> (cell: TableCell)
    ensures
        cell_view(cell) == (text@, 0int),
{
    TableCell { text, alignment: CellAlignment::Left }
}

/// The cell that stands for "nothing to say".
fn empty() -> (cell: TableCell)
    ensures
        cell_view(cell) == empty_cell(),
{
    proof {
        reveal_strlit("-");
    }
    let text = String::from_str("-");
    assert(text@ =~= seq!['-']);
    TableCell { text, alignment: CellAlignment::Center }
}

/// The titles of the columns.
pub fn header() -> (titles: Vec<String>)
    ensures
        texts_view(titles@) == header_texts(),
{
    let mut titles: Vec<String> = Vec::new();
    titles.push(String::from_str("Name"));
    titles.push(String::from_str("% Application Time"));
    titles.push(String::from_str("Real Time"));
    titles.push(String::from_str("% CPU Time"));
    titles.push(String::from_str("CPU Time"));
    titles.push(String::from_str("Average time"));
    titles.push(String::from_str("Calls"));
    assert(texts_view(titles@) =~= header_texts());
    titles
}

/// The cells of one entry.
pub fn cells(timing: &Timing) -> (row: Vec<TableCell>)
    ensures
        row_view(row@) == cells_of(*timing),
{
    proof {
        reveal_strlit("/call");
    }
    let mut row: Vec<TableCell> = Vec::new();
    row.push(plain(timing.formatted_name.clone()));
    row.push(plain(format_percent(timing.percent_app)));
    row.push(plain(format_duration(timing.total_real)));
    if timing.total_real == timing.total_cpu {
        row.push(empty());
        row.push(empty());
    } else {
        row.push(plain(format_percent(timing.percent_cpu)));
        row.push(plain(format_duration(timing.total_cpu)));
    }
    if timing.average == 0 || timing.calls <= 1 {
        row.push(empty());
    } else {
        let mut text = format_duration(timing.average);
        text.append("/call");
        assert(text@ =~= duration_text(timing.average) + seq!['/', 'c', 'a', 'l', 'l']);
        row.push(plain(text));
    }
    if timing.calls == 0 {
        row.push(empty());
    } else {
        let mut text = String::new();
        push_decimal(&mut text, timing.calls as u128);
        assert(text@ =~= decimal(timing.calls as nat));
        row.push(TableCell { text, alignment: CellAlignment::Right });
    }
    assert(row_view(row@) =~= cells_of(*timing));
    row
}

/// The rows of the table, one for each entry.
pub fn create_table(timings: &Vec<Timing>) -> (rows: Vec<Vec<TableCell>>)
    ensures
        rows_view(rows@) == table_of(timings@),
{
    let mut rows: Vec<Vec<TableCell>> = Vec::new();
    let mut i: usize = 0;
    while i < timings.len()
        invariant
            i <= timings.len(),
            rows.len() == i,
            forall|j: int| 0 <= j < i ==> row_view((#[trigger] rows[j])@) == cells_of(timings[j]),
        decreases timings.len() - i,
    {
        rows.push(cells(&timings[i]));
        i = i + 1;
    }
    assert(rows_view(rows@) =~= table_of(timings@));
    rows
}

/// The table of the entries `timings`, drawn.
pub fn render(timings: &Vec<Timing>) -> (text: String)
    ensures
        text@ == table_text(timings@),
{
    let titles = header();
    let rows = create_table(timings);
    draw(&titles, &rows)
}

} // verus!
