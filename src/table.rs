//! The station table: from the rendered page to typed readings.
use crate::aggregate::{reading_wf, readings_wf};
use crate::decimal::{measure_milli, normalize_separator, parse_measure, signed_milli};
use crate::stamp::{parse_datetime, parsed_datetime, Stamp};
use vstd::prelude::*;

verus! {

/// Cells in one data row: date, time, five triples, UV index, precipitation.
pub const DATA_CELLS: usize = 19;

/// Format of the date and time cells, joined by one space.
pub const STAMP_FORMAT: &'static str = "%d/%m/%Y %H%M";

/// Selector of the table's data rows.
pub const ROW_SELECTOR: &'static str = "tr.tabela-row";

/// Selector of the data cells within a row.
pub const CELL_SELECTOR: &'static str = "td.aligned";

/// Instantaneous, minimum and maximum value of one quantity over a slot,
/// in thousandths.
#[derive(Clone, Copy, Debug, PartialEq, Eq, Structural)]
pub struct Triple {
    pub inst: i64,
    pub min: i64,
    pub max: i64,
}

/// One table row: a ten-minute slot of a station. Measures are in
/// thousandths of their unit.
#[derive(Clone, Copy, Debug, PartialEq, Eq, Structural)]
pub struct StationReading {
    pub stamp: Stamp,
    pub temperature: Triple,
    pub humidity: Triple,
    pub wind: Triple,
    pub pressure: Triple,
    pub visibility: Triple,
    pub uv_index: i64,
    pub precipitation: i64,
}

/// Why a table could not be read.
#[derive(Clone, Copy, Debug, PartialEq, Eq, Structural)]
pub enum TableError {
    /// A row selector or a cell selector was rejected by the HTML engine.
    InvalidSelector,
    /// An accepted row holds a date and time that do not read as a timestamp.
    MalformedTimestamp,
}

pub open spec fn cells_view(cells: Seq<String>) -> Seq<Seq<char>> {
    cells.map_values(|c: String| c@)
}

pub open spec fn rows_view(rows: Seq<Vec<String>>) -> Seq<Seq<Seq<char>>> {
    rows.map_values(|r: Vec<String>| cells_view(r@))
}

pub open spec fn triple_at(cells: Seq<Seq<char>>, at: int) -> Triple {
    Triple {
        inst: measure_milli(cells[at]) as i64,
        min: measure_milli(cells[at + 1]) as i64,
        max: measure_milli(cells[at + 2]) as i64,
    }
}

/// The reading that a data row gives, with its timestamp.
pub open spec fn reading_of(cells: Seq<Seq<char>>, stamp: Stamp) -> StationReading {
    StationReading {
        stamp,
        temperature: triple_at(cells, 2),
        humidity: triple_at(cells, 5),
        wind: triple_at(cells, 8),
        pressure: triple_at(cells, 11),
        visibility: triple_at(cells, 14),
        uv_index: measure_milli(cells[17]) as i64,
        precipitation: measure_milli(cells[18]) as i64,
    }
}

/// A row is read when it has exactly the data cells and its instantaneous
/// temperature is not blank.
pub open spec fn accepted_row(cells: Seq<Seq<char>>) -> bool {
    cells.len() == DATA_CELLS && cells[2].len() > 0
}

/// The date cell and the time cell, joined by one space.
pub open spec fn stamp_text(cells: Seq<Seq<char>>) -> Seq<char> {
    cells[0] + " "@ + cells[1]
}

pub open spec fn stamp_from_fields(f: (int, int, int, int, int)) -> Stamp {
    Stamp { year: f.0 as i32, month: f.1 as u8, day: f.2 as u8, hour: f.3 as u8, minute: f.4 as u8 }
}

/// What a data row's date and time read as.
pub open spec fn row_stamp(cells: Seq<Seq<char>>) -> Option<(int, int, int, int, int)> {
    parsed_datetime(stamp_text(cells), STAMP_FORMAT@)
}

/// The readings of a table's rows, in row order; `None` when an accepted row
/// has a malformed timestamp.
pub open spec fn table_readings(rows: Seq<Seq<Seq<char>>>) -> Option<Seq<StationReading>>
    decreases rows.len(),
{
    if rows.len() == 0 {
        Some(Seq::empty())
    } else {
        match table_readings(rows.drop_last()) {
            None => None,
            Some(prev) => {
                let row = rows.last();
                if !accepted_row(row) {
                    Some(prev)
                } else {
                    match row_stamp(row) {
                        None => None,
                        Some(f) => Some(prev.push(reading_of(row, stamp_from_fields(f)))),
                    }
                }
            },
        }
    }
}

pub open spec fn rows_option_view(r: Option<Vec<Vec<String>>>) -> Option<Seq<Seq<Seq<char>>>> {
    match r {
        Some(rows) => Some(rows_view(rows@)),
        None => None,
    }
}

/// The cell texts that scraper finds in `html`: for each element matched by
/// `row_selector`, in the order in which the parsed document tree holds
/// them, the text of each element within it that `cell_selector` matches;
/// `None` when a selector does not parse.
pub uninterp spec fn selected_cell_texts(
    html: Seq<char>,
    row_selector: Seq<char>,
    cell_selector: Seq<char>,
) -> Option<Seq<Seq<Seq<char>>>>;

/// Relies on scraper's `Html::parse_document`, `Selector::parse`,
/// `ElementRef::select` and `ElementRef::text` to list the cell texts of
/// a document's rows.
#[verifier::external_body]
pub(crate) fn select_cell_texts(html: &str, row_selector: &str, cell_selector: &str) -> (r: Option<
    Vec<Vec<String>>,
>)
    ensures
        rows_option_view(r) == selected_cell_texts(html@, row_selector@, cell_selector@),
{
    let rows = scraper::Selector::parse(row_selector).ok()?;
    let cells = scraper::Selector::parse(cell_selector).ok()?;
    let document = scraper::Html::parse_document(html);
    let mut out = Vec::new();
    for row in document.select(&rows) {
        let mut texts = Vec::new();
        for cell in row.select(&cells) {
            texts.push(cell.text().collect::<String>());
        }
        out.push(texts);
    }
    Some(out)
}

fn read_triple(cells: &Vec<String>, at: usize) -> (r: Triple)
    requires
        at + 2 < cells.len(),
    ensures
        r == triple_at(cells_view(cells@), at as int),
        -1_000_000_000_000_000 < r.inst < 1_000_000_000_000_000,
{
    Triple {
        inst: parse_measure(cells[at].as_str()),
        min: parse_measure(cells[at + 1].as_str()),
        max: parse_measure(cells[at + 2].as_str()),
    }
}

/// The reading of a data row whose date and time read as `stamp`.
pub fn reading_from_cells(cells: &Vec<String>, stamp: Stamp) -> (r: StationReading)
    requires
        cells.len() == DATA_CELLS,
    ensures
        r == reading_of(cells_view(cells@), stamp),
        stamp.wf() ==> reading_wf(r),
{
    StationReading {
        stamp,
        temperature: read_triple(cells, 2),
        humidity: read_triple(cells, 5),
        wind: read_triple(cells, 8),
        pressure: read_triple(cells, 11),
        visibility: read_triple(cells, 14),
        uv_index: parse_measure(cells[17].as_str()),
        precipitation: parse_measure(cells[18].as_str()),
    }
}

/// Reads the rows of a table, each given as its cell texts.
pub fn readings_from_rows(rows: &Vec<Vec<String>>) -> (r: Result<Vec<StationReading>, TableError>)
    ensures
        match r {
            Ok(rs) => table_readings(rows_view(rows@)) == Some(rs@),
            Err(e) => table_readings(rows_view(rows@)) is None && e == TableError::MalformedTimestamp,
        },
        r matches Ok(rs) ==> readings_wf(rs@),
{
    let ghost all = rows_view(rows@);
    let mut out: Vec<StationReading> = Vec::new();
    let mut i: usize = 0;
    while i < rows.len()
        invariant
            i <= rows.len(),
            all == rows_view(rows@),
            table_readings(all.take(i as int)) == Some(out@),
            readings_wf(out@),
        decreases rows.len() - i,
    {
        let row = &rows[i];
        proof {
            assert(all.take(i + 1).drop_last() =~= all.take(i as int));
            assert(all.take(i + 1).last() == cells_view(row@));
        }
        if row.len() == DATA_CELLS && !row[2].as_str().is_empty() {
            proof {
                assert(cells_view(row@)[2] == row@[2]@);
            }
            let mut text = row[0].clone();
            text.append(" ");
            text.append(row[1].as_str());
            proof {
                assert(text@ == stamp_text(cells_view(row@)));
            }
            match parse_datetime(text.as_str(), STAMP_FORMAT) {
                None => {
                    proof {
                        lemma_none_persists(all, i as int + 1);
                    }
                    return Err(TableError::MalformedTimestamp);
                },
                Some(stamp) => {
                    let reading = reading_from_cells(row, stamp);
                    out.push(reading);
                },
            }
        } else {
            proof {
                if row.len() == DATA_CELLS {
                    assert(cells_view(row@)[2] == row@[2]@);
                }
            }
        }
        i = i + 1;
    }
    proof {
        assert(all.take(i as int) =~= all);
    }
    Ok(out)
}

/// Once a prefix of the rows fails to read, every longer prefix fails too.
proof fn lemma_none_persists(rows: Seq<Seq<Seq<char>>>, n: int)
    requires
        0 <= n <= rows.len(),
        table_readings(rows.take(n)) is None,
    ensures
        table_readings(rows) is None,
    decreases rows.len() - n,
{
    if n < rows.len() {
        assert(rows.take(n + 1).drop_last() =~= rows.take(n));
        lemma_none_persists(rows, n + 1);
    } else {
        assert(rows.take(n) =~= rows);
    }
}

/// Reads the data rows of a rendered station-table page.
pub fn parse_station_table(html: &str) -> (r: Result<Vec<StationReading>, TableError>)
    ensures
        match selected_cell_texts(html@, ROW_SELECTOR@, CELL_SELECTOR@) {
            None => r == Err::<Vec<StationReading>, TableError>(TableError::InvalidSelector),
            Some(rows) => match r {
                Ok(rs) => table_readings(rows) == Some(rs@),
                Err(e) => table_readings(rows) is None && e == TableError::MalformedTimestamp,
            },
        },
        r matches Ok(rs) ==> readings_wf(rs@),
{
    match select_cell_texts(html, ROW_SELECTOR, CELL_SELECTOR) {
        None => Err(TableError::InvalidSelector),
        Some(rows) => readings_from_rows(&rows),
    }
}

/// A data row with a non-blank instantaneous temperature whose date and time
/// read as a timestamp adds exactly one reading to what the rows before it
/// give, stamped with that date and time.
pub proof fn lemma_accepted_row_gives_one_reading(rows: Seq<Seq<Seq<char>>>, row: Seq<Seq<char>>)
    requires
        row.len() == DATA_CELLS,
        row[2].len() > 0,
        row_stamp(row) is Some,
    ensures
        match table_readings(rows) {
            Some(prev) => table_readings(rows.push(row)) == Some(
                prev.push(reading_of(row, stamp_from_fields(row_stamp(row)->0))),
            ),
            None => table_readings(rows.push(row)) is None,
        },
        table_readings(rows.push(row)) matches Some(rs) ==> rs.last().stamp == stamp_from_fields(
            parsed_datetime(row[0] + " "@ + row[1], STAMP_FORMAT@)->0,
        ),
{
    assert(rows.push(row).drop_last() =~= rows);
}

/// A data row whose instantaneous temperature is blank gives no reading.
pub proof fn lemma_blank_temperature_row_dropped(rows: Seq<Seq<Seq<char>>>, row: Seq<Seq<char>>)
    requires
        row.len() == DATA_CELLS,
        row[2].len() == 0,
    ensures
        table_readings(rows.push(row)) == table_readings(rows),
{
    assert(rows.push(row).drop_last() =~= rows);
}

/// Numeric cells never make a table fail: two accepted rows that agree on
/// their date and time cells fail or succeed together. A comma in a numeric
/// cell reads as a decimal point, and a cell that is no number reads as zero.
pub proof fn lemma_numeric_cells_never_fatal(
    rows: Seq<Seq<Seq<char>>>,
    row: Seq<Seq<char>>,
    other: Seq<Seq<char>>,
    cell: Seq<char>,
)
    requires
        accepted_row(row),
        accepted_row(other),
        row[0] == other[0],
        row[1] == other[1],
    ensures
        table_readings(rows.push(row)) is Some == table_readings(rows.push(other)) is Some,
        measure_milli(cell) == measure_milli(normalize_separator(cell)),
        signed_milli(normalize_separator(cell)) is None ==> measure_milli(cell) == 0,
{
    assert(rows.push(row).drop_last() =~= rows);
    assert(rows.push(other).drop_last() =~= rows);
    assert(stamp_text(row) == stamp_text(other));
    assert(normalize_separator(normalize_separator(cell)) =~= normalize_separator(cell));
}

/// A data row whose instantaneous temperature is blank gives no reading,
/// wherever it stands: the table reads the same without it.
pub proof fn lemma_blank_temperature_row_dropped_anywhere(rows: Seq<Seq<Seq<char>>>, i: int)
    requires
        0 <= i < rows.len(),
        rows[i].len() == DATA_CELLS,
        rows[i][2].len() == 0,
    ensures
        table_readings(rows) == table_readings(rows.remove(i)),
    decreases rows.len(),
{
    if i == rows.len() - 1 {
        assert(rows.remove(i) =~= rows.drop_last());
        assert(rows.last() == rows[i]);
    } else {
        let p = rows.drop_last();
        assert(p[i] == rows[i]);
        lemma_blank_temperature_row_dropped_anywhere(p, i);
        assert(rows.remove(i).drop_last() =~= p.remove(i));
        assert(rows.remove(i).last() == rows.last());
    }
}

/// The accepted rows of a table, in row order.
pub open spec fn accepted_rows(rows: Seq<Seq<Seq<char>>>) -> Seq<Seq<Seq<char>>>
    decreases rows.len(),
{
    if rows.len() == 0 {
        Seq::empty()
    } else {
        let prev = accepted_rows(rows.drop_last());
        if accepted_row(rows.last()) {
            prev.push(rows.last())
        } else {
            prev
        }
    }
}

/// When every accepted row has a date and time that read as a timestamp,
/// the table gives exactly one reading per accepted row, in row order, each
/// stamped with its row's date and time.
pub proof fn lemma_one_reading_per_accepted_row(rows: Seq<Seq<Seq<char>>>)
    requires
        forall|k: int|
            0 <= k < accepted_rows(rows).len() ==> (#[trigger] row_stamp(accepted_rows(rows)[k])) is Some,
    ensures
        table_readings(rows) is Some,
        table_readings(rows)->0.len() == accepted_rows(rows).len(),
        forall|k: int|
            0 <= k < accepted_rows(rows).len() ==> #[trigger] table_readings(rows)->0[k] == reading_of(
                accepted_rows(rows)[k],
                stamp_from_fields(row_stamp(accepted_rows(rows)[k])->0),
            ),
    decreases rows.len(),
{
    if rows.len() > 0 {
        let p = rows.drop_last();
        let a = accepted_rows(rows);
        let ap = accepted_rows(p);
        assert forall|k: int| 0 <= k < ap.len() implies (#[trigger] row_stamp(ap[k])) is Some by {
            assert(a[k] == ap[k]);
            assert(row_stamp(a[k]) is Some);
        }
        lemma_one_reading_per_accepted_row(p);
        if accepted_row(rows.last()) {
            assert(a[a.len() - 1] == rows.last());
            assert(row_stamp(a[a.len() - 1]) is Some);
            let rs = table_readings(rows)->0;
            assert forall|k: int| 0 <= k < a.len() implies #[trigger] rs[k] == reading_of(
                a[k],
                stamp_from_fields(row_stamp(a[k])->0),
            ) by {
                if k < ap.len() {
                    assert(a[k] == ap[k]);
                    assert(rs[k] == table_readings(p)->0[k]);
                }
            }
        }
    }
}

} // verus!
