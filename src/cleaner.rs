//! The cleaner: projects the two columns of an export, normalises each
//! row, and keeps only the rows where both fields are valid.

use vstd::prelude::*;
use crate::error::PipelineError;
use crate::glucose::{glucose_value, int32_of, is_digit, parse_glucose, LOW_READING_MGDL};
use crate::timestamp::{datetime_of, parse_datetime, Timestamp};

verus! {

/// Header of the timestamp column, matched exactly.
pub const TIMESTAMP_COLUMN: &'static str = "Timestamp (YYYY-MM-DDThh:mm:ss)";

/// Header of the glucose column, matched exactly.
pub const GLUCOSE_COLUMN: &'static str = "Glucose Value (mg/dL)";

/// The one timestamp layout that the export uses.
pub const TIMESTAMP_FORMAT: &'static str = "%Y-%m-%dT%H:%M:%S";

/// One row of the export, reduced to the two cells the pipeline reads.
#[derive(Debug)]
pub struct RawReading {
    pub timestamp_text: String,
    pub glucose_text: String,
}

/// A reading with both fields valid.
#[derive(Clone, Copy, Debug, PartialEq, Eq, Structural)]
pub struct CleanReading {
    pub timestamp: Timestamp,
    pub glucose_mgdl: i32,
}

impl CleanReading {
    /// A well-formed date-time and a non-negative value.
    pub open spec fn valid(&self) -> bool {
        self.timestamp.wf() && self.glucose_mgdl >= 0
    }
}

/// The two texts of a raw row.
pub open spec fn raw_view(rows: Seq<RawReading>) -> Seq<(Seq<char>, Seq<char>)> {
    rows.map_values(|r: RawReading| (r.timestamp_text@, r.glucose_text@))
}

/// The date-time that a timestamp cell holds, if it holds one; an empty
/// cell holds none.
pub open spec fn timestamp_value(text: Seq<char>) -> Option<Timestamp> {
    if text.len() == 0 {
        None
    } else {
        datetime_of(text, TIMESTAMP_FORMAT@)
    }
}

/// The date-time in a timestamp cell, as `timestamp_value` states it.
pub fn parse_timestamp(text: &str) -> (r: Option<Timestamp>)
    ensures
        r == timestamp_value(text@),
        r matches Some(t) ==> t.wf(),
{
    if text.unicode_len() == 0 {
        None
    } else {
        parse_datetime(text, TIMESTAMP_FORMAT)
    }
}

/// What one row becomes: a reading when both cells hold a value, else nothing.
pub open spec fn clean_row(row: (Seq<char>, Seq<char>)) -> Option<CleanReading> {
    match (timestamp_value(row.0), glucose_value(row.1)) {
        (Some(t), Some(g)) => Some(CleanReading { timestamp: t, glucose_mgdl: g }),
        _ => None,
    }
}

/// The readings that `rows` clean to, in their order.
pub open spec fn cleaned(rows: Seq<(Seq<char>, Seq<char>)>) -> Seq<CleanReading>
    decreases rows.len(),
{
    if rows.len() == 0 {
        Seq::empty()
    } else {
        let kept = cleaned(rows.drop_last());
        match clean_row(rows.last()) {
            Some(c) => kept.push(c),
            None => kept,
        }
    }
}

/// Whether `header` names the column `name`.
pub open spec fn has_column(header: Seq<String>, name: Seq<char>) -> bool {
    exists|j: int| 0 <= j < header.len() && #[trigger] header[j]@ == name
}

/// Whether `j` is the first position of the column `name` in `header`.
pub open spec fn is_first_column(header: Seq<String>, name: Seq<char>, j: int) -> bool {
    &&& 0 <= j < header.len()
    &&& header[j]@ == name
    &&& forall|k: int| 0 <= k < j ==> #[trigger] header[k]@ != name
}

/// The first position of the column `name` in `header`.
pub open spec fn column_position(header: Seq<String>, name: Seq<char>) -> int {
    choose|j: int| is_first_column(header, name, j)
}

/// The text of cell `j` of a record; a record too short for it reads as empty.
pub open spec fn cell(record: Seq<String>, j: int) -> Seq<char> {
    if 0 <= j < record.len() {
        record[j]@
    } else {
        Seq::empty()
    }
}

/// The raw rows of a table: the timestamp and glucose cells of each record.
pub open spec fn projected(header: Seq<String>, records: Seq<Vec<String>>) -> Seq<(Seq<char>, Seq<char>)> {
    let t = column_position(header, TIMESTAMP_COLUMN@);
    let g = column_position(header, GLUCOSE_COLUMN@);
    records.map_values(|r: Vec<String>| (cell(r@, t), cell(r@, g)))
}

proof fn lemma_first_column_unique(header: Seq<String>, name: Seq<char>, j: int)
    requires
        is_first_column(header, name, j),
    ensures
        column_position(header, name) == j,
{
    let c = column_position(header, name);
    assert(is_first_column(header, name, c));
    if c < j {
        assert(header[c]@ != name);
    }
    if j < c {
        assert(header[j]@ != name);
    }
}

/// Whether two strings hold the same characters.
fn same_text(a: &str, b: &str) -> (r: bool)
    ensures
        r == (a@ == b@),
{
    let n = a.unicode_len();
    if n != b.unicode_len() {
        return false;
    }
    let mut i: usize = 0;
    while i < n
        invariant
            n == a@.len(),
            n == b@.len(),
            i <= n,
            forall|k: int| 0 <= k < i ==> a@[k] == b@[k],
        decreases n - i,
    {
        if a.get_char(i) != b.get_char(i) {
            return false;
        }
        i = i + 1;
    }
    assert(a@ =~= b@);
    true
}

/// The first position of the column `name` in `header`, if it is there.
pub fn find_column(header: &Vec<String>, name: &str) -> (r: Option<usize>)
    ensures
        r is None <==> !has_column(header@, name@),
        r matches Some(j) ==> is_first_column(header@, name@, j as int) && j as int
            == column_position(header@, name@),
{
    let mut j: usize = 0;
    while j < header.len()
        invariant
            j <= header.len(),
            forall|k: int| 0 <= k < j ==> #[trigger] header@[k]@ != name@,
        decreases header.len() - j,
    {
        if same_text(header[j].as_str(), name) {
            proof {
                lemma_first_column_unique(header@, name@, j as int);
            }
            return Some(j);
        }
        j = j + 1;
    }
    None
}

fn cell_text(record: &Vec<String>, j: usize) -> (r: String)
    ensures
        r@ == cell(record@, j as int),
{
    if j < record.len() {
        record[j].clone()
    } else {
        String::new()
    }
}

/// Keeps the timestamp and glucose cells of each record; fails with
/// `Schema` when either column is missing from the header.
pub fn select_columns(header: &Vec<String>, records: &Vec<Vec<String>>) -> (r: Result<
    Vec<RawReading>,
    PipelineError,
>)
    ensures
        r is Err <==> !has_column(header@, TIMESTAMP_COLUMN@) || !has_column(
            header@,
            GLUCOSE_COLUMN@,
        ),
        r matches Err(e) ==> e == PipelineError::Schema,
        r matches Ok(rows) ==> raw_view(rows@) == projected(header@, records@),
{
    let t = match find_column(header, TIMESTAMP_COLUMN) {
        Some(t) => t,
        None => return Err(PipelineError::Schema),
    };
    let g = match find_column(header, GLUCOSE_COLUMN) {
        Some(g) => g,
        None => return Err(PipelineError::Schema),
    };
    let mut rows: Vec<RawReading> = Vec::new();
    let mut i: usize = 0;
    while i < records.len()
        invariant
            i <= records.len(),
            t as int == column_position(header@, TIMESTAMP_COLUMN@),
            g as int == column_position(header@, GLUCOSE_COLUMN@),
            raw_view(rows@) =~= projected(header@, records@).subrange(0, i as int),
        decreases records.len() - i,
    {
        let row = RawReading {
            timestamp_text: cell_text(&records[i], t),
            glucose_text: cell_text(&records[i], g),
        };
        let ghost old_rows = rows@;
        rows.push(row);
        assert(raw_view(rows@) =~= raw_view(old_rows).push(
            (cell(records@[i as int]@, t as int), cell(records@[i as int]@, g as int)),
        ));
        i = i + 1;
    }
    assert(projected(header@, records@).subrange(0, records.len() as int) =~= projected(
        header@,
        records@,
    ));
    Ok(rows)
}

/// Normalises each row and keeps those with a valid timestamp and glucose
/// value, in their order.
pub fn clean(rows: &Vec<RawReading>) -> (r: Vec<CleanReading>)
    ensures
        r@ == cleaned(raw_view(rows@)),
        forall|k: int| 0 <= k < r@.len() ==> (#[trigger] r@[k]).valid(),
{
    let mut out: Vec<CleanReading> = Vec::new();
    let mut i: usize = 0;
    while i < rows.len()
        invariant
            i <= rows.len(),
            out@ == cleaned(raw_view(rows@).subrange(0, i as int)),
            forall|k: int| 0 <= k < out@.len() ==> (#[trigger] out@[k]).valid(),
        decreases rows.len() - i,
    {
        let ghost prefix = raw_view(rows@).subrange(0, i + 1);
        assert(prefix.drop_last() =~= raw_view(rows@).subrange(0, i as int));
        assert(prefix.last() == raw_view(rows@)[i as int]);
        let ts = parse_timestamp(rows[i].timestamp_text.as_str());
        let g = parse_glucose(rows[i].glucose_text.as_str());
        match (ts, g) {
            (Some(t), Some(v)) => {
                out.push(CleanReading { timestamp: t, glucose_mgdl: v });
            },
            _ => {},
        }
        i = i + 1;
    }
    assert(raw_view(rows@).subrange(0, rows.len() as int) =~= raw_view(rows@));
    out
}

/// Projects the two columns of a table and cleans its rows.
pub fn clean_table(header: &Vec<String>, records: &Vec<Vec<String>>) -> (r: Result<
    Vec<CleanReading>,
    PipelineError,
>)
    ensures
        r is Err <==> !has_column(header@, TIMESTAMP_COLUMN@) || !has_column(
            header@,
            GLUCOSE_COLUMN@,
        ),
        r matches Err(e) ==> e == PipelineError::Schema,
        r matches Ok(out) ==> out@ == cleaned(projected(header@, records@)),
        r matches Ok(out) ==> forall|k: int| 0 <= k < out@.len() ==> (#[trigger] out@[k]).valid(),
{
    let rows = select_columns(header, records)?;
    Ok(clean(&rows))
}

proof fn lemma_cleaned_without(rows: Seq<(Seq<char>, Seq<char>)>, i: int)
    requires
        0 <= i < rows.len(),
        clean_row(rows[i]) is None,
    ensures
        cleaned(rows) == cleaned(rows.remove(i)),
    decreases rows.len(),
{
    if i == rows.len() - 1 {
        assert(rows.remove(i) =~= rows.drop_last());
    } else {
        let rest = rows.remove(i);
        assert(rest.drop_last() =~= rows.drop_last().remove(i));
        assert(rest.last() == rows.last());
        lemma_cleaned_without(rows.drop_last(), i);
    }
}

/// A `"Low"` cell reads as 30, and a row kept with it carries 30.
pub proof fn lemma_low_reads_as_floor(row: (Seq<char>, Seq<char>))
    requires
        row.1 == seq!['L', 'o', 'w'],
    ensures
        glucose_value(row.1) == Some(LOW_READING_MGDL),
        clean_row(row) matches Some(c) ==> c.glucose_mgdl == 30,
{
}

/// A row whose glucose cell spells a negative integer leaves no trace: the
/// rows clean to what they clean to without it.
pub proof fn lemma_negative_reading_dropped(rows: Seq<(Seq<char>, Seq<char>)>, i: int)
    requires
        0 <= i < rows.len(),
        int32_of(rows[i].1) matches Some(v) && v < 0,
    ensures
        cleaned(rows) == cleaned(rows.remove(i)),
{
    let s = rows[i].1;
    if s == seq!['L', 'o', 'w'] {
        assert(s[0] == 'L');
        assert(!is_digit(s[0]));
    }
    lemma_cleaned_without(rows, i);
}

/// A row whose timestamp does not parse leaves no trace, whatever its
/// glucose cell holds.
pub proof fn lemma_bad_timestamp_dropped(rows: Seq<(Seq<char>, Seq<char>)>, i: int)
    requires
        0 <= i < rows.len(),
        timestamp_value(rows[i].0) is None,
    ensures
        cleaned(rows) == cleaned(rows.remove(i)),
{
    lemma_cleaned_without(rows, i);
}

/// Each cleaned reading is the cleaned form of some input row.
pub proof fn lemma_cleaned_from_rows(rows: Seq<(Seq<char>, Seq<char>)>)
    ensures
        forall|k: int|
            0 <= k < cleaned(rows).len() ==> exists|i: int|
                0 <= i < rows.len() && clean_row(rows[i]) == Some(#[trigger] cleaned(rows)[k]),
    decreases rows.len(),
{
    if rows.len() > 0 {
        let p = rows.drop_last();
        lemma_cleaned_from_rows(p);
        assert forall|k: int| 0 <= k < cleaned(rows).len() implies exists|i: int|
            0 <= i < rows.len() && clean_row(rows[i]) == Some(#[trigger] cleaned(rows)[k]) by {
            if k < cleaned(p).len() {
                assert(cleaned(rows)[k] == cleaned(p)[k]);
                let i = choose|i: int| 0 <= i < p.len() && clean_row(p[i]) == Some(cleaned(p)[k]);
                assert(rows[i] == p[i]);
            } else {
                assert(rows[rows.len() - 1] == rows.last());
            }
        }
    }
}

} // verus!
