//! The whole computation from a table of cells to hourly summaries.

use vstd::prelude::*;
use crate::cleaner::{
    clean_table, cleaned, column_position, has_column, is_first_column, lemma_bad_timestamp_dropped,
    projected, timestamp_value, GLUCOSE_COLUMN, TIMESTAMP_COLUMN,
};
use crate::error::PipelineError;
use crate::stats::{aggregate, hourly_stats, HourlyStat};

verus! {

/// The hourly summaries of a table with a header and records.
pub open spec fn table_stats(header: Seq<String>, records: Seq<Vec<String>>) -> Seq<HourlyStat> {
    hourly_stats(cleaned(projected(header, records)))
}

/// Whether the header names both columns that the pipeline reads.
pub open spec fn has_required_columns(header: Seq<String>) -> bool {
    has_column(header, TIMESTAMP_COLUMN@) && has_column(header, GLUCOSE_COLUMN@)
}

/// Cleans the records of a table and summarises them by hour of day.
/// Fails with `Schema` when a required column is missing, and with
/// `EmptyInput` when no row survives cleaning.
pub fn hourly_stats_of_table(header: &Vec<String>, records: &Vec<Vec<String>>) -> (r: Result<
    Vec<HourlyStat>,
    PipelineError,
>)
    ensures
        r == Err::<Vec<HourlyStat>, PipelineError>(PipelineError::Schema)
            <==> !has_required_columns(header@),
        r == Err::<Vec<HourlyStat>, PipelineError>(PipelineError::EmptyInput) <==> has_required_columns(
            header@,
        ) && cleaned(projected(header@, records@)).len() == 0,
        r matches Err(e) ==> e == PipelineError::Schema || e == PipelineError::EmptyInput,
        r matches Ok(stats) ==> stats@ == table_stats(header@, records@),
{
    let readings = clean_table(header, records)?;
    aggregate(&readings)
}

/// A row with an empty timestamp cell changes no hourly summary: the rows
/// summarise as they do without it.
pub proof fn lemma_empty_timestamp_row_ignored(rows: Seq<(Seq<char>, Seq<char>)>, i: int)
    requires
        0 <= i < rows.len(),
        rows[i].0.len() == 0,
    ensures
        hourly_stats(cleaned(rows)) == hourly_stats(cleaned(rows.remove(i))),
{
    assert(timestamp_value(rows[i].0) is None);
    lemma_bad_timestamp_dropped(rows, i);
}

/// Two tables whose header and records hold the same texts, cell by cell.
pub open spec fn same_cells(
    h1: Seq<String>,
    r1: Seq<Vec<String>>,
    h2: Seq<String>,
    r2: Seq<Vec<String>>,
) -> bool {
    &&& h1.len() == h2.len()
    &&& forall|j: int| 0 <= j < h1.len() ==> (#[trigger] h1[j])@ == h2[j]@
    &&& r1.len() == r2.len()
    &&& forall|k: int| 0 <= k < r1.len() ==> (#[trigger] r1[k])@.len() == r2[k]@.len()
    &&& forall|k: int, j: int|
        0 <= k < r1.len() && 0 <= j < r1[k]@.len() ==> (#[trigger] r1[k]@[j])@ == r2[k]@[j]@
}

proof fn lemma_first_column_exists(h: Seq<String>, name: Seq<char>)
    requires
        has_column(h, name),
    ensures
        is_first_column(h, name, column_position(h, name)),
    decreases h.len(),
{
    let p = h.drop_last();
    if has_column(p, name) {
        lemma_first_column_exists(p, name);
        let c = column_position(p, name);
        assert(h[c] == p[c]);
        assert forall|k: int| 0 <= k < c implies #[trigger] h[k]@ != name by {
            assert(h[k] == p[k]);
        }
        assert(is_first_column(h, name, c));
    } else {
        let j = choose|j: int| 0 <= j < h.len() && #[trigger] h[j]@ == name;
        assert forall|k: int| 0 <= k < h.len() - 1 implies #[trigger] h[k]@ != name by {
            assert(h[k] == p[k]);
        }
        assert(is_first_column(h, name, h.len() - 1));
    }
}

proof fn lemma_same_column(h1: Seq<String>, h2: Seq<String>, name: Seq<char>)
    requires
        h1.len() == h2.len(),
        forall|j: int| 0 <= j < h1.len() ==> (#[trigger] h1[j])@ == h2[j]@,
    ensures
        has_column(h1, name) <==> has_column(h2, name),
        has_column(h1, name) ==> column_position(h1, name) == column_position(h2, name),
{
    if has_column(h1, name) {
        let j = choose|j: int| 0 <= j < h1.len() && #[trigger] h1[j]@ == name;
        assert(h2[j]@ == name);
        lemma_first_column_exists(h1, name);
        let c = column_position(h1, name);
        assert forall|k: int| 0 <= k < c implies #[trigger] h2[k]@ != name by {
            assert(h1[k]@ == h2[k]@);
        }
        assert(is_first_column(h2, name, c));
        lemma_first_column_exists(h2, name);
        let c2 = column_position(h2, name);
        if c2 < c {
            assert(h1[c2]@ == h2[c2]@);
        }
        if c < c2 {
            assert(h2[c]@ == name);
        }
    }
    if has_column(h2, name) {
        let j = choose|j: int| 0 <= j < h2.len() && #[trigger] h2[j]@ == name;
        assert(h1[j]@ == name);
    }
}

/// The summaries are a function of the table's texts: a second run on the
/// same cells fails or succeeds alike and gives the same hourly summaries.
pub proof fn lemma_rerun_same_stats(
    h1: Seq<String>,
    r1: Seq<Vec<String>>,
    h2: Seq<String>,
    r2: Seq<Vec<String>>,
)
    requires
        same_cells(h1, r1, h2, r2),
    ensures
        has_required_columns(h1) <==> has_required_columns(h2),
        has_required_columns(h1) ==> projected(h1, r1) == projected(h2, r2),
        has_required_columns(h1) ==> table_stats(h1, r1) == table_stats(h2, r2),
{
    lemma_same_column(h1, h2, TIMESTAMP_COLUMN@);
    lemma_same_column(h1, h2, GLUCOSE_COLUMN@);
    if has_required_columns(h1) {
        let left = projected(h1, r1);
        let right = projected(h2, r2);
        assert forall|k: int| 0 <= k < left.len() implies #[trigger] left[k] == right[k] by {
            let a = r1[k]@;
            let b = r2[k]@;
            assert(a.len() == b.len());
            let t = column_position(h1, TIMESTAMP_COLUMN@);
            let g = column_position(h1, GLUCOSE_COLUMN@);
            if 0 <= t < a.len() {
                assert(a[t]@ == b[t]@);
            }
            if 0 <= g < a.len() {
                assert(a[g]@ == b[g]@);
            }
        }
        assert(left =~= right);
    }
}

} // verus!
