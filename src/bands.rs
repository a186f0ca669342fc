//! The band builder: the series that draw the 5-95 and 25-75 percentile
//! envelopes as a floor plus a stacked width, and the top of the value axis.

use vstd::prelude::*;
use crate::error::PipelineError;
use crate::stats::HourlyStat;

verus! {

/// Space left above the largest 95th percentile before rounding to a gridline.
pub const AXIS_HEADROOM: i64 = 50;

/// Spacing of the value axis gridlines.
pub const AXIS_GRID: i64 = 25;

/// What the chart of hourly statistics draws.
#[derive(Debug)]
pub struct BandSeries {
    /// The hours present, ascending as the statistics come.
    pub hours: Vec<u32>,
    /// The axis label of each hour.
    pub labels: Vec<String>,
    /// Floor of the 5-95 band: the 5th percentile.
    pub outer_floor: Vec<i64>,
    /// Width of the 5-95 band: 95th minus 5th percentile.
    pub outer_width: Vec<i64>,
    /// Floor of the 25-75 band: the 25th percentile.
    pub inner_floor: Vec<i64>,
    /// Width of the 25-75 band: 75th minus 25th percentile.
    pub inner_width: Vec<i64>,
    /// Top of the value axis.
    pub y_axis_max: i64,
}

/// The top of the value axis for a largest value `m`: `m + 50 - (m rem 25)`,
/// where the remainder takes the sign of `m`.
pub open spec fn ceiling_for(m: int) -> int {
    if m >= 0 {
        m + AXIS_HEADROOM as int - m % (AXIS_GRID as int)
    } else {
        m + AXIS_HEADROOM as int + (-m) % (AXIS_GRID as int)
    }
}

/// The largest 95th percentile of a non-empty sequence of statistics.
pub open spec fn max_p95(stats: Seq<HourlyStat>) -> int
    decreases stats.len(),
{
    if stats.len() <= 1 {
        stats[0].p95 as int
    } else {
        let m = max_p95(stats.drop_last());
        let v = stats.last().p95 as int;
        if v > m {
            v
        } else {
            m
        }
    }
}

pub open spec fn digit_char(d: nat) -> char {
    ((d + 48) as u8) as char
}

/// The decimal digits of `n`, without sign or padding.
pub open spec fn decimal_text(n: nat) -> Seq<char>
    decreases n,
{
    if n < 10 {
        seq![digit_char(n)]
    } else {
        decimal_text(n / 10).push(digit_char(n % 10))
    }
}

/// The band series that `stats` give, position by position.
pub open spec fn bands_of(stats: Seq<HourlyStat>, b: BandSeries) -> bool {
    &&& b.hours@.len() == stats.len()
    &&& b.labels@.len() == stats.len()
    &&& b.outer_floor@.len() == stats.len()
    &&& b.outer_width@.len() == stats.len()
    &&& b.inner_floor@.len() == stats.len()
    &&& b.inner_width@.len() == stats.len()
    &&& forall|i: int|
        0 <= i < stats.len() ==> {
            &&& b.hours@[i] == (#[trigger] stats[i]).hour
            &&& b.labels@[i]@ == decimal_text(stats[i].hour as nat)
            &&& b.outer_floor@[i] == stats[i].p5
            &&& b.outer_width@[i] == stats[i].p95 - stats[i].p5
            &&& b.inner_floor@[i] == stats[i].p25
            &&& b.inner_width@[i] == stats[i].p75 - stats[i].p25
        }
    &&& b.y_axis_max == ceiling_for(max_p95(stats))
}

/// Relies on the standard `ToString` of `u32` (through `Display`), which
/// writes the number in decimal digits, without sign or padding.
#[verifier::external_body]
fn decimal_label(n: u32) -> (r: String)
    ensures
        r@ == decimal_text(n as nat),
{
    n.to_string()
}

/// The top of the value axis for a largest value `m`: 50 above it, less its
/// remainder by 25.
pub fn axis_ceiling(m: i32) -> (r: i64)
    ensures
        r == ceiling_for(m as int),
        m >= 0 && m % 25 == 0 ==> r == m + 50,
        m >= 0 && m % 25 != 0 ==> m + 25 < r < m + 50,
        m >= 0 ==> r % 25 == 0,
{
    let m = m as i64;
    if m >= 0 {
        m + AXIS_HEADROOM - m % AXIS_GRID
    } else {
        m + AXIS_HEADROOM + (0 - m) % AXIS_GRID
    }
}

/// The floors and widths of the two percentile bands, the hour labels, and
/// the top of the value axis; `NoData` when there is no statistic.
pub fn build_bands(stats: &Vec<HourlyStat>) -> (r: Result<BandSeries, PipelineError>)
    ensures
        r is Err <==> stats.len() == 0,
        r matches Err(e) ==> e == PipelineError::NoData,
        r matches Ok(b) ==> bands_of(stats@, b),
{
    if stats.len() == 0 {
        return Err(PipelineError::NoData);
    }
    let mut b = BandSeries {
        hours: Vec::new(),
        labels: Vec::new(),
        outer_floor: Vec::new(),
        outer_width: Vec::new(),
        inner_floor: Vec::new(),
        inner_width: Vec::new(),
        y_axis_max: 0,
    };
    let mut top: i32 = stats[0].p95;
    let mut i: usize = 0;
    while i < stats.len()
        invariant
            0 <= i <= stats.len(),
            stats.len() > 0,
            top == max_p95(stats@.subrange(0, if i == 0 { 1 } else { i as int })),
            b.hours@.len() == i,
            b.labels@.len() == i,
            b.outer_floor@.len() == i,
            b.outer_width@.len() == i,
            b.inner_floor@.len() == i,
            b.inner_width@.len() == i,
            forall|k: int|
                0 <= k < i ==> {
                    &&& b.hours@[k] == (#[trigger] stats@[k]).hour
                    &&& b.labels@[k]@ == decimal_text(stats@[k].hour as nat)
                    &&& b.outer_floor@[k] == stats@[k].p5
                    &&& b.outer_width@[k] == stats@[k].p95 - stats@[k].p5
                    &&& b.inner_floor@[k] == stats@[k].p25
                    &&& b.inner_width@[k] == stats@[k].p75 - stats@[k].p25
                },
        decreases stats.len() - i,
    {
        let st = stats[i];
        if i > 0 {
            assert(stats@.subrange(0, i + 1).drop_last() =~= stats@.subrange(0, i as int));
            if st.p95 > top {
                top = st.p95;
            }
        }
        b.hours.push(st.hour);
        b.labels.push(decimal_label(st.hour));
        b.outer_floor.push(st.p5 as i64);
        b.outer_width.push(st.p95 as i64 - st.p5 as i64);
        b.inner_floor.push(st.p25 as i64);
        b.inner_width.push(st.p75 as i64 - st.p25 as i64);
        i = i + 1;
    }
    assert(stats@.subrange(0, stats.len() as int) =~= stats@);
    b.y_axis_max = axis_ceiling(top);
    Ok(b)
}

} // verus!
