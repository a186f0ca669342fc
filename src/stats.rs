//! The hourly aggregator: pools readings by hour of day across all dates
//! and summarises each hour by its total, count and four nearest-rank
//! quantiles.

use vstd::prelude::*;
use crate::cleaner::CleanReading;
use crate::error::PipelineError;

verus! {

/// How many values of `s` are at most `v`.
pub open spec fn count_le(s: Seq<i32>, v: i32) -> nat
    decreases s.len(),
{
    if s.len() == 0 {
        0
    } else {
        count_le(s.drop_last(), v) + if s.last() <= v { 1nat } else { 0nat }
    }
}

/// How many values of `s` are below `v`.
pub open spec fn count_lt(s: Seq<i32>, v: i32) -> nat
    decreases s.len(),
{
    if s.len() == 0 {
        0
    } else {
        count_lt(s.drop_last(), v) + if s.last() < v { 1nat } else { 0nat }
    }
}

/// `v` is the value at position `k` (from 0) of `s` sorted ascending.
pub open spec fn is_kth_smallest(s: Seq<i32>, k: int, v: i32) -> bool {
    &&& s.contains(v)
    &&& count_lt(s, v) <= k < count_le(s, v)
}

/// The value at position `k` of `s` sorted ascending.
pub open spec fn kth_smallest(s: Seq<i32>, k: int) -> i32 {
    choose|v: i32| is_kth_smallest(s, k, v)
}

/// The position that the nearest-rank rule picks for `percent` among `n`
/// sorted values: `percent / 100 * (n - 1)`, rounded half up.
pub open spec fn nearest_rank(percent: int, n: int) -> int {
    (percent * (n - 1) + 50) / 100
}

/// The nearest-rank quantile of `s` at `percent`.
pub open spec fn quantile(s: Seq<i32>, percent: int) -> i32 {
    kth_smallest(s, nearest_rank(percent, s.len() as int))
}

pub open spec fn sum(s: Seq<i32>) -> int
    decreases s.len(),
{
    if s.len() == 0 {
        0
    } else {
        sum(s.drop_last()) + s.last()
    }
}

/// The glucose values of the readings taken in hour `h`, on any date, in order.
pub open spec fn hour_values(rs: Seq<CleanReading>, h: int) -> Seq<i32>
    decreases rs.len(),
{
    if rs.len() == 0 {
        Seq::empty()
    } else {
        let earlier = hour_values(rs.drop_last(), h);
        if rs.last().timestamp.hour == h {
            earlier.push(rs.last().glucose_mgdl)
        } else {
            earlier
        }
    }
}

/// The summary of one hour of the day. The mean is `total / count`.
#[derive(Clone, Copy, Debug, PartialEq, Eq, Structural)]
pub struct HourlyStat {
    pub hour: u32,
    pub count: usize,
    pub total: i128,
    pub p5: i32,
    pub p25: i32,
    pub p75: i32,
    pub p95: i32,
}

/// The summary of the values `g` taken in hour `h`.
pub open spec fn stat_of(h: int, g: Seq<i32>) -> HourlyStat {
    HourlyStat {
        hour: h as u32,
        count: g.len() as usize,
        total: sum(g) as i128,
        p5: quantile(g, 5),
        p25: quantile(g, 25),
        p75: quantile(g, 75),
        p95: quantile(g, 95),
    }
}

/// One summary for each hour below `h` that has readings, ascending by hour.
pub open spec fn stats_below(rs: Seq<CleanReading>, h: int) -> Seq<HourlyStat>
    decreases h,
{
    if h <= 0 {
        Seq::empty()
    } else {
        let earlier = stats_below(rs, h - 1);
        let g = hour_values(rs, h - 1);
        if g.len() == 0 {
            earlier
        } else {
            earlier.push(stat_of(h - 1, g))
        }
    }
}

/// The hourly summaries of `rs`: one for each hour of the day with readings.
pub open spec fn hourly_stats(rs: Seq<CleanReading>) -> Seq<HourlyStat> {
    stats_below(rs, 24)
}

proof fn lemma_count_le_monotone(s: Seq<i32>, a: i32, b: i32)
    requires
        a <= b,
    ensures
        count_le(s, a) <= count_le(s, b),
    decreases s.len(),
{
    if s.len() > 0 {
        lemma_count_le_monotone(s.drop_last(), a, b);
    }
}

proof fn lemma_count_le_below_lt(s: Seq<i32>, a: i32, b: i32)
    requires
        a < b,
    ensures
        count_le(s, a) <= count_lt(s, b),
    decreases s.len(),
{
    if s.len() > 0 {
        lemma_count_le_below_lt(s.drop_last(), a, b);
    }
}

proof fn lemma_count_lt_as_le(s: Seq<i32>, v: i32, w: i32)
    requires
        forall|j: int| 0 <= j < s.len() ==> (#[trigger] s[j] < v <==> s[j] <= w),
    ensures
        count_lt(s, v) == count_le(s, w),
    decreases s.len(),
{
    if s.len() > 0 {
        let p = s.drop_last();
        assert forall|j: int| 0 <= j < p.len() implies (#[trigger] p[j] < v <==> p[j] <= w) by {
            assert(p[j] == s[j]);
        }
        lemma_count_lt_as_le(p, v, w);
        assert(s.last() == s[s.len() - 1]);
    }
}

proof fn lemma_count_lt_none(s: Seq<i32>, v: i32)
    requires
        forall|j: int| 0 <= j < s.len() ==> !(#[trigger] s[j] < v),
    ensures
        count_lt(s, v) == 0,
    decreases s.len(),
{
    if s.len() > 0 {
        let p = s.drop_last();
        assert forall|j: int| 0 <= j < p.len() implies !(#[trigger] p[j] < v) by {
            assert(p[j] == s[j]);
        }
        lemma_count_lt_none(p, v);
        assert(s.last() == s[s.len() - 1]);
    }
}

proof fn lemma_count_le_all(s: Seq<i32>, m: i32)
    requires
        forall|j: int| 0 <= j < s.len() ==> #[trigger] s[j] <= m,
    ensures
        count_le(s, m) == s.len(),
    decreases s.len(),
{
    if s.len() > 0 {
        let p = s.drop_last();
        assert forall|j: int| 0 <= j < p.len() implies #[trigger] p[j] <= m by {
            assert(p[j] == s[j]);
        }
        lemma_count_le_all(p, m);
        assert(s.last() == s[s.len() - 1]);
    }
}

/// At most one value sits at a given position of the sorted order.
pub proof fn lemma_kth_smallest_unique(s: Seq<i32>, k: int, v: i32, w: i32)
    requires
        is_kth_smallest(s, k, v),
        is_kth_smallest(s, k, w),
    ensures
        v == w,
{
    if v < w {
        lemma_count_le_below_lt(s, v, w);
    }
    if w < v {
        lemma_count_le_below_lt(s, w, v);
    }
}

fn count_at_most(s: &Vec<i32>, v: i32) -> (r: usize)
    ensures
        r == count_le(s@, v),
{
    let mut c: usize = 0;
    let mut i: usize = 0;
    while i < s.len()
        invariant
            i <= s.len(),
            c <= i,
            c == count_le(s@.subrange(0, i as int), v),
        decreases s.len() - i,
    {
        assert(s@.subrange(0, i + 1).drop_last() =~= s@.subrange(0, i as int));
        if s[i] <= v {
            c = c + 1;
        }
        i = i + 1;
    }
    assert(s@.subrange(0, s.len() as int) =~= s@);
    c
}

/// The value at position `k` of `s` sorted ascending.
pub fn kth_smallest_value(s: &Vec<i32>, k: usize) -> (r: i32)
    requires
        k < s.len(),
    ensures
        is_kth_smallest(s@, k as int, r),
        r == kth_smallest(s@, k as int),
{
    // least value whose rank reaches past k, greatest value whose rank does not
    let mut best: Option<i32> = None;
    let mut below: Option<i32> = None;
    let mut i: usize = 0;
    while i < s.len()
        invariant
            i <= s.len(),
            best matches Some(b) ==> {
                &&& s@.contains(b)
                &&& count_le(s@, b) > k
                &&& forall|j: int|
                    0 <= j < i ==> (count_le(s@, #[trigger] s@[j]) > k ==> b <= s@[j])
            },
            best is None ==> forall|j: int| 0 <= j < i ==> count_le(s@, #[trigger] s@[j]) <= k,
            below matches Some(w) ==> {
                &&& s@.contains(w)
                &&& count_le(s@, w) <= k
                &&& forall|j: int|
                    0 <= j < i ==> (count_le(s@, #[trigger] s@[j]) <= k ==> s@[j] <= w)
            },
            below is None ==> forall|j: int| 0 <= j < i ==> count_le(s@, #[trigger] s@[j]) > k,
        decreases s.len() - i,
    {
        let x = s[i];
        let c = count_at_most(s, x);
        proof {
            assert(s@.contains(x)) by {
                assert(s@[i as int] == x);
            }
        }
        if c > k {
            let keep = match best {
                Some(b) => b <= x,
                None => false,
            };
            if !keep {
                best = Some(x);
            }
        } else {
            let keep = match below {
                Some(w) => x <= w,
                None => false,
            };
            if !keep {
                below = Some(x);
            }
        }
        i = i + 1;
    }
    match best {
        Some(b) => {
            proof {
                assert forall|j: int| 0 <= j < s@.len() implies (#[trigger] s@[j] < b
                    <==> count_le(s@, s@[j]) <= k) by {
                    if s@[j] >= b {
                        lemma_count_le_monotone(s@, b, s@[j]);
                    }
                }
                match below {
                    Some(w) => {
                        assert forall|j: int| 0 <= j < s@.len() implies (#[trigger] s@[j] < b
                            <==> s@[j] <= w) by {
                            if s@[j] <= w {
                                lemma_count_le_monotone(s@, s@[j], w);
                            }
                        }
                        lemma_count_lt_as_le(s@, b, w);
                    },
                    None => {
                        lemma_count_lt_none(s@, b);
                    },
                }
                assert(is_kth_smallest(s@, k as int, b));
                lemma_kth_smallest_unique(s@, k as int, b, kth_smallest(s@, k as int));
            }
            b
        },
        None => {
            proof {
                let w = below.unwrap();
                assert(count_le(s@, s@[0]) <= k);
                assert forall|j: int| 0 <= j < s@.len() implies #[trigger] s@[j] <= w by {
                    assert(count_le(s@, s@[j]) <= k);
                }
                lemma_count_le_all(s@, w);
            }
            0
        },
    }
}

/// The nearest-rank quantile of `values` at `percent`: the value whose
/// position in sorted order is `percent / 100 * (n - 1)` rounded half up.
pub fn quantile_nearest(values: &Vec<i32>, percent: u32) -> (r: i32)
    requires
        values.len() > 0,
        percent <= 100,
    ensures
        r == quantile(values@, percent as int),
        values@.contains(r),
{
    let n = values.len();
    let p = percent as u128;
    let m = (n - 1) as u128;
    assert(p * m <= 100 * 0xffff_ffff_ffff_ffffu128) by (nonlinear_arith)
        requires
            p <= 100,
            m <= 0xffff_ffff_ffff_ffffu128,
    ;
    let k = (p * m + 50) / 100;
    assert(k <= n - 1) by (nonlinear_arith)
        requires
            k == (percent * (n - 1) + 50) / 100,
            percent <= 100,
            n >= 1,
    ;
    kth_smallest_value(values, k as usize)
}

fn total_of(values: &Vec<i32>) -> (r: i128)
    ensures
        r == sum(values@),
{
    let mut total: i128 = 0;
    let mut i: usize = 0;
    while i < values.len()
        invariant
            i <= values.len(),
            total == sum(values@.subrange(0, i as int)),
            -2147483648 * i <= total <= 2147483647 * i,
        decreases values.len() - i,
    {
        assert(values@.subrange(0, i + 1).drop_last() =~= values@.subrange(0, i as int));
        total = total + values[i] as i128;
        i = i + 1;
    }
    assert(values@.subrange(0, values.len() as int) =~= values@);
    total
}

/// The glucose values of the readings taken in hour `h`, on any date.
pub fn values_at_hour(readings: &Vec<CleanReading>, h: u32) -> (r: Vec<i32>)
    ensures
        r@ == hour_values(readings@, h as int),
{
    let mut out: Vec<i32> = Vec::new();
    let mut i: usize = 0;
    while i < readings.len()
        invariant
            i <= readings.len(),
            out@ == hour_values(readings@.subrange(0, i as int), h as int),
        decreases readings.len() - i,
    {
        assert(readings@.subrange(0, i + 1).drop_last() =~= readings@.subrange(0, i as int));
        if readings[i].timestamp.hour == h {
            out.push(readings[i].glucose_mgdl);
        }
        i = i + 1;
    }
    assert(readings@.subrange(0, readings.len() as int) =~= readings@);
    out
}

/// The summary of the values `values` taken in hour `h`.
pub fn hourly_stat(h: u32, values: &Vec<i32>) -> (r: HourlyStat)
    requires
        values.len() > 0,
    ensures
        r == stat_of(h as int, values@),
{
    HourlyStat {
        hour: h,
        count: values.len(),
        total: total_of(values),
        p5: quantile_nearest(values, 5),
        p25: quantile_nearest(values, 25),
        p75: quantile_nearest(values, 75),
        p95: quantile_nearest(values, 95),
    }
}

/// Pools the readings by hour of day, on whatever date they were taken,
/// and summarises each hour that has readings, ascending by hour. An empty
/// input is refused with `EmptyInput`.
pub fn aggregate(readings: &Vec<CleanReading>) -> (r: Result<Vec<HourlyStat>, PipelineError>)
    ensures
        r is Err <==> readings.len() == 0,
        r matches Err(e) ==> e == PipelineError::EmptyInput,
        r matches Ok(stats) ==> stats@ == hourly_stats(readings@),
{
    if readings.len() == 0 {
        return Err(PipelineError::EmptyInput);
    }
    let mut out: Vec<HourlyStat> = Vec::new();
    let mut h: u32 = 0;
    while h < 24
        invariant
            h <= 24,
            out@ == stats_below(readings@, h as int),
        decreases 24 - h,
    {
        let values = values_at_hour(readings, h);
        if values.len() > 0 {
            out.push(hourly_stat(h, &values));
        }
        h = h + 1;
    }
    Ok(out)
}

proof fn lemma_stats_below_ascending(rs: Seq<CleanReading>, n: int)
    requires
        0 <= n <= 24,
    ensures
        forall|i: int|
            0 <= i < stats_below(rs, n).len() ==> #[trigger] stats_below(rs, n)[i].hour < n,
        forall|i: int, j: int|
            0 <= i < j < stats_below(rs, n).len() ==> #[trigger] stats_below(rs, n)[i].hour
                < #[trigger] stats_below(rs, n)[j].hour,
    decreases n,
{
    if n > 0 {
        lemma_stats_below_ascending(rs, n - 1);
        let e = stats_below(rs, n - 1);
        let g = hour_values(rs, n - 1);
        if g.len() > 0 {
            let all = stats_below(rs, n);
            assert(all == e.push(stat_of(n - 1, g)));
            assert(all[e.len() as int].hour == n - 1);
            assert forall|i: int| 0 <= i < all.len() implies #[trigger] all[i].hour < n by {
                if i < e.len() {
                    assert(all[i] == e[i]);
                }
            }
            assert forall|i: int, j: int| 0 <= i < j < all.len() implies #[trigger] all[i].hour
                < #[trigger] all[j].hour by {
                assert(all[i] == e[i]);
                if j < e.len() {
                    assert(all[j] == e[j]);
                }
            }
        }
    }
}

proof fn lemma_stats_below_hour(rs: Seq<CleanReading>, n: int, h: int)
    requires
        0 <= h < n <= 24,
    ensures
        hour_values(rs, h).len() > 0 ==> exists|i: int|
            0 <= i < stats_below(rs, n).len() && #[trigger] stats_below(rs, n)[i] == stat_of(
                h,
                hour_values(rs, h),
            ),
        hour_values(rs, h).len() == 0 ==> forall|i: int|
            0 <= i < stats_below(rs, n).len() ==> #[trigger] stats_below(rs, n)[i].hour != h,
    decreases n,
{
    lemma_stats_below_ascending(rs, n - 1);
    let earlier = stats_below(rs, n - 1);
    if h < n - 1 {
        lemma_stats_below_hour(rs, n - 1, h);
        if hour_values(rs, h).len() > 0 {
            let i = choose|i: int|
                0 <= i < earlier.len() && #[trigger] earlier[i] == stat_of(h, hour_values(rs, h));
            assert(stats_below(rs, n)[i] == earlier[i]);
        }
    } else if hour_values(rs, h).len() > 0 {
        assert(stats_below(rs, n)[earlier.len() as int] == stat_of(h, hour_values(rs, h)));
    }
}

/// The hourly summaries are strictly ascending by hour, and every hour is
/// an hour of the day.
pub proof fn lemma_hourly_stats_ascending(rs: Seq<CleanReading>)
    ensures
        forall|i: int| 0 <= i < hourly_stats(rs).len() ==> #[trigger] hourly_stats(rs)[i].hour < 24,
        forall|i: int, j: int|
            0 <= i < j < hourly_stats(rs).len() ==> #[trigger] hourly_stats(rs)[i].hour
                < #[trigger] hourly_stats(rs)[j].hour,
{
    lemma_stats_below_ascending(rs, 24);
}

/// An hour of the day has a summary exactly when some reading was taken in
/// it, and that summary is the one of all the readings of that hour.
pub proof fn lemma_hour_has_stat(rs: Seq<CleanReading>, h: int)
    requires
        0 <= h < 24,
    ensures
        hour_values(rs, h).len() > 0 <==> exists|i: int|
            0 <= i < hourly_stats(rs).len() && #[trigger] hourly_stats(rs)[i].hour == h,
        forall|i: int|
            0 <= i < hourly_stats(rs).len() && #[trigger] hourly_stats(rs)[i].hour == h
                ==> hourly_stats(rs)[i] == stat_of(h, hour_values(rs, h)),
{
    let st = hourly_stats(rs);
    lemma_stats_below_hour(rs, 24, h);
    lemma_hourly_stats_ascending(rs);
    if hour_values(rs, h).len() > 0 {
        let w = choose|i: int| 0 <= i < st.len() && #[trigger] st[i] == stat_of(h, hour_values(rs, h));
        assert(st[w].hour == h);
        assert forall|i: int| 0 <= i < st.len() && #[trigger] st[i].hour == h implies st[i]
            == stat_of(h, hour_values(rs, h)) by {
            if i < w {
                assert(st[i].hour < st[w].hour);
            }
            if w < i {
                assert(st[w].hour < st[i].hour);
            }
        }
    }
}

/// A reading's value is among the values of its hour.
pub proof fn lemma_reading_in_its_hour(rs: Seq<CleanReading>, i: int)
    requires
        0 <= i < rs.len(),
    ensures
        hour_values(rs, rs[i].timestamp.hour as int).contains(rs[i].glucose_mgdl),
    decreases rs.len(),
{
    let h = rs[i].timestamp.hour as int;
    if i == rs.len() - 1 {
        let g = hour_values(rs, h);
        assert(g[g.len() - 1] == rs[i].glucose_mgdl);
    } else {
        let p = rs.drop_last();
        assert(p[i] == rs[i]);
        lemma_reading_in_its_hour(p, i);
        let v = rs[i].glucose_mgdl;
        let k = choose|k: int| 0 <= k < hour_values(p, h).len() && hour_values(p, h)[k] == v;
        assert(hour_values(rs, h)[k] == v);
    }
}

/// Two reading sequences that agree, reading by reading, on hour and value.
pub open spec fn same_hours_and_values(a: Seq<CleanReading>, b: Seq<CleanReading>) -> bool {
    &&& a.len() == b.len()
    &&& forall|i: int|
        0 <= i < a.len() ==> (#[trigger] a[i]).timestamp.hour == (#[trigger] b[i]).timestamp.hour
            && a[i].glucose_mgdl == b[i].glucose_mgdl
}

proof fn lemma_hour_values_same(a: Seq<CleanReading>, b: Seq<CleanReading>, h: int)
    requires
        same_hours_and_values(a, b),
    ensures
        hour_values(a, h) == hour_values(b, h),
    decreases a.len(),
{
    if a.len() > 0 {
        let (pa, pb) = (a.drop_last(), b.drop_last());
        assert forall|i: int| 0 <= i < pa.len() implies (#[trigger] pa[i]).timestamp.hour
            == (#[trigger] pb[i]).timestamp.hour && pa[i].glucose_mgdl == pb[i].glucose_mgdl by {
            assert(pa[i] == a[i] && pb[i] == b[i]);
        }
        lemma_hour_values_same(pa, pb, h);
        assert(a.last() == a[a.len() - 1] && b.last() == b[b.len() - 1]);
    }
}

proof fn lemma_stats_below_same(a: Seq<CleanReading>, b: Seq<CleanReading>, n: int)
    requires
        same_hours_and_values(a, b),
    ensures
        stats_below(a, n) == stats_below(b, n),
    decreases n,
{
    if n > 0 {
        lemma_stats_below_same(a, b, n - 1);
        lemma_hour_values_same(a, b, n - 1);
    }
}

/// Readings are pooled by hour of day alone: readings that differ only in
/// their dates (or minutes and seconds) give the same hourly summaries.
pub proof fn lemma_grouped_by_hour_only(a: Seq<CleanReading>, b: Seq<CleanReading>)
    requires
        same_hours_and_values(a, b),
    ensures
        hourly_stats(a) == hourly_stats(b),
{
    lemma_stats_below_same(a, b, 24);
}

/// Two readings taken in the same hour, on whatever dates, fall into one
/// and the same hourly summary, whose values include both of theirs.
pub proof fn lemma_same_hour_same_stat(rs: Seq<CleanReading>, i: int, j: int)
    requires
        0 <= i < rs.len(),
        0 <= j < rs.len(),
        rs[i].timestamp.hour == rs[j].timestamp.hour,
        rs[i].timestamp.hour < 24,
    ensures
        exists|k: int|
            0 <= k < hourly_stats(rs).len() && #[trigger] hourly_stats(rs)[k] == stat_of(
                rs[i].timestamp.hour as int,
                hour_values(rs, rs[i].timestamp.hour as int),
            ),
        hour_values(rs, rs[i].timestamp.hour as int).contains(rs[i].glucose_mgdl),
        hour_values(rs, rs[i].timestamp.hour as int).contains(rs[j].glucose_mgdl),
{
    let h = rs[i].timestamp.hour as int;
    lemma_reading_in_its_hour(rs, i);
    lemma_reading_in_its_hour(rs, j);
    lemma_hour_has_stat(rs, h);
    let k = choose|k: int| 0 <= k < hourly_stats(rs).len() && #[trigger] hourly_stats(rs)[k].hour == h;
    assert(hourly_stats(rs)[k] == stat_of(h, hour_values(rs, h)));
}

} // verus!
