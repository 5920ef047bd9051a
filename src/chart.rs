//! Chart-ready series: histograms laid out on a shared key axis, merged
//! down to a bounded number of points, and the rank chart.
//!
//! A point's value for a series is a sum of scaled counts over the `span`
//! keys merged into it; over `span` times the number of trials it is a
//! percentage.
use vstd::prelude::*;
use vstd::string::StringExecFns;
use crate::histogram::HistogramData;
use crate::keys::{HistogramKeys, keys_from, start_for, start_is_aligned, pad_for, lemma_keys_increasing};
use crate::rank::RankStats;

verus! {

/// Most points a merged histogram chart holds.
pub const MAX_CHART_POINTS: usize = 256;

/// Largest key a histogram may hold for its padded axis to stay in range.
pub const MAX_CHART_KEY: i32 = 2147483447;

/// One point of a chart.
#[derive(Debug, Clone)]
pub struct ChartPoint {
    /// The first key merged into the point (the rank, for the rank chart).
    pub key: i32,
    /// Per series, the sum of the values merged into the point.
    pub values: Vec<u128>,
    /// How many keys were merged into the point.
    pub span: u64,
}

/// A chart: one label per series, and its points.
#[derive(Debug, Clone)]
pub struct ChartData {
    pub labels: Vec<String>,
    pub data: Vec<ChartPoint>,
}

/// Points are merged in chunks of this many keys: the least power of two
/// that brings `len` keys down to at most `MAX_CHART_POINTS` chunks.
pub open spec fn merge_factor(len: nat) -> nat
    decreases len,
{
    if len <= 256 {
        1
    } else {
        2 * merge_factor(((len + 1) / 2) as nat)
    }
}

/// `points` chunks of `merge_factor(len)` keys each cover an axis of `len`
/// keys with no chunk left empty: one point per key when `len` is at most
/// `MAX_CHART_POINTS`.
pub open spec fn covers_axis(points: nat, len: nat) -> bool {
    &&& points * merge_factor(len) >= len
    &&& points > 0 ==> (points - 1) * merge_factor(len) < len
}

/// Sum of the values of `h` at `keys[lo..hi]`.
pub open spec fn chunk_value(h: HistogramData, keys: Seq<int>, lo: int, hi: int) -> nat
    decreases hi - lo,
{
    if hi <= lo {
        0
    } else {
        chunk_value(h, keys, lo, hi - 1) + h.value(keys[hi - 1] as i32)
    }
}

/// Smallest and largest key over all series, if any series has a bin.
pub open spec fn key_span(series: Seq<HistogramData>) -> Option<(int, int)>
    decreases series.len(),
{
    if series.len() == 0 {
        None
    } else {
        let rest = key_span(series.drop_last());
        let h = series.last();
        if h.bins().len() == 0 {
            rest
        } else {
            let lo = h.bins()[0].0 as int;
            let hi = h.bins().last().0 as int;
            match rest {
                None => Some((lo, hi)),
                Some((a, b)) => Some((if a < lo { a } else { lo }, if b > hi { b } else { hi })),
            }
        }
    }
}

/// The axis of a chart over `series`, or nothing when no series has a bin
/// or the padded start is off the grid.
pub open spec fn chart_axis(series: Seq<HistogramData>, is_fmc: bool, is_average: bool) -> Seq<int> {
    match key_span(series) {
        None => Seq::empty(),
        Some((lo, hi)) => if start_is_aligned(start_for(lo, is_fmc), is_fmc) {
            keys_from(start_for(lo, is_fmc), hi + pad_for(is_fmc), is_fmc, is_average)
        } else {
            Seq::empty()
        },
    }
}

/// Every series is well formed and its keys leave room for the padding.
pub open spec fn series_fit(series: Seq<HistogramData>) -> bool {
    forall|j: int|
        0 <= j < series.len() ==> (#[trigger] series[j]).wf() && forall|i: int|
            0 <= i < series[j].bins().len() ==> (#[trigger] series[j].bins()[i]).0 <= MAX_CHART_KEY
}

/// End of the chunk of `f` keys starting at `lo`, cut at `len`.
pub open spec fn chunk_end(lo: int, f: nat, len: nat) -> int {
    if lo + f < len {
        lo + f
    } else {
        len as int
    }
}

/// `pt` is the point for keys `lo..hi`: it starts at `keys[lo]`, spans
/// the chunk, and holds each series' sum over it.
pub open spec fn point_matches(
    pt: ChartPoint,
    series: Seq<HistogramData>,
    keys: Seq<int>,
    lo: int,
    hi: int,
) -> bool {
    &&& lo < keys.len()
    &&& pt.key == keys[lo]
    &&& pt.span == hi - lo
    &&& pt.values@.len() == series.len()
    &&& forall|j: int|
        0 <= j < series.len() ==> #[trigger] pt.values@[j] == chunk_value(series[j], keys, lo, hi)
}

/// Points of `series` over `keys`, `f` keys per point: point `p` covers
/// the chunk starting at key `p * f`.
pub open spec fn points_match(
    data: Seq<ChartPoint>,
    series: Seq<HistogramData>,
    keys: Seq<int>,
    f: nat,
) -> bool {
    forall|p: int|
        0 <= p < data.len() ==> point_matches(
            #[trigger] data[p],
            series,
            keys,
            p * f,
            chunk_end(p * f, f, keys.len()),
        )
}

fn find_key_range(series: &Vec<HistogramData>) -> (r: Option<(i32, i32)>)
    requires
        series_fit(series@),
    ensures
        r matches Some((a, b)) ==> key_span(series@) == Some((a as int, b as int)) && b <= MAX_CHART_KEY,
        r is None ==> key_span(series@) is None,
{
    let mut acc: Option<(i32, i32)> = None;
    let mut j: usize = 0;
    while j < series.len()
        invariant
            j <= series@.len(),
            series_fit(series@),
            acc matches Some((a, b)) ==> key_span(series@.take(j as int)) == Some((a as int, b as int))
                && b <= MAX_CHART_KEY,
            acc is None ==> key_span(series@.take(j as int)) is None,
        decreases series@.len() - j,
    {
        proof {
            assert(series@.take(j + 1).drop_last() == series@.take(j as int));
            assert(series@.take(j + 1).last() == series@[j as int]);
        }
        match series[j].key_range() {
            None => {},
            Some((lo, hi)) => {
                proof {
                    assert(series@[j as int].bins()[series@[j as int].bins().len() - 1].0 <= MAX_CHART_KEY);
                }
                acc = match acc {
                    None => Some((lo, hi)),
                    Some((a, b)) => Some((if a < lo { a } else { lo }, if b > hi { b } else { hi })),
                };
            },
        }
        j = j + 1;
    }
    proof {
        assert(series@.take(series@.len() as int) == series@);
    }
    acc
}

/// Sum of the values of `h` at `keys[lo..hi]`.
fn sum_chunk(h: &HistogramData, keys: &Vec<i32>, lo: usize, hi: usize) -> (r: u128)
    requires
        h.wf(),
        lo <= hi <= keys@.len(),
        keys@.len() <= 0x1_0000_0000,
    ensures
        r == chunk_value(*h, keys@.map_values(|k: i32| k as int), lo as int, hi as int),
{
    let ghost ks = keys@.map_values(|k: i32| k as int);
    let mut sum: u128 = 0;
    let mut t: usize = lo;
    while t < hi
        invariant
            h.wf(),
            lo <= t <= hi <= keys@.len(),
            keys@.len() <= 0x1_0000_0000,
            ks == keys@.map_values(|k: i32| k as int),
            sum == chunk_value(*h, ks, lo as int, t as int),
            sum <= (t - lo) * 0xffff_ffff_ffff_ffff,
        decreases hi - t,
    {
        let v = h.get(keys[t]);
        proof {
            assert(ks[t as int] as i32 == keys@[t as int]);
        }
        sum = sum + v as u128;
        t = t + 1;
    }
    sum
}

/// Points of `series` over `keys`, merging `f` keys per point.
fn merge_points(series: &Vec<HistogramData>, keys: &Vec<i32>, f: usize) -> (r: Vec<ChartPoint>)
    requires
        forall|j: int| 0 <= j < series@.len() ==> (#[trigger] series@[j]).wf(),
        f >= 1,
        keys@.len() <= 0x1_0000_0000,
    ensures
        points_match(r@, series@, keys@.map_values(|k: i32| k as int), f as nat),
        r@.len() * f >= keys@.len(),
        r@.len() > 0 ==> (r@.len() - 1) * f < keys@.len(),
{
    let ghost ks = keys@.map_values(|k: i32| k as int);
    let n = keys.len();
    let mut out: Vec<ChartPoint> = Vec::new();
    let mut lo: usize = 0;
    proof {
        assert(out@.len() * f == 0);
    }
    while lo < n
        invariant
            n == keys@.len(),
            n <= 0x1_0000_0000,
            f >= 1,
            ks == keys@.map_values(|k: i32| k as int),
            forall|j: int| 0 <= j < series@.len() ==> (#[trigger] series@[j]).wf(),
            lo == out@.len() * f,
            out@.len() > 0 ==> (out@.len() - 1) * f < n,
            lo <= n || out@.len() > 0,
            points_match(out@, series@, ks, f as nat),
        decreases n + f - lo,
    {
        let hi = if f < n - lo {
            lo + f
        } else {
            n
        };
        let mut values: Vec<u128> = Vec::new();
        let mut j: usize = 0;
        while j < series.len()
            invariant
                lo < hi <= n,
                n == keys@.len(),
                n <= 0x1_0000_0000,
                ks == keys@.map_values(|k: i32| k as int),
                forall|j: int| 0 <= j < series@.len() ==> (#[trigger] series@[j]).wf(),
                j <= series@.len(),
                values@.len() == j,
                forall|i: int|
                    0 <= i < j ==> #[trigger] values@[i] == chunk_value(series@[i], ks, lo as int, hi as int),
            decreases series@.len() - j,
        {
            values.push(sum_chunk(&series[j], keys, lo, hi));
            j = j + 1;
        }
        let point = ChartPoint { key: keys[lo], values, span: (hi - lo) as u64 };
        proof {
            assert(ks[lo as int] == keys@[lo as int] as int);
        }
        let ghost before = out@;
        out.push(point);
        proof {
            assert((out@.len() - 1) * f == lo);
            assert(out@.len() * f == lo + f) by (nonlinear_arith)
                requires (out@.len() - 1) * f == lo;
            assert forall|p: int| 0 <= p < out@.len() implies point_matches(
                #[trigger] out@[p],
                series@,
                ks,
                p * f,
                chunk_end(p * f, f as nat, ks.len()),
            ) by {
                if p < out@.len() - 1 {
                    assert(out@[p] == before[p]);
                } else {
                    assert(p * f == lo);
                    assert(out@[p] == point);
                }
            }
            assert(points_match(out@, series@, ks, f as nat));
        }
        if hi == n {
            proof {
                assert(out@.len() * f >= n);
            }
            return out;
        }
        lo = hi;
    }
    out
}

/// The merge factor for `len` keys, with the number of chunks it gives.
fn merge_factor_for(len: usize) -> (r: (usize, usize))
    requires
        len <= 0x1_0000_0000,
    ensures
        r.0 == merge_factor(len as nat),
        r.0 >= 1,
        r.1 <= MAX_CHART_POINTS,
        r.1 * r.0 >= len,
{
    let mut m: usize = len;
    let mut f: usize = 1;
    while m > MAX_CHART_POINTS
        invariant
            len <= 0x1_0000_0000,
            1 <= f <= 0x1_0000_0000,
            m <= len,
            m * f >= len,
            (m - 1) * f < len,
            merge_factor(len as nat) == f * merge_factor(m as nat),
        decreases m,
    {
        let m2 = m / 2 + m % 2;
        proof {
            assert(256 * f < len) by (nonlinear_arith)
                requires (m - 1) * f < len, m > 256, f >= 1;
            assert(merge_factor(m as nat) == 2 * merge_factor(m2 as nat));
            assert(f * merge_factor(m as nat) == (2 * f) * merge_factor(m2 as nat)) by (nonlinear_arith)
                requires merge_factor(m as nat) == 2 * merge_factor(m2 as nat);
            assert(m2 * (2 * f) >= m * f) by (nonlinear_arith)
                requires m2 == (m + 1) / 2, f >= 1;
            assert((m2 - 1) * (2 * f) < len) by (nonlinear_arith)
                requires m2 == (m + 1) / 2, (m - 1) * f < len, f >= 1, m >= 1;
        }
        proof {
            assert(m2 == (m + 1) / 2);
        }
        m = m2;
        f = 2 * f;
    }
    proof {
        assert(merge_factor(m as nat) == 1);
    }
    (f, m)
}

/// Lay `series` out on their shared axis, merged to at most
/// `MAX_CHART_POINTS` points.
fn layout_series(series: &Vec<HistogramData>, is_fmc: bool, is_average: bool, merge: bool) -> (r: Vec<ChartPoint>)
    requires
        series_fit(series@),
    ensures
        r@.len() == 0 <==> chart_axis(series@, is_fmc, is_average).len() == 0,
        merge ==> r@.len() <= MAX_CHART_POINTS,
        merge ==> covers_axis(r@.len(), chart_axis(series@, is_fmc, is_average).len()),
        !merge ==> r@.len() == chart_axis(series@, is_fmc, is_average).len(),
        points_match(
            r@,
            series@,
            chart_axis(series@, is_fmc, is_average),
            if merge {
                merge_factor(chart_axis(series@, is_fmc, is_average).len())
            } else {
                1
            },
        ),
{
    let range = find_key_range(series);
    let (lo, hi) = match range {
        None => {
            return Vec::new();
        },
        Some(p) => p,
    };
    let key_iter = match HistogramKeys::new(lo, hi, is_fmc, is_average) {
        None => {
            return Vec::new();
        },
        Some(k) => k,
    };
    let keys = key_iter.collect_keys();
    let ghost axis = chart_axis(series@, is_fmc, is_average);
    proof {
        assert(keys@.map_values(|k: i32| k as int) == axis);
        lemma_keys_increasing(start_for(lo as int, is_fmc), hi + pad_for(is_fmc), is_fmc, is_average);
        assert(keys@.len() <= 0x1_0000_0000);
    }
    let n = keys.len();
    let (f, chunks) = if merge {
        merge_factor_for(n)
    } else {
        (1, n)
    };
    let points = merge_points(series, &keys, f);
    proof {
        if !merge {
            assert(points@.len() == n) by (nonlinear_arith)
                requires points@.len() * f >= n, points@.len() > 0 ==> (points@.len() - 1) * f < n,
                    f == 1;
        }
        if merge {
            assert(points@.len() <= chunks) by (nonlinear_arith)
                requires points@.len() > 0 ==> (points@.len() - 1) * f < n, chunks * f >= n, f >= 1;
        }
        if n > 0 {
            assert(points@.len() > 0) by (nonlinear_arith)
                requires points@.len() * f >= n, n > 0;
        }
    }
    points
}

/// Collects the series of a histogram chart over all contestants.
#[derive(Debug)]
pub struct HistogramChartBuilder {
    names: Vec<String>,
    series: Vec<HistogramData>,
    is_fmc: bool,
    is_average: bool,
}

impl HistogramChartBuilder {
    pub closed spec fn names(&self) -> Seq<String> {
        self.names@
    }

    pub closed spec fn series(&self) -> Seq<HistogramData> {
        self.series@
    }

    pub closed spec fn is_fmc(&self) -> bool {
        self.is_fmc
    }

    pub closed spec fn is_average(&self) -> bool {
        self.is_average
    }

    pub fn new(is_fmc: bool, is_average: bool) -> (r: Self)
        ensures
            r.names().len() == 0,
            r.series().len() == 0,
            r.is_fmc() == is_fmc,
            r.is_average() == is_average,
    {
        HistogramChartBuilder { names: Vec::new(), series: Vec::new(), is_fmc, is_average }
    }

    pub fn add_series(self, name: String, data: HistogramData) -> (r: Self)
        ensures
            r.names() == self.names().push(name),
            r.series() == self.series().push(data),
            r.is_fmc() == self.is_fmc(),
            r.is_average() == self.is_average(),
    {
        let mut b = self;
        b.names.push(name);
        b.series.push(data);
        b
    }

    /// The chart: one label per series; points on the shared axis, merged
    /// in power-of-two chunks down to at most `MAX_CHART_POINTS`.
    pub fn build(self) -> (r: ChartData)
        requires
            series_fit(self.series()),
        ensures
            r.labels@ == self.names(),
            r.data@.len() <= MAX_CHART_POINTS,
            r.data@.len() == 0 <==> chart_axis(self.series(), self.is_fmc(), self.is_average()).len() == 0,
            covers_axis(r.data@.len(), chart_axis(self.series(), self.is_fmc(), self.is_average()).len()),
            chart_axis(self.series(), self.is_fmc(), self.is_average()).len() <= MAX_CHART_POINTS
                ==> r.data@.len() == chart_axis(self.series(), self.is_fmc(), self.is_average()).len(),
            points_match(
                r.data@,
                self.series(),
                chart_axis(self.series(), self.is_fmc(), self.is_average()),
                merge_factor(chart_axis(self.series(), self.is_fmc(), self.is_average()).len()),
            ),
    {
        let data = layout_series(&self.series, self.is_fmc, self.is_average, true);
        proof {
            let len = chart_axis(self.series(), self.is_fmc(), self.is_average()).len();
            if len <= MAX_CHART_POINTS {
                assert(merge_factor(len) == 1);
                assert(data@.len() == len) by (nonlinear_arith)
                    requires data@.len() * 1 >= len, data@.len() > 0 ==> (data@.len() - 1) * 1 < len;
            }
        }
        ChartData { labels: self.names, data }
    }
}

/// One contestant's chart: singles and round results on one axis, in
/// thirds of a move for the move-count format.
#[derive(Debug)]
pub struct IndividualHistogramBuilder {
    singles: HistogramData,
    averages: HistogramData,
    is_fmc: bool,
}

impl IndividualHistogramBuilder {
    pub closed spec fn series(&self) -> Seq<HistogramData> {
        seq![self.singles, self.averages]
    }

    pub closed spec fn is_fmc(&self) -> bool {
        self.is_fmc
    }

    pub fn new(singles: HistogramData, averages: HistogramData, is_fmc: bool) -> (r: Self)
        ensures
            r.series() == seq![singles, averages],
            r.is_fmc() == is_fmc,
    {
        IndividualHistogramBuilder { singles, averages, is_fmc }
    }

    /// The chart, labelled "single" and "average", one point per key.
    pub fn build(self) -> (r: ChartData)
        requires
            series_fit(self.series()),
        ensures
            r.labels@.len() == 2,
            r.labels@[0]@ == "single"@,
            r.labels@[1]@ == "average"@,
            r.data@.len() == chart_axis(self.series(), self.is_fmc(), true).len(),
            points_match(r.data@, self.series(), chart_axis(self.series(), self.is_fmc(), true), 1),
    {
        let is_fmc = self.is_fmc;
        let mut series: Vec<HistogramData> = Vec::new();
        series.push(self.singles);
        series.push(self.averages);
        proof {
            assert(series@ == self.series());
        }
        let data = layout_series(&series, is_fmc, true, false);
        let mut labels: Vec<String> = Vec::new();
        labels.push(String::from_str("single"));
        labels.push(String::from_str("average"));
        ChartData { labels, data }
    }
}

/// Collects each contestant's rank counts for the rank chart.
#[derive(Debug)]
pub struct RankChartBuilder {
    names: Vec<String>,
    series: Vec<RankStats>,
}

/// Value of the rank chart for a contestant at rank `r`: the count, scaled
/// to a percentage over the number of trials.
pub open spec fn rank_value(stats: RankStats, r: int) -> int {
    if 0 <= r < stats.counts().len() {
        stats.counts()[r] * 100
    } else {
        0
    }
}

impl RankChartBuilder {
    pub closed spec fn names(&self) -> Seq<String> {
        self.names@
    }

    pub closed spec fn series(&self) -> Seq<RankStats> {
        self.series@
    }

    pub fn new() -> (r: Self)
        ensures
            r.names().len() == 0,
            r.series().len() == 0,
    {
        RankChartBuilder { names: Vec::new(), series: Vec::new() }
    }

    pub fn add_competitor(&mut self, name: String, stats: RankStats)
        ensures
            final(self).names() == old(self).names().push(name),
            final(self).series() == old(self).series().push(stats),
    {
        self.names.push(name);
        self.series.push(stats);
    }

    /// One point per rank of the first contestant (keyed from 1), holding
    /// every contestant's count at that rank, times 100.
    pub fn into_chart_data(self) -> (r: ChartData)
        requires
            self.series().len() > 0 ==> self.series()[0].counts().len() < i32::MAX,
        ensures
            r.labels@ == self.names(),
            self.series().len() == 0 ==> r.data@.len() == 0,
            self.series().len() > 0 ==> r.data@.len() == self.series()[0].counts().len(),
            forall|p: int|
                0 <= p < r.data@.len() ==> {
                    &&& (#[trigger] r.data@[p]).key == p + 1
                    &&& r.data@[p].span == 1
                    &&& r.data@[p].values@.len() == self.series().len()
                    &&& forall|j: int|
                        0 <= j < self.series().len() ==> #[trigger] r.data@[p].values@[j] == rank_value(
                            self.series()[j],
                            p,
                        )
                },
    {
        let mut data: Vec<ChartPoint> = Vec::new();
        if self.series.len() > 0 {
            let rank_count = self.series[0].len();
            let mut p: usize = 0;
            while p < rank_count
                invariant
                    self.series@.len() > 0,
                    rank_count == self.series@[0].counts().len(),
                    rank_count < i32::MAX,
                    p <= rank_count,
                    data@.len() == p,
                    forall|q: int|
                        0 <= q < p ==> {
                            &&& (#[trigger] data@[q]).key == q + 1
                            &&& data@[q].span == 1
                            &&& data@[q].values@.len() == self.series@.len()
                            &&& forall|j: int|
                                0 <= j < self.series@.len() ==> #[trigger] data@[q].values@[j]
                                    == rank_value(self.series@[j], q)
                        },
                decreases rank_count - p,
            {
                let mut values: Vec<u128> = Vec::new();
                let mut j: usize = 0;
                while j < self.series.len()
                    invariant
                        j <= self.series@.len(),
                        values@.len() == j,
                        forall|i: int|
                            0 <= i < j ==> #[trigger] values@[i] == rank_value(self.series@[i], p as int),
                    decreases self.series@.len() - j,
                {
                    let s = &self.series[j];
                    let v: u128 = if p < s.len() {
                        s.count_at(p) as u128 * 100
                    } else {
                        0
                    };
                    values.push(v);
                    j = j + 1;
                }
                data.push(ChartPoint { key: (p + 1) as i32, values, span: 1 });
                p = p + 1;
            }
        }
        ChartData { labels: self.names, data }
    }
}

impl Default for RankChartBuilder {
    fn default() -> (r: Self)
        ensures
            r.names().len() == 0,
            r.series().len() == 0,
    {
        Self::new()
    }
}

/// One contestant's histogram chart.
pub fn create_individual_histogram_chart(singles: HistogramData, averages: HistogramData, is_fmc: bool) -> (r:
    ChartData)
    requires
        series_fit(seq![singles, averages]),
    ensures
        r.labels@.len() == 2,
        r.labels@[0]@ == "single"@,
        r.labels@[1]@ == "average"@,
        r.data@.len() == chart_axis(seq![singles, averages], is_fmc, true).len(),
        points_match(r.data@, seq![singles, averages], chart_axis(seq![singles, averages], is_fmc, true), 1),
{
    IndividualHistogramBuilder::new(singles, averages, is_fmc).build()
}

/// The histogram chart over all contestants, one series each.
pub fn create_full_histogram_chart(competitors: Vec<(String, HistogramData)>, is_fmc: bool, is_average: bool) -> (r:
    ChartData)
    requires
        series_fit(competitors@.map_values(|c: (String, HistogramData)| c.1)),
    ensures
        r.labels@ == competitors@.map_values(|c: (String, HistogramData)| c.0),
        r.data@.len() <= MAX_CHART_POINTS,
        covers_axis(
            r.data@.len(),
            chart_axis(competitors@.map_values(|c: (String, HistogramData)| c.1), is_fmc, is_average).len(),
        ),
        points_match(
            r.data@,
            competitors@.map_values(|c: (String, HistogramData)| c.1),
            chart_axis(competitors@.map_values(|c: (String, HistogramData)| c.1), is_fmc, is_average),
            merge_factor(
                chart_axis(competitors@.map_values(|c: (String, HistogramData)| c.1), is_fmc, is_average).len(),
            ),
        ),
{
    let mut builder = HistogramChartBuilder::new(is_fmc, is_average);
    let total = competitors.len();
    let mut rest = competitors;
    let ghost all = rest@;
    let mut k: usize = 0;
    while rest.len() > 0
        invariant
            k + rest@.len() == all.len(),
            all.len() == total,
            forall|i: int| 0 <= i < rest@.len() ==> #[trigger] rest@[i] == all[k + i],
            builder.names() == all.take(k as int).map_values(|c: (String, HistogramData)| c.0),
            builder.series() == all.take(k as int).map_values(|c: (String, HistogramData)| c.1),
            builder.is_fmc() == is_fmc,
            builder.is_average() == is_average,
        decreases rest@.len(),
    {
        let (name, data) = rest.remove(0);
        proof {
            assert(all.take(k + 1) == all.take(k as int).push(all[k as int]));
        }
        builder = builder.add_series(name, data);
        k = k + 1;
        proof {
            assert(builder.names() == all.take(k as int).map_values(|c: (String, HistogramData)| c.0));
            assert(builder.series() == all.take(k as int).map_values(|c: (String, HistogramData)| c.1));
        }
    }
    proof {
        assert(all.take(k as int) == all);
    }
    builder.build()
}

/// The rank chart over all contestants.
pub fn generate_rank_chart(competitors: Vec<(String, RankStats)>) -> (r: ChartData)
    requires
        competitors@.len() > 0 ==> competitors@[0].1.counts().len() < i32::MAX,
    ensures
        r.labels@ == competitors@.map_values(|c: (String, RankStats)| c.0),
        competitors@.len() == 0 ==> r.data@.len() == 0,
        competitors@.len() > 0 ==> r.data@.len() == competitors@[0].1.counts().len(),
        forall|p: int|
            0 <= p < r.data@.len() ==> {
                &&& (#[trigger] r.data@[p]).key == p + 1
                &&& r.data@[p].values@.len() == competitors@.len()
                &&& forall|j: int|
                    0 <= j < competitors@.len() ==> #[trigger] r.data@[p].values@[j] == rank_value(
                        competitors@[j].1,
                        p,
                    )
            },
{
    let mut builder = RankChartBuilder::new();
    let total = competitors.len();
    let mut rest = competitors;
    let ghost all = rest@;
    let mut k: usize = 0;
    while rest.len() > 0
        invariant
            k + rest@.len() == all.len(),
            all.len() == total,
            forall|i: int| 0 <= i < rest@.len() ==> #[trigger] rest@[i] == all[k + i],
            builder.names() == all.take(k as int).map_values(|c: (String, RankStats)| c.0),
            builder.series() == all.take(k as int).map_values(|c: (String, RankStats)| c.1),
        decreases rest@.len(),
    {
        let (name, stats) = rest.remove(0);
        proof {
            assert(all.take(k + 1) == all.take(k as int).push(all[k as int]));
        }
        builder.add_competitor(name, stats);
        k = k + 1;
        proof {
            assert(builder.names() == all.take(k as int).map_values(|c: (String, RankStats)| c.0));
            assert(builder.series() == all.take(k as int).map_values(|c: (String, RankStats)| c.1));
        }
    }
    proof {
        assert(all.take(k as int) == all);
    }
    builder.into_chart_data()
}

} // verus!
