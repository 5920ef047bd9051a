//! Result histograms: per-bucket counts gathered over the trials, and the
//! finished histogram whose bins hold exact scaled counts.
//!
//! A finished bin holds `count * scale`; read over the number of trials it
//! is a percentage.
use vstd::prelude::*;

verus! {

/// How many times `key` occurs in `bins`, summing every entry for it.
pub open spec fn bin_count(bins: Seq<(i32, u64)>, key: i32) -> nat
    decreases bins.len(),
{
    if bins.len() == 0 {
        0
    } else {
        bin_count(bins.drop_last(), key) + if bins.last().0 == key {
            bins.last().1 as nat
        } else {
            0nat
        }
    }
}

/// Sum of the counts of all bins.
pub open spec fn bin_total(bins: Seq<(i32, u64)>) -> nat
    decreases bins.len(),
{
    if bins.len() == 0 {
        0
    } else {
        bin_total(bins.drop_last()) + bins.last().1 as nat
    }
}

/// Keys strictly increase along the bins.
pub open spec fn keys_sorted(bins: Seq<(i32, u64)>) -> bool {
    forall|i: int, j: int| 0 <= i < j < bins.len() ==> bins[i].0 < bins[j].0
}

/// The bins of a finished histogram: those holding at least `min_count`
/// entries, each count multiplied by `scale`.
pub open spec fn retained(bins: Seq<(i32, u64)>, min_count: u64, scale: u64) -> Seq<(i32, u64)>
    decreases bins.len(),
{
    if bins.len() == 0 {
        Seq::empty()
    } else {
        let rest = retained(bins.drop_last(), min_count, scale);
        if bins.last().1 >= min_count {
            rest.push((bins.last().0, (bins.last().1 * scale) as u64))
        } else {
            rest
        }
    }
}

/// Bucket for a value: results in hundredths are cut to a multiple of ten,
/// move counts are kept as they are.
pub open spec fn bucket_of(v: int, is_fmc: bool) -> int {
    if is_fmc {
        v
    } else if v >= 0 {
        (v / 10) * 10
    } else {
        -(((-v) / 10) * 10)
    }
}

/// Bucket a result for a histogram.
pub fn truncate_for_histogram(v: i32, is_fmc: bool) -> (r: i32)
    ensures
        r == bucket_of(v as int, is_fmc),
{
    if is_fmc {
        v
    } else if v >= 0 {
        (v / 10) * 10
    } else {
        let w: i64 = -(v as i64);
        (-((w / 10) * 10)) as i32
    }
}

proof fn lemma_bin_count_update(s: Seq<(i32, u64)>, pos: int, v: (i32, u64), key: i32)
    requires
        0 <= pos < s.len(),
    ensures
        bin_count(s.update(pos, v), key) + (if s[pos].0 == key {
            s[pos].1 as nat
        } else {
            0nat
        }) == bin_count(s, key) + (if v.0 == key {
            v.1 as nat
        } else {
            0nat
        }),
        bin_total(s.update(pos, v)) + s[pos].1 == bin_total(s) + v.1,
    decreases s.len(),
{
    let t = s.update(pos, v);
    if pos < s.len() - 1 {
        assert(t.drop_last() == s.drop_last().update(pos, v));
        lemma_bin_count_update(s.drop_last(), pos, v, key);
    } else {
        assert(t.drop_last() == s.drop_last());
    }
}

proof fn lemma_bin_count_insert(s: Seq<(i32, u64)>, pos: int, v: (i32, u64), key: i32)
    requires
        0 <= pos <= s.len(),
    ensures
        bin_count(s.insert(pos, v), key) == bin_count(s, key) + (if v.0 == key {
            v.1 as nat
        } else {
            0nat
        }),
        bin_total(s.insert(pos, v)) == bin_total(s) + v.1,
    decreases s.len(),
{
    let t = s.insert(pos, v);
    if pos == s.len() {
        assert(t.drop_last() == s);
    } else {
        assert(t.drop_last() == s.drop_last().insert(pos, v));
        lemma_bin_count_insert(s.drop_last(), pos, v, key);
    }
}

/// Bins whose keys differ from `key` contribute nothing to its count.
proof fn lemma_bin_count_absent(s: Seq<(i32, u64)>, key: i32)
    requires
        forall|i: int| 0 <= i < s.len() ==> (#[trigger] s[i]).0 != key,
    ensures
        bin_count(s, key) == 0,
    decreases s.len(),
{
    if s.len() > 0 {
        lemma_bin_count_absent(s.drop_last(), key);
    }
}

/// In sorted bins, the count of a key present at `pos` is that bin's count.
proof fn lemma_bin_count_at(s: Seq<(i32, u64)>, pos: int)
    requires
        keys_sorted(s),
        0 <= pos < s.len(),
    ensures
        bin_count(s, s[pos].0) == s[pos].1,
    decreases s.len(),
{
    let key = s[pos].0;
    if pos == s.len() - 1 {
        lemma_bin_count_absent(s.drop_last(), key);
    } else {
        lemma_bin_count_at(s.drop_last(), pos);
    }
}

/// Position of the first bin whose key is not below `key`.
fn lower_bound(bins: &Vec<(i32, u64)>, key: i32) -> (pos: usize)
    requires
        keys_sorted(bins@),
    ensures
        pos <= bins@.len(),
        forall|i: int| 0 <= i < pos ==> (#[trigger] bins@[i]).0 < key,
        forall|i: int| pos <= i < bins@.len() ==> (#[trigger] bins@[i]).0 >= key,
{
    let mut lo: usize = 0;
    let mut hi: usize = bins.len();
    while lo < hi
        invariant
            keys_sorted(bins@),
            lo <= hi <= bins@.len(),
            forall|i: int| 0 <= i < lo ==> (#[trigger] bins@[i]).0 < key,
            forall|i: int| hi <= i < bins@.len() ==> (#[trigger] bins@[i]).0 >= key,
        decreases hi - lo,
    {
        let mid = lo + (hi - lo) / 2;
        if bins[mid].0 < key {
            lo = mid + 1;
        } else {
            hi = mid;
        }
    }
    lo
}

/// Counts of recorded values, one bin per key.
#[derive(Clone, Debug)]
pub struct HistogramAccumulator {
    bins: Vec<(i32, u64)>,
}

impl HistogramAccumulator {
    /// The bins, in increasing key order.
    pub closed spec fn bins(&self) -> Seq<(i32, u64)> {
        self.bins@
    }

    /// How many recorded values fell in `key`'s bucket.
    pub open spec fn count(&self, key: i32) -> nat {
        bin_count(self.bins(), key)
    }

    /// How many values were recorded in all.
    pub open spec fn total(&self) -> nat {
        bin_total(self.bins())
    }

    pub closed spec fn wf(&self) -> bool {
        &&& keys_sorted(self.bins@)
        &&& forall|i: int| 0 <= i < self.bins@.len() ==> (#[trigger] self.bins@[i]).1 >= 1
    }

    /// A finished bin holds each key's count scaled, if the count reaches
    /// `min_count`, and nothing otherwise.
    pub proof fn lemma_finished_values(&self, min_count: u64, scale: u64)
        requires
            self.wf(),
            self.total() * scale <= u64::MAX,
        ensures
            forall|k: i32|
                #[trigger] bin_count(retained(self.bins(), min_count, scale), k) == finished_value(
                    self.count(k),
                    min_count,
                    scale,
                ),
    {
        assert forall|k: i32| #[trigger] bin_count(retained(self.bins(), min_count, scale), k) == finished_value(
            self.count(k),
            min_count,
            scale,
        ) by {
            lemma_retained_count(self.bins(), min_count, scale, k);
        }
    }

    /// An accumulator that holds no value has no bin.
    pub proof fn lemma_no_bins(&self)
        requires
            self.wf(),
            forall|k: i32| self.count(k) == 0,
        ensures
            self.bins().len() == 0,
    {
        if self.bins@.len() > 0 {
            lemma_bin_count_at(self.bins@, 0);
            assert(self.count(self.bins@[0].0) == 0);
        }
    }

    /// Finishing a histogram keeps at most the scaled number of recorded
    /// values (over the trials: at most 100% when `scale` times the values
    /// per trial is at most 100), and keeps exactly that when, and only
    /// when, no bin was dropped.
    pub proof fn finished_total_bounded(&self, min_count: u64, scale: u64)
        requires
            self.wf(),
            self.total() * scale <= u64::MAX,
        ensures
            bin_total(retained(self.bins(), min_count, scale)) <= scale * self.total(),
            scale > 0 && bin_total(retained(self.bins(), min_count, scale)) == scale * self.total()
                ==> forall|i: int| 0 <= i < self.bins().len() ==> (#[trigger] self.bins()[i]).1 >= min_count,
            (forall|i: int| 0 <= i < self.bins().len() ==> (#[trigger] self.bins()[i]).1 >= min_count)
                ==> bin_total(retained(self.bins(), min_count, scale)) == scale * self.total(),
    {
        retained_total_bounded(self.bins(), min_count, scale);
        assert forall|i: int| 0 <= i < self.bins().len() implies (#[trigger] self.bins()[i]).1 >= 1 by {
            assert(self.bins@[i].1 >= 1);
        }
    }

    pub fn new() -> (r: Self)
        ensures
            r.wf(),
            r.total() == 0,
            forall|k: i32| r.count(k) == 0,
    {
        HistogramAccumulator { bins: Vec::new() }
    }

    /// Record one value under `key`.
    pub fn record(&mut self, key: i32)
        requires
            old(self).wf(),
            old(self).total() < u64::MAX,
        ensures
            final(self).wf(),
            final(self).count(key) == old(self).count(key) + 1,
            forall|k: i32| k != key ==> final(self).count(k) == old(self).count(k),
            final(self).total() == old(self).total() + 1,
    {
        let pos = lower_bound(&self.bins, key);
        let ghost s = self.bins@;
        if pos < self.bins.len() && self.bins[pos].0 == key {
            let c = self.bins[pos].1;
            proof {
                lemma_bin_count_at(s, pos as int);
                self.lemma_count_le_total(pos as int);
                assert forall|k: i32| true implies bin_count(s.update(pos as int, (key, (c + 1) as u64)), k)
                    + (if s[pos as int].0 == k { s[pos as int].1 as nat } else { 0nat })
                    == bin_count(s, k) + (if key == k { (c + 1) as nat } else { 0nat }) by {
                    lemma_bin_count_update(s, pos as int, (key, (c + 1) as u64), k);
                }
                lemma_bin_count_update(s, pos as int, (key, (c + 1) as u64), key);
            }
            self.bins.set(pos, (key, c + 1));
        } else {
            proof {
                assert forall|k: i32| true implies bin_count(s.insert(pos as int, (key, 1u64)), k)
                    == bin_count(s, k) + (if key == k { 1nat } else { 0nat }) by {
                    lemma_bin_count_insert(s, pos as int, (key, 1u64), k);
                }
                lemma_bin_count_insert(s, pos as int, (key, 1u64), key);
            }
            self.bins.insert(pos, (key, 1));
            proof {
                let t = self.bins@;
                assert forall|i: int, j: int| 0 <= i < j < t.len() implies t[i].0 < t[j].0 by {
                    if j < pos {
                    } else if i > pos {
                        assert(t[i] == s[i - 1] && t[j] == s[j - 1]);
                    } else if i == pos {
                        assert(t[j] == s[j - 1]);
                    } else if j == pos {
                    } else {
                        assert(t[j] == s[j - 1]);
                    }
                }
            }
        }
    }

    proof fn lemma_count_le_total(&self, pos: int)
        requires
            0 <= pos < self.bins@.len(),
        ensures
            self.bins@[pos].1 <= self.total(),
    {
        lemma_bin_le_total(self.bins@, pos);
    }

    /// Finish the histogram over `sample_count` trials: bins holding fewer
    /// than `min_count` entries are dropped, the others' counts are
    /// multiplied by `scale_factor`.
    pub fn into_histogram_data(self, sample_count: u64, scale_factor: u64, min_count: u64) -> (r:
        HistogramData)
        requires
            self.wf(),
            self.total() * scale_factor <= u64::MAX,
        ensures
            r.wf(),
            r.bins() == retained(self.bins(), min_count, scale_factor),
            r.sample_count() == sample_count,
    {
        let mut out: Vec<(i32, u64)> = Vec::new();
        let mut i: usize = 0;
        let ghost s = self.bins@;
        while i < self.bins.len()
            invariant
                s == self.bins@,
                keys_sorted(s),
                i <= s.len(),
                bin_total(s) * scale_factor <= u64::MAX,
                out@ == retained(s.subrange(0, i as int), min_count, scale_factor),
                forall|j: int| 0 <= j < out@.len() ==> exists|m: int| 0 <= m < i && (#[trigger] out@[j]).0 == s[m].0,
                keys_sorted(out@),
            decreases s.len() - i,
        {
            let (key, count) = self.bins[i];
            proof {
                assert(s.subrange(0, i + 1).drop_last() == s.subrange(0, i as int));
                lemma_bin_le_total(s, i as int);
                assert(count * scale_factor <= bin_total(s) * scale_factor) by (nonlinear_arith)
                    requires count <= bin_total(s);
            }
            if count >= min_count {
                proof {
                    assert forall|j: int| 0 <= j < out@.len() implies (#[trigger] out@[j]).0 < key by {
                        let m = choose|m: int| 0 <= m < i && out@[j].0 == s[m].0;
                    }
                }
                out.push((key, count * scale_factor));
                proof {
                    assert forall|j: int| 0 <= j < out@.len() implies exists|m: int| 0 <= m < i + 1 && (#[trigger] out@[j]).0 == s[m].0 by {
                        if j == out@.len() - 1 {
                            assert(out@[j].0 == s[i as int].0);
                        } else {
                            let m = choose|m: int| 0 <= m < i && out@[j].0 == s[m].0;
                        }
                    }
                }
            }
            i = i + 1;
        }
        assert(s.subrange(0, s.len() as int) == s);
        HistogramData { bins: out, sample_count }
    }
}

/// The bins kept when a histogram is finished sum to at most the scaled
/// total of what was recorded; they reach it only when no bin holding any
/// value was dropped, and do whenever none was.
pub proof fn retained_total_bounded(bins: Seq<(i32, u64)>, min_count: u64, scale: u64)
    requires
        bin_total(bins) * scale <= u64::MAX,
    ensures
        bin_total(retained(bins, min_count, scale)) <= scale * bin_total(bins),
        scale > 0 && bin_total(retained(bins, min_count, scale)) == scale * bin_total(bins)
            ==> forall|i: int| 0 <= i < bins.len() ==> (#[trigger] bins[i]).1 >= min_count || bins[i].1 == 0,
        (forall|i: int| 0 <= i < bins.len() ==> (#[trigger] bins[i]).1 >= min_count) ==> bin_total(
            retained(bins, min_count, scale),
        ) == scale * bin_total(bins),
    decreases bins.len(),
{
    if bins.len() > 0 {
        let p = bins.drop_last();
        let c = bins.last().1;
        assert(bin_total(p) * scale <= bin_total(bins) * scale) by (nonlinear_arith)
            requires bin_total(p) <= bin_total(bins);
        assert(c * scale <= bin_total(bins) * scale) by (nonlinear_arith)
            requires c <= bin_total(bins);
        retained_total_bounded(p, min_count, scale);
        assert(scale * bin_total(bins) == scale * bin_total(p) + scale * c) by (nonlinear_arith)
            requires bin_total(bins) == bin_total(p) + c;
        let rest = retained(p, min_count, scale);
        if c >= min_count {
            let x = (bins.last().0, (c * scale) as u64);
            assert(rest.push(x).drop_last() == rest);
            assert(bin_total(retained(bins, min_count, scale)) == bin_total(rest) + c * scale);
        } else {
            assert(bin_total(retained(bins, min_count, scale)) == bin_total(rest));
            assert(scale * c >= 0) by (nonlinear_arith)
                requires scale >= 0, c >= 0;
        }
        if forall|i: int| 0 <= i < bins.len() ==> (#[trigger] bins[i]).1 >= min_count {
            assert forall|i: int| 0 <= i < p.len() implies (#[trigger] p[i]).1 >= min_count by {
                assert(bins[i] == p[i]);
            }
        }
        if scale > 0 && bin_total(retained(bins, min_count, scale)) == scale * bin_total(bins) {
            if c < min_count && c > 0 {
                assert(scale * c > 0) by (nonlinear_arith)
                    requires scale > 0, c > 0;
            }
            assert(bin_total(rest) == scale * bin_total(p));
            assert forall|i: int| 0 <= i < bins.len() implies (#[trigger] bins[i]).1 >= min_count
                || bins[i].1 == 0 by {
                if i < p.len() {
                    assert(bins[i] == p[i]);
                }
            }
        }
    }
}

/// What a finished bin holds for a key recorded `count` times: the count
/// scaled, if it reaches `min_count`; nothing otherwise.
pub open spec fn finished_value(count: nat, min_count: u64, scale: u64) -> nat {
    if count >= min_count {
        count * (scale as nat)
    } else {
        0
    }
}

/// In sorted bins, finishing keeps each key's count scaled, or drops it.
proof fn lemma_retained_count(bins: Seq<(i32, u64)>, min_count: u64, scale: u64, key: i32)
    requires
        keys_sorted(bins),
        bin_total(bins) * scale <= u64::MAX,
    ensures
        bin_count(retained(bins, min_count, scale), key) == finished_value(bin_count(bins, key), min_count, scale),
    decreases bins.len(),
{
    if bins.len() > 0 {
        let p = bins.drop_last();
        let x = bins.last();
        assert(bin_total(p) * scale <= bin_total(bins) * scale) by (nonlinear_arith)
            requires bin_total(p) <= bin_total(bins);
        assert(x.1 * scale <= bin_total(bins) * scale) by (nonlinear_arith)
            requires x.1 <= bin_total(bins);
        lemma_retained_count(p, min_count, scale, key);
        let rest = retained(p, min_count, scale);
        if x.1 >= min_count {
            let y = (x.0, (x.1 * scale) as u64);
            assert(rest.push(y).drop_last() == rest);
        }
        if x.0 == key {
            assert forall|i: int| 0 <= i < p.len() implies (#[trigger] p[i]).0 != key by {
                assert(bins[i] == p[i]);
            }
            lemma_bin_count_absent(p, key);
            assert(0 * scale == 0);
        }
    }
}

/// A single bin never exceeds the total.
proof fn lemma_bin_le_total(s: Seq<(i32, u64)>, pos: int)
    requires
        0 <= pos < s.len(),
    ensures
        s[pos].1 <= bin_total(s),
    decreases s.len(),
{
    if pos < s.len() - 1 {
        lemma_bin_le_total(s.drop_last(), pos);
    }
}

/// A finished histogram: scaled counts per key over a number of trials.
#[derive(Clone, Debug)]
pub struct HistogramData {
    bins: Vec<(i32, u64)>,
    sample_count: u64,
}

impl HistogramData {
    /// The bins, in increasing key order.
    pub closed spec fn bins(&self) -> Seq<(i32, u64)> {
        self.bins@
    }

    /// Number of trials the counts were taken over.
    pub closed spec fn sample_count(&self) -> u64 {
        self.sample_count
    }

    pub closed spec fn wf(&self) -> bool {
        keys_sorted(self.bins@)
    }

    /// Scaled count of `key`; a key without a bin reads as zero.
    pub open spec fn value(&self, key: i32) -> nat {
        bin_count(self.bins(), key)
    }

    /// Sum of the scaled counts of all bins.
    pub open spec fn total(&self) -> nat {
        bin_total(self.bins())
    }

    /// Scaled count of `key`, or zero.
    pub fn get(&self, key: i32) -> (r: u64)
        requires
            self.wf(),
        ensures
            r == self.value(key),
    {
        let pos = lower_bound(&self.bins, key);
        if pos < self.bins.len() && self.bins[pos].0 == key {
            proof {
                lemma_bin_count_at(self.bins@, pos as int);
            }
            self.bins[pos].1
        } else {
            proof {
                lemma_bin_count_absent(self.bins@, key);
            }
            0
        }
    }

    /// Smallest and largest key with a bin, if any.
    pub fn key_range(&self) -> (r: Option<(i32, i32)>)
        requires
            self.wf(),
        ensures
            r is None <==> self.bins().len() == 0,
            r matches Some((lo, hi)) ==> lo == self.bins()[0].0 && hi == self.bins().last().0
                && forall|i: int| 0 <= i < self.bins().len() ==> lo <= (#[trigger] self.bins()[i]).0 <= hi,
    {
        let n = self.bins.len();
        if n == 0 {
            None
        } else {
            Some((self.bins[0].0, self.bins[n - 1].0))
        }
    }

    /// Number of trials the counts were taken over.
    pub fn samples(&self) -> (r: u64)
        ensures
            r == self.sample_count(),
    {
        self.sample_count
    }

    /// Number of bins.
    pub fn len(&self) -> (r: usize)
        ensures
            r == self.bins().len(),
    {
        self.bins.len()
    }

    /// The bin at `i`, as key and scaled count.
    pub fn bin(&self, i: usize) -> (r: (i32, u64))
        requires
            i < self.bins().len(),
        ensures
            r == self.bins()[i as int],
    {
        self.bins[i]
    }
}

} // verus!
