//! Ranking contestants within one trial, and counting the ranks each
//! contestant reaches over many trials.
use vstd::prelude::*;

verus! {

/// In a trial with results `res`, contestant `d` places ahead of `c`: a
/// lower result, or an equal one from earlier in the roster.
pub open spec fn places_ahead(res: Seq<i32>, d: int, c: int) -> bool {
    res[d] < res[c] || (res[d] == res[c] && d < c)
}

/// How many of the first `m` contestants place ahead of `c`.
pub open spec fn ahead_count(res: Seq<i32>, c: int, m: int) -> nat
    decreases m,
{
    if m <= 0 {
        0
    } else {
        ahead_count(res, c, m - 1) + if places_ahead(res, m - 1, c) {
            1nat
        } else {
            0nat
        }
    }
}

/// Rank of `c` (0 for the winner): results ascending, ties in roster order.
pub open spec fn stable_rank(res: Seq<i32>, c: int) -> nat {
    ahead_count(res, c, res.len() as int)
}

/// How many of the first `m` contestants win the trial.
pub open spec fn winner_count(res: Seq<i32>, m: int) -> nat
    decreases m,
{
    if m <= 0 {
        0
    } else {
        winner_count(res, m - 1) + if stable_rank(res, m - 1) == 0 {
            1nat
        } else {
            0nat
        }
    }
}

/// Earliest contestant among the first `m` with the lowest result.
pub open spec fn first_best(res: Seq<i32>, m: int) -> int
    decreases m,
{
    if m <= 1 {
        0
    } else {
        let w = first_best(res, m - 1);
        if res[m - 1] < res[w] {
            m - 1
        } else {
            w
        }
    }
}

proof fn lemma_first_best(res: Seq<i32>, m: int)
    requires
        1 <= m <= res.len(),
    ensures
        0 <= first_best(res, m) < m,
        forall|d: int| 0 <= d < m ==> res[first_best(res, m)] <= #[trigger] res[d],
        forall|d: int| 0 <= d < first_best(res, m) ==> res[first_best(res, m)] < #[trigger] res[d],
    decreases m,
{
    if m > 1 {
        lemma_first_best(res, m - 1);
    }
}

proof fn lemma_ahead_count(res: Seq<i32>, c: int, m: int)
    requires
        0 <= m <= res.len(),
        0 <= c < res.len(),
    ensures
        ahead_count(res, c, m) == 0 <==> forall|d: int| 0 <= d < m ==> !places_ahead(res, d, c),
        ahead_count(res, c, m) <= if c < m {
            m - 1
        } else {
            m
        },
    decreases m,
{
    if m > 0 {
        lemma_ahead_count(res, c, m - 1);
    }
}

/// Every rank lies below the number of contestants.
pub proof fn lemma_rank_bound(res: Seq<i32>, c: int)
    requires
        0 <= c < res.len(),
    ensures
        stable_rank(res, c) < res.len(),
{
    lemma_ahead_count(res, c, res.len() as int);
}

/// Exactly one contestant wins each trial.
pub proof fn lemma_one_winner(res: Seq<i32>)
    requires
        res.len() >= 1,
    ensures
        winner_count(res, res.len() as int) == 1,
{
    let n = res.len() as int;
    lemma_first_best(res, n);
    let w = first_best(res, n);
    lemma_ahead_count(res, w, n);
    assert forall|c: int| 0 <= c < n && c != w implies stable_rank(res, c) != 0 by {
        lemma_ahead_count(res, c, n);
        assert(places_ahead(res, w, c));
    }
    lemma_winner_count(res, w, n);
}

proof fn lemma_winner_count(res: Seq<i32>, w: int, m: int)
    requires
        0 <= m <= res.len(),
        0 <= w < res.len(),
        stable_rank(res, w) == 0,
        forall|c: int| 0 <= c < res.len() && c != w ==> stable_rank(res, c) != 0,
    ensures
        winner_count(res, m) == if w < m {
            1nat
        } else {
            0nat
        },
    decreases m,
{
    if m > 0 {
        lemma_winner_count(res, w, m - 1);
    }
}

/// Rank of every contestant in a trial with results `results`.
pub fn rank_results(results: &Vec<i32>) -> (ranks: Vec<usize>)
    ensures
        ranks@.len() == results@.len(),
        forall|c: int| 0 <= c < results@.len() ==> #[trigger] ranks@[c] == stable_rank(results@, c),
{
    let n = results.len();
    let mut ranks: Vec<usize> = Vec::new();
    let mut c: usize = 0;
    while c < n
        invariant
            n == results@.len(),
            c <= n,
            ranks@.len() == c,
            forall|j: int| 0 <= j < c ==> #[trigger] ranks@[j] == stable_rank(results@, j),
        decreases n - c,
    {
        let mut ahead: usize = 0;
        let mut d: usize = 0;
        while d < n
            invariant
                n == results@.len(),
                c < n,
                d <= n,
                ahead == ahead_count(results@, c as int, d as int),
                ahead <= d,
            decreases n - d,
        {
            if results[d] < results[c] || (results[d] == results[c] && d < c) {
                ahead = ahead + 1;
            }
            d = d + 1;
        }
        ranks.push(ahead);
        c = c + 1;
    }
    ranks
}

/// Sum of the counts.
pub open spec fn count_sum(s: Seq<u64>) -> nat
    decreases s.len(),
{
    if s.len() == 0 {
        0
    } else {
        count_sum(s.drop_last()) + s.last() as nat
    }
}

/// The counts of the top three ranks.
pub open spec fn podium_part(s: Seq<u64>) -> Seq<u64> {
    if s.len() < 3 {
        s
    } else {
        s.take(3)
    }
}

/// Sum of `(r + 1) * s[r]`: the rank total, counting the winner as first.
pub open spec fn rank_weighted_sum(s: Seq<u64>) -> nat
    decreases s.len(),
{
    if s.len() == 0 {
        0
    } else {
        rank_weighted_sum(s.drop_last()) + (s.len() as nat) * (s.last() as nat)
    }
}

pub proof fn lemma_count_sum_update(s: Seq<u64>, i: int, v: u64)
    requires
        0 <= i < s.len(),
    ensures
        count_sum(s.update(i, v)) + s[i] == count_sum(s) + v,
    decreases s.len(),
{
    if i < s.len() - 1 {
        assert(s.update(i, v).drop_last() == s.drop_last().update(i, v));
        lemma_count_sum_update(s.drop_last(), i, v);
    } else {
        assert(s.update(i, v).drop_last() == s.drop_last());
    }
}

pub proof fn lemma_count_le_sum(s: Seq<u64>, i: int)
    requires
        0 <= i < s.len(),
    ensures
        s[i] <= count_sum(s),
    decreases s.len(),
{
    if i < s.len() - 1 {
        lemma_count_le_sum(s.drop_last(), i);
    }
}

proof fn lemma_weighted_sum_bound(s: Seq<u64>)
    ensures
        rank_weighted_sum(s) <= s.len() * count_sum(s),
    decreases s.len(),
{
    if s.len() > 0 {
        let p = s.drop_last();
        lemma_weighted_sum_bound(p);
        assert(p.len() * count_sum(p) <= s.len() * count_sum(p)) by (nonlinear_arith)
            requires p.len() <= s.len();
        assert(s.len() * count_sum(s) == s.len() * count_sum(p) + s.len() * (s.last() as nat))
            by (nonlinear_arith)
            requires count_sum(s) == count_sum(p) + s.last() as nat;
    }
}

/// How often a contestant finished at each rank.
#[derive(Clone, Debug)]
pub struct RankAccumulator {
    counts: Vec<u64>,
}

impl RankAccumulator {
    /// Count per rank.
    pub closed spec fn counts(&self) -> Seq<u64> {
        self.counts@
    }

    pub fn new(num_competitors: usize) -> (r: Self)
        ensures
            r.counts().len() == num_competitors,
            forall|i: int| 0 <= i < num_competitors ==> r.counts()[i] == 0,
            count_sum(r.counts()) == 0,
    {
        let mut counts: Vec<u64> = Vec::new();
        let mut i: usize = 0;
        while i < num_competitors
            invariant
                i <= num_competitors,
                counts@.len() == i,
                forall|j: int| 0 <= j < i ==> counts@[j] == 0,
                count_sum(counts@) == 0,
            decreases num_competitors - i,
        {
            proof {
                assert(counts@.push(0).drop_last() == counts@);
            }
            counts.push(0);
            i = i + 1;
        }
        RankAccumulator { counts }
    }

    /// Count one finish at `rank`.
    pub fn record_rank(&mut self, rank: usize)
        requires
            rank < old(self).counts().len(),
            count_sum(old(self).counts()) < u64::MAX,
        ensures
            final(self).counts() == old(self).counts().update(
                rank as int,
                (old(self).counts()[rank as int] + 1) as u64,
            ),
            count_sum(final(self).counts()) == count_sum(old(self).counts()) + 1,
    {
        proof {
            lemma_count_le_sum(self.counts@, rank as int);
            lemma_count_sum_update(self.counts@, rank as int, (self.counts@[rank as int] + 1) as u64);
        }
        let c = self.counts[rank];
        self.counts.set(rank, c + 1);
    }

    /// The counts over `sample_count` trials.
    pub fn into_rank_stats(self, sample_count: u64) -> (r: RankStats)
        ensures
            r.counts() == self.counts(),
            r.samples() == sample_count,
    {
        RankStats { counts: self.counts, sample_count }
    }
}

/// How often a contestant finished at each rank, over a number of trials.
/// Each count over the number of trials is the probability of that rank.
#[derive(Clone, Debug)]
pub struct RankStats {
    counts: Vec<u64>,
    sample_count: u64,
}

impl RankStats {
    /// Count per rank.
    pub closed spec fn counts(&self) -> Seq<u64> {
        self.counts@
    }

    /// Number of trials.
    pub closed spec fn samples(&self) -> u64 {
        self.sample_count
    }

    /// Trials won.
    pub fn win_count(&self) -> (r: u64)
        ensures
            r == if self.counts().len() > 0 {
                self.counts()[0]
            } else {
                0
            },
    {
        if self.counts.len() > 0 {
            self.counts[0]
        } else {
            0
        }
    }

    /// Trials finished in the top three.
    pub fn podium_count(&self) -> (r: u64)
        requires
            count_sum(self.counts()) <= u64::MAX,
        ensures
            r == count_sum(podium_part(self.counts())),
    {
        let n: usize = if self.counts.len() < 3 {
            self.counts.len()
        } else {
            3
        };
        let mut sum: u64 = 0;
        let mut i: usize = 0;
        while i < n
            invariant
                n <= 3,
                n <= self.counts@.len(),
                i <= n,
                count_sum(self.counts@) <= u64::MAX,
                sum == count_sum(self.counts@.take(i as int)),
            decreases n - i,
        {
            proof {
                assert(self.counts@.take(i + 1).drop_last() == self.counts@.take(i as int));
                lemma_prefix_sum_le(self.counts@, i + 1);
            }
            sum = sum + self.counts[i];
            i = i + 1;
        }
        assert(podium_part(self.counts@) == self.counts@.take(n as int));
        sum
    }

    /// Sum of the (one-based) ranks over all trials; over the number of
    /// trials it is the expected rank.
    pub fn rank_total(&self) -> (r: u64)
        requires
            self.counts().len() * count_sum(self.counts()) <= u64::MAX,
        ensures
            r == rank_weighted_sum(self.counts()),
    {
        let n = self.counts.len();
        let mut sum: u64 = 0;
        let mut i: usize = 0;
        while i < n
            invariant
                n == self.counts@.len(),
                i <= n,
                n * count_sum(self.counts@) <= u64::MAX,
                sum == rank_weighted_sum(self.counts@.take(i as int)),
            decreases n - i,
        {
            proof {
                let t = self.counts@.take(i + 1);
                assert(t.drop_last() == self.counts@.take(i as int));
                lemma_weighted_sum_bound(t);
                lemma_prefix_sum_le(self.counts@, i + 1);
                assert(t.len() * count_sum(t) <= n * count_sum(self.counts@)) by (nonlinear_arith)
                    requires t.len() <= n, count_sum(t) <= count_sum(self.counts@);
                assert((i + 1) * (self.counts@[i as int] as nat) <= t.len() * count_sum(t)) by {
                    lemma_count_le_sum(t, i as int);
                    assert((i + 1) * (self.counts@[i as int] as nat) <= (i + 1) * count_sum(t))
                        by (nonlinear_arith)
                        requires self.counts@[i as int] as nat <= count_sum(t);
                }
            }
            sum = sum + (i as u64 + 1) * self.counts[i];
            i = i + 1;
        }
        assert(self.counts@.take(n as int) == self.counts@);
        sum
    }

    /// Count of finishes at `rank`.
    pub fn count_at(&self, rank: usize) -> (r: u64)
        requires
            rank < self.counts().len(),
        ensures
            r == self.counts()[rank as int],
    {
        self.counts[rank]
    }

    /// Number of ranks.
    pub fn len(&self) -> (r: usize)
        ensures
            r == self.counts().len(),
    {
        self.counts.len()
    }

    /// Number of trials.
    pub fn sample_count(&self) -> (r: u64)
        ensures
            r == self.samples(),
    {
        self.sample_count
    }
}

proof fn lemma_prefix_sum_le(s: Seq<u64>, k: int)
    requires
        0 <= k <= s.len(),
    ensures
        count_sum(s.take(k)) <= count_sum(s),
    decreases s.len() - k,
{
    if k < s.len() {
        lemma_prefix_sum_le(s, k + 1);
        assert(s.take(k + 1).drop_last() == s.take(k));
    } else {
        assert(s.take(k) == s);
    }
}

} // verus!
