//! The Monte Carlo race: each trial fills every contestant's solves from
//! entered values or drawn ones, scores the round, ranks the contestants
//! and records the outcome.
use vstd::prelude::*;
use crate::events::{EventType, DNF_VALUE, is_dnf, round_result, calculate_average};
use crate::histogram::{
    HistogramAccumulator, HistogramData, bucket_of, truncate_for_histogram, retained,
    retained_total_bounded, finished_value,
};
use vstd::arithmetic::div_mod::lemma_mod_multiples_basic;
use crate::rank::{
    RankAccumulator, RankStats, stable_rank, winner_count, rank_results, count_sum, lemma_rank_bound,
    lemma_one_winner, lemma_count_le_sum,
};

verus! {

/// A bin is kept when it holds at least one ten-thousandth of the trials.
pub const HIST_INCLUDE_DIVISOR: u64 = 10000;

/// A contestant of a simulation. `stats` is the fitted model that drawn
/// results come from; a contestant without one draws nothing.
#[derive(Debug)]
pub struct Competitor<S> {
    pub name: String,
    pub id: String,
    /// Entered result per solve position: 0 for none, negative for a
    /// failed attempt, positive for a result.
    pub entered_results: Vec<i32>,
    pub stats: Option<S>,
}

impl<S> Competitor<S> {
    /// A contestant with no entered results.
    pub fn new(name: String, id: String, stats: Option<S>) -> (r: Self)
        ensures
            r.name == name,
            r.id == id,
            r.entered_results@.len() == 0,
            r.stats == stats,
    {
        Competitor { name, id, entered_results: Vec::new(), stats }
    }
}

/// The contestants of a request and the format they compete in.
#[derive(Debug)]
pub struct CompetitorContext<S> {
    pub competitors: Vec<Competitor<S>>,
    pub event_type: EventType,
}

impl<S> CompetitorContext<S> {
    /// Attach entered results: `entries[i]` goes to the `i`-th contestant;
    /// contestants past the end of `entries` keep theirs.
    pub fn with_manual_entries(self, entries: Vec<Vec<i32>>) -> (r: Self)
        ensures
            r.event_type == self.event_type,
            r.competitors@.len() == self.competitors@.len(),
            forall|i: int|
                0 <= i < r.competitors@.len() ==> {
                    &&& (#[trigger] r.competitors@[i]).name == self.competitors@[i].name
                    &&& r.competitors@[i].id == self.competitors@[i].id
                    &&& r.competitors@[i].stats == self.competitors@[i].stats
                    &&& r.competitors@[i].entered_results@ == if i < entries@.len() {
                        entries@[i]@
                    } else {
                        self.competitors@[i].entered_results@
                    }
                },
    {
        let event_type = self.event_type;
        let mut rest = self.competitors;
        let mut pending = entries;
        let ghost all = rest@;
        let ghost given = pending@;
        let n = rest.len();
        let mut out: Vec<Competitor<S>> = Vec::new();
        while rest.len() > 0
            invariant
                all.len() == n,
                out@.len() + rest@.len() == n,
                forall|i: int| 0 <= i < rest@.len() ==> #[trigger] rest@[i] == all[out@.len() + i],
                pending@.len() == if given.len() > out@.len() {
                    given.len() - out@.len()
                } else {
                    0
                },
                forall|i: int| 0 <= i < pending@.len() ==> #[trigger] pending@[i] == given[out@.len() + i],
                forall|i: int|
                    0 <= i < out@.len() ==> {
                        &&& (#[trigger] out@[i]).name == all[i].name
                        &&& out@[i].id == all[i].id
                        &&& out@[i].stats == all[i].stats
                        &&& out@[i].entered_results@ == if i < given.len() {
                            given[i]@
                        } else {
                            all[i].entered_results@
                        }
                    },
            decreases rest@.len(),
        {
            let mut c = rest.remove(0);
            if pending.len() > 0 {
                c.entered_results = pending.remove(0);
            }
            out.push(c);
        }
        CompetitorContext { competitors: out, event_type }
    }
}

/// Entered value at solve position `i`, 0 where none was entered.
pub open spec fn entered_at(entered: Seq<i32>, i: int) -> i32 {
    if 0 <= i < entered.len() {
        entered[i]
    } else {
        0
    }
}

/// Position `i` takes a drawn value: nothing was entered there and the
/// contestant has a model.
pub open spec fn is_generated(entered: Seq<i32>, has_stats: bool, i: int) -> bool {
    entered_at(entered, i) == 0 && has_stats
}

/// The solve at position `i`: an entered value wins (a negative one is a
/// failed attempt); otherwise the drawn value, in hundredths of a move for
/// the move-count format; a contestant without a model fails.
pub open spec fn solve_value(
    entered: Seq<i32>,
    has_stats: bool,
    drawn: Seq<i32>,
    e: EventType,
    i: int,
) -> int {
    let m = entered_at(entered, i);
    if i >= e.solve_count() {
        DNF_VALUE as int
    } else if m != 0 {
        if m < 0 {
            DNF_VALUE as int
        } else {
            m as int
        }
    } else if has_stats {
        if e == EventType::Fmc {
            drawn[i] * 100
        } else {
            drawn[i] as int
        }
    } else {
        DNF_VALUE as int
    }
}

/// The five solve slots of a round.
pub open spec fn round_solves(entered: Seq<i32>, has_stats: bool, drawn: Seq<i32>, e: EventType) -> Seq<
    i32,
> {
    Seq::new(5, |i: int| solve_value(entered, has_stats, drawn, e, i) as i32)
}

/// Position `i` puts a drawn, finished value into the single histogram.
pub open spec fn single_recorded(
    entered: Seq<i32>,
    has_stats: bool,
    drawn: Seq<i32>,
    e: EventType,
    i: int,
) -> bool {
    i < e.solve_count() && is_generated(entered, has_stats, i) && drawn[i] < DNF_VALUE
}

/// How many of the first `m` positions record a single under `key`.
pub open spec fn single_hits(
    entered: Seq<i32>,
    has_stats: bool,
    drawn: Seq<i32>,
    e: EventType,
    key: i32,
    m: int,
) -> nat
    decreases m,
{
    if m <= 0 {
        0
    } else {
        single_hits(entered, has_stats, drawn, e, key, m - 1) + if single_recorded(
            entered,
            has_stats,
            drawn,
            e,
            m - 1,
        ) && bucket_of(solve_value(entered, has_stats, drawn, e, m - 1), e == EventType::Fmc)
            == key {
            1nat
        } else {
            0nat
        }
    }
}

/// How many of the first `m` positions record a single.
pub open spec fn single_total(entered: Seq<i32>, has_stats: bool, drawn: Seq<i32>, e: EventType, m: int) -> nat
    decreases m,
{
    if m <= 0 {
        0
    } else {
        single_total(entered, has_stats, drawn, e, m - 1) + if single_recorded(
            entered,
            has_stats,
            drawn,
            e,
            m - 1,
        ) {
            1nat
        } else {
            0nat
        }
    }
}

proof fn lemma_single_total_bound(entered: Seq<i32>, has_stats: bool, drawn: Seq<i32>, e: EventType, m: int)
    requires
        m >= 0,
    ensures
        single_total(entered, has_stats, drawn, e, m) <= m,
    decreases m,
{
    if m > 0 {
        lemma_single_total_bound(entered, has_stats, drawn, e, m - 1);
    }
}

/// Drawn values lie in the result range; the marker stands for a failed draw.
pub open spec fn draws_in_range(entered: Seq<i32>, has_stats: bool, drawn: Seq<i32>, e: EventType) -> bool {
    forall|i: int|
        0 <= i < e.solve_count() && is_generated(entered, has_stats, i) ==> 1 <= #[trigger] drawn[i]
            <= DNF_VALUE
}

/// Fill one contestant's solves and score the round. Drawn values that
/// are used and finished go into `hist_single`; entered values do not.
pub fn simulate_round<S>(
    competitor: &Competitor<S>,
    event_type: EventType,
    drawn: &[i32],
    hist_single: &mut HistogramAccumulator,
) -> (r: i32)
    requires
        drawn@.len() >= 5,
        draws_in_range(competitor.entered_results@, competitor.stats is Some, drawn@, event_type),
        old(hist_single).wf(),
        old(hist_single).total() + 5 <= u64::MAX,
    ensures
        r == round_result(
            round_solves(competitor.entered_results@, competitor.stats is Some, drawn@, event_type),
            event_type,
        ),
        final(hist_single).wf(),
        forall|k: i32|
            #[trigger] final(hist_single).count(k) == old(hist_single).count(k) + single_hits(
                competitor.entered_results@,
                competitor.stats is Some,
                drawn@,
                event_type,
                k,
                event_type.solve_count() as int,
            ),
        final(hist_single).total() == old(hist_single).total() + single_total(
            competitor.entered_results@,
            competitor.stats is Some,
            drawn@,
            event_type,
            event_type.solve_count() as int,
        ),
{
    let ghost entered = competitor.entered_results@;
    let ghost has_stats = competitor.stats is Some;
    let count = event_type.num_solves();
    let is_fmc = event_type.is_fmc();
    let has_model = competitor.stats.is_some();
    let mut solves: Vec<i32> = Vec::new();
    let mut j: usize = 0;
    while j < 5
        invariant
            j <= 5,
            solves@.len() == j,
            forall|i: int| 0 <= i < j ==> solves@[i] == DNF_VALUE,
        decreases 5 - j,
    {
        solves.push(DNF_VALUE);
        j = j + 1;
    }
    let mut i: usize = 0;
    while i < count
        invariant
            count == event_type.solve_count(),
            is_fmc == (event_type == EventType::Fmc),
            has_model == has_stats,
            entered == competitor.entered_results@,
            has_stats == competitor.stats is Some,
            drawn@.len() >= 5,
            draws_in_range(entered, has_stats, drawn@, event_type),
            i <= count,
            solves@.len() == 5,
            forall|p: int| 0 <= p < i ==> solves@[p] == solve_value(entered, has_stats, drawn@, event_type, p),
            forall|p: int| i <= p < 5 ==> solves@[p] == DNF_VALUE,
            hist_single.wf(),
            forall|k: i32|
                #[trigger] hist_single.count(k) == old(hist_single).count(k) + single_hits(
                    entered,
                    has_stats,
                    drawn@,
                    event_type,
                    k,
                    i as int,
                ),
            hist_single.total() == old(hist_single).total() + single_total(
                entered,
                has_stats,
                drawn@,
                event_type,
                i as int,
            ),
            old(hist_single).total() + 5 <= u64::MAX,
        decreases count - i,
    {
        let manual_time: i32 = if i < competitor.entered_results.len() {
            competitor.entered_results[i]
        } else {
            0
        };
        proof {
            lemma_single_total_bound(entered, has_stats, drawn@, event_type, i as int);
        }
        if manual_time != 0 {
            let v = if manual_time < 0 {
                DNF_VALUE
            } else {
                manual_time
            };
            solves.set(i, v);
        } else if has_model {
            let val = drawn[i];
            let v = if is_fmc {
                val * 100
            } else {
                val
            };
            solves.set(i, v);
            if val < DNF_VALUE {
                hist_single.record(truncate_for_histogram(v, is_fmc));
            }
        }
        i = i + 1;
    }
    proof {
        assert(solves@ == round_solves(entered, has_stats, drawn@, event_type));
    }
    calculate_average(solves.as_slice(), event_type)
}

/// The round result of contestant `c` in a trial with drawn values `drawn`.
pub open spec fn trial_result<S>(
    competitors: Seq<Competitor<S>>,
    drawn: Seq<Vec<i32>>,
    e: EventType,
    c: int,
) -> int {
    round_result(
        round_solves(competitors[c].entered_results@, competitors[c].stats is Some, drawn[c]@, e),
        e,
    )
}

/// Sum over the first `m` contestants of their wins.
pub open spec fn wins_sum(ranks: Seq<RankAccumulator>, m: int) -> nat
    decreases m,
{
    if m <= 0 {
        0
    } else {
        wins_sum(ranks, m - 1) + ranks[m - 1].counts()[0] as nat
    }
}

proof fn lemma_wins_sum_update(ranks: Seq<RankAccumulator>, c: int, v: RankAccumulator, m: int)
    requires
        0 <= c < ranks.len(),
        0 <= m <= ranks.len(),
    ensures
        wins_sum(ranks.update(c, v), m) + (if c < m {
            ranks[c].counts()[0] as nat
        } else {
            0nat
        }) == wins_sum(ranks, m) + (if c < m {
            v.counts()[0] as nat
        } else {
            0nat
        }),
    decreases m,
{
    if m > 0 {
        lemma_wins_sum_update(ranks, c, v, m - 1);
    }
}

/// Everything one simulation run accumulates, per contestant.
#[derive(Debug)]
pub struct SimulationAccumulator {
    event_type: EventType,
    singles: Vec<HistogramAccumulator>,
    averages: Vec<HistogramAccumulator>,
    ranks: Vec<RankAccumulator>,
    trials: u64,
}

impl SimulationAccumulator {
    /// The format being simulated.
    pub closed spec fn event(&self) -> EventType {
        self.event_type
    }

    /// Single-result histograms.
    pub closed spec fn singles(&self) -> Seq<HistogramAccumulator> {
        self.singles@
    }

    /// Round-result histograms.
    pub closed spec fn averages(&self) -> Seq<HistogramAccumulator> {
        self.averages@
    }

    /// Rank counts.
    pub closed spec fn ranks(&self) -> Seq<RankAccumulator> {
        self.ranks@
    }

    /// Trials recorded so far.
    pub closed spec fn trials(&self) -> u64 {
        self.trials
    }

    /// Number of contestants.
    pub open spec fn size(&self) -> nat {
        self.ranks().len()
    }

    /// The bookkeeping that every recorded trial keeps: at most one single
    /// per solve and one round result per trial are recorded, every
    /// contestant gets one rank per trial, and each trial has one winner.
    pub open spec fn wf(&self) -> bool {
        &&& self.singles().len() == self.size()
        &&& self.averages().len() == self.size()
        &&& self.trials() <= u32::MAX
        &&& forall|c: int|
            0 <= c < self.size() ==> (#[trigger] self.singles()[c]).wf() && self.singles()[c].total()
                <= 5 * self.trials() && (self.event().solve_count() == 3 ==> self.singles()[c].total()
                <= 3 * self.trials())
        &&& forall|c: int|
            0 <= c < self.size() ==> (#[trigger] self.averages()[c]).wf() && self.averages()[c].total()
                <= self.trials()
        &&& forall|c: int|
            0 <= c < self.size() ==> (#[trigger] self.ranks()[c]).counts().len() == self.size()
                && count_sum(self.ranks()[c].counts()) == self.trials()
        &&& self.size() >= 1 ==> wins_sum(self.ranks(), self.size() as int) == self.trials()
    }

    pub fn new(num_competitors: usize, event_type: EventType) -> (r: Self)
        ensures
            r.wf(),
            r.size() == num_competitors,
            r.event() == event_type,
            r.trials() == 0,
            forall|c: int, k: i32| 0 <= c < num_competitors ==> #[trigger] r.singles()[c].count(k) == 0,
            forall|c: int, k: i32| 0 <= c < num_competitors ==> #[trigger] r.averages()[c].count(k) == 0,
    {
        let mut singles: Vec<HistogramAccumulator> = Vec::new();
        let mut averages: Vec<HistogramAccumulator> = Vec::new();
        let mut ranks: Vec<RankAccumulator> = Vec::new();
        let mut i: usize = 0;
        while i < num_competitors
            invariant
                i <= num_competitors,
                singles@.len() == i,
                averages@.len() == i,
                ranks@.len() == i,
                forall|c: int|
                    0 <= c < i ==> (#[trigger] singles@[c]).wf() && singles@[c].total() == 0
                        && forall|k: i32| singles@[c].count(k) == 0,
                forall|c: int|
                    0 <= c < i ==> (#[trigger] averages@[c]).wf() && averages@[c].total() == 0
                        && forall|k: i32| averages@[c].count(k) == 0,
                forall|c: int|
                    0 <= c < i ==> (#[trigger] ranks@[c]).counts().len() == num_competitors
                        && count_sum(ranks@[c].counts()) == 0 && (num_competitors >= 1
                        ==> ranks@[c].counts()[0] == 0),
            decreases num_competitors - i,
        {
            singles.push(HistogramAccumulator::new());
            averages.push(HistogramAccumulator::new());
            ranks.push(RankAccumulator::new(num_competitors));
            i = i + 1;
        }
        let r = SimulationAccumulator { event_type, singles, averages, ranks, trials: 0 };
        proof {
            if num_competitors >= 1 {
                lemma_wins_zero(r.ranks(), num_competitors as int);
            }
        }
        r
    }

    /// Record one trial whose drawn values are `drawn` (one row per
    /// contestant): score each round, rank the contestants, and count.
    /// Returns the round results.
    #[verifier::loop_isolation(false)]
    pub fn record_trial<S>(&mut self, competitors: &[Competitor<S>], drawn: &Vec<Vec<i32>>) -> (results:
        Vec<i32>)
        requires
            old(self).wf(),
            old(self).trials() < u32::MAX,
            old(self).size() == competitors@.len(),
            drawn@.len() == competitors@.len(),
            forall|c: int|
                0 <= c < competitors@.len() ==> (#[trigger] drawn@[c])@.len() >= 5 && draws_in_range(
                    competitors@[c].entered_results@,
                    competitors@[c].stats is Some,
                    drawn@[c]@,
                    old(self).event(),
                ),
        ensures
            final(self).wf(),
            final(self).size() == old(self).size(),
            final(self).event() == old(self).event(),
            final(self).trials() == old(self).trials() + 1,
            results@.len() == competitors@.len(),
            forall|c: int|
                0 <= c < competitors@.len() ==> #[trigger] results@[c] == trial_result(
                    competitors@,
                    drawn@,
                    old(self).event(),
                    c,
                ),
            forall|c: int|
                0 <= c < competitors@.len() ==> (#[trigger] final(self).ranks()[c]).counts()
                    == old(self).ranks()[c].counts().update(
                    stable_rank(results@, c) as int,
                    (old(self).ranks()[c].counts()[stable_rank(results@, c) as int] + 1) as u64,
                ),
            forall|c: int, k: i32|
                0 <= c < competitors@.len() ==> #[trigger] final(self).averages()[c].count(k)
                    == old(self).averages()[c].count(k) + if !is_dnf(results@[c] as int) && bucket_of(
                    results@[c] as int,
                    old(self).event() == EventType::Fmc,
                ) == k {
                    1nat
                } else {
                    0nat
                },
            forall|c: int, k: i32|
                0 <= c < competitors@.len() ==> #[trigger] final(self).singles()[c].count(k)
                    == old(self).singles()[c].count(k) + single_hits(
                    competitors@[c].entered_results@,
                    competitors@[c].stats is Some,
                    drawn@[c]@,
                    old(self).event(),
                    k,
                    old(self).event().solve_count() as int,
                ),
    {
        let n = competitors.len();
        let event_type = self.event_type;
        let is_fmc = event_type.is_fmc();
        let ghost old_self = *self;
        let mut results: Vec<i32> = Vec::new();
        let mut c: usize = 0;
        while c < n
            invariant
                c <= n,
                results@.len() == c,
                self.ranks() == old_self.ranks(),
                self.trials() == old_self.trials(),
                self.event() == old_self.event(),
                self.singles().len() == n,
                self.averages().len() == n,
                forall|d: int|
                    0 <= d < c ==> #[trigger] results@[d] == trial_result(competitors@, drawn@, event_type, d),
                forall|d: int| c <= d < n ==> #[trigger] self.singles()[d] == old_self.singles()[d],
                forall|d: int| c <= d < n ==> #[trigger] self.averages()[d] == old_self.averages()[d],
                forall|d: int|
                    0 <= d < c ==> (#[trigger] self.singles()[d]).wf() && self.singles()[d].total()
                        <= 5 * (old_self.trials() + 1) && (event_type.solve_count() == 3
                        ==> self.singles()[d].total() <= 3 * (old_self.trials() + 1)),
                forall|d: int|
                    0 <= d < c ==> (#[trigger] self.averages()[d]).wf() && self.averages()[d].total()
                        <= old_self.trials() + 1,
                forall|d: int, k: i32|
                    0 <= d < c ==> #[trigger] self.averages()[d].count(k) == old_self.averages()[d].count(k)
                        + if !is_dnf(results@[d] as int) && bucket_of(
                        results@[d] as int,
                        event_type == EventType::Fmc,
                    ) == k {
                        1nat
                    } else {
                        0nat
                    },
                forall|d: int, k: i32|
                    0 <= d < c ==> #[trigger] self.singles()[d].count(k) == old_self.singles()[d].count(k)
                        + single_hits(
                        competitors@[d].entered_results@,
                        competitors@[d].stats is Some,
                        drawn@[d]@,
                        event_type,
                        k,
                        event_type.solve_count() as int,
                    ),
            decreases n - c,
        {
            proof {
                lemma_single_total_bound(
                    competitors@[c as int].entered_results@,
                    competitors@[c as int].stats is Some,
                    drawn@[c as int]@,
                    event_type,
                    event_type.solve_count() as int,
                );
                assert(self.singles()[c as int] == old_self.singles()[c as int]);
                assert(self.averages()[c as int] == old_self.averages()[c as int]);
            }
            let ghost before_singles = self.singles();
            let ghost before_averages = self.averages();
            let res = simulate_round(
                &competitors[c],
                event_type,
                drawn[c].as_slice(),
                &mut self.singles[c],
            );
            proof {
                assert(self.averages() == before_averages);
                assert(forall|d: int| 0 <= d < n && d != c ==> #[trigger] self.singles()[d] == before_singles[d]);
            }
            if res < DNF_VALUE {
                self.averages[c].record(truncate_for_histogram(res, is_fmc));
            }
            proof {
                assert(forall|d: int| 0 <= d < n && d != c ==> #[trigger] self.averages()[d] == before_averages[d]);
            }
            results.push(res);
            c = c + 1;
        }
        let ranks = rank_results(&results);
        let ghost mid = *self;
        let mut c: usize = 0;
        while c < n
            invariant
                c <= n,
                self.singles() == mid.singles(),
                self.averages() == mid.averages(),
                self.trials() == mid.trials(),
                self.event() == mid.event(),
                self.ranks().len() == n,
                forall|d: int| c <= d < n ==> #[trigger] self.ranks()[d] == old_self.ranks()[d],
                forall|d: int|
                    0 <= d < c ==> (#[trigger] self.ranks()[d]).counts() == old_self.ranks()[d].counts().update(
                        stable_rank(results@, d) as int,
                        (old_self.ranks()[d].counts()[stable_rank(results@, d) as int] + 1) as u64,
                    ),
                forall|d: int|
                    0 <= d < c ==> count_sum((#[trigger] self.ranks()[d]).counts()) == old_self.trials() + 1,
                forall|d: int| 0 <= d < n ==> (#[trigger] self.ranks()[d]).counts().len() == n,
                n >= 1 ==> wins_sum(self.ranks(), n as int) == old_self.trials() + winner_count(
                    results@,
                    c as int,
                ),
            decreases n - c,
        {
            proof {
                lemma_rank_bound(results@, c as int);
                assert(self.ranks()[c as int] == old_self.ranks()[c as int]);
            }
            let ghost before = self.ranks();
            proof {
                let rk = stable_rank(results@, c as int);
                assert(ranks@[c as int] == rk);
                lemma_count_le_sum(before[c as int].counts(), rk as int);
            }
            self.ranks[c].record_rank(ranks[c]);
            proof {
                assert(self.ranks() == before.update(c as int, self.ranks()[c as int]));
                let rk = stable_rank(results@, c as int);
                assert(self.ranks()[c as int].counts()[0] as nat == before[c as int].counts()[0] as nat
                    + if rk == 0 {
                    1nat
                } else {
                    0nat
                });
                lemma_wins_sum_update(before, c as int, self.ranks()[c as int], n as int);
                assert(winner_count(results@, c + 1) == winner_count(results@, c as int) + if stable_rank(
                    results@,
                    c as int,
                ) == 0 {
                    1nat
                } else {
                    0nat
                });
            }
            c = c + 1;
        }
        self.trials = self.trials + 1;
        proof {
            if n >= 1 {
                lemma_one_winner(results@);
            }
        }
        results
    }

    /// Finish the run: histograms keep bins holding at least one
    /// ten-thousandth of the trials; single-result bins are scaled by
    /// `100 / num_solves`, round-result bins by 100.
    pub fn finalize(self) -> (r: Vec<SimulationResult>)
        requires
            self.wf(),
        ensures
            r@.len() == self.size(),
            forall|c: int|
                0 <= c < r@.len() ==> {
                    &&& (#[trigger] r@[c]).stats().counts() == self.ranks()[c].counts()
                    &&& r@[c].stats().samples() == self.trials()
                    &&& r@[c].singles().wf()
                    &&& r@[c].singles().sample_count() == self.trials()
                    &&& r@[c].singles().bins() == retained(
                        self.singles()[c].bins(),
                        (self.trials() / HIST_INCLUDE_DIVISOR) as u64,
                        (100nat / self.event().solve_count()) as u64,
                    )
                    &&& r@[c].singles().total() <= 100 * self.trials()
                    &&& r@[c].averages().wf()
                    &&& r@[c].averages().sample_count() == self.trials()
                    &&& r@[c].averages().bins() == retained(
                        self.averages()[c].bins(),
                        (self.trials() / HIST_INCLUDE_DIVISOR) as u64,
                        100,
                    )
                    &&& r@[c].averages().total() <= 100 * self.trials()
                },
            forall|c: int, k: i32|
                0 <= c < r@.len() ==> #[trigger] r@[c].singles().value(k) == finished_value(
                    self.singles()[c].count(k),
                    (self.trials() / HIST_INCLUDE_DIVISOR) as u64,
                    (100nat / self.event().solve_count()) as u64,
                ),
            forall|c: int, k: i32|
                0 <= c < r@.len() ==> #[trigger] r@[c].averages().value(k) == finished_value(
                    self.averages()[c].count(k),
                    (self.trials() / HIST_INCLUDE_DIVISOR) as u64,
                    100,
                ),
    {
        let n = self.ranks.len();
        let trials = self.trials;
        let min_count = trials / HIST_INCLUDE_DIVISOR;
        let count = self.event_type.num_solves();
        let single_scale = 100 / (count as u64);
        let ghost old_self = self;
        let SimulationAccumulator { event_type: _, mut singles, mut averages, mut ranks, trials: _ } =
            self;
        let mut out: Vec<SimulationResult> = Vec::new();
        while singles.len() > 0
            invariant
                out@.len() + singles@.len() == n,
                singles@.len() == averages@.len(),
                singles@.len() == ranks@.len(),
                n == old_self.size(),
                old_self.wf(),
                trials == old_self.trials(),
                count == old_self.event().solve_count(),
                min_count == trials / HIST_INCLUDE_DIVISOR,
                single_scale == 100nat / count as nat,
                forall|c: int|
                    0 <= c < singles@.len() ==> #[trigger] singles@[c] == old_self.singles()[out@.len() + c],
                forall|c: int|
                    0 <= c < averages@.len() ==> #[trigger] averages@[c] == old_self.averages()[out@.len()
                        + c],
                forall|c: int|
                    0 <= c < ranks@.len() ==> #[trigger] ranks@[c] == old_self.ranks()[out@.len() + c],
                forall|c: int|
                    0 <= c < out@.len() ==> {
                        &&& (#[trigger] out@[c]).stats().counts() == old_self.ranks()[c].counts()
                        &&& out@[c].stats().samples() == trials
                        &&& out@[c].singles().wf()
                        &&& out@[c].singles().sample_count() == trials
                        &&& out@[c].singles().bins() == retained(
                            old_self.singles()[c].bins(),
                            min_count,
                            single_scale,
                        )
                        &&& out@[c].singles().total() <= 100 * trials
                        &&& out@[c].averages().wf()
                        &&& out@[c].averages().sample_count() == trials
                        &&& out@[c].averages().bins() == retained(
                            old_self.averages()[c].bins(),
                            min_count,
                            100,
                        )
                        &&& out@[c].averages().total() <= 100 * trials
                    },
                forall|c: int, k: i32|
                    0 <= c < out@.len() ==> #[trigger] out@[c].singles().value(k) == finished_value(
                        old_self.singles()[c].count(k),
                        min_count,
                        single_scale,
                    ),
                forall|c: int, k: i32|
                    0 <= c < out@.len() ==> #[trigger] out@[c].averages().value(k) == finished_value(
                        old_self.averages()[c].count(k),
                        min_count,
                        100,
                    ),
            decreases singles@.len(),
        {
            let ghost k = out@.len() as int;
            let hs = singles.remove(0);
            let ha = averages.remove(0);
            let rk = ranks.remove(0);
            proof {
                assert(singles@.len() + 1 + out@.len() == n);
                assert(hs == old_self.singles()[k]);
                assert(ha == old_self.averages()[k]);
                assert(rk == old_self.ranks()[k]);
                if count == 3 {
                    assert(single_scale == 33);
                    assert(hs.total() <= 3 * trials);
                    assert(hs.total() * single_scale <= 100 * trials) by (nonlinear_arith)
                        requires hs.total() <= 3 * trials, single_scale == 33;
                } else {
                    assert(single_scale == 20);
                    assert(hs.total() <= 5 * trials);
                    assert(hs.total() * single_scale <= 100 * trials) by (nonlinear_arith)
                        requires hs.total() <= 5 * trials, single_scale == 20;
                }
                assert(ha.total() * 100 <= 100 * trials) by (nonlinear_arith)
                    requires ha.total() <= trials;
                retained_total_bounded(hs.bins(), min_count, single_scale);
                retained_total_bounded(ha.bins(), min_count, 100);
                hs.lemma_finished_values(min_count, single_scale);
                ha.lemma_finished_values(min_count, 100);
            }
            let s = hs.into_histogram_data(trials, single_scale, min_count);
            let a = ha.into_histogram_data(trials, 100, min_count);
            let rs = rk.into_rank_stats(trials);
            out.push(SimulationResult { rank_stats: rs, hist_single: s, hist_average: a });
        }
        out
    }
}

/// No solve of any contestant is drawn: each position is entered, or the
/// contestant has no model.
pub open spec fn nothing_drawn<S>(competitors: Seq<Competitor<S>>, e: EventType) -> bool {
    forall|c: int, i: int|
        0 <= c < competitors.len() && 0 <= i < e.solve_count() ==> !#[trigger] is_generated(
            competitors[c].entered_results@,
            competitors[c].stats is Some,
            i,
        )
}

/// The round results of a trial in which nothing is drawn.
pub open spec fn fixed_results<S>(competitors: Seq<Competitor<S>>, e: EventType) -> Seq<i32> {
    Seq::new(
        competitors.len(),
        |c: int|
            round_result(
                round_solves(
                    competitors[c].entered_results@,
                    competitors[c].stats is Some,
                    Seq::empty(),
                    e,
                ),
                e,
            ) as i32,
    )
}

proof fn lemma_fixed_results<S>(competitors: Seq<Competitor<S>>, drawn: Seq<Vec<i32>>, e: EventType)
    requires
        nothing_drawn(competitors, e),
        drawn.len() == competitors.len(),
    ensures
        forall|c: int|
            0 <= c < competitors.len() ==> trial_result(competitors, drawn, e, c) == (#[trigger] fixed_results(
                competitors,
                e,
            )[c]),
{
    assert forall|c: int| 0 <= c < competitors.len() implies trial_result(competitors, drawn, e, c)
        == (#[trigger] fixed_results(competitors, e)[c]) by {
        let entered = competitors[c].entered_results@;
        let has = competitors[c].stats is Some;
        assert forall|i: int| 0 <= i < 5 implies solve_value(entered, has, drawn[c]@, e, i) == solve_value(
            entered,
            has,
            Seq::empty(),
            e,
            i,
        ) by {
            if i < e.solve_count() {
                assert(!is_generated(competitors[c].entered_results@, competitors[c].stats is Some, i));
            }
        }
        assert(round_solves(entered, has, drawn[c]@, e) == round_solves(entered, has, Seq::empty(), e));
        lemma_round_result_range(round_solves(entered, has, Seq::empty(), e), e);
    }
}

/// A round result fits the result type.
proof fn lemma_round_result_range(solves: Seq<i32>, e: EventType)
    requires
        solves.len() == 5,
    ensures
        i32::MIN <= round_result(solves, e) <= i32::MAX,
{
    let s = solves.subrange(0, e.solve_count() as int);
    crate::events::lemma_solve_bounds(s);
    crate::events::lemma_extremes(s);
}

/// Keys a single result can be recorded under: whole moves for the
/// move-count format, multiples of ten hundredths otherwise.
pub open spec fn single_on_grid(k: int, fmc: bool) -> bool {
    if fmc {
        k % 100 == 0
    } else {
        k % 10 == 0
    }
}

/// Keys a round result can be recorded under: any move count, multiples of
/// ten hundredths otherwise.
pub open spec fn average_on_grid(k: int, fmc: bool) -> bool {
    fmc || k % 10 == 0
}

proof fn lemma_bucket_on_grid(v: int)
    ensures
        bucket_of(v, false) % 10 == 0,
{
    if v >= 0 {
        lemma_mod_multiples_basic(v / 10, 10);
    } else {
        let q = (-v) / 10;
        assert(-(q * 10) == (-q) * 10) by (nonlinear_arith);
        lemma_mod_multiples_basic(-q, 10);
    }
}

proof fn lemma_single_hits_off_grid(
    entered: Seq<i32>,
    has_stats: bool,
    drawn: Seq<i32>,
    e: EventType,
    key: i32,
    m: int,
)
    requires
        !single_on_grid(key as int, e == EventType::Fmc),
    ensures
        single_hits(entered, has_stats, drawn, e, key, m) == 0,
    decreases m,
{
    if m > 0 {
        lemma_single_hits_off_grid(entered, has_stats, drawn, e, key, m - 1);
        let i = m - 1;
        if single_recorded(entered, has_stats, drawn, e, i) {
            if e == EventType::Fmc {
                lemma_mod_multiples_basic(drawn[i] as int, 100);
            } else {
                lemma_bucket_on_grid(drawn[i] as int);
            }
        }
    }
}

proof fn lemma_single_hits_none_drawn(
    entered: Seq<i32>,
    has_stats: bool,
    drawn: Seq<i32>,
    e: EventType,
    key: i32,
    m: int,
)
    requires
        forall|i: int| 0 <= i < e.solve_count() ==> !#[trigger] is_generated(entered, has_stats, i),
    ensures
        single_hits(entered, has_stats, drawn, e, key, m) == 0,
    decreases m,
{
    if m > 0 {
        lemma_single_hits_none_drawn(entered, has_stats, drawn, e, key, m - 1);
    }
}

/// Sum over the first `m` contestants' results of the trials they won.
pub open spec fn wins_total(results: Seq<SimulationResult>, m: int) -> nat
    decreases m,
{
    if m <= 0 {
        0
    } else {
        wins_total(results, m - 1) + results[m - 1].stats().counts()[0] as nat
    }
}

proof fn lemma_wins_total(results: Seq<SimulationResult>, ranks: Seq<RankAccumulator>, m: int)
    requires
        0 <= m <= results.len(),
        results.len() == ranks.len(),
        forall|c: int| 0 <= c < results.len() ==> (#[trigger] results[c]).stats().counts() == ranks[c].counts(),
    ensures
        wins_total(results, m) == wins_sum(ranks, m),
    decreases m,
{
    if m > 0 {
        lemma_wins_total(results, ranks, m - 1);
        assert(results[m - 1].stats().counts() == ranks[m - 1].counts());
    }
}

/// Run `simulation_count` trials of `event_type` over `competitors`.
///
/// Every solve that a round needs drawn is asked of `draw`, with the
/// contestant's index and `include_dnf`; `draw` answers with a result of at
/// least 1, or the failure marker. Entered values take precedence, and a
/// contestant without a model draws nothing.
///
/// Per contestant, the result counts each rank over the trials (so the
/// counts add up to the number of trials), and the wins of all contestants
/// add up to the number of trials: each trial has exactly one winner.
pub fn run_simulations<S, F: Fn(usize, bool) -> i32>(
    competitors: &[Competitor<S>],
    event_type: &EventType,
    include_dnf: bool,
    simulation_count: u32,
    draw: F,
) -> (r: Vec<SimulationResult>)
    requires
        forall|i: usize| i < competitors@.len() ==> draw.requires((i, include_dnf)),
        forall|i: usize, b: bool, v: i32| draw.ensures((i, b), v) ==> 1 <= v <= DNF_VALUE,
    ensures
        r@.len() == competitors@.len(),
        forall|c: int|
            0 <= c < r@.len() ==> {
                &&& (#[trigger] r@[c]).stats().counts().len() == competitors@.len()
                &&& count_sum(r@[c].stats().counts()) == simulation_count
                &&& r@[c].stats().samples() == simulation_count
                &&& r@[c].singles().wf()
                &&& r@[c].singles().sample_count() == simulation_count
                &&& r@[c].singles().total() <= 100 * simulation_count
                &&& r@[c].averages().wf()
                &&& r@[c].averages().sample_count() == simulation_count
                &&& r@[c].averages().total() <= 100 * simulation_count
            },
        competitors@.len() >= 1 ==> wins_total(r@, competitors@.len() as int) == simulation_count,
        nothing_drawn(competitors@, *event_type) ==> forall|c: int|
            0 <= c < r@.len() ==> (#[trigger] r@[c]).stats().counts()[stable_rank(
                fixed_results(competitors@, *event_type),
                c,
            ) as int] == simulation_count,
        forall|c: int, k: i32|
            0 <= c < r@.len() && !single_on_grid(k as int, *event_type == EventType::Fmc) ==> #[trigger] r@[c].singles().value(k)
                == 0,
        forall|c: int, k: i32|
            0 <= c < r@.len() && !average_on_grid(k as int, *event_type == EventType::Fmc) ==> #[trigger] r@[c].averages().value(k)
                == 0,
        nothing_drawn(competitors@, *event_type) ==> forall|c: int|
            0 <= c < r@.len() ==> (#[trigger] r@[c]).singles().bins().len() == 0,
        nothing_drawn(competitors@, *event_type) ==> forall|c: int, k: i32|
            0 <= c < r@.len() ==> #[trigger] r@[c].averages().value(k) == if !is_dnf(
                fixed_results(competitors@, *event_type)[c] as int,
            ) && bucket_of(fixed_results(competitors@, *event_type)[c] as int, *event_type == EventType::Fmc)
                == k {
                100 * simulation_count
            } else {
                0
            },
{
    let n = competitors.len();
    let event_type = *event_type;
    let count = event_type.num_solves();
    let mut acc = SimulationAccumulator::new(n, event_type);
    let mut t: u32 = 0;
    proof {
        let fixed = fixed_results(competitors@, event_type);
        assert forall|c: int| 0 <= c < n implies (#[trigger] acc.ranks()[c]).counts()[stable_rank(
            fixed,
            c,
        ) as int] == 0 by {
            lemma_rank_bound(fixed, c);
            lemma_count_le_sum(acc.ranks()[c].counts(), stable_rank(fixed, c) as int);
        }
    }
    while t < simulation_count
        invariant
            n == competitors@.len(),
            count == event_type.solve_count(),
            acc.wf(),
            acc.size() == n,
            acc.event() == event_type,
            acc.trials() == t,
            t <= simulation_count,
            forall|i: usize| i < competitors@.len() ==> draw.requires((i, include_dnf)),
            forall|i: usize, b: bool, v: i32| draw.ensures((i, b), v) ==> 1 <= v <= DNF_VALUE,
            nothing_drawn(competitors@, event_type) ==> forall|c: int|
                0 <= c < n ==> (#[trigger] acc.ranks()[c]).counts()[stable_rank(
                    fixed_results(competitors@, event_type),
                    c,
                ) as int] == t,
            forall|c: int, k: i32|
                0 <= c < n && !single_on_grid(k as int, event_type == EventType::Fmc) ==> #[trigger] acc.singles()[c].count(k)
                    == 0,
            forall|c: int, k: i32|
                0 <= c < n && !average_on_grid(k as int, event_type == EventType::Fmc) ==> #[trigger] acc.averages()[c].count(k)
                    == 0,
            nothing_drawn(competitors@, event_type) ==> forall|c: int, k: i32|
                0 <= c < n ==> #[trigger] acc.singles()[c].count(k) == 0,
            nothing_drawn(competitors@, event_type) ==> forall|c: int, k: i32|
                0 <= c < n ==> #[trigger] acc.averages()[c].count(k) == if !is_dnf(
                    fixed_results(competitors@, event_type)[c] as int,
                ) && bucket_of(fixed_results(competitors@, event_type)[c] as int, event_type == EventType::Fmc)
                    == k {
                    t as nat
                } else {
                    0
                },
        decreases simulation_count - t,
    {
        let mut drawn: Vec<Vec<i32>> = Vec::new();
        let mut c: usize = 0;
        while c < n
            invariant
                n == competitors@.len(),
                count == event_type.solve_count(),
                c <= n,
                drawn@.len() == c,
                forall|d: int|
                    0 <= d < c ==> (#[trigger] drawn@[d])@.len() >= 5 && draws_in_range(
                        competitors@[d].entered_results@,
                        competitors@[d].stats is Some,
                        drawn@[d]@,
                        event_type,
                    ),
                forall|i: usize| i < competitors@.len() ==> draw.requires((i, include_dnf)),
                forall|i: usize, b: bool, v: i32| draw.ensures((i, b), v) ==> 1 <= v <= DNF_VALUE,
            decreases n - c,
        {
            let comp = &competitors[c];
            let has_model = comp.stats.is_some();
            let mut row: Vec<i32> = Vec::new();
            let mut i: usize = 0;
            while i < 5
                invariant
                    n == competitors@.len(),
                    c < n,
                    *comp == competitors@[c as int],
                    has_model == (comp.stats is Some),
                    count == event_type.solve_count(),
                    i <= 5,
                    row@.len() == i,
                    forall|p: int|
                        0 <= p < i && p < event_type.solve_count() && is_generated(
                            comp.entered_results@,
                            has_model,
                            p,
                        ) ==> 1 <= #[trigger] row@[p] <= DNF_VALUE,
                    forall|i: usize| i < competitors@.len() ==> draw.requires((i, include_dnf)),
                    forall|i: usize, b: bool, v: i32| draw.ensures((i, b), v) ==> 1 <= v <= DNF_VALUE,
                decreases 5 - i,
            {
                let manual: i32 = if i < comp.entered_results.len() {
                    comp.entered_results[i]
                } else {
                    0
                };
                let v = if i < count && manual == 0 && has_model {
                    draw(c, include_dnf)
                } else {
                    DNF_VALUE
                };
                row.push(v);
                i = i + 1;
            }
            drawn.push(row);
            c = c + 1;
        }
        let ghost before = acc;
        let results = acc.record_trial(competitors, &drawn);
        proof {
            if nothing_drawn(competitors@, event_type) {
                let fixed = fixed_results(competitors@, event_type);
                lemma_fixed_results(competitors@, drawn@, event_type);
                assert(results@ == fixed);
                assert forall|c: int| 0 <= c < n implies (#[trigger] acc.ranks()[c]).counts()[stable_rank(
                    fixed,
                    c,
                ) as int] == t + 1 by {
                    lemma_rank_bound(fixed, c);
                }
            }
            let fmc = event_type == EventType::Fmc;
            assert forall|c: int, k: i32| 0 <= c < n implies {
                &&& !single_on_grid(k as int, fmc) ==> #[trigger] acc.singles()[c].count(k) == 0
                &&& !average_on_grid(k as int, fmc) ==> acc.averages()[c].count(k) == 0
                &&& nothing_drawn(competitors@, event_type) ==> acc.singles()[c].count(k) == 0
            } by {
                let entered = competitors@[c].entered_results@;
                let has = competitors@[c].stats is Some;
                if !single_on_grid(k as int, fmc) {
                    lemma_single_hits_off_grid(entered, has, drawn@[c]@, event_type, k, event_type.solve_count() as int);
                }
                if !average_on_grid(k as int, fmc) {
                    lemma_bucket_on_grid(results@[c] as int);
                }
                if nothing_drawn(competitors@, event_type) {
                    assert forall|i: int| 0 <= i < event_type.solve_count() implies !#[trigger] is_generated(
                        entered,
                        has,
                        i,
                    ) by {
                        assert(!is_generated(competitors@[c].entered_results@, competitors@[c].stats is Some, i));
                    }
                    lemma_single_hits_none_drawn(entered, has, drawn@[c]@, event_type, k, event_type.solve_count() as int);
                }
                assert(acc.singles()[c].count(k) == before.singles()[c].count(k) + single_hits(
                    entered,
                    has,
                    drawn@[c]@,
                    event_type,
                    k,
                    event_type.solve_count() as int,
                ));
                assert(acc.averages()[c].count(k) == before.averages()[c].count(k) + if !is_dnf(
                    results@[c] as int,
                ) && bucket_of(results@[c] as int, fmc) == k {
                    1nat
                } else {
                    0nat
                });
            }
        }
        t = t + 1;
    }
    let ghost last = acc;
    let r = acc.finalize();
    proof {
        if n >= 1 {
            lemma_wins_total(r@, last.ranks(), n as int);
        }
        assert forall|c: int| 0 <= c < r@.len() implies (#[trigger] r@[c]).stats().counts()
            == last.ranks()[c].counts() by {}
        let fmc = event_type == EventType::Fmc;
        let min_count = (last.trials() / HIST_INCLUDE_DIVISOR) as u64;
        assert forall|c: int, k: i32| 0 <= c < r@.len() implies {
            &&& !single_on_grid(k as int, fmc) ==> #[trigger] r@[c].singles().value(k) == 0
            &&& !average_on_grid(k as int, fmc) ==> r@[c].averages().value(k) == 0
        } by {
            assert(r@[c].singles().value(k) == finished_value(
                last.singles()[c].count(k),
                min_count,
                (100nat / event_type.solve_count()) as u64,
            ));
            assert(r@[c].averages().value(k) == finished_value(last.averages()[c].count(k), min_count, 100));
        }
        if nothing_drawn(competitors@, event_type) {
            assert forall|c: int| 0 <= c < r@.len() implies (#[trigger] r@[c]).singles().bins().len() == 0 by {
                assert(last.singles()[c].wf());
                assert forall|k: i32| last.singles()[c].count(k) == 0 by {
                    assert(last.singles()[c].count(k) == 0);
                }
                last.singles()[c].lemma_no_bins();
            }
            let fixed = fixed_results(competitors@, event_type);
            assert forall|c: int, k: i32| 0 <= c < r@.len() implies #[trigger] r@[c].averages().value(k) == if !is_dnf(
                fixed[c] as int,
            ) && bucket_of(fixed[c] as int, fmc) == k {
                100 * simulation_count
            } else {
                0
            } by {
                assert(r@[c].averages().value(k) == finished_value(last.averages()[c].count(k), min_count, 100));
            }
        }
    }
    r
}

proof fn lemma_wins_zero(ranks: Seq<RankAccumulator>, m: int)
    requires
        0 <= m <= ranks.len(),
        forall|c: int| 0 <= c < ranks.len() ==> (#[trigger] ranks[c]).counts().len() >= 1 && ranks[c].counts()[0] == 0,
    ensures
        wins_sum(ranks, m) == 0,
    decreases m,
{
    if m > 0 {
        lemma_wins_zero(ranks, m - 1);
    }
}

/// The outcome of a run for one contestant.
#[derive(Debug)]
pub struct SimulationResult {
    rank_stats: RankStats,
    hist_single: HistogramData,
    hist_average: HistogramData,
}

impl SimulationResult {
    /// Rank counts.
    pub closed spec fn stats(&self) -> RankStats {
        self.rank_stats
    }

    /// Single-result histogram.
    pub closed spec fn singles(&self) -> HistogramData {
        self.hist_single
    }

    /// Round-result histogram.
    pub closed spec fn averages(&self) -> HistogramData {
        self.hist_average
    }

    pub fn new(rank_stats: RankStats, hist_single: HistogramData, hist_average: HistogramData) -> (r: Self)
        ensures
            r.stats() == rank_stats,
            r.singles() == hist_single,
            r.averages() == hist_average,
    {
        SimulationResult { rank_stats, hist_single, hist_average }
    }

    pub fn rank_stats(&self) -> (r: &RankStats)
        ensures
            *r == self.stats(),
    {
        &self.rank_stats
    }

    pub fn single_histogram(&self) -> (r: &HistogramData)
        ensures
            *r == self.singles(),
    {
        &self.hist_single
    }

    pub fn average_histogram(&self) -> (r: &HistogramData)
        ensures
            *r == self.averages(),
    {
        &self.hist_average
    }

    /// Trials won.
    pub fn win_count(&self) -> (r: u64)
        ensures
            r == if self.stats().counts().len() > 0 {
                self.stats().counts()[0]
            } else {
                0
            },
    {
        self.rank_stats.win_count()
    }
}

} // verus!
