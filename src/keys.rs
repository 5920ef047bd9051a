//! The shared key axis of histogram charts.
use vstd::prelude::*;

verus! {

/// Padding around the data for results in hundredths: 20 hundredths.
pub const PAD_AMOUNT_CS: i32 = 20;

/// Padding around the data for move counts: one move.
pub const PAD_AMOUNT_MOVES: i32 = 100;

/// Distance from a key to the next: thirds of a move (33, 34, 33) for
/// move-count averages, a whole move for move-count singles, ten hundredths
/// otherwise.
pub open spec fn key_step(count: int, is_fmc: bool, is_average: bool) -> int {
    let d = count % 100;
    if is_fmc && is_average && d == 0 {
        33
    } else if is_fmc && is_average && d == 33 {
        34
    } else if is_fmc && is_average && d == 67 {
        33
    } else if is_fmc && !is_average {
        100
    } else {
        10
    }
}

/// The keys from `count` up to `max` inclusive.
pub open spec fn keys_from(count: int, max: int, is_fmc: bool, is_average: bool) -> Seq<int>
    decreases (if count > max {
        0
    } else {
        max - count + 1
    }),
{
    if count > max {
        Seq::empty()
    } else {
        seq![count].add(keys_from(count + key_step(count, is_fmc, is_average), max, is_fmc, is_average))
    }
}

/// Padding on each side of the data.
pub open spec fn pad_for(is_fmc: bool) -> int {
    if is_fmc {
        PAD_AMOUNT_MOVES as int
    } else {
        PAD_AMOUNT_CS as int
    }
}

/// First key of the axis: the padded minimum, not below zero.
pub open spec fn start_for(min: int, is_fmc: bool) -> int {
    if min - pad_for(is_fmc) > 0 {
        min - pad_for(is_fmc)
    } else {
        0
    }
}

/// A first key is usable when it lies on the grid of its kind of result.
pub open spec fn start_is_aligned(start: int, is_fmc: bool) -> bool {
    if is_fmc {
        start % 100 == 0 || start % 100 == 33 || start % 100 == 67
    } else {
        start % 10 == 0
    }
}

/// Keys are strictly increasing and lie between `count` and `max`.
pub proof fn lemma_keys_increasing(count: int, max: int, is_fmc: bool, is_average: bool)
    ensures
        forall|i: int, j: int|
            0 <= i < j < keys_from(count, max, is_fmc, is_average).len() ==> keys_from(
                count,
                max,
                is_fmc,
                is_average,
            )[i] < keys_from(count, max, is_fmc, is_average)[j],
        forall|i: int|
            0 <= i < keys_from(count, max, is_fmc, is_average).len() ==> count <= #[trigger] keys_from(
                count,
                max,
                is_fmc,
                is_average,
            )[i] <= max,
        keys_from(count, max, is_fmc, is_average).len() <= if count > max {
            0
        } else {
            (max - count) / 10 + 1
        },
    decreases (if count > max {
        0
    } else {
        max - count + 1
    }),
{
    if count <= max {
        let step = key_step(count, is_fmc, is_average);
        let next = count + step;
        lemma_keys_increasing(next, max, is_fmc, is_average);
        let rest = keys_from(next, max, is_fmc, is_average);
        let all = keys_from(count, max, is_fmc, is_average);
        assert(all == seq![count].add(rest));
        assert forall|i: int| 0 <= i < all.len() implies count <= #[trigger] all[i] <= max by {
            if i > 0 {
                assert(all[i] == rest[i - 1]);
            }
        }
        assert forall|i: int, j: int| 0 <= i < j < all.len() implies all[i] < all[j] by {
            assert(all[j] == rest[j - 1]);
            if i > 0 {
                assert(all[i] == rest[i - 1]);
            }
        }
    }
}

/// The keys of a histogram chart axis, walked one at a time.
#[derive(Debug)]
pub struct HistogramKeys {
    count: i32,
    max: i32,
    is_fmc: bool,
    is_average: bool,
}

impl HistogramKeys {
    /// The keys not yet handed out.
    pub closed spec fn keys(&self) -> Seq<int> {
        keys_from(self.count as int, self.max as int, self.is_fmc, self.is_average)
    }

    pub closed spec fn wf(&self) -> bool {
        &&& 0 <= self.count
        &&& self.max <= i32::MAX - 100
    }

    /// The axis over `min..=max`, padded on both sides; `None` when the
    /// padded start is off the grid.
    pub fn new(min: i32, max: i32, is_fmc: bool, is_average: bool) -> (r: Option<Self>)
        requires
            max <= i32::MAX - 200,
        ensures
            r is Some <==> start_is_aligned(start_for(min as int, is_fmc), is_fmc),
            r matches Some(k) ==> k.wf() && k.keys() == keys_from(
                start_for(min as int, is_fmc),
                max + pad_for(is_fmc),
                is_fmc,
                is_average,
            ),
    {
        let pad_amount: i32 = if is_fmc {
            PAD_AMOUNT_MOVES
        } else {
            PAD_AMOUNT_CS
        };
        let padded: i64 = min as i64 - pad_amount as i64;
        let start_val: i32 = if padded > 0 {
            padded as i32
        } else {
            0
        };
        let decimals = start_val % 100;
        let is_valid = if is_fmc {
            decimals == 0 || decimals == 33 || decimals == 67
        } else {
            start_val % 10 == 0
        };
        if !is_valid {
            return None;
        }
        Some(HistogramKeys { count: start_val, max: max + pad_amount, is_fmc, is_average })
    }

    /// The next key, if any is left.
    pub fn next_key(&mut self) -> (r: Option<i32>)
        requires
            old(self).wf(),
        ensures
            final(self).wf(),
            old(self).keys().len() == 0 ==> r is None && final(self).keys() == old(self).keys(),
            old(self).keys().len() > 0 ==> r == Some(old(self).keys()[0] as i32) && final(self).keys()
                == old(self).keys().drop_first(),
    {
        if self.count > self.max {
            return None;
        }
        let yield_val = self.count;
        let decimals = self.count % 100;
        let step: i32 = if self.is_fmc && self.is_average && decimals == 0 {
            33
        } else if self.is_fmc && self.is_average && decimals == 33 {
            34
        } else if self.is_fmc && self.is_average && decimals == 67 {
            33
        } else if self.is_fmc && !self.is_average {
            100
        } else {
            10
        };
        proof {
            let ks = self.keys();
            assert(ks == seq![yield_val as int].add(
                keys_from(yield_val + step, self.max as int, self.is_fmc, self.is_average),
            ));
            assert(ks.drop_first() == keys_from(
                yield_val + step,
                self.max as int,
                self.is_fmc,
                self.is_average,
            ));
        }
        self.count = self.count + step;
        Some(yield_val)
    }

    /// All remaining keys, in order.
    pub fn collect_keys(self) -> (r: Vec<i32>)
        requires
            self.wf(),
        ensures
            r@.len() == self.keys().len(),
            forall|i: int| 0 <= i < r@.len() ==> r@[i] == self.keys()[i],
    {
        let mut it = self;
        let mut out: Vec<i32> = Vec::new();
        let ghost all = it.keys();
        loop
            invariant
                it.wf(),
                out@.len() + it.keys().len() == all.len(),
                forall|i: int| 0 <= i < out@.len() ==> out@[i] == all[i],
                forall|i: int| 0 <= i < it.keys().len() ==> it.keys()[i] == all[out@.len() + i],
            ensures
                out@.len() == all.len(),
                forall|i: int| 0 <= i < out@.len() ==> out@[i] == all[i],
            decreases it.keys().len(),
        {
            match it.next_key() {
                Some(k) => {
                    out.push(k);
                },
                None => {
                    break;
                },
            }
        }
        out
    }
}

} // verus!
