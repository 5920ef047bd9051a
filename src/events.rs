//! Event formats and their official scoring rules.
use vstd::prelude::*;

verus! {

/// Marker for a failed attempt: one hour in centiseconds, plus one, so that
/// it compares worse than any real result.
pub const DNF_VALUE: i32 = 360001;

/// Number of solves for Average of 5 format.
pub const AO5_SOLVE_COUNT: usize = 5;

/// Number of solves for Best of 5 format.
pub const BO5_SOLVE_COUNT: usize = 5;

/// Number of solves for Mean of 3 format.
pub const MO3_SOLVE_COUNT: usize = 3;

/// Number of solves for Best of 3 format.
pub const BO3_SOLVE_COUNT: usize = 3;

/// A value at or above the marker counts as a failed attempt.
pub open spec fn is_dnf(x: int) -> bool {
    x >= DNF_VALUE as int
}

/// Number of failed attempts in `s`.
pub open spec fn count_dnf(s: Seq<i32>) -> nat
    decreases s.len(),
{
    if s.len() == 0 {
        0
    } else {
        count_dnf(s.drop_last()) + if is_dnf(s.last() as int) {
            1nat
        } else {
            0nat
        }
    }
}

/// Sum of the values of `s`.
pub open spec fn sum_of(s: Seq<i32>) -> int
    decreases s.len(),
{
    if s.len() == 0 {
        0
    } else {
        sum_of(s.drop_last()) + s.last() as int
    }
}

/// Smallest value of a non-empty `s`.
pub open spec fn min_of(s: Seq<i32>) -> int
    decreases s.len(),
{
    if s.len() <= 1 {
        s[0] as int
    } else {
        let m = min_of(s.drop_last());
        if (s.last() as int) < m {
            s.last() as int
        } else {
            m
        }
    }
}

/// Largest value of a non-empty `s`.
pub open spec fn max_of(s: Seq<i32>) -> int
    decreases s.len(),
{
    if s.len() <= 1 {
        s[0] as int
    } else {
        let m = max_of(s.drop_last());
        if (s.last() as int) > m {
            s.last() as int
        } else {
            m
        }
    }
}

/// Integer division by three, rounding toward zero.
pub open spec fn div3(a: int) -> int {
    if a >= 0 {
        a / 3
    } else {
        -((-a) / 3)
    }
}

/// WCA event format types, defining how results are calculated.
#[derive(Debug, Clone, Copy, PartialEq, Eq, Structural)]
pub enum EventType {
    /// Average of 5: the middle three of five solves averaged
    Ao5,
    /// Best of 5: best single from 5 attempts
    Bo5,
    /// Mean of 3: average of all 3 solves
    Mo3,
    /// Best of 3: best single from 3 attempts
    Bo3,
    /// Fewest Moves Challenge: Mean of 3 counted in hundredths of a move
    Fmc,
}

/// The format that an event identifier denotes, if any.
pub open spec fn event_of_id(id: Seq<char>) -> Option<EventType> {
    if id == "222"@ || id == "333"@ || id == "444"@ || id == "555"@ || id == "333oh"@
        || id == "minx"@ || id == "pyram"@ || id == "clock"@ || id == "skewb"@ || id == "sq1"@ {
        Some(EventType::Ao5)
    } else if id == "333bf"@ {
        Some(EventType::Bo5)
    } else if id == "666"@ || id == "777"@ {
        Some(EventType::Mo3)
    } else if id == "333fm"@ {
        Some(EventType::Fmc)
    } else if id == "444bf"@ || id == "555bf"@ {
        Some(EventType::Bo3)
    } else {
        None
    }
}

/// Mean of three with the move-count correction: a truncated mean whose
/// last two digits are 66 is raised by one.
pub open spec fn mean3_result(s: Seq<i32>, fmc: bool) -> int {
    let avg = div3(sum_of(s));
    if fmc && avg >= 0 && avg % 100 == 66 {
        avg + 1
    } else {
        avg
    }
}

/// The result of a round from its solves, by the format's rule.
pub open spec fn round_result(solves: Seq<i32>, e: EventType) -> int {
    let s = solves.subrange(0, e.solve_count() as int);
    match e {
        EventType::Ao5 => if count_dnf(s) >= 2 {
            DNF_VALUE as int
        } else {
            div3(sum_of(s) - min_of(s) - max_of(s))
        },
        EventType::Mo3 | EventType::Fmc => if count_dnf(s) > 0 {
            DNF_VALUE as int
        } else {
            mean3_result(s, e == EventType::Fmc)
        },
        EventType::Bo3 | EventType::Bo5 => min_of(s),
    }
}

/// True when `a` and `b` hold the same characters.
pub fn str_equals(a: &str, b: &str) -> (r: bool)
    ensures
        r == (a@ == b@),
{
    let n = a.unicode_len();
    if n != b.unicode_len() {
        return false;
    }
    let mut i: usize = 0;
    while i < n
        invariant
            n == a@.len(),
            n == b@.len(),
            i <= n,
            a@.subrange(0, i as int) == b@.subrange(0, i as int),
        decreases n - i,
    {
        if a.get_char(i) != b.get_char(i) {
            assert(a@[i as int] != b@[i as int]);
            return false;
        }
        assert(a@.subrange(0, i + 1) == a@.subrange(0, i as int).push(a@[i as int]));
        assert(b@.subrange(0, i + 1) == b@.subrange(0, i as int).push(b@[i as int]));
        i = i + 1;
    }
    assert(a@ == a@.subrange(0, n as int));
    assert(b@ == b@.subrange(0, n as int));
    true
}

impl EventType {
    /// Number of solves in a round of this format.
    pub open spec fn solve_count(self) -> nat {
        match self {
            EventType::Ao5 | EventType::Bo5 => 5,
            EventType::Mo3 | EventType::Bo3 | EventType::Fmc => 3,
        }
    }

    /// Parse a WCA event ID string into an EventType.
    pub fn from_id(id: &str) -> (r: Option<EventType>)
        ensures
            r == event_of_id(id@),
    {
        if str_equals(id, "222") || str_equals(id, "333") || str_equals(id, "444") || str_equals(
            id,
            "555",
        ) || str_equals(id, "333oh") || str_equals(id, "minx") || str_equals(id, "pyram")
            || str_equals(id, "clock") || str_equals(id, "skewb") || str_equals(id, "sq1") {
            Some(EventType::Ao5)
        } else if str_equals(id, "333bf") {
            Some(EventType::Bo5)
        } else if str_equals(id, "666") || str_equals(id, "777") {
            Some(EventType::Mo3)
        } else if str_equals(id, "333fm") {
            Some(EventType::Fmc)
        } else if str_equals(id, "444bf") || str_equals(id, "555bf") {
            Some(EventType::Bo3)
        } else {
            None
        }
    }

    /// Get the number of solves for this event type.
    pub fn num_solves(&self) -> (n: usize)
        ensures
            n == self.solve_count(),
    {
        match self {
            EventType::Ao5 => AO5_SOLVE_COUNT,
            EventType::Bo5 => BO5_SOLVE_COUNT,
            EventType::Mo3 => MO3_SOLVE_COUNT,
            EventType::Fmc => MO3_SOLVE_COUNT,
            EventType::Bo3 => BO3_SOLVE_COUNT,
        }
    }

    /// Check if this is an FMC (Fewest Moves Challenge) event.
    pub fn is_fmc(&self) -> (b: bool)
        ensures
            b == (*self == EventType::Fmc),
    {
        match self {
            EventType::Fmc => true,
            _ => false,
        }
    }
}

/// Bounds on the running statistics of a run of solves: a failed attempt
/// at an extreme is counted, and the sum of all but the extremes stays in range.
pub proof fn lemma_solve_bounds(s: Seq<i32>)
    requires
        s.len() >= 1,
    ensures
        min_of(s) <= max_of(s),
        is_dnf(max_of(s)) ==> count_dnf(s) >= 1,
        is_dnf(min_of(s)) ==> count_dnf(s) == s.len(),
        count_dnf(s) <= s.len(),
        s.len() * (i32::MIN as int) <= sum_of(s) <= s.len() * (i32::MAX as int),
        count_dnf(s) == 0 ==> sum_of(s) <= s.len() * (DNF_VALUE - 1),
        s.len() == 1 ==> sum_of(s) == min_of(s) && min_of(s) == max_of(s),
        s.len() >= 2 ==> sum_of(s) - min_of(s) - max_of(s) >= (s.len() - 2) * (i32::MIN as int),
        s.len() >= 2 && count_dnf(s) <= 1 ==> sum_of(s) - min_of(s) - max_of(s) <= (s.len() - 2)
            * (DNF_VALUE - 1),
    decreases s.len(),
{
    let p = s.drop_last();
    if s.len() == 1 {
        assert(sum_of(p) == 0);
        assert(count_dnf(p) == 0);
    } else {
        lemma_solve_bounds(p);
    }
}

/// Every value of `s` lies between its extremes, and both extremes occur in `s`.
pub proof fn lemma_extremes(s: Seq<i32>)
    requires
        s.len() >= 1,
    ensures
        forall|i: int| 0 <= i < s.len() ==> min_of(s) <= #[trigger] s[i] <= max_of(s),
        exists|i: int| 0 <= i < s.len() && min_of(s) == s[i],
        exists|j: int| 0 <= j < s.len() && max_of(s) == s[j],
    decreases s.len(),
{
    if s.len() == 1 {
        assert(min_of(s) == s[0] && max_of(s) == s[0]);
    } else {
        let p = s.drop_last();
        lemma_extremes(p);
        let i = choose|i: int| 0 <= i < p.len() && min_of(p) == p[i];
        let j = choose|j: int| 0 <= j < p.len() && max_of(p) == p[j];
        assert forall|k: int| 0 <= k < s.len() implies min_of(s) <= #[trigger] s[k] <= max_of(s) by {
            if k < p.len() {
                assert(s[k] == p[k]);
            }
        }
        if (s.last() as int) < min_of(p) {
            assert(min_of(s) == s[s.len() - 1]);
        } else {
            assert(min_of(s) == s[i]);
        }
        if (s.last() as int) > max_of(p) {
            assert(max_of(s) == s[s.len() - 1]);
        } else {
            assert(max_of(s) == s[j]);
        }
    }
}

/// Count, sum and extremes of the first `n` solves.
fn scan_solves(solves: &[i32], n: usize) -> (r: (usize, i64, i32, i32))
    requires
        1 <= n <= solves@.len(),
        n <= 5,
    ensures
        r.0 == count_dnf(solves@.subrange(0, n as int)),
        r.1 == sum_of(solves@.subrange(0, n as int)),
        r.2 == min_of(solves@.subrange(0, n as int)),
        r.3 == max_of(solves@.subrange(0, n as int)),
{
    let first = solves[0];
    let mut dnfs: usize = if first >= DNF_VALUE {
        1
    } else {
        0
    };
    let mut sum: i64 = first as i64;
    let mut lo: i32 = first;
    let mut hi: i32 = first;
    let mut i: usize = 1;
    proof {
        let head = solves@.subrange(0, 1);
        assert(sum_of(head.drop_last()) == 0);
        assert(count_dnf(head.drop_last()) == 0);
        assert(head.last() == first);
    }
    while i < n
        invariant
            1 <= i <= n <= solves@.len(),
            n <= 5,
            dnfs == count_dnf(solves@.subrange(0, i as int)),
            sum == sum_of(solves@.subrange(0, i as int)),
            lo == min_of(solves@.subrange(0, i as int)),
            hi == max_of(solves@.subrange(0, i as int)),
        decreases n - i,
    {
        let x = solves[i];
        proof {
            let p = solves@.subrange(0, i as int);
            let q = solves@.subrange(0, i + 1);
            assert(q.drop_last() == p);
            assert(q.last() == x);
            lemma_solve_bounds(p);
        }
        if x >= DNF_VALUE {
            dnfs = dnfs + 1;
        }
        sum = sum + x as i64;
        if x < lo {
            lo = x;
        }
        if x > hi {
            hi = x;
        }
        i = i + 1;
    }
    (dnfs, sum, lo, hi)
}

/// Division by three toward zero.
fn div3_exec(a: i64) -> (r: i64)
    ensures
        r == div3(a as int),
{
    if a >= 0 {
        ((a as u64) / 3) as i64
    } else if a == i64::MIN {
        -(((i64::MAX as u64) / 3) as i64)
    } else {
        -((((-a) as u64) / 3) as i64)
    }
}

/// Calculate the official WCA result of a round from its solves: the first
/// `num_solves` entries count.
pub fn calculate_average(solves: &[i32], event_type: EventType) -> (r: i32)
    requires
        solves@.len() >= event_type.solve_count(),
    ensures
        r == round_result(solves@, event_type),
{
    let n = event_type.num_solves();
    let (dnfs, sum, lo, hi) = scan_solves(solves, n);
    proof {
        lemma_solve_bounds(solves@.subrange(0, n as int));
    }
    match event_type {
        EventType::Ao5 => {
            if dnfs >= 2 {
                DNF_VALUE
            } else {
                let mid = sum - lo as i64 - hi as i64;
                div3_exec(mid) as i32
            }
        },
        EventType::Mo3 | EventType::Fmc => {
            if dnfs > 0 {
                DNF_VALUE
            } else {
                let avg = div3_exec(sum);
                if event_type.is_fmc() && avg >= 0 && avg % 100 == 66 {
                    (avg + 1) as i32
                } else {
                    avg as i32
                }
            }
        },
        EventType::Bo3 | EventType::Bo5 => lo,
    }
}

/// A best-of round is a failed attempt exactly when every one of its solves is.
pub proof fn best_of_dnf_iff_all_dnf(solves: Seq<i32>, e: EventType)
    requires
        e == EventType::Bo3 || e == EventType::Bo5,
        solves.len() >= e.solve_count(),
    ensures
        is_dnf(round_result(solves, e)) <==> forall|i: int|
            0 <= i < e.solve_count() ==> is_dnf(#[trigger] solves[i] as int),
{
    let s = solves.subrange(0, e.solve_count() as int);
    lemma_extremes(s);
    assert(forall|i: int| 0 <= i < e.solve_count() ==> s[i] == #[trigger] solves[i]);
}

/// An average-of-five round is a failed attempt exactly when at least two of
/// its five solves are (the fourth-best solve is then a failure). So it is
/// one whenever three or more are, and, unless exactly two are, it is one
/// exactly when three or more are.
pub proof fn average_of_5_dnf_iff_two_dnf(solves: Seq<i32>)
    requires
        solves.len() >= 5,
    ensures
        is_dnf(round_result(solves, EventType::Ao5)) <==> count_dnf(solves.subrange(0, 5)) >= 2,
        count_dnf(solves.subrange(0, 5)) >= 3 ==> is_dnf(round_result(solves, EventType::Ao5)),
        count_dnf(solves.subrange(0, 5)) != 2 ==> (is_dnf(round_result(solves, EventType::Ao5))
            <==> count_dnf(solves.subrange(0, 5)) >= 3),
{
    lemma_solve_bounds(solves.subrange(0, 5));
}

} // verus!
