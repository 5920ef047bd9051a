//! Results by date, and the date windows of a request. A date is a day
//! number: days from January 1 of year 1, that day being 1.
use vstd::prelude::*;
use chrono::Datelike;

verus! {

/// Day numbers of this size or less cover every date the calendar handles.
pub const DAY_LIMIT: i32 = 1000000000;

/// The results one competitor recorded on one date, that date given as the
/// number of days before the reference date.
#[derive(Debug, Clone)]
pub struct DatedCompetitionResult {
    pub days_since: i32,
    pub results: Vec<i32>,
}

/// The day `months` calendar months before `day`, as chrono's month
/// arithmetic gives it; `None` outside the calendar's range.
pub uninterp spec fn months_before(day: i32, months: u32) -> Option<i32>;

/// Relies on chrono's `NaiveDate::from_num_days_from_ce_opt`,
/// `NaiveDate::checked_sub_months` and `Datelike::num_days_from_ce`: the
/// result depends on the day and the number of months alone.
#[verifier::external_body]
fn sub_months(day: i32, months: u32) -> (r: Option<i32>)
    ensures
        r == months_before(day, months),
{
    match chrono::NaiveDate::from_num_days_from_ce_opt(day) {
        Some(date) => match date.checked_sub_months(chrono::Months::new(months)) {
            Some(earlier) => Some(earlier.num_days_from_ce()),
            None => None,
        },
        None => None,
    }
}

/// A copy of `v`.
fn copy_values(v: &Vec<i32>) -> (r: Vec<i32>)
    ensures
        r@ == v@,
{
    let mut out: Vec<i32> = Vec::new();
    let mut i: usize = 0;
    while i < v.len()
        invariant
            i <= v@.len(),
            out@ == v@.take(i as int),
        decreases v@.len() - i,
    {
        proof {
            assert(v@.take(i + 1) == v@.take(i as int).push(v@[i as int]));
        }
        out.push(v[i]);
        i = i + 1;
    }
    proof {
        assert(v@.take(v@.len() as int) == v@);
    }
    out
}

/// The values of the rows dated `day`, in row order.
pub open spec fn values_on(rows: Seq<(i32, i32)>, day: i32) -> Seq<i32>
    decreases rows.len(),
{
    if rows.len() == 0 {
        Seq::empty()
    } else {
        let rest = values_on(rows.drop_last(), day);
        if rows.last().0 == day {
            rest.push(rows.last().1)
        } else {
            rest
        }
    }
}

proof fn lemma_values_on_absent(rows: Seq<(i32, i32)>, day: i32)
    requires
        forall|j: int| 0 <= j < rows.len() ==> (#[trigger] rows[j]).0 != day,
    ensures
        values_on(rows, day) == Seq::<i32>::empty(),
    decreases rows.len(),
{
    if rows.len() > 0 {
        lemma_values_on_absent(rows.drop_last(), day);
    }
}

proof fn lemma_values_on_push(rows: Seq<(i32, i32)>, row: (i32, i32))
    ensures
        forall|x: i32|
            #[trigger] values_on(rows.push(row), x) == if row.0 == x {
                values_on(rows, x).push(row.1)
            } else {
                values_on(rows, x)
            },
{
    assert(rows.push(row).drop_last() == rows);
}

/// Where `day` stands among `days`, if anywhere.
fn find_day(days: &Vec<i32>, day: i32) -> (r: Option<usize>)
    ensures
        r matches Some(a) ==> a < days@.len() && days@[a as int] == day,
        r is None ==> forall|b: int| 0 <= b < days@.len() ==> days@[b] != day,
{
    let mut a: usize = 0;
    while a < days.len()
        invariant
            a <= days@.len(),
            forall|b: int| 0 <= b < a ==> days@[b] != day,
        decreases days@.len() - a,
    {
        if days[a] == day {
            return Some(a);
        }
        a = a + 1;
    }
    None
}

/// The grouping so far: distinct days, each with the values of the rows
/// seen so far in row order, every row's day present, and only those.
pub open spec fn grouped(rows: Seq<(i32, i32)>, days: Seq<i32>, values: Seq<Vec<i32>>) -> bool {
    &&& days.len() == values.len()
    &&& forall|a: int, b: int| 0 <= a < b < days.len() ==> days[a] != days[b]
    &&& forall|a: int| 0 <= a < days.len() ==> (#[trigger] values[a])@ == values_on(rows, days[a])
    &&& forall|j: int| 0 <= j < rows.len() ==> days.contains((#[trigger] rows[j]).0)
    &&& forall|a: int| 0 <= a < days.len() ==> rows.map_values(|r: (i32, i32)| r.0).contains(#[trigger] days[a])
}

proof fn lemma_grouped_add_existing(
    rows: Seq<(i32, i32)>,
    days: Seq<i32>,
    values: Seq<Vec<i32>>,
    row: (i32, i32),
    a: int,
    updated: Vec<i32>,
)
    requires
        grouped(rows, days, values),
        0 <= a < days.len(),
        days[a] == row.0,
        updated@ == values[a]@.push(row.1),
    ensures
        grouped(rows.push(row), days, values.update(a, updated)),
{
    lemma_values_on_push(rows, row);
    let next = rows.push(row);
    let vs = values.update(a, updated);
    assert forall|b: int| 0 <= b < days.len() implies (#[trigger] vs[b])@ == values_on(next, days[b]) by {
        if b != a {
            assert(vs[b] == values[b]);
            assert(values_on(next, days[b]) == values_on(rows, days[b]));
        }
    }
    assert forall|j: int| 0 <= j < next.len() implies days.contains((#[trigger] next[j]).0) by {
        if j < rows.len() {
            assert(next[j] == rows[j]);
        } else {
            assert(days[a] == next[j].0);
        }
    }
    assert forall|c: int| 0 <= c < days.len() implies next.map_values(|r: (i32, i32)| r.0).contains(
        #[trigger] days[c],
    ) by {
        let keys = rows.map_values(|r: (i32, i32)| r.0);
        let j = choose|j: int| 0 <= j < keys.len() && keys[j] == days[c];
        assert(next.map_values(|r: (i32, i32)| r.0)[j] == keys[j]);
    }
}

proof fn lemma_grouped_add_new(
    rows: Seq<(i32, i32)>,
    days: Seq<i32>,
    values: Seq<Vec<i32>>,
    row: (i32, i32),
    fresh: Vec<i32>,
)
    requires
        grouped(rows, days, values),
        forall|b: int| 0 <= b < days.len() ==> days[b] != row.0,
        fresh@ == seq![row.1],
    ensures
        grouped(rows.push(row), days.push(row.0), values.push(fresh)),
{
    lemma_values_on_push(rows, row);
    let next = rows.push(row);
    let ds = days.push(row.0);
    let vs = values.push(fresh);
    assert forall|j: int| 0 <= j < rows.len() implies (#[trigger] rows[j]).0 != row.0 by {
        assert(days.contains(rows[j].0));
    }
    lemma_values_on_absent(rows, row.0);
    assert(values_on(rows, row.0).push(row.1) == seq![row.1]);
    assert forall|b: int| 0 <= b < ds.len() implies (#[trigger] vs[b])@ == values_on(next, ds[b]) by {
        if b < days.len() {
            assert(vs[b] == values[b]);
            assert(ds[b] == days[b]);
        }
    }
    assert forall|j: int| 0 <= j < next.len() implies ds.contains((#[trigger] next[j]).0) by {
        if j < rows.len() {
            assert(next[j] == rows[j]);
            let c = choose|c: int| 0 <= c < days.len() && days[c] == rows[j].0;
            assert(ds[c] == days[c]);
        } else {
            assert(ds[days.len() as int] == next[j].0);
        }
    }
    assert forall|c: int| 0 <= c < ds.len() implies next.map_values(|r: (i32, i32)| r.0).contains(
        #[trigger] ds[c],
    ) by {
        let nkeys = next.map_values(|r: (i32, i32)| r.0);
        if c < days.len() {
            let keys = rows.map_values(|r: (i32, i32)| r.0);
            assert(ds[c] == days[c]);
            let j = choose|j: int| 0 <= j < keys.len() && keys[j] == days[c];
            assert(nkeys[j] == keys[j]);
        } else {
            assert(nkeys[rows.len() as int] == row.0);
        }
    }
}

/// One competitor's results grouped by date, as (day, value) rows come:
/// one group per date, in order of first appearance, each holding that
/// date's values in row order.
pub fn group_by_date(rows: &Vec<(i32, i32)>) -> (r: Vec<(i32, Vec<i32>)>)
    ensures
        forall|a: int, b: int| 0 <= a < b < r@.len() ==> r@[a].0 != r@[b].0,
        forall|a: int| 0 <= a < r@.len() ==> (#[trigger] r@[a]).1@ == values_on(rows@, r@[a].0),
        forall|k: int|
            0 <= k < rows@.len() ==> r@.map_values(|g: (i32, Vec<i32>)| g.0).contains((#[trigger] rows@[k]).0),
        forall|a: int|
            0 <= a < r@.len() ==> rows@.map_values(|x: (i32, i32)| x.0).contains((#[trigger] r@[a]).0),
{
    let mut days: Vec<i32> = Vec::new();
    let mut values: Vec<Vec<i32>> = Vec::new();
    let mut k: usize = 0;
    while k < rows.len()
        invariant
            k <= rows@.len(),
            grouped(rows@.take(k as int), days@, values@),
        decreases rows@.len() - k,
    {
        let (day, value) = rows[k];
        proof {
            assert(rows@.take(k + 1) == rows@.take(k as int).push((day, value)));
        }
        match find_day(&days, day) {
            Some(a) => {
                let ghost before = values@;
                values[a].push(value);
                proof {
                    assert(values@ == before.update(a as int, values@[a as int]));
                    lemma_grouped_add_existing(
                        rows@.take(k as int),
                        days@,
                        before,
                        (day, value),
                        a as int,
                        values@[a as int],
                    );
                }
            },
            None => {
                let mut fresh: Vec<i32> = Vec::new();
                fresh.push(value);
                proof {
                    lemma_grouped_add_new(rows@.take(k as int), days@, values@, (day, value), fresh);
                }
                days.push(day);
                values.push(fresh);
            },
        }
        k = k + 1;
    }
    proof {
        assert(rows@.take(rows@.len() as int) == rows@);
    }
    let n = days.len();
    let ghost all_values = values@;
    let mut out: Vec<(i32, Vec<i32>)> = Vec::new();
    let mut i: usize = 0;
    while values.len() > 0
        invariant
            n == days@.len(),
            i + values@.len() == n,
            all_values.len() == n,
            forall|b: int| 0 <= b < values@.len() ==> #[trigger] values@[b] == all_values[i + b],
            out@.len() == i,
            forall|b: int| 0 <= b < i ==> (#[trigger] out@[b]).0 == days@[b] && out@[b].1 == all_values[b],
        decreases values@.len(),
    {
        let v = values.remove(0);
        out.push((days[i], v));
        i = i + 1;
    }
    proof {
        let keys = out@.map_values(|g: (i32, Vec<i32>)| g.0);
        assert(keys == days@);
        assert forall|a: int| 0 <= a < out@.len() implies rows@.map_values(|x: (i32, i32)| x.0).contains(
            (#[trigger] out@[a]).0,
        ) by {
            assert(out@[a].0 == days@[a]);
        }
    }
    out
}

/// Day numbers within the calendar's reach.
pub open spec fn days_in_range(raw: Seq<(i32, Vec<i32>)>) -> bool {
    forall|i: int| 0 <= i < raw.len() ==> -DAY_LIMIT <= (#[trigger] raw[i]).0 <= DAY_LIMIT
}

/// The entries of `raw` dated within `start..=end`, in order, each as days
/// before `end` with its results.
pub open spec fn window_entries(raw: Seq<(i32, Vec<i32>)>, start: i32, end: i32) -> Seq<(int, Seq<i32>)>
    decreases raw.len(),
{
    if raw.len() == 0 {
        Seq::empty()
    } else {
        let rest = window_entries(raw.drop_last(), start, end);
        let (day, values) = raw.last();
        if start <= day <= end {
            rest.push((end - day, values@))
        } else {
            rest
        }
    }
}

/// The view of dated results: days before the reference date, and values.
pub open spec fn dated_view(r: Seq<DatedCompetitionResult>) -> Seq<(int, Seq<i32>)> {
    r.map_values(|d: DatedCompetitionResult| (d.days_since as int, d.results@))
}

/// Keep the results dated within `window_start..=window_end`, each dated
/// by its days before `window_end`.
pub fn filter_and_convert_relative(raw: &Vec<(i32, Vec<i32>)>, window_start: i32, window_end: i32) -> (r:
    Vec<DatedCompetitionResult>)
    requires
        days_in_range(raw@),
        -DAY_LIMIT <= window_end <= DAY_LIMIT,
    ensures
        dated_view(r@) == window_entries(raw@, window_start, window_end),
{
    let mut out: Vec<DatedCompetitionResult> = Vec::new();
    let mut i: usize = 0;
    while i < raw.len()
        invariant
            i <= raw@.len(),
            days_in_range(raw@),
            -DAY_LIMIT <= window_end <= DAY_LIMIT,
            dated_view(out@) == window_entries(raw@.take(i as int), window_start, window_end),
        decreases raw@.len() - i,
    {
        proof {
            assert(raw@.take(i + 1).drop_last() == raw@.take(i as int));
            assert(raw@.take(i + 1).last() == raw@[i as int]);
        }
        let day = raw[i].0;
        if window_start <= day && day <= window_end {
            let entry = DatedCompetitionResult {
                days_since: window_end - day,
                results: copy_values(&raw[i].1),
            };
            let ghost before = out@;
            out.push(entry);
            proof {
                assert(dated_view(out@) == dated_view(before).push((entry.days_since as int, entry.results@)));
            }
        }
        i = i + 1;
    }
    proof {
        assert(raw@.take(raw@.len() as int) == raw@);
    }
    out
}

/// Date every entry of `raw` by its days before `today`.
pub fn convert_to_dated_results(raw: &Vec<(i32, Vec<i32>)>, today: i32) -> (r: Vec<DatedCompetitionResult>)
    requires
        days_in_range(raw@),
        -DAY_LIMIT <= today <= DAY_LIMIT,
    ensures
        r@.len() == raw@.len(),
        forall|i: int|
            0 <= i < raw@.len() ==> (#[trigger] r@[i]).days_since == today - raw@[i].0 && r@[i].results@
                == raw@[i].1@,
{
    let mut out: Vec<DatedCompetitionResult> = Vec::new();
    let mut i: usize = 0;
    while i < raw.len()
        invariant
            i <= raw@.len(),
            days_in_range(raw@),
            -DAY_LIMIT <= today <= DAY_LIMIT,
            out@.len() == i,
            forall|j: int|
                0 <= j < i ==> (#[trigger] out@[j]).days_since == today - raw@[j].0 && out@[j].results@
                    == raw@[j].1@,
        decreases raw@.len() - i,
    {
        let day = raw[i].0;
        out.push(DatedCompetitionResult { days_since: today - day, results: copy_values(&raw[i].1) });
        i = i + 1;
    }
    out
}

/// The window `k` steps back from `(start, end)`, each step one month
/// earlier at both ends; `None` once a step leaves the calendar.
pub open spec fn window_back(start: i32, end: i32, k: nat) -> Option<(i32, i32)>
    decreases k,
{
    if k == 0 {
        Some((start, end))
    } else {
        match window_back(start, end, (k - 1) as nat) {
            None => None,
            Some((s, e)) => match (months_before(e, 1), months_before(s, 1)) {
                (Some(ne), Some(ns)) => Some((ns, ne)),
                _ => None,
            },
        }
    }
}

/// The windows of a history, oldest first: the request's window and the
/// ones a month, two months, ... earlier, `steps` in all or until a step
/// leaves the calendar.
pub fn history_windows(start_day: i32, end_day: i32, steps: u32) -> (r: Vec<(i32, i32)>)
    ensures
        r@.len() <= steps,
        forall|i: int|
            0 <= i < r@.len() ==> window_back(start_day, end_day, i as nat) == Some(
                #[trigger] r@[r@.len() - 1 - i],
            ),
        r@.len() == steps || window_back(start_day, end_day, r@.len() as nat) is None,
{
    let mut newest_first: Vec<(i32, i32)> = Vec::new();
    let mut curr_start = start_day;
    let mut curr_end = end_day;
    let mut k: u32 = 0;
    while k < steps
        invariant_except_break
            window_back(start_day, end_day, k as nat) == Some((curr_start, curr_end)),
        invariant
            k <= steps,
            newest_first@.len() == k,
            forall|i: int|
                0 <= i < k ==> window_back(start_day, end_day, i as nat) == Some(#[trigger] newest_first@[i]),
        ensures
            newest_first@.len() <= steps,
            forall|i: int|
                0 <= i < newest_first@.len() ==> window_back(start_day, end_day, i as nat) == Some(
                    #[trigger] newest_first@[i],
                ),
            newest_first@.len() == steps || window_back(start_day, end_day, newest_first@.len() as nat)
                is None,
        decreases steps - k,
    {
        newest_first.push((curr_start, curr_end));
        k = k + 1;
        let next_end = sub_months(curr_end, 1);
        let next_start = sub_months(curr_start, 1);
        match (next_end, next_start) {
            (Some(ne), Some(ns)) => {
                curr_end = ne;
                curr_start = ns;
            },
            _ => {
                break;
            },
        }
    }
    let n = newest_first.len();
    let mut out: Vec<(i32, i32)> = Vec::new();
    let mut j: usize = 0;
    while j < n
        invariant
            n == newest_first@.len(),
            j <= n,
            out@.len() == j,
            forall|i: int| 0 <= i < j ==> #[trigger] out@[i] == newest_first@[n - 1 - i],
        decreases n - j,
    {
        out.push(newest_first[n - 1 - j]);
        j = j + 1;
    }
    proof {
        assert forall|i: int| 0 <= i < n implies window_back(start_day, end_day, i as nat) == Some(
            #[trigger] out@[out@.len() - 1 - i],
        ) by {
            assert(out@[n - 1 - i] == newest_first@[i]);
        }
    }
    out
}

/// Where fetching must start for a history of `history_steps` monthly
/// windows: that many months and two more before `start_day`, or
/// `start_day` itself when that leaves the calendar.
pub fn calculate_fetch_start(start_day: i32, history_steps: u32) -> (r: i32)
    requires
        history_steps <= u32::MAX - 2,
    ensures
        r == match months_before(start_day, (history_steps + 2) as u32) {
            Some(d) => d,
            None => start_day,
        },
{
    match sub_months(start_day, history_steps + 2) {
        Some(d) => d,
        None => start_day,
    }
}

} // verus!
