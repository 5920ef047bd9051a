//! Validation of simulation requests: competitor identifiers, roster size
//! and the date window, with dates held as day numbers.
use vstd::prelude::*;

verus! {

/// Most competitors one request may name.
pub const MAX_COMPETITORS: usize = 32;

/// Shortest date window, in days, that a request may ask for.
pub const MIN_WINDOW_DAYS: i64 = 28;

/// Why a request was turned down.
#[derive(Debug, Clone, PartialEq, Eq)]
pub enum RequestError {
    /// The event identifier names no known format.
    InvalidEvent(String),
    /// A competitor identifier is not in the `YYYYLLLLDD` shape.
    InvalidId(String),
    /// More competitors than `MAX_COMPETITORS`.
    TooManyCompetitors,
    /// The window is shorter than `MIN_WINDOW_DAYS`.
    WindowTooShort,
}

/// What `str::to_uppercase` makes of the characters `s`.
pub uninterp spec fn upper_of(s: Seq<char>) -> Seq<char>;

/// Relies on `str::to_uppercase`, whose result depends on the characters
/// alone; ASCII digits and capital letters are their own upper case.
#[verifier::external_body]
fn to_upper(s: &str) -> (r: String)
    ensures
        r@ == upper_of(s@),
        (forall|i: int| 0 <= i < s@.len() ==> is_digit(#[trigger] s@[i]) || is_upper_letter(s@[i]))
            ==> r@ == s@,
{
    s.to_uppercase()
}

pub open spec fn is_digit(c: char) -> bool {
    '0' <= c <= '9'
}

pub open spec fn is_upper_letter(c: char) -> bool {
    'A' <= c <= 'Z'
}

/// A competitor identifier: four digits (year), four capital letters, two digits.
pub open spec fn is_wca_id(s: Seq<char>) -> bool {
    &&& s.len() == 10
    &&& forall|i: int| 0 <= i < 4 ==> is_digit(#[trigger] s[i])
    &&& forall|i: int| 4 <= i < 8 ==> is_upper_letter(#[trigger] s[i])
    &&& forall|i: int| 8 <= i < 10 ==> is_digit(#[trigger] s[i])
}

/// Validate and normalize a WCA competitor ID.
///
/// WCA IDs follow the format: YYYYCCCCNN where:
/// - YYYY: 4 digits (year of first competition)
/// - CCCC: 4 uppercase letters (name identifier)
/// - NN: 2 digits (disambiguation number)
///
/// The ID is upper-cased first. This confirms the shape only; it cannot
/// check that the ID exists. Returns None if the ID is invalid.
pub fn clean_and_validate_wca_id(id: &str) -> (r: Option<String>)
    ensures
        r.is_some() <==> is_wca_id(upper_of(id@)),
        r.is_some() ==> r->Some_0@ == upper_of(id@),
        is_wca_id(id@) ==> r is Some && r->Some_0@ == id@,
{
    proof {
        if is_wca_id(id@) {
            assert forall|i: int| 0 <= i < id@.len() implies is_digit(#[trigger] id@[i]) || is_upper_letter(
                id@[i],
            ) by {
                if i < 4 || i >= 8 {
                    assert(is_digit(id@[i]));
                } else {
                    assert(is_upper_letter(id@[i]));
                }
            }
        }
    }
    let upper = to_upper(id);
    let s = upper.as_str();
    if s.unicode_len() != 10 {
        return None;
    }
    let mut i: usize = 0;
    while i < 10
        invariant
            s@ == upper_of(id@),
            s@.len() == 10,
            i <= 10,
            forall|j: int| 0 <= j < i && (j < 4 || j >= 8) ==> is_digit(#[trigger] s@[j]),
            forall|j: int| 4 <= j < i && j < 8 ==> is_upper_letter(#[trigger] s@[j]),
            is_wca_id(id@) ==> s@ == id@,
        decreases 10 - i,
    {
        let c = s.get_char(i);
        let ok = if i < 4 || i >= 8 {
            '0' <= c && c <= '9'
        } else {
            'A' <= c && c <= 'Z'
        };
        if !ok {
            return None;
        }
        i = i + 1;
    }
    Some(upper)
}

/// Validate every identifier of a request, in order; the first invalid one
/// is reported.
pub fn validate_competitor_ids(ids: &[String]) -> (r: Result<Vec<String>, RequestError>)
    ensures
        r.is_ok() <==> forall|k: int| 0 <= k < ids@.len() ==> is_wca_id(upper_of(#[trigger] ids@[k]@)),
        r.is_ok() ==> r->Ok_0@.len() == ids@.len() && forall|k: int|
            0 <= k < ids@.len() ==> (#[trigger] r->Ok_0@[k])@ == upper_of(ids@[k]@),
        r.is_err() ==> exists|k: int|
            0 <= k < ids@.len() && !is_wca_id(upper_of(ids@[k]@)) && (forall|j: int|
                0 <= j < k ==> is_wca_id(upper_of(#[trigger] ids@[j]@))) && r->Err_0
                == RequestError::InvalidId(ids@[k]),
{
    let mut out: Vec<String> = Vec::new();
    let mut k: usize = 0;
    while k < ids.len()
        invariant
            k <= ids@.len(),
            out@.len() == k,
            forall|j: int| 0 <= j < k ==> is_wca_id(upper_of(#[trigger] ids@[j]@)),
            forall|j: int| 0 <= j < k ==> (#[trigger] out@[j])@ == upper_of(ids@[j]@),
        decreases ids@.len() - k,
    {
        match clean_and_validate_wca_id(ids[k].as_str()) {
            Some(u) => out.push(u),
            None => {
                return Err(RequestError::InvalidId(ids[k].clone()));
            },
        }
        k = k + 1;
    }
    Ok(out)
}

/// Validate common request constraints: the number of competitors and the
/// length of the date window, with both dates as day numbers.
pub fn validate_request_constraints(competitor_count: usize, start_day: i32, end_day: i32) -> (r:
    Result<(), RequestError>)
    ensures
        competitor_count > MAX_COMPETITORS ==> r == Err::<(), RequestError>(
            RequestError::TooManyCompetitors,
        ),
        competitor_count <= MAX_COMPETITORS && end_day - start_day < MIN_WINDOW_DAYS ==> r == Err::<
            (),
            RequestError,
        >(RequestError::WindowTooShort),
        competitor_count <= MAX_COMPETITORS && end_day - start_day >= MIN_WINDOW_DAYS ==> r is Ok,
{
    if competitor_count > MAX_COMPETITORS {
        return Err(RequestError::TooManyCompetitors);
    }
    let window_days = end_day as i64 - start_day as i64;
    if window_days < MIN_WINDOW_DAYS {
        return Err(RequestError::WindowTooShort);
    }
    Ok(())
}

} // verus!
