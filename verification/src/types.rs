//! The data model: raw solve records, windowed solve records, and the
//! sort-policy selectors.

use vstd::prelude::*;

verus! {

/// The penalty added to a solve's time when its `plus_two` flag is set:
/// two domain units, in thousandths.
pub const PLUS_TWO_PENALTY: u64 = 2000;

/// Largest solve time the library accepts, in thousandths of the domain
/// unit. Keeping times at or below this bound lets every window sum fit
/// comfortably in a `u64`.
pub const MAX_TIME: u64 = 0x10_0000_0000_0000;

/// One timed attempt, as loaded from the outside world.
///
/// `time` is the raw duration in thousandths of the domain unit; it is
/// meaningless when `dnf` is set. `created_at` is a timestamp on any
/// fixed integer scale (for example microseconds since an epoch): the
/// library only compares these values, so the scale does not matter.
/// `comment`, `scramble` and `id` are opaque passthrough fields.
pub struct Solve {
    pub time: u64,
    pub comment: String,
    pub scramble: String,
    pub id: String,
    pub created_at: i64,
    pub plus_two: bool,
    pub dnf: bool,
}

/// The rolling average-of-5 state of a windowed record.
///
/// `Unavailable` marks a record too close to the chronological start of
/// the data to have a full window of five. `Invalid` marks a window in
/// which fewer than four of the five records were finished. `Value(s)`
/// carries the metric for a computable window: `s` is the sum of the
/// three counted times (the window's valid times with the best, and for
/// a fully valid window also the worst, dropped), so the trimmed mean
/// is `s / 3` and comparing sums compares means exactly.
#[derive(Clone, Copy, Debug, PartialEq, Eq, Structural)]
pub enum Ao5Time {
    Unavailable,
    Invalid,
    Value(u64),
}

/// A windowed solve: the original record with its penalty applied, plus
/// the rolling metric of the window that starts at it.
pub struct Ao5Solve {
    pub last_solve: Solve,
    pub time: Ao5Time,
}

/// Which metric the `Best` and `Worst` orders rank by.
#[derive(Clone, Debug)]
pub enum SortBy {
    Single,
    Ao5,
}

/// The four output orders.
#[derive(Clone, Debug)]
pub enum SortOrder {
    Latest,
    Oldest,
    Best,
    Worst,
}

/// The run configuration an outside driver hands in: the sort policy
/// and the two file paths it shuttles records between.
pub struct Cli {
    pub sort_order: SortOrder,
    pub sort_by: SortBy,
    pub from: String,
    pub to: String,
}

/// The sum a computable metric carries; zero for the other states.
pub open spec fn ao5_value(t: Ao5Time) -> u64 {
    match t {
        Ao5Time::Value(v) => v,
        _ => 0,
    }
}

/// A solve whose time is small enough for exact window arithmetic.
pub open spec fn solve_ok(s: Solve) -> bool {
    s.time <= MAX_TIME
}

/// Every solve in the sequence is within the accepted time bound.
pub open spec fn solves_ok(s: Seq<Solve>) -> bool {
    forall|i: int| 0 <= i < s.len() ==> solve_ok(#[trigger] s[i])
}

/// The record with its penalty applied: two domain units are added to
/// the time when `plus_two` is set; every other field is unchanged.
pub open spec fn with_penalty(s: Solve) -> Solve {
    Solve {
        time: if s.plus_two {
            (s.time + PLUS_TWO_PENALTY) as u64
        } else {
            s.time
        },
        comment: s.comment,
        scramble: s.scramble,
        id: s.id,
        created_at: s.created_at,
        plus_two: s.plus_two,
        dnf: s.dnf,
    }
}

/// `x` reads as the keyword character `kw` when the keywords are
/// compared without regard to ASCII case: either the characters agree,
/// or `x` is the ASCII capital of `kw`.
pub open spec fn char_ci_eq(x: char, kw: char) -> bool {
    x == kw || ((x as int) >= ('A' as int) && (x as int) <= ('Z' as int) && (x as int) + 32 == (
    kw as int))
}

/// `s` spells the keyword `kw` up to ASCII case.
pub open spec fn matches_keyword(s: Seq<char>, kw: Seq<char>) -> bool {
    s.len() == kw.len() && forall|i: int| 0 <= i < s.len() ==> char_ci_eq(#[trigger] s[i], kw[i])
}

/// Compares `s` against the lowercase keyword `kw` without regard to
/// ASCII case.
fn eq_keyword_ci(s: &str, kw: &str) -> (r: bool)
    ensures
        r == matches_keyword(s@, kw@),
{
    let n = s.unicode_len();
    if n != kw.unicode_len() {
        return false;
    }
    let mut i: usize = 0;
    while i < n
        invariant
            i <= n,
            n == s@.len(),
            n == kw@.len(),
            forall|k: int| 0 <= k < i ==> char_ci_eq(#[trigger] s@[k], kw@[k]),
        decreases n - i,
    {
        let c = s.get_char(i);
        let k = kw.get_char(i);
        let cu = c as u32;
        let ku = k as u32;
        let ok = c == k || (cu >= 65 && cu <= 90 && cu + 32 == ku);
        if !ok {
            return false;
        }
        i = i + 1;
    }
    true
}

impl SortBy {
    /// Reads a metric keyword, without regard to ASCII case; any other
    /// text is rejected.
    pub fn from_str(s: &str) -> (r: Result<SortBy, String>)
        ensures
            matches_keyword(s@, "single"@) <==> r == Ok::<SortBy, String>(SortBy::Single),
            matches_keyword(s@, "ao5"@) <==> r == Ok::<SortBy, String>(SortBy::Ao5),
            r matches Err(e) ==> e@ == "not a valid sort by"@,
            (r matches Err(_)) <==> !matches_keyword(s@, "single"@) && !matches_keyword(
                s@,
                "ao5"@,
            ),
    {
        proof {
            reveal_strlit("single");
            reveal_strlit("ao5");
        }
        if eq_keyword_ci(s, "single") {
            Ok(SortBy::Single)
        } else if eq_keyword_ci(s, "ao5") {
            Ok(SortBy::Ao5)
        } else {
            Err("not a valid sort by".to_owned())
        }
    }
}

impl SortOrder {
    /// Reads an order keyword, without regard to ASCII case; any other
    /// text is rejected.
    pub fn from_str(s: &str) -> (r: Result<SortOrder, String>)
        ensures
            matches_keyword(s@, "latest"@) <==> r == Ok::<SortOrder, String>(SortOrder::Latest),
            matches_keyword(s@, "oldest"@) <==> r == Ok::<SortOrder, String>(SortOrder::Oldest),
            matches_keyword(s@, "best"@) <==> r == Ok::<SortOrder, String>(SortOrder::Best),
            matches_keyword(s@, "worst"@) <==> r == Ok::<SortOrder, String>(SortOrder::Worst),
            r matches Err(e) ==> e@ == "not a valid sort order"@,
            (r matches Err(_)) <==> !matches_keyword(s@, "latest"@) && !matches_keyword(
                s@,
                "oldest"@,
            ) && !matches_keyword(s@, "best"@) && !matches_keyword(s@, "worst"@),
    {
        proof {
            reveal_strlit("latest");
            reveal_strlit("oldest");
            reveal_strlit("best");
            reveal_strlit("worst");
            if matches_keyword(s@, "latest"@) && matches_keyword(s@, "oldest"@) {
                assert(char_ci_eq(s@[0], 'l'));
                assert(char_ci_eq(s@[0], 'o'));
                assert(false);
            }
        }
        if eq_keyword_ci(s, "latest") {
            Ok(SortOrder::Latest)
        } else if eq_keyword_ci(s, "oldest") {
            Ok(SortOrder::Oldest)
        } else if eq_keyword_ci(s, "best") {
            Ok(SortOrder::Best)
        } else if eq_keyword_ci(s, "worst") {
            Ok(SortOrder::Worst)
        } else {
            Err("not a valid sort order".to_owned())
        }
    }
}

impl Clone for Solve {
    fn clone(&self) -> (r: Self)
        ensures
            r == *self,
    {
        Solve {
            time: self.time,
            comment: self.comment.clone(),
            scramble: self.scramble.clone(),
            id: self.id.clone(),
            created_at: self.created_at,
            plus_two: self.plus_two,
            dnf: self.dnf,
        }
    }
}

impl Clone for Ao5Solve {
    fn clone(&self) -> (r: Self)
        ensures
            r == *self,
    {
        Ao5Solve { last_solve: self.last_solve.clone(), time: self.time }
    }
}

/// `with_penalty` applied to a borrowed record, building a new one.
pub fn apply_penalty(s: &Solve) -> (r: Solve)
    requires
        solve_ok(*s),
    ensures
        r == with_penalty(*s),
{
    let time: u64 = if s.plus_two {
        s.time + PLUS_TWO_PENALTY
    } else {
        s.time
    };
    Solve {
        time,
        comment: s.comment.clone(),
        scramble: s.scramble.clone(),
        id: s.id.clone(),
        created_at: s.created_at,
        plus_two: s.plus_two,
        dnf: s.dnf,
    }
}

} // verus!
