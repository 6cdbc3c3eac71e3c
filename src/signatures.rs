//! Signature timestamps ("10:00, 1 June 2021 (UTC)") in the text of a
//! discussion.
use vstd::prelude::*;
use chrono::NaiveDateTime;
use regex::Regex;

verus! {

/// The texts of the successive non-overlapping matches of the regular
/// expression `pattern` in `text`, where `pattern` compiles.
pub uninterp spec fn matches_of(pattern: Seq<char>, text: Seq<char>) -> Option<Seq<Seq<char>>>;

/// The Unix timestamp (seconds) of `text` read as a UTC date and time with
/// the chrono format `format`, where it reads.
pub uninterp spec fn parsed_utc_of(text: Seq<char>, format: Seq<char>) -> Option<int>;

/// Relies on regex's `Regex::new` and `Regex::find_iter`: the texts of the
/// successive non-overlapping matches, or nothing where the pattern does not
/// compile.
#[verifier::external_body]
pub(crate) fn find_matches(pattern: &str, text: &str) -> (r: Option<Vec<String>>)
    ensures
        match r {
            Some(v) => matches_of(pattern@, text@) matches Some(m) && v@.len() == m.len() && forall|
                i: int,
            | 0 <= i < m.len() ==> #[trigger] v@[i]@ == m[i],
            None => matches_of(pattern@, text@) is None,
        },
{
    match Regex::new(pattern) {
        Ok(re) => Some(re.find_iter(text).map(|m| m.as_str().to_string()).collect()),
        Err(_) => None,
    }
}

/// Relies on chrono's `NaiveDateTime::parse_from_str`, read as UTC, and
/// `DateTime::timestamp`.
#[verifier::external_body]
pub(crate) fn parse_utc(text: &str, format: &str) -> (r: Option<i64>)
    ensures
        match r {
            Some(t) => parsed_utc_of(text@, format@) == Some(t as int),
            None => parsed_utc_of(text@, format@) is None,
        },
{
    match NaiveDateTime::parse_from_str(text, format) {
        Ok(t) => Some(t.and_utc().timestamp()),
        Err(_) => None,
    }
}

/// The regular expression of a signature timestamp.
pub open spec fn signature_pattern() -> Seq<char> {
    "\\d\\d:\\d\\d, \\d?\\d \\w+ \\d\\d\\d\\d \\(UTC\\)"@
}

/// The chrono format of a signature timestamp.
pub open spec fn signature_format() -> Seq<char> {
    "%H:%M, %-d %B %Y (UTC)"@
}

/// The signature timestamps in `text`, in order.
pub open spec fn signatures_in(text: Seq<char>) -> Seq<Seq<char>> {
    match matches_of(signature_pattern(), text) {
        Some(m) => m,
        None => Seq::empty(),
    }
}

/// The time of the signature timestamp `ts`, where it reads.
pub open spec fn signature_time_of(ts: Seq<char>) -> Option<int> {
    parsed_utc_of(ts, signature_format())
}

/// The signature timestamps in `text`, in order.
pub fn find_signatures(text: &str) -> (r: Vec<String>)
    ensures
        r@.len() == signatures_in(text@).len(),
        forall|i: int| 0 <= i < r@.len() ==> #[trigger] r@[i]@ == signatures_in(text@)[i],
{
    match find_matches("\\d\\d:\\d\\d, \\d?\\d \\w+ \\d\\d\\d\\d \\(UTC\\)", text) {
        Some(v) => v,
        None => Vec::new(),
    }
}

/// The time (Unix seconds) of a signature timestamp such as
/// "10:00, 1 June 2021 (UTC)".
pub fn parse_timestamp(ts: &str) -> (r: Option<i64>)
    ensures
        match r {
            Some(t) => signature_time_of(ts@) == Some(t as int),
            None => signature_time_of(ts@) is None,
        },
{
    parse_utc(ts, "%H:%M, %-d %B %Y (UTC)")
}

} // verus!
