//! The canonical timestamp form.  Timestamps are held as whole seconds since
//! the epoch and rendered to, or read back from, one fixed, unambiguous UTC
//! text form, `%Y-%m-%d %H:%M:%S` — the form the backing store keeps in its
//! timestamp columns.

use vstd::prelude::*;

verus! {

/// Exclusive upper bound of the representable range: the first instant of
/// year 10000.  Within `[0, TS_MAX)` the canonical text is fixed-width and
/// round-trips exactly.
pub const TS_MAX: i64 = 253402300800;

/// The canonical text of a timestamp.
pub uninterp spec fn ts_text(t: int) -> Seq<char>;

/// The timestamp a text denotes, or `None` where the text is not canonical.
pub uninterp spec fn ts_value(s: Seq<char>) -> Option<int>;

/// Relies on chrono's `DateTime::from_timestamp` and `DateTime::format` with
/// `%Y-%m-%d %H:%M:%S`: for whole seconds in `[0, TS_MAX)` the rendering is a
/// function of the timestamp alone, is 19 characters wide, and parsing it
/// with the same format string gives the timestamp back.
#[verifier::external_body]
fn chrono_format(t: i64) -> (r: String)
    requires
        0 <= t < TS_MAX,
    ensures
        r@ == ts_text(t as int),
        ts_value(r@) == Some(t as int),
        r@.len() == 19,
{
    match chrono::DateTime::<chrono::Utc>::from_timestamp(t, 0) {
        Some(d) => d.format("%Y-%m-%d %H:%M:%S").to_string(),
        None => String::new(),
    }
}

/// Relies on chrono's `NaiveDateTime::parse_from_str` with
/// `%Y-%m-%d %H:%M:%S` and `DateTime::timestamp`: the outcome is a function
/// of the text alone.
#[verifier::external_body]
fn chrono_parse(s: &str) -> (r: Option<i64>)
    ensures
        match r {
            Some(v) => ts_value(s@) == Some(v as int),
            None => ts_value(s@) is None,
        },
{
    chrono::NaiveDateTime::parse_from_str(s, "%Y-%m-%d %H:%M:%S").ok().map(
        |d| d.and_utc().timestamp(),
    )
}

/// Render a timestamp in the canonical store form.
pub fn format_timestamp(t: i64) -> (r: String)
    requires
        0 <= t < TS_MAX,
    ensures
        r@ == ts_text(t as int),
        ts_value(r@) == Some(t as int),
        r@.len() == 19,
{
    chrono_format(t)
}

/// Read a timestamp back from its canonical store form; `None` where the
/// text is not of that form.
pub fn parse_timestamp(s: &str) -> (r: Option<i64>)
    ensures
        match r {
            Some(v) => ts_value(s@) == Some(v as int),
            None => ts_value(s@) is None,
        },
{
    chrono_parse(s)
}

/// A rendered timestamp reads back without ambiguity.
pub fn timestamp_round_trip(t: i64) -> (r: Option<i64>)
    requires
        0 <= t < TS_MAX,
    ensures
        r == Some(t),
{
    let text = format_timestamp(t);
    parse_timestamp(text.as_str())
}

} // verus!
