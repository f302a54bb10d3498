//! Recognition of header timestamps.
//!
//! The trailing text of a header line is tried against two timestamp
//! formats; recognition is delegated to the `chrono` crate, whose verdict is
//! modeled by the uninterpreted function [`chrono_ts_of`].

use vstd::prelude::*;

use chrono::{Datelike, Timelike};

use crate::ast::Timestamp;

verus! {

/// What `chrono::DateTime::parse_from_str` returns for the given input and
/// format strings: `Some` with the field values of the parsed datetime when
/// the input matches the format and names a valid instant, `None` otherwise.
/// The result depends on the two strings alone.
pub uninterp spec fn chrono_ts_of(s: Seq<char>, fmt: Seq<char>) -> Option<Timestamp>;

/// Relies on `chrono::DateTime::<FixedOffset>::parse_from_str` for
/// recognizing a timestamp, and on the accessors of `chrono::Datelike`,
/// `chrono::Timelike` and `chrono::FixedOffset` for reading its fields.
#[verifier::external_body]
pub(crate) fn chrono_parse(s: &str, fmt: &str) -> (r: Option<Timestamp>)
    ensures
        r == chrono_ts_of(s@, fmt@),
{
    match chrono::DateTime::parse_from_str(s, fmt) {
        Ok(dt) => Some(Timestamp {
            year: dt.year(),
            month: dt.month(),
            day: dt.day(),
            hour: dt.hour(),
            minute: dt.minute(),
            second: dt.second(),
            nanosecond: dt.nanosecond(),
            offset_seconds: dt.offset().local_minus_utc(),
        }),
        Err(_) => None,
    }
}

} // verus!
