//! Dates as they are shown to the user.

use vstd::prelude::*;

use crate::defs::FileTime;

verus! {

/// The Epoch.
pub const ZERO: &'static str = "1970-01-01 00:00Z";

/// As wide as a date, for files without one.
pub const EMPTY: &'static str = "                 ";

/// How dates are written: year, month, day, hour and minute.
pub const FORMAT: &'static str = "%Y-%m-%d %H:%MZ";

/// The UTC date and time `secs` seconds after the Epoch in the given format,
/// if the time can be represented.
pub uninterp spec fn formatted_time(secs: i64, format: Seq<char>) -> Option<Seq<char>>;

/// `chrono::DateTime::from_timestamp` and `DateTime::format`. The text depends
/// on the time and the format alone. There is one for every time in the years
/// from 0 to 9999, which are well within what `chrono` represents.
#[verifier::external_body]
fn chrono_format(secs: i64, format: &str) -> (r: Option<String>)
    requires
        format@ == FORMAT@,
    ensures
        match r {
            Some(s) => formatted_time(secs, format@) == Some(s@),
            None => formatted_time(secs, format@) is None,
        },
        -62_167_219_200 <= secs <= 253_402_300_799 ==> r is Some,
{
    match chrono::DateTime::from_timestamp(secs, 0) {
        Some(date) => Some(date.format(format).to_string()),
        None => None,
    }
}

/// The text for a modification time.
pub open spec fn timestamp_text(mtime: FileTime) -> Option<Seq<char>> {
    formatted_time(mtime, FORMAT@)
}

/// Returns the text for a modification time, if the time can be represented.
pub fn format_timestamp(mtime: FileTime) -> (r: Option<String>)
    ensures
        match r {
            Some(s) => timestamp_text(mtime) == Some(s@),
            None => timestamp_text(mtime) is None,
        },
        -62_167_219_200 <= mtime <= 253_402_300_799 ==> r is Some,
{
    chrono_format(mtime, FORMAT)
}

} // verus!
