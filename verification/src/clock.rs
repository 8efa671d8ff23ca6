//! The wall clock, read through chrono.
use vstd::prelude::*;

verus! {

/// The characters of an RFC 3339 timestamp as chrono writes one: digits, the
/// date dashes and a year's sign, the `T`, the time colons, the `.` before
/// fractional seconds, and the `+` of the offset.
pub open spec fn is_rfc3339_char(c: char) -> bool {
    ('0' <= c && c <= '9') || c == '-' || c == '+' || c == ':' || c == 'T' || c == '.'
}

/// Whether `s` is made of RFC 3339 characters and is not empty.
pub open spec fn is_rfc3339_text(s: Seq<char>) -> bool {
    s.len() > 0 && forall|i: int| 0 <= i < s.len() ==> is_rfc3339_char(#[trigger] s[i])
}

/// `chrono::Utc::now().to_rfc3339()`: the current UTC time in RFC 3339 form,
/// e.g. "2018-01-26T18:30:09.453+00:00". Which time it shows depends on the
/// clock and is not stated; stated is only that chrono writes two-digit
/// fields, a four-digit year (signed outside 0-9999), `-`, `T`, `:`, an
/// optional `.` and digits, and the offset "+00:00". chrono panics only when
/// the system clock reads a time before 1970.
#[verifier::external_body]
pub(crate) fn now_rfc3339() -> (stamp: String)
    ensures
        is_rfc3339_text(stamp@),
{
    chrono::Utc::now().to_rfc3339()
}

/// The characters that chrono writes for numeric date and time fields and the
/// separators of the label format: digits, signs, spaces, dashes and colons.
pub open spec fn is_clock_char(c: char) -> bool {
    ('0' <= c && c <= '9') || c == '-' || c == '+' || c == ' ' || c == ':'
}

/// Whether `s` has the shape of a local time label: at least the 20
/// characters of "YYYY-MM-DD  HH:MM:SS", all of them clock characters.
pub open spec fn is_clock_label(s: Seq<char>) -> bool {
    s.len() >= 20 && forall|i: int| 0 <= i < s.len() ==> is_clock_char(#[trigger] s[i])
}

/// `chrono::Local::now().format("%Y-%m-%d  %H:%M:%S")`: the current local date and
/// time as text. Which time it shows depends on the clock and the machine's time
/// zone and is not stated; stated is only that the format writes a year of at
/// least four digits (with its sign outside 0-9999), five two-digit fields,
/// dashes, two spaces and colons, so at least 20 such characters. chrono panics
/// only where the system clock reads before 1970 or the machine's time-zone
/// data cannot be read.
#[verifier::external_body]
pub(crate) fn local_time_label() -> (label: String)
    ensures
        is_clock_label(label@),
{
    chrono::Local::now().format("%Y-%m-%d  %H:%M:%S").to_string()
}

} // verus!
