//! UTC wall-clock time and its text.

use vstd::prelude::*;

verus! {

/// The earliest instant that can be shown, in milliseconds since the Unix epoch: the start of the
/// year -262143.
pub const MIN_UTC_MILLIS: i64 = -8334601228800000;

/// The latest instant that can be shown, in milliseconds since the Unix epoch: the end of the year
/// 262142.
pub const MAX_UTC_MILLIS: i64 = 8210266876799999;

/// The text of an instant, in milliseconds since the Unix epoch, under a pattern of
/// `chrono::DateTime::format`.
pub uninterp spec fn utc_formatted(millis: int, pattern: Seq<char>) -> Seq<char>;

/// The pattern of the instants in a manifest.
pub open spec fn utc_pattern() -> Seq<char> {
    "%Y-%m-%dT%H:%M:%SZ"@
}

/// `chrono::Utc::now`, in milliseconds since the Unix epoch. The contract says that the current time
/// is not before the epoch and not after the last instant that `chrono` can hold: the call panics
/// where the system clock stands outside of that range.
#[verifier::external_body]
pub(crate) fn utc_now() -> (millis: i64)
    ensures
        0 <= millis <= MAX_UTC_MILLIS,
{
    chrono::Utc::now().timestamp_millis()
}

/// `chrono::DateTime::format`, for an instant that is given in milliseconds since the Unix epoch. The
/// contract says that the text is determined by the instant and the pattern. A pattern that is
/// malformed would make the call panic, so the one that is used is required.
#[verifier::external_body]
pub(crate) fn utc_text(millis: i64, pattern: &str) -> (r: String)
    requires
        MIN_UTC_MILLIS <= millis <= MAX_UTC_MILLIS,
        pattern@ == utc_pattern(),
    ensures
        r@ == utc_formatted(millis as int, pattern@),
{
    chrono::DateTime::from_timestamp_millis(millis).unwrap().format(pattern).to_string()
}

} // verus!
