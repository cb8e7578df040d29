//! Points in time, as RFC 3339 texts in UTC.

use vstd::prelude::*;

verus! {

/// The point in time that `chrono` reads from a text, written in UTC;
/// `None` where the text is no point in time.
pub uninterp spec fn utc_timestamp(text: Seq<char>) -> Option<Seq<char>>;

/// `chrono::Utc::now` and `DateTime::to_rfc3339_opts`: the current time in
/// UTC, written with `Z` and as many digits of the second as it needs.
/// Nothing is claimed of the text, which depends on the clock of the
/// machine. The call fails where that clock stands before 1970.
#[verifier::external_body]
pub(crate) fn timestamp_now() -> String {
    chrono::Utc::now().to_rfc3339_opts(chrono::SecondsFormat::AutoSi, true)
}

/// `str::parse` for a `chrono::DateTime<Utc>` and
/// `DateTime::to_rfc3339_opts`: reads a text as a point in time and writes
/// it in UTC.
#[verifier::external_body]
pub(crate) fn read_timestamp(text: &str) -> (res: Option<String>)
    ensures
        match res {
            Some(written) => utc_timestamp(text@) == Some(written@),
            None => utc_timestamp(text@) is None,
        },
{
    text.parse::<chrono::DateTime<chrono::Utc>>().ok().map(
        |time| time.to_rfc3339_opts(chrono::SecondsFormat::AutoSi, true),
    )
}

} // verus!
