//! Conversion between the external timestamp representation (seconds since
//! the Unix epoch, as `u64`) and the internal instant (whole seconds, as
//! `i64`), together with RFC 3339 formatting of an instant. Both lean on
//! chrono behind trusted wrappers.

use chrono::TimeZone;
use vstd::prelude::*;

verus! {

/// Earliest count of seconds since the Unix epoch that chrono accepts as a
/// `DateTime<Utc>` (midnight on January 1 of year -262143).
pub const MIN_INSTANT: i64 = -8334601228800;

/// Latest count of seconds since the Unix epoch that chrono accepts as a
/// `DateTime<Utc>` (the last second of December 31 of year 262142).
pub const MAX_INSTANT: i64 = 8210266876799;

/// Whether a count of seconds lies in the range of representable instants.
pub open spec fn valid_instant(t: int) -> bool {
    MIN_INSTANT <= t <= MAX_INSTANT
}

/// The instant that the external seconds value `ts` stands for, if any.
/// External timestamps count seconds since the Unix epoch, so the
/// representable ones are exactly `[0, MAX_INSTANT]`: a value above
/// `MAX_INSTANT` stands for no representable instant and is skipped, never
/// reinterpreted (in particular, values whose cast to `i64` would wrap
/// around to seconds before the epoch stand for no instant).
pub open spec fn instant_of_secs(ts: u64) -> Option<i64> {
    if ts as int <= MAX_INSTANT as int {
        Some(ts as i64)
    } else {
        None
    }
}

/// Relies on chrono's `TimeZone::timestamp_opt` on `Utc` (which goes through
/// `DateTime::from_timestamp`): a seconds value is accepted exactly when its
/// date falls between January 1 of year -262143 and December 31 of year
/// 262142, that is, when it lies in `[MIN_INSTANT, MAX_INSTANT]`; and
/// `DateTime::timestamp` round-trips to the seconds the value was built
/// from.
#[verifier::external_body]
fn instant_from_seconds(secs: i64) -> (r: Option<i64>)
    ensures
        r == if valid_instant(secs as int) {
            Some(secs)
        } else {
            None::<i64>
        },
{
    chrono::Utc.timestamp_opt(secs, 0).single().map(|dt| dt.timestamp())
}

/// The instant an external timestamp stands for: a value above
/// `MAX_INSTANT` — among them every value whose cast to `i64` would wrap
/// around — is rejected before any conversion; the rest lie in chrono's
/// range and come back unchanged.
pub(crate) fn secs_to_instant(ts: u64) -> (r: Option<i64>)
    ensures
        r == instant_of_secs(ts),
{
    if ts <= MAX_INSTANT as u64 {
        instant_from_seconds(ts as i64)
    } else {
        None
    }
}

/// The RFC 3339 rendering of an instant, named after the external function
/// that computes it.
pub uninterp spec fn rfc3339_of(t: i64) -> Seq<char>;

/// Relies on chrono's `DateTime::to_rfc3339`: for a `DateTime<Utc>` built
/// from whole seconds the text is a function of the instant alone (the
/// offset is always `+00:00`), so the characters depend only on `t`.
#[verifier::external_body]
pub(crate) fn rfc3339_of_instant(t: i64) -> (r: String)
    requires
        valid_instant(t as int),
    ensures
        r@ == rfc3339_of(t),
{
    match chrono::Utc.timestamp_opt(t, 0).single() {
        Some(dt) => dt.to_rfc3339(),
        None => String::new(),
    }
}

} // verus!
