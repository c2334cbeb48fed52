//! The system clock, read without failing, and the current time written as
//! RFC 3339 text.
use vstd::prelude::*;
use crate::text::{all_digits, is_digit};

verus! {

/// A reading of the system clock: `Ok(n)` for `n` nanoseconds after the
/// Unix epoch, `Err(n)` for `n` nanoseconds before it.
pub open spec fn signed_nanos(reading: Result<u128, u128>) -> int {
    match reading {
        Ok(n) => n as int,
        Err(n) => -(n as int),
    }
}

/// Reads the system clock with `std::time::SystemTime::now`, measured from
/// the Unix epoch by `duration_since` (whose error carries the distance to a
/// time before the epoch). Nothing is stated of it: it is the clock.
#[verifier::external_body]
fn system_time_reading() -> (r: Result<u128, u128>) {
    match std::time::SystemTime::now().duration_since(std::time::UNIX_EPOCH) {
        Ok(after) => Ok(after.as_nanos()),
        Err(before) => Err(before.duration().as_nanos()),
    }
}

/// The nanoseconds since the Unix epoch by the system clock, or 0 when the
/// clock is before the epoch.
pub(crate) fn clock_nanos() -> (r: u128) {
    match system_time_reading() {
        Ok(n) => n,
        Err(_) => 0,
    }
}

/// A billion: nanoseconds in a second.
pub open spec fn nanos_per_second() -> int {
    1_000_000_000
}

/// The whole seconds (rounded down) and the nanoseconds past them of a
/// clock reading, when the seconds fit an `i64`.
pub open spec fn timestamp_spec(reading: Result<u128, u128>) -> Option<(i64, u32)> {
    let t = signed_nanos(reading);
    let s = t / nanos_per_second();
    if i64::MIN <= s <= i64::MAX {
        Some((s as i64, (t % nanos_per_second()) as u32))
    } else {
        None
    }
}

/// Splits a clock reading into whole seconds from the Unix epoch (rounded
/// down, so negative before it) and the nanoseconds past them.
pub fn timestamp_of(reading: Result<u128, u128>) -> (r: Option<(i64, u32)>)
    ensures
        r == timestamp_spec(reading),
{
    let ns: u128 = 1_000_000_000;
    match reading {
        Ok(n) => {
            let q = n / ns;
            let rem = n % ns;
            proof {
                vstd::arithmetic::div_mod::lemma_fundamental_div_mod_converse(
                    n as int,
                    ns as int,
                    q as int,
                    rem as int,
                );
            }
            if q > 9_223_372_036_854_775_807u128 {
                None
            } else {
                Some((q as i64, rem as u32))
            }
        },
        Err(n) => {
            let q = n / ns;
            let rem = n % ns;
            proof {
                vstd::arithmetic::div_mod::lemma_fundamental_div_mod(n as int, ns as int);
                if rem == 0 {
                    vstd::arithmetic::div_mod::lemma_fundamental_div_mod_converse(
                        -(n as int),
                        ns as int,
                        -(q as int),
                        0,
                    );
                } else {
                    vstd::arithmetic::div_mod::lemma_fundamental_div_mod_converse(
                        -(n as int),
                        ns as int,
                        -(q as int) - 1,
                        ns - rem,
                    );
                }
            }
            let back: u128 = if rem == 0 {
                0
            } else {
                ns - rem
            };
            let s: i128 = if rem == 0 {
                0 - (q as i128)
            } else {
                0 - (q as i128) - 1
            };
            if s < -9_223_372_036_854_775_808i128 {
                None
            } else {
                Some((s as i64, back as u32))
            }
        },
    }
}

/// The text of `DateTime::<Utc>::to_rfc3339_opts(SecondsFormat::Secs, true)`:
/// the year (four digits, or a sign and at least four digits for a year
/// outside 0 to 9999), then `-MM-DDTHH:MM:SSZ`, two digits to each field.
pub open spec fn rfc3339_utc_seconds(s: Seq<char>) -> bool {
    let n = s.len() as int;
    let year = s.take(n - 16);
    let t = s.skip(n - 16);
    &&& n >= 20
    &&& (year.len() == 4 && all_digits(year)) || (year.len() >= 5 && (year[0] == '+' || year[0]
        == '-') && all_digits(year.skip(1)))
    &&& t[0] == '-' && is_digit(t[1]) && is_digit(t[2])
    &&& t[3] == '-' && is_digit(t[4]) && is_digit(t[5])
    &&& t[6] == 'T' && is_digit(t[7]) && is_digit(t[8])
    &&& t[9] == ':' && is_digit(t[10]) && is_digit(t[11])
    &&& t[12] == ':' && is_digit(t[13]) && is_digit(t[14])
    &&& t[15] == 'Z'
}

/// What `DateTime::<Utc>::from_timestamp(secs, nsecs)` followed by
/// `to_rfc3339_opts(SecondsFormat::Secs, true)` gives: `None` when chrono
/// cannot represent the time.
pub uninterp spec fn rfc3339_text(secs: i64, nsecs: u32) -> Option<Seq<char>>;

/// The RFC 3339 text, in UTC with whole seconds, of the time `secs` seconds
/// and `nsecs` nanoseconds after the Unix epoch, through
/// `chrono::DateTime::<Utc>::from_timestamp` and `to_rfc3339_opts`. Stated:
/// the result is `rfc3339_text` of the arguments; a text has the shape that
/// chrono's `write_rfc3339` writes; and there is one for every time within
/// 8·10^12 seconds of the epoch (some 250 000 years, inside chrono's range of
/// years ±262 143) with fewer than 10^9 nanoseconds.
#[verifier::external_body]
fn rfc3339_at(secs: i64, nsecs: u32) -> (r: Option<String>)
    ensures
        match r {
            Some(s) => rfc3339_text(secs, nsecs) == Some(s@) && rfc3339_utc_seconds(s@),
            None => rfc3339_text(secs, nsecs) is None,
        },
        -8_000_000_000_000 <= secs <= 8_000_000_000_000 && nsecs < 1_000_000_000 ==> r is Some,
{
    chrono::DateTime::from_timestamp(secs, nsecs).map(|t| t.to_rfc3339_opts(chrono::SecondsFormat::Secs, true))
}

/// The current time as RFC 3339 text in UTC with whole seconds, as
/// `chrono::Utc::now().to_rfc3339_opts(SecondsFormat::Secs, true)` writes
/// it; `None` when the clock reads a time that chrono cannot represent
/// (where `Utc::now` would panic instead).
pub fn now_rfc3339() -> (r: Option<String>)
    ensures
        r matches Some(s) ==> rfc3339_utc_seconds(s@),
{
    let reading = system_time_reading();
    match timestamp_of(reading) {
        Some((secs, nsecs)) => rfc3339_at(secs, nsecs),
        None => None,
    }
}

} // verus!
