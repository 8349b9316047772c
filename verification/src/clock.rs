//! The system clock, read as whole seconds since the Unix epoch.
use vstd::prelude::*;

verus! {

#[verifier::external_type_specification]
#[verifier::external_body]
pub struct ExSystemTime(std::time::SystemTime);

#[verifier::external_type_specification]
#[verifier::external_body]
pub struct ExSystemTimeError(std::time::SystemTimeError);

/// `SystemTime::now`: the system clock's reading. Nothing is stated of it:
/// it depends on the time.
#[verifier::external_body]
fn system_now() -> (t: std::time::SystemTime)
{
    std::time::SystemTime::now()
}

/// `SystemTime::duration_since(UNIX_EPOCH)`: the time elapsed since the
/// epoch, or an error when the reading lies before it. Nothing is stated
/// of the result: the time is opaque here.
#[verifier::external_body]
fn since_epoch(t: &std::time::SystemTime) -> (r: Result<std::time::Duration, std::time::SystemTimeError>)
{
    t.duration_since(std::time::UNIX_EPOCH)
}

/// `Duration::as_secs`: the whole seconds of a duration. Nothing is
/// stated of the result: the duration is opaque here.
#[verifier::external_body]
fn whole_seconds(d: &std::time::Duration) -> (secs: u64)
{
    d.as_secs()
}

/// Whole seconds since the Unix epoch by the system clock, or 0 when the
/// clock reads before the epoch. The reading itself is not stated.
pub fn seconds_since_epoch() -> (secs: u64)
{
    let now = system_now();
    match since_epoch(&now) {
        Ok(d) => whole_seconds(&d),
        Err(_) => 0,
    }
}

} // verus!
