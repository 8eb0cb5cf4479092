use vstd::prelude::*;

verus! {

#[verifier::external_type_specification]
#[verifier::external_body]
pub struct ExInstant(std::time::Instant);

/// `Instant::now`: the current moment of the machine's monotonic clock.
#[verifier::external_body]
pub(crate) fn instant_now() -> std::time::Instant {
    std::time::Instant::now()
}

/// `Instant::elapsed`: the time since `start`; it depends on the clock alone.
#[verifier::external_body]
pub(crate) fn elapsed_since(start: &std::time::Instant) -> std::time::Duration {
    start.elapsed()
}

/// `Duration::as_nanos`: the whole nanoseconds of `duration`.
#[verifier::external_body]
pub(crate) fn duration_nanos(duration: &std::time::Duration) -> u128 {
    duration.as_nanos()
}

/// The nanoseconds since `start`, cut to 64 bits.
pub(crate) fn nanos_since(start: &std::time::Instant) -> u64 {
    let elapsed = elapsed_since(start);
    duration_nanos(&elapsed) as u64
}

} // verus!
