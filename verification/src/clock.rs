use std::time::{Duration, Instant};
use vstd::prelude::*;

verus! {

/// A moment on the machine's monotonic clock. Nothing is known of it but
/// that it can be asked how long ago it was.
#[verifier::external_type_specification]
#[verifier::external_body]
pub struct ExInstant(Instant);

/// `Instant::now`: the present moment. What comes back differs from call
/// to call, so nothing is said of it.
pub assume_specification[ Instant::now ]() -> (now: Instant)
;

/// `Instant::elapsed`: the time gone by since the moment. It depends on
/// when it is asked, so nothing is said of it.
pub assume_specification[ Instant::elapsed ](since: &Instant) -> (gone: Duration)
;

/// `Duration::as_micros`: the whole microseconds in the span.
pub assume_specification[ Duration::as_micros ](span: &Duration) -> (micros: u128)
;

/// Measures how long a placement takes.
pub struct Clock {
    heart: Instant,
}

impl Clock {
    /// A clock that starts now.
    pub fn new() -> Self {
        Clock { heart: Instant::now() }
    }

    /// The time gone by since the clock was made.
    pub fn tick(&self) -> Duration {
        self.heart.elapsed()
    }
}

/// A new clock on the heap, so that it can be handed across a language
/// boundary.
pub fn timer_start() -> Box<Clock> {
    Box::new(Clock::new())
}

/// The microseconds gone by since the clock was made.
pub fn timer_end(clk: Box<Clock>) -> u128 {
    clk.tick().as_micros()
}

} // verus!
