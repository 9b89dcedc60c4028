//! A stopwatch over the monotonic clock of the system.
use std::time::{Duration, Instant};
use vstd::prelude::*;

verus! {

/// A point of the monotonic clock, `std::time::Instant`. Nothing is said of
/// its inside.
#[verifier::external_type_specification]
#[verifier::external_body]
pub struct ExInstant(Instant);

/// `Instant::now`: the present instant. Nothing is known of it.
#[verifier::external_body]
fn now() -> Instant {
    Instant::now()
}

/// `Instant::elapsed`: the time that has gone by since `start`.
#[verifier::external_body]
fn elapsed_since(start: &Instant) -> Duration {
    start.elapsed()
}

/// `Instant::duration_since`: the time from `earlier` to `later`, zero where
/// `earlier` is the later of the two.
#[verifier::external_body]
fn between(later: &Instant, earlier: &Instant) -> Duration {
    later.duration_since(*earlier)
}

/// `Duration::as_nanos`: the length of a span of time in nanoseconds.
#[verifier::external_body]
fn nanos_of(span: &Duration) -> u128 {
    span.as_nanos()
}

/// A stopwatch: its last start, and the time from that start to its last stop.
pub struct Clock {
    start_time: Option<Instant>,
    stopped_after: Option<u128>,
    running: bool,
}

impl Clock {
    /// Whether the clock is running.
    pub closed spec fn is_running(&self) -> bool {
        self.running
    }

    /// Whether the clock was started since it was made or reset.
    pub closed spec fn has_started(&self) -> bool {
        self.start_time is Some
    }

    /// Whether the clock was stopped, while it ran, since it was made or reset.
    pub closed spec fn has_stopped(&self) -> bool {
        self.stopped_after is Some
    }

    /// The time in nanoseconds from the start to the stop that the clock
    /// holds; zero where it holds no start or no stop.
    pub closed spec fn measured(&self) -> u128 {
        match (self.start_time, self.stopped_after) {
            (Some(_), Some(ns)) => ns,
            _ => 0,
        }
    }

    /// A clock that was never started.
    pub fn new() -> (c: Self)
        ensures
            !c.is_running(),
            !c.has_started(),
            !c.has_stopped(),
            c.measured() == 0,
    {
        Clock { start_time: None, stopped_after: None, running: false }
    }

    /// Forgets every start and stop.
    pub fn reset(&mut self)
        ensures
            !final(self).is_running(),
            !final(self).has_started(),
            !final(self).has_stopped(),
            final(self).measured() == 0,
    {
        self.start_time = None;
        self.stopped_after = None;
        self.running = false;
    }

    /// Starts the clock at the present instant, also where it is running.
    pub fn start(&mut self)
        ensures
            final(self).is_running(),
            final(self).has_started(),
            final(self).has_stopped() == old(self).has_stopped(),
            old(self).has_started() ==> final(self).measured() == old(self).measured(),
    {
        self.start_time = Some(now());
        self.running = true;
    }

    /// Whether the clock is running.
    pub fn running(&self) -> (b: bool)
        ensures
            b == self.is_running(),
    {
        self.running
    }

    /// The measured time in nanoseconds. While the clock runs, it is the
    /// time since its start, another at every call. Otherwise it is the time
    /// from its start to its stop as the clock holds it, the same at every
    /// call. Zero where there is no such span.
    pub fn get_nanos(&self) -> (ns: u128)
        ensures
            !self.is_running() ==> ns == self.measured(),
            !self.has_started() ==> ns == 0,
            !self.is_running() && !self.has_stopped() ==> ns == 0,
    {
        match &self.start_time {
            Some(start_time) => {
                if self.running {
                    let span = elapsed_since(start_time);
                    nanos_of(&span)
                } else {
                    match self.stopped_after {
                        Some(ns) => ns,
                        None => 0,
                    }
                }
            },
            None => 0,
        }
    }

    /// Stops the clock at the present instant, if it is running: the clock
    /// then holds the time from its start to that instant. Does nothing
    /// otherwise.
    pub fn stop(&mut self)
        ensures
            !final(self).is_running(),
            final(self).has_started() == old(self).has_started(),
            final(self).has_stopped() == (old(self).has_stopped() || old(self).is_running()),
            !old(self).is_running() ==> final(self).measured() == old(self).measured(),
            !old(self).has_started() ==> final(self).measured() == 0,
    {
        if self.running {
            let stop_time = now();
            let ns = match &self.start_time {
                Some(start_time) => {
                    let span = between(&stop_time, start_time);
                    nanos_of(&span)
                },
                None => 0,
            };
            self.stopped_after = Some(ns);
            self.running = false;
        }
    }
}

} // verus!
