//! The clock handles: the host clock, and the virtual clock's surface.
use crate::state::{ClockModel, FakeTimeState, Fired, SleepWaiter, Sleeper};
use vstd::prelude::*;

verus! {

/// The host's clock. Reading it and sleeping on it are done by the caller,
/// outside the verified state machine.
pub struct RealTime {}

/// The virtual clock's surface: sleeping, waiting for a number of sleepers
/// and advancing time. Both cursors are nanoseconds; the monotonic cursor
/// counts from the clock's origin and the wall cursor from the Unix epoch.
///
/// Every operation returns the requests it completed, in firing order; the
/// caller fires their signals after releasing the lock that guards the
/// clock, then blocks on its own signal if it is waiting for one.
pub struct FakeTime<S> {
    state: FakeTimeState<S>,
}

impl<S> View for FakeTime<S> {
    type V = ClockModel<S>;

    closed spec fn view(&self) -> ClockModel<S> {
        self.state@
    }
}

impl<S> FakeTime<S> {
    /// A clock at its origin, with the wall cursor at the Unix epoch and
    /// nothing pending.
    pub fn new() -> (r: FakeTime<S>)
        ensures
            r@.wf(),
            r@ == (ClockModel::<S> {
                monotonic: 0,
                wall: 0,
                sleepers: Seq::empty(),
                waiters: Seq::empty(),
            }),
    {
        FakeTime { state: FakeTimeState::new(0, 0) }
    }

    /// The current monotonic time.
    pub fn monotonic_now(&self) -> (r: u64)
        ensures
            r == self@.monotonic,
    {
        self.state.monotonic()
    }

    /// The current wall-clock time.
    pub fn system_now(&self) -> (r: u64)
        ensures
            r == self@.wall,
    {
        self.state.wall()
    }

    /// The number of pending sleepers.
    pub fn sleepers_count(&self) -> (r: usize)
        ensures
            r == self@.sleepers.len(),
    {
        self.state.sleepers_count()
    }

    /// Moves simulated time forward by `d` nanoseconds; returns the sleepers
    /// that became due and the barrier waiters released on the way.
    pub fn advance(&mut self, d: u64) -> (fired: Vec<Fired<S>>)
        requires
            old(self)@.wf(),
            old(self)@.monotonic + d <= u64::MAX,
            old(self)@.wall + d <= u64::MAX,
        ensures
            final(self)@.wf(),
            (final(self)@, fired@) == old(self)@.advanced(d as int),
    {
        self.state.advance(d)
    }

    /// Asks to be woken, through `signal`, once monotonic time reaches
    /// `target`. When it already has, the request comes straight back and
    /// nothing is queued.
    pub fn sleep_until(&mut self, target: u64, signal: S) -> (fired: Vec<Fired<S>>)
        requires
            old(self)@.wf(),
        ensures
            final(self)@.wf(),
            (final(self)@, fired@) == old(self)@.with_sleeper(
                Sleeper { monotonic: target, signal },
            ),
    {
        self.state.add_sleeper(Sleeper { monotonic: target, signal })
    }

    /// Asks to be woken, through `signal`, `duration` nanoseconds from now.
    pub fn sleep(&mut self, duration: u64, signal: S) -> (fired: Vec<Fired<S>>)
        requires
            old(self)@.wf(),
            old(self)@.monotonic + duration <= u64::MAX,
        ensures
            final(self)@.wf(),
            (final(self)@, fired@) == old(self)@.with_sleeper(
                Sleeper { monotonic: (old(self)@.monotonic + duration) as u64, signal },
            ),
    {
        let target = self.monotonic_now() + duration;
        self.sleep_until(target, signal)
    }

    /// Asks to be woken, through `signal`, at a moment when exactly `count`
    /// sleepers are pending.
    pub fn wait_exact_sleepers_count(&mut self, count: usize, signal: S) -> (fired: Vec<Fired<S>>)
        requires
            old(self)@.wf(),
        ensures
            final(self)@.wf(),
            (final(self)@, fired@) == old(self)@.with_waiter(SleepWaiter { count, signal }),
    {
        self.state.add_sleep_waiter(SleepWaiter { count, signal })
    }
}

impl<S> Default for FakeTime<S> {
    fn default() -> (r: FakeTime<S>)
        ensures
            r@.wf(),
            r@ == (ClockModel::<S> {
                monotonic: 0,
                wall: 0,
                sleepers: Seq::empty(),
                waiters: Seq::empty(),
            }),
    {
        FakeTime::new()
    }
}

} // verus!
