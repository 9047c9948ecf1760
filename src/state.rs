//! The virtual-clock state machine.
//!
//! Signals are opaque tokens of type `S`. The machine never fires them
//! itself: every operation hands back the sleepers and barrier waiters it
//! removed, in firing order, and the caller fires their signals once it has
//! released whatever lock guards the state.
use vstd::prelude::*;

verus! {

/// A pending request to be woken once monotonic time reaches `monotonic`
/// (nanoseconds since the clock's origin).
pub struct Sleeper<S> {
    pub monotonic: u64,
    pub signal: S,
}

/// A pending request to be woken once exactly `count` sleepers are pending.
pub struct SleepWaiter<S> {
    pub count: usize,
    pub signal: S,
}

/// A request removed from the state whose signal is now due.
pub enum Fired<S> {
    Sleeper(Sleeper<S>),
    Waiter(SleepWaiter<S>),
}

impl<S> Fired<S> {
    pub open spec fn signal_of(self) -> S {
        match self {
            Fired::Sleeper(s) => s.signal,
            Fired::Waiter(w) => w.signal,
        }
    }

    /// The signal to fire for this request.
    pub fn into_signal(self) -> (r: S)
        ensures
            r == self.signal_of(),
    {
        match self {
            Fired::Sleeper(s) => s.signal,
            Fired::Waiter(w) => w.signal,
        }
    }
}

/// Evaluates the barrier waiters `ws` against a queue of `n` sleepers: the
/// waiters released (from the last registered to the first) and those kept,
/// in registration order.
pub open spec fn release<S>(ws: Seq<SleepWaiter<S>>, n: nat) -> (Seq<Fired<S>>, Seq<SleepWaiter<S>>)
    decreases ws.len(),
{
    if ws.len() == 0 {
        (Seq::empty(), Seq::empty())
    } else {
        let r = release(ws.drop_first(), n);
        if ws[0].count == n {
            (r.0.push(Fired::Waiter(ws[0])), r.1)
        } else {
            (r.0, seq![ws[0]] + r.1)
        }
    }
}

/// The firing cascade of `advance` once monotonic time is `now`: while the
/// earliest sleeper is due it is removed and fired, and after each removal
/// the barrier waiters are evaluated against the new queue length. Returns
/// what fired, in order, and the sleepers and waiters left.
pub open spec fn cascade<S>(q: Seq<Sleeper<S>>, ws: Seq<SleepWaiter<S>>, now: int) -> (
    Seq<Fired<S>>,
    Seq<Sleeper<S>>,
    Seq<SleepWaiter<S>>,
)
    decreases q.len(),
{
    if q.len() > 0 && q[0].monotonic <= now {
        let rest = q.drop_first();
        let r = release(ws, rest.len());
        let c = cascade(rest, r.1, now);
        (seq![Fired::Sleeper(q[0])] + r.0 + c.0, c.1, c.2)
    } else {
        (Seq::empty(), q, ws)
    }
}

/// Sleepers are ordered by target, earliest first.
pub open spec fn sorted<S>(q: Seq<Sleeper<S>>) -> bool {
    forall|i: int, j: int| 0 <= i <= j < q.len() ==> q[i].monotonic <= q[j].monotonic
}

/// Where a sleeper for target `t` joins the queue `q`: just before the
/// trailing run of sleepers whose target is later than `t`, so that it comes
/// after every earlier-registered sleeper with the same target.
pub open spec fn insertion_index<S>(q: Seq<Sleeper<S>>, t: int) -> nat
    decreases q.len(),
{
    if q.len() > 0 && q.last().monotonic > t {
        insertion_index(q.drop_last(), t)
    } else {
        q.len()
    }
}

/// Every waiter released against `n` sleepers has count `n`; none kept has.
pub proof fn lemma_release<S>(ws: Seq<SleepWaiter<S>>, n: nat)
    ensures
        forall|j: int|
            0 <= j < release(ws, n).0.len() ==> (#[trigger] release(ws, n).0[j] is Waiter
                && release(ws, n).0[j]->Waiter_0.count == n),
        forall|j: int|
            0 <= j < release(ws, n).1.len() ==> #[trigger] release(ws, n).1[j].count != n,
    decreases ws.len(),
{
    if ws.len() > 0 {
        lemma_release(ws.drop_first(), n);
        let r = release(ws.drop_first(), n);
        if ws[0].count != n {
            assert forall|j: int| 0 <= j < release(ws, n).1.len() implies #[trigger] release(
                ws,
                n,
            ).1[j].count != n by {
                if j > 0 {
                    assert(release(ws, n).1[j] == r.1[j - 1]);
                }
            }
        }
    }
}

/// The cascade leaves a sorted queue of sleepers that are not yet due, and
/// no waiter whose count matches the queue left.
pub proof fn lemma_cascade_wf<S>(q: Seq<Sleeper<S>>, ws: Seq<SleepWaiter<S>>, now: int)
    requires
        sorted(q),
        forall|j: int| 0 <= j < ws.len() ==> #[trigger] ws[j].count != q.len(),
    ensures
        sorted(cascade(q, ws, now).1),
        forall|i: int|
            0 <= i < cascade(q, ws, now).1.len() ==> #[trigger] cascade(q, ws, now).1[i].monotonic
                > now,
        forall|j: int|
            0 <= j < cascade(q, ws, now).2.len() ==> #[trigger] cascade(q, ws, now).2[j].count
                != cascade(q, ws, now).1.len(),
    decreases q.len(),
{
    if q.len() > 0 && q[0].monotonic <= now {
        let rest = q.drop_first();
        assert(sorted(rest)) by {
            assert forall|i: int, j: int| 0 <= i <= j < rest.len() implies rest[i].monotonic
                <= rest[j].monotonic by {
                assert(rest[i] == q[i + 1] && rest[j] == q[j + 1]);
            }
        }
        lemma_release(ws, rest.len());
        lemma_cascade_wf(rest, release(ws, rest.len()).1, now);
    } else if q.len() > 0 {
        assert forall|i: int| 0 <= i < q.len() implies #[trigger] q[i].monotonic > now by {
            assert(q[0].monotonic <= q[i].monotonic);
        }
    }
}

/// The scan from the back of the queue stops at the insertion index.
proof fn lemma_insertion_index<S>(q: Seq<Sleeper<S>>, t: int, i: int)
    requires
        0 <= i <= q.len(),
        forall|k: int| i <= k < q.len() ==> #[trigger] q[k].monotonic > t,
        i == 0 || q[i - 1].monotonic <= t,
    ensures
        insertion_index(q, t) == i,
    decreases q.len(),
{
    if q.len() > i {
        lemma_insertion_index(q.drop_last(), t, i);
    }
}

/// Inserting a sleeper at its insertion index keeps the queue sorted.
proof fn lemma_insert_sorted<S>(q: Seq<Sleeper<S>>, s: Sleeper<S>, p: int)
    requires
        sorted(q),
        0 <= p <= q.len(),
        forall|k: int| p <= k < q.len() ==> #[trigger] q[k].monotonic > s.monotonic,
        p == 0 || q[p - 1].monotonic <= s.monotonic,
    ensures
        sorted(q.insert(p, s)),
{
    let r = q.insert(p, s);
    assert forall|i: int, j: int| 0 <= i <= j < r.len() implies r[i].monotonic
        <= r[j].monotonic by {
        if i < p {
            assert(q[i].monotonic <= q[p - 1].monotonic);
        }
        if j > p {
            assert(r[j] == q[j - 1]);
        }
        if i > p {
            assert(r[i] == q[i - 1]);
        }
    }
}

/// The mathematical state of the clock: both cursors in nanoseconds, the
/// sleeper queue and the barrier waiters in registration order.
pub struct ClockModel<S> {
    pub monotonic: int,
    pub wall: int,
    pub sleepers: Seq<Sleeper<S>>,
    pub waiters: Seq<SleepWaiter<S>>,
}

impl<S> ClockModel<S> {
    /// The queue is sorted, no due sleeper remains in it, and no barrier
    /// waiter's count equals the number of pending sleepers.
    pub open spec fn wf(self) -> bool {
        &&& sorted(self.sleepers)
        &&& forall|i: int|
            0 <= i < self.sleepers.len() ==> self.sleepers[i].monotonic > self.monotonic
        &&& forall|j: int|
            0 <= j < self.waiters.len() ==> self.waiters[j].count != self.sleepers.len()
    }

    /// The state after moving both cursors forward by `d`, and what fired.
    pub open spec fn advanced(self, d: int) -> (ClockModel<S>, Seq<Fired<S>>) {
        let now = self.monotonic + d;
        let c = cascade(self.sleepers, self.waiters, now);
        (ClockModel { monotonic: now, wall: self.wall + d, sleepers: c.1, waiters: c.2 }, c.0)
    }

    /// The state after registering sleeper `s`, and what fired: a sleeper
    /// already due fires at once and is never queued.
    pub open spec fn with_sleeper(self, s: Sleeper<S>) -> (ClockModel<S>, Seq<Fired<S>>) {
        if s.monotonic <= self.monotonic {
            (self, seq![Fired::Sleeper(s)])
        } else {
            let q = self.sleepers.insert(insertion_index(self.sleepers, s.monotonic as int) as int, s);
            let r = release(self.waiters, q.len());
            (ClockModel { monotonic: self.monotonic, wall: self.wall, sleepers: q, waiters: r.1 }, r.0)
        }
    }

    /// The state after registering barrier waiter `w`, and what fired: a
    /// waiter whose count already matches fires at once.
    pub open spec fn with_waiter(self, w: SleepWaiter<S>) -> (ClockModel<S>, Seq<Fired<S>>) {
        if w.count == self.sleepers.len() {
            (self, seq![Fired::Waiter(w)])
        } else {
            (
                ClockModel {
                    monotonic: self.monotonic,
                    wall: self.wall,
                    sleepers: self.sleepers,
                    waiters: self.waiters.push(w),
                },
                Seq::empty(),
            )
        }
    }
}

/// The simulated clock and its pending requests.
pub struct FakeTimeState<S> {
    monotonic: u64,
    wall: u64,
    sleepers: Vec<Sleeper<S>>,
    sleep_waiters: Vec<SleepWaiter<S>>,
}

impl<S> View for FakeTimeState<S> {
    type V = ClockModel<S>;

    closed spec fn view(&self) -> ClockModel<S> {
        ClockModel {
            monotonic: self.monotonic as int,
            wall: self.wall as int,
            sleepers: self.sleepers@,
            waiters: self.sleep_waiters@,
        }
    }
}

impl<S> FakeTimeState<S> {
    /// Removes and fires due sleepers one at a time, evaluating the barrier
    /// waiters after each removal.
    fn fire_sleepers(&mut self, fired: &mut Vec<Fired<S>>)
        ensures
            final(self).monotonic == old(self).monotonic,
            final(self).wall == old(self).wall,
            final(self).sleepers@ == cascade(
                old(self).sleepers@,
                old(self).sleep_waiters@,
                old(self).monotonic as int,
            ).1,
            final(self).sleep_waiters@ == cascade(
                old(self).sleepers@,
                old(self).sleep_waiters@,
                old(self).monotonic as int,
            ).2,
            final(fired)@ == old(fired)@ + cascade(
                old(self).sleepers@,
                old(self).sleep_waiters@,
                old(self).monotonic as int,
            ).0,
    {
        let ghost now = self.monotonic as int;
        let ghost c = cascade(self.sleepers@, self.sleep_waiters@, now);
        proof {
            assert(fired@ + c.0 =~= old(fired)@ + c.0);
        }
        while self.sleepers.len() > 0 && self.sleepers[0].monotonic <= self.monotonic
            invariant
                self.monotonic == old(self).monotonic,
                self.wall == old(self).wall,
                now == self.monotonic as int,
                c == cascade(old(self).sleepers@, old(self).sleep_waiters@, now),
                cascade(self.sleepers@, self.sleep_waiters@, now).1 == c.1,
                cascade(self.sleepers@, self.sleep_waiters@, now).2 == c.2,
                fired@ + cascade(self.sleepers@, self.sleep_waiters@, now).0 == old(fired)@ + c.0,
            decreases self.sleepers@.len(),
        {
            let ghost q = self.sleepers@;
            let ghost ws = self.sleep_waiters@;
            let ghost fired_before = fired@;
            let ghost r = release(ws, (q.len() - 1) as nat);
            let ghost rest = cascade(q.drop_first(), r.1, now);
            let sleeper = self.sleepers.remove(0);
            proof {
                assert(self.sleepers@ =~= q.drop_first());
            }
            fired.push(Fired::Sleeper(sleeper));
            self.fire_sleep_waiters(fired);
            proof {
                assert(fired@ + rest.0 =~= fired_before + (seq![Fired::Sleeper(q[0])] + r.0
                    + rest.0));
            }
        }
        proof {
            assert(fired@ =~= old(fired)@ + c.0);
        }
    }

    /// A clock whose monotonic cursor starts at `monotonic` and whose wall
    /// cursor starts at `wall`, with nothing pending.
    pub fn new(monotonic: u64, wall: u64) -> (r: FakeTimeState<S>)
        ensures
            r@.wf(),
            r@ == (ClockModel::<S> {
                monotonic: monotonic as int,
                wall: wall as int,
                sleepers: Seq::empty(),
                waiters: Seq::empty(),
            }),
    {
        let r = FakeTimeState { monotonic, wall, sleepers: Vec::new(), sleep_waiters: Vec::new() };
        proof {
            assert(r@.sleepers =~= Seq::<Sleeper<S>>::empty());
            assert(r@.waiters =~= Seq::<SleepWaiter<S>>::empty());
        }
        r
    }

    /// The current monotonic cursor.
    pub fn monotonic(&self) -> (r: u64)
        ensures
            r == self@.monotonic,
    {
        self.monotonic
    }

    /// The current wall-clock cursor.
    pub fn wall(&self) -> (r: u64)
        ensures
            r == self@.wall,
    {
        self.wall
    }

    /// The number of pending sleepers.
    pub fn sleepers_count(&self) -> (r: usize)
        ensures
            r == self@.sleepers.len(),
    {
        self.sleepers.len()
    }

    /// Registers `sleeper`. One already due fires at once; otherwise it is
    /// queued after every sleeper with an earlier or equal target, and the
    /// barrier waiters are evaluated against the longer queue.
    pub fn add_sleeper(&mut self, sleeper: Sleeper<S>) -> (fired: Vec<Fired<S>>)
        requires
            old(self)@.wf(),
        ensures
            final(self)@.wf(),
            (final(self)@, fired@) == old(self)@.with_sleeper(sleeper),
    {
        let mut fired: Vec<Fired<S>> = Vec::new();
        if sleeper.monotonic <= self.monotonic {
            fired.push(Fired::Sleeper(sleeper));
            proof {
                assert(fired@ =~= seq![Fired::Sleeper(sleeper)]);
            }
            return fired;
        }
        let mut index: usize = self.sleepers.len();
        while index > 0 && self.sleepers[index - 1].monotonic > sleeper.monotonic
            invariant
                *self == *old(self),
                index <= self.sleepers@.len(),
                forall|k: int|
                    index <= k < self.sleepers@.len() ==> #[trigger] self.sleepers@[k].monotonic
                        > sleeper.monotonic,
            decreases index,
        {
            index -= 1;
        }
        proof {
            lemma_insertion_index(self.sleepers@, sleeper.monotonic as int, index as int);
            lemma_insert_sorted(self.sleepers@, sleeper, index as int);
        }
        self.sleepers.insert(index, sleeper);
        self.fire_sleep_waiters(&mut fired);
        proof {
            lemma_release(old(self)@.waiters, self.sleepers@.len());
            assert(fired@ =~= release(old(self)@.waiters, self.sleepers@.len()).0);
            let q = self.sleepers@;
            assert forall|i: int| 0 <= i < q.len() implies #[trigger] q[i].monotonic
                > self.monotonic by {
                if i > index {
                    assert(q[i] == old(self).sleepers@[i - 1]);
                } else if i < index {
                    assert(q[i] == old(self).sleepers@[i]);
                }
            }
        }
        fired
    }

    /// Registers `waiter`: it fires at once when its count already equals
    /// the number of pending sleepers, and is kept pending otherwise.
    pub fn add_sleep_waiter(&mut self, waiter: SleepWaiter<S>) -> (fired: Vec<Fired<S>>)
        requires
            old(self)@.wf(),
        ensures
            final(self)@.wf(),
            (final(self)@, fired@) == old(self)@.with_waiter(waiter),
    {
        let mut fired: Vec<Fired<S>> = Vec::new();
        if waiter.count == self.sleepers.len() {
            fired.push(Fired::Waiter(waiter));
            proof {
                assert(fired@ =~= seq![Fired::Waiter(waiter)]);
            }
        } else {
            self.sleep_waiters.push(waiter);
            proof {
                assert(fired@ =~= Seq::empty());
                assert(self@.sleepers =~= old(self)@.sleepers);
                let ws = self@.waiters;
                assert forall|j: int| 0 <= j < ws.len() implies #[trigger] ws[j].count
                    != self@.sleepers.len() by {
                    if j < ws.len() - 1 {
                        assert(ws[j] == old(self)@.waiters[j]);
                    }
                }
            }
        }
        fired
    }

    /// Moves both cursors forward by `d` and fires every sleeper now due.
    pub fn advance(&mut self, d: u64) -> (fired: Vec<Fired<S>>)
        requires
            old(self)@.wf(),
            old(self)@.monotonic + d <= u64::MAX,
            old(self)@.wall + d <= u64::MAX,
        ensures
            final(self)@.wf(),
            (final(self)@, fired@) == old(self)@.advanced(d as int),
    {
        self.monotonic = self.monotonic + d;
        self.wall = self.wall + d;
        let mut fired: Vec<Fired<S>> = Vec::new();
        self.fire_sleepers(&mut fired);
        proof {
            lemma_cascade_wf(old(self)@.sleepers, old(self)@.waiters, self.monotonic as int);
            assert(fired@ =~= Seq::empty() + fired@);
        }
        fired
    }

    /// Fires every barrier waiter whose count equals the current number of
    /// sleepers, appending them to `fired`.
    fn fire_sleep_waiters(&mut self, fired: &mut Vec<Fired<S>>)
        ensures
            final(self).monotonic == old(self).monotonic,
            final(self).wall == old(self).wall,
            final(self).sleepers@ == old(self).sleepers@,
            final(self).sleep_waiters@ == release(
                old(self).sleep_waiters@,
                old(self).sleepers@.len(),
            ).1,
            final(fired)@ == old(fired)@ + release(old(self).sleep_waiters@, old(self).sleepers@.len()).0,
    {
        let sleepers_count = self.sleepers.len();
        let waiters_count = self.sleep_waiters.len();
        let ghost ws = self.sleep_waiters@;
        let ghost fired0 = fired@;
        proof {
            assert(ws.skip(waiters_count as int) =~= Seq::<SleepWaiter<S>>::empty());
            assert(ws.take(waiters_count as int) =~= ws);
        }
        let mut k: usize = 0;
        while k < waiters_count
            invariant
                k <= waiters_count,
                waiters_count == ws.len(),
                sleepers_count == self.sleepers@.len(),
                self.monotonic == old(self).monotonic,
                self.wall == old(self).wall,
                self.sleepers@ == old(self).sleepers@,
                ws == old(self).sleep_waiters@,
                fired0 == old(fired)@,
                self.sleep_waiters@ == ws.take(waiters_count - k) + release(
                    ws.skip(waiters_count - k),
                    sleepers_count as nat,
                ).1,
                fired@ == fired0 + release(ws.skip(waiters_count - k), sleepers_count as nat).0,
            decreases waiters_count - k,
        {
            let index = waiters_count - k - 1;
            let ghost suffix = ws.skip(index as int);
            let ghost r = release(ws.skip(index + 1), sleepers_count as nat);
            proof {
                assert(suffix.drop_first() =~= ws.skip(index + 1));
                assert(suffix[0] == ws[index as int]);
                assert(ws.take(index + 1) =~= ws.take(index as int).push(ws[index as int]));
                assert(self.sleep_waiters@[index as int] == ws[index as int]);
            }
            if self.sleep_waiters[index].count == sleepers_count {
                let waiter = self.sleep_waiters.remove(index);
                proof {
                    assert(self.sleep_waiters@ =~= ws.take(index as int) + r.1);
                }
                fired.push(Fired::Waiter(waiter));
                proof {
                    assert(fired@ =~= fired0 + r.0.push(Fired::Waiter(ws[index as int])));
                }
            } else {
                proof {
                    assert(self.sleep_waiters@ =~= ws.take(index as int) + (seq![ws[index as int]]
                        + r.1));
                }
            }
            k += 1;
        }
        proof {
            assert(ws.skip(0) =~= ws);
            assert(ws.take(0) =~= Seq::<SleepWaiter<S>>::empty());
            assert(self.sleep_waiters@ =~= release(ws, sleepers_count as nat).1);
        }
    }
}

} // verus!
