//! Laws of the virtual clock, stated over its model and proved.
use crate::state::{cascade, insertion_index, lemma_cascade_wf, lemma_release, release, sorted, ClockModel, Fired, SleepWaiter, Sleeper};
use vstd::prelude::*;

verus! {

/// The sleepers among the fired requests `out`, in firing order.
pub open spec fn woken<S>(out: Seq<Fired<S>>) -> Seq<Sleeper<S>>
    decreases out.len(),
{
    if out.len() == 0 {
        Seq::empty()
    } else {
        match out[0] {
            Fired::Sleeper(s) => seq![s] + woken(out.drop_first()),
            Fired::Waiter(_) => woken(out.drop_first()),
        }
    }
}

/// How many sleepers at the front of `q` are due at time `now`.
pub open spec fn due_count<S>(q: Seq<Sleeper<S>>, now: int) -> nat
    decreases q.len(),
{
    if q.len() > 0 && q[0].monotonic <= now {
        1 + due_count(q.drop_first(), now)
    } else {
        0
    }
}

proof fn lemma_woken_concat<S>(a: Seq<Fired<S>>, b: Seq<Fired<S>>)
    ensures
        woken(a + b) == woken(a) + woken(b),
    decreases a.len(),
{
    if a.len() == 0 {
        assert(a + b =~= b);
        assert(woken(a) + woken(b) =~= woken(b));
    } else {
        assert((a + b).drop_first() =~= a.drop_first() + b);
        lemma_woken_concat(a.drop_first(), b);
        assert((a + b)[0] == a[0]);
        match a[0] {
            Fired::Sleeper(s) => {
                assert(seq![s] + (woken(a.drop_first()) + woken(b)) =~= (seq![s] + woken(
                    a.drop_first(),
                )) + woken(b));
            },
            Fired::Waiter(_) => {},
        }
    }
}

proof fn lemma_woken_one<S>(s: Sleeper<S>)
    ensures
        woken(seq![Fired::Sleeper(s)]) == seq![s],
{
    let one = seq![Fired::Sleeper(s)];
    assert(one[0] == Fired::Sleeper(s));
    assert(one.drop_first() =~= Seq::<Fired<S>>::empty());
    assert(woken(one.drop_first()) =~= Seq::<Sleeper<S>>::empty());
    assert(woken(one) =~= seq![s]);
}

proof fn lemma_woken_waiters<S>(a: Seq<Fired<S>>)
    requires
        forall|j: int| 0 <= j < a.len() ==> #[trigger] a[j] is Waiter,
    ensures
        woken(a) == Seq::<Sleeper<S>>::empty(),
    decreases a.len(),
{
    if a.len() > 0 {
        assert(a[0] is Waiter);
        assert forall|j: int| 0 <= j < a.drop_first().len() implies #[trigger] a.drop_first()[j] is Waiter by {
            assert(a.drop_first()[j] == a[j + 1]);
        }
        lemma_woken_waiters(a.drop_first());
    }
}

proof fn lemma_woken_member<S>(out: Seq<Fired<S>>, k: int)
    requires
        0 <= k < woken(out).len(),
    ensures
        exists|j: int| 0 <= j < out.len() && out[j] == Fired::Sleeper(woken(out)[k]),
    decreases out.len(),
{
    let rest = out.drop_first();
    match out[0] {
        Fired::Sleeper(s) => {
            if k == 0 {
                assert(out[0] == Fired::Sleeper(woken(out)[k]));
            } else {
                lemma_woken_member(rest, k - 1);
                let j = choose|j: int| 0 <= j < rest.len() && rest[j] == Fired::Sleeper(woken(rest)[k - 1]);
                assert(out[j + 1] == Fired::Sleeper(woken(out)[k]));
            }
        },
        Fired::Waiter(_) => {
            lemma_woken_member(rest, k);
            let j = choose|j: int| 0 <= j < rest.len() && rest[j] == Fired::Sleeper(woken(rest)[k]);
            assert(out[j + 1] == Fired::Sleeper(woken(out)[k]));
        },
    }
}

/// The cascade fires exactly the due sleepers at the front of the queue, in
/// queue order, and leaves the rest of the queue as it was.
pub proof fn lemma_cascade_prefix<S>(q: Seq<Sleeper<S>>, ws: Seq<SleepWaiter<S>>, now: int)
    ensures
        woken(cascade(q, ws, now).0) == q.take(due_count(q, now) as int),
        cascade(q, ws, now).1 == q.skip(due_count(q, now) as int),
        due_count(q, now) <= q.len(),
    decreases q.len(),
{
    if q.len() > 0 && q[0].monotonic <= now {
        let rest = q.drop_first();
        let r = release(ws, rest.len());
        let c = cascade(rest, r.1, now);
        lemma_cascade_prefix(rest, r.1, now);
        lemma_release(ws, rest.len());
        lemma_woken_waiters(r.0);
        lemma_woken_concat(seq![Fired::Sleeper(q[0])], r.0);
        lemma_woken_concat(seq![Fired::Sleeper(q[0])] + r.0, c.0);
        lemma_woken_one(q[0]);
        assert(q.take(due_count(q, now) as int) =~= seq![q[0]] + rest.take(due_count(rest, now) as int));
        assert(q.skip(due_count(q, now) as int) =~= rest.skip(due_count(rest, now) as int));
    } else {
        assert(q.take(0) =~= Seq::<Sleeper<S>>::empty());
        assert(q.skip(0) =~= q);
    }
}

/// The due sleepers are the front of the queue; a sorted queue has none due
/// after them.
proof fn lemma_due_count<S>(q: Seq<Sleeper<S>>, now: int)
    ensures
        due_count(q, now) <= q.len(),
        forall|i: int| 0 <= i < due_count(q, now) ==> #[trigger] q[i].monotonic <= now,
        sorted(q) ==> forall|i: int|
            due_count(q, now) <= i < q.len() ==> #[trigger] q[i].monotonic > now,
    decreases q.len(),
{
    if q.len() > 0 && q[0].monotonic <= now {
        let rest = q.drop_first();
        lemma_due_count(rest, now);
        assert forall|i: int| 0 <= i < due_count(q, now) implies #[trigger] q[i].monotonic
            <= now by {
            if i > 0 {
                assert(q[i] == rest[i - 1]);
            }
        }
        if sorted(q) {
            assert(sorted(rest)) by {
                assert forall|i: int, j: int| 0 <= i <= j < rest.len() implies rest[i].monotonic
                    <= rest[j].monotonic by {
                    assert(rest[i] == q[i + 1] && rest[j] == q[j + 1]);
                }
            }
            assert forall|i: int| due_count(q, now) <= i < q.len() implies #[trigger] q[i].monotonic
                > now by {
                assert(q[i] == rest[i - 1]);
            }
        }
    } else if q.len() > 0 && sorted(q) {
        assert forall|i: int| 0 <= i < q.len() implies #[trigger] q[i].monotonic > now by {
            assert(q[0].monotonic <= q[i].monotonic);
        }
    }
}

/// Advancing fires exactly the sleepers that became due, earliest target
/// first and, among equal targets, in registration order: they are the
/// front of the queue, and the rest of the queue stays pending as it was.
pub proof fn lemma_advance_fires_in_order<S>(m: ClockModel<S>, d: nat)
    requires
        m.wf(),
    ensures
        woken(m.advanced(d as int).1) == m.sleepers.take(
            due_count(m.sleepers, m.monotonic + d) as int,
        ),
        m.advanced(d as int).0.sleepers == m.sleepers.skip(
            due_count(m.sleepers, m.monotonic + d) as int,
        ),
        sorted(woken(m.advanced(d as int).1)),
        forall|i: int|
            0 <= i < woken(m.advanced(d as int).1).len() ==> #[trigger] woken(
                m.advanced(d as int).1,
            )[i].monotonic <= m.monotonic + d,
{
    let now = m.monotonic + d;
    lemma_cascade_prefix(m.sleepers, m.waiters, now);
    lemma_due_count(m.sleepers, now);
    let w = woken(m.advanced(d as int).1);
    assert forall|i: int, j: int| 0 <= i <= j < w.len() implies w[i].monotonic
        <= w[j].monotonic by {
        assert(w[i] == m.sleepers[i] && w[j] == m.sleepers[j]);
    }
    assert forall|i: int| 0 <= i < w.len() implies #[trigger] w[i].monotonic <= now by {
        assert(w[i] == m.sleepers[i]);
    }
}

/// A pending sleeper fires on any advance that brings monotonic time to its
/// target, and time then stands at or past that target.
pub proof fn lemma_sleeper_wakes<S>(m: ClockModel<S>, d: nat, i: int)
    requires
        m.wf(),
        0 <= i < m.sleepers.len(),
        m.sleepers[i].monotonic <= m.monotonic + d,
    ensures
        exists|j: int|
            0 <= j < m.advanced(d as int).1.len() && m.advanced(d as int).1[j] == Fired::Sleeper(
                m.sleepers[i],
            ),
        m.advanced(d as int).0.monotonic >= m.sleepers[i].monotonic,
{
    let now = m.monotonic + d;
    lemma_advance_fires_in_order(m, d);
    lemma_due_count(m.sleepers, now);
    let out = m.advanced(d as int).1;
    assert(i < due_count(m.sleepers, now));
    assert(woken(out)[i] == m.sleepers[i]);
    lemma_woken_member(out, i);
}

/// A sleep whose target has already been reached is answered at once: its
/// own request comes back and the state, queue included, is unchanged.
pub proof fn lemma_immediate_sleep<S>(m: ClockModel<S>, s: Sleeper<S>)
    requires
        s.monotonic <= m.monotonic,
    ensures
        m.with_sleeper(s).0 == m,
        m.with_sleeper(s).1 == seq![Fired::Sleeper(s)],
{
}

proof fn lemma_cascade_barrier<S>(q: Seq<Sleeper<S>>, ws: Seq<SleepWaiter<S>>, now: int)
    ensures
        forall|j: int|
            0 <= j < cascade(q, ws, now).0.len() && (#[trigger] cascade(q, ws, now).0[j]) is Waiter
                ==> cascade(q, ws, now).0[j]->Waiter_0.count + woken(
                cascade(q, ws, now).0.take(j),
            ).len() == q.len(),
    decreases q.len(),
{
    if q.len() > 0 && q[0].monotonic <= now {
        let rest = q.drop_first();
        let r = release(ws, rest.len());
        let c = cascade(rest, r.1, now);
        let head = seq![Fired::Sleeper(q[0])];
        let out = head + r.0 + c.0;
        lemma_cascade_barrier(rest, r.1, now);
        lemma_release(ws, rest.len());
        lemma_woken_one(q[0]);
        assert forall|j: int| 0 <= j < out.len() && (#[trigger] out[j]) is Waiter implies out[j]->Waiter_0.count
            + woken(out.take(j)).len() == q.len() by {
            if j >= 1 && j < 1 + r.0.len() {
                let pre = r.0.take(j - 1);
                assert(out.take(j) =~= head + pre);
                assert forall|k: int| 0 <= k < pre.len() implies #[trigger] pre[k] is Waiter by {
                    assert(pre[k] == r.0[k]);
                }
                lemma_woken_waiters(pre);
                lemma_woken_concat(head, pre);
                assert(out[j] == r.0[j - 1]);
            } else if j >= 1 + r.0.len() {
                let k = j - 1 - r.0.len();
                assert(out[j] == c.0[k]);
                assert(out.take(j) =~= (head + r.0) + c.0.take(k));
                lemma_woken_waiters(r.0);
                lemma_woken_concat(head, r.0);
                lemma_woken_concat(head + r.0, c.0.take(k));
            }
        }
    }
}

/// A barrier waiter is released by an advance only at a moment when the
/// number of pending sleepers equals its count: the sleepers pending at the
/// start, less those fired before it in the same cascade.
pub proof fn lemma_advance_barrier_exact<S>(m: ClockModel<S>, d: nat)
    ensures
        forall|j: int|
            0 <= j < m.advanced(d as int).1.len() && (#[trigger] m.advanced(d as int).1[j]) is Waiter
                ==> m.advanced(d as int).1[j]->Waiter_0.count + woken(
                m.advanced(d as int).1.take(j),
            ).len() == m.sleepers.len(),
{
    lemma_cascade_barrier(m.sleepers, m.waiters, m.monotonic + d);
}

/// Registering a sleeper or a barrier waiter releases only barrier waiters
/// whose count equals the number of sleepers then pending.
pub proof fn lemma_register_barrier_exact<S>(m: ClockModel<S>, s: Sleeper<S>, w: SleepWaiter<S>)
    ensures
        forall|j: int|
            0 <= j < m.with_sleeper(s).1.len() && (#[trigger] m.with_sleeper(s).1[j]) is Waiter
                ==> m.with_sleeper(s).1[j]->Waiter_0.count == m.with_sleeper(s).0.sleepers.len(),
        forall|j: int|
            0 <= j < m.with_waiter(w).1.len() && (#[trigger] m.with_waiter(w).1[j]) is Waiter
                ==> m.with_waiter(w).1[j]->Waiter_0.count == m.with_waiter(w).0.sleepers.len(),
{
    if s.monotonic > m.monotonic {
        let q = m.sleepers.insert(insertion_index(m.sleepers, s.monotonic as int) as int, s);
        lemma_release(m.waiters, q.len());
    }
}

proof fn lemma_advanced_wf<S>(m: ClockModel<S>, d: nat)
    requires
        m.wf(),
    ensures
        m.advanced(d as int).0.wf(),
{
    lemma_cascade_wf(m.sleepers, m.waiters, m.monotonic + d);
}

proof fn lemma_still_pending<S>(m: ClockModel<S>, ds: Seq<nat>, i: int)
    requires
        m.wf(),
        0 <= i < m.sleepers.len(),
        m.sleepers[i].monotonic > m.monotonic + total(ds),
    ensures
        advanced_by_all(m, ds).wf(),
        exists|k: int|
            0 <= k < advanced_by_all(m, ds).sleepers.len() && advanced_by_all(m, ds).sleepers[k]
                == m.sleepers[i],
    decreases ds.len(),
{
    if ds.len() > 0 {
        let prefix = ds.drop_last();
        let p = advanced_by_all(m, prefix);
        let d = ds.last();
        lemma_total_prefix(ds, ds.len() - 1, ds.len() - 1);
        assert(ds.take(ds.len() - 1) =~= prefix);
        lemma_still_pending(m, prefix, i);
        let k = choose|k: int| 0 <= k < p.sleepers.len() && p.sleepers[k] == m.sleepers[i];
        lemma_advanced_wf(p, d);
        lemma_advance_fires_in_order(p, d);
        lemma_due_count(p.sleepers, p.monotonic + d);
        lemma_advanced_by_all(m, prefix);
        let due = due_count(p.sleepers, p.monotonic + d) as int;
        assert(k >= due);
        assert(advanced_by_all(m, ds).sleepers[k - due] == m.sleepers[i]);
    } else {
        assert(m.sleepers[i] == m.sleepers[i]);
    }
}

/// A pending sleeper is woken by any run of advances whose total brings
/// monotonic time to its target: one of those advances fires it.
pub proof fn lemma_sleeper_wakes_eventually<S>(m: ClockModel<S>, ds: Seq<nat>, i: int)
    requires
        m.wf(),
        0 <= i < m.sleepers.len(),
        m.sleepers[i].monotonic <= m.monotonic + total(ds),
    ensures
        exists|n: int, j: int|
            0 <= n < ds.len() && 0 <= j < advanced_by_all(m, ds.take(n)).advanced(
                ds[n] as int,
            ).1.len() && advanced_by_all(m, ds.take(n)).advanced(ds[n] as int).1[j]
                == Fired::Sleeper(m.sleepers[i]),
    decreases ds.len(),
{
    let last = ds.len() - 1;
    let prefix = ds.drop_last();
    assert(ds.len() > 0);
    assert(ds.take(last) =~= prefix);
    if m.sleepers[i].monotonic <= m.monotonic + total(prefix) {
        lemma_sleeper_wakes_eventually(m, prefix, i);
        let (n, j) = choose|n: int, j: int|
            0 <= n < prefix.len() && 0 <= j < advanced_by_all(m, prefix.take(n)).advanced(
                prefix[n] as int,
            ).1.len() && advanced_by_all(m, prefix.take(n)).advanced(prefix[n] as int).1[j]
                == Fired::Sleeper(m.sleepers[i]);
        assert(prefix.take(n) =~= ds.take(n));
        assert(prefix[n] == ds[n]);
    } else {
        lemma_still_pending(m, prefix, i);
        let p = advanced_by_all(m, prefix);
        let k = choose|k: int| 0 <= k < p.sleepers.len() && p.sleepers[k] == m.sleepers[i];
        lemma_advanced_by_all(m, prefix);
        lemma_sleeper_wakes(p, ds[last], k);
    }
}

/// Every advance in turn, from `m`, by the durations `ds`.
pub open spec fn advanced_by_all<S>(m: ClockModel<S>, ds: Seq<nat>) -> ClockModel<S>
    decreases ds.len(),
{
    if ds.len() == 0 {
        m
    } else {
        advanced_by_all(m, ds.drop_last()).advanced(ds.last() as int).0
    }
}

/// The sum of the durations `ds`.
pub open spec fn total(ds: Seq<nat>) -> int
    decreases ds.len(),
{
    if ds.len() == 0 {
        0
    } else {
        total(ds.drop_last()) + ds.last()
    }
}

proof fn lemma_advanced_by_all<S>(m: ClockModel<S>, ds: Seq<nat>)
    ensures
        advanced_by_all(m, ds).monotonic == m.monotonic + total(ds),
        advanced_by_all(m, ds).wall == m.wall + total(ds),
    decreases ds.len(),
{
    if ds.len() > 0 {
        lemma_advanced_by_all(m, ds.drop_last());
    }
}

proof fn lemma_total_prefix(ds: Seq<nat>, i: int, j: int)
    requires
        0 <= i <= j <= ds.len(),
    ensures
        0 <= total(ds.take(i)) <= total(ds.take(j)),
    decreases j,
{
    if j > 0 {
        assert(ds.take(j).drop_last() =~= ds.take(j - 1));
        if i < j {
            lemma_total_prefix(ds, i, j - 1);
        } else {
            lemma_total_prefix(ds, i - 1, j - 1);
        }
    } else {
        assert(ds.take(0) =~= Seq::<nat>::empty());
    }
}

/// Over any run of advances neither cursor moves backward, and at every
/// point both have moved from their starting values by the same total: the
/// sum of the durations so far.
pub proof fn lemma_cursors_move_together<S>(m: ClockModel<S>, ds: Seq<nat>, i: int, j: int)
    requires
        0 <= i <= j <= ds.len(),
    ensures
        m.monotonic <= advanced_by_all(m, ds.take(i)).monotonic <= advanced_by_all(
            m,
            ds.take(j),
        ).monotonic,
        m.wall <= advanced_by_all(m, ds.take(i)).wall <= advanced_by_all(m, ds.take(j)).wall,
        advanced_by_all(m, ds.take(j)).monotonic - m.monotonic == total(ds.take(j)),
        advanced_by_all(m, ds.take(j)).wall - m.wall == total(ds.take(j)),
{
    lemma_advanced_by_all(m, ds.take(i));
    lemma_advanced_by_all(m, ds.take(j));
    lemma_total_prefix(ds, i, j);
}

} // verus!
