//! Hand written futures and streams as poll state machines.
//!
//! Each `poll` decides, from the state and (for the futures that watch a
//! shared tick counter) the counter value handed in, whether the value is
//! ready. A
//! `NotReady` answer asks the caller to arrange to be polled again: the
//! executor glue wakes the current task (or registers it with the timer) and
//! reports "not ready" to its executor.

use vstd::prelude::*;

verus! {

/// The answer of one poll.
#[derive(Debug, PartialEq, Eq)]
pub enum Async<T> {
    /// The value is available.
    Ready(T),
    /// Not yet; poll again later.
    NotReady,
}

/// A future that is ready at once with `()`.
pub struct Poller;

impl Poller {
    /// Always ready.
    pub fn poll(&mut self) -> (res: Async<()>)
        ensures
            res == Async::Ready(()),
    {
        Async::Ready(())
    }
}

/// A future that answers "not ready" `n` times and then is ready with
/// `answer`.
pub struct PollMeNTimes<T> {
    /// How many more polls answer "not ready".
    pub n: u64,
    /// The value the future finally yields.
    pub answer: T,
}

/// One poll of a `PollMeNTimes`: the state afterwards and the answer.
pub open spec fn poll_me_step<T>(st: PollMeNTimes<T>) -> (PollMeNTimes<T>, Async<T>) {
    if st.n != 0 {
        (PollMeNTimes { n: (st.n - 1) as u64, answer: st.answer }, Async::NotReady)
    } else {
        (st, Async::Ready(st.answer))
    }
}

/// The state of a `PollMeNTimes` after `k` polls.
pub open spec fn poll_me_steps<T>(st: PollMeNTimes<T>, k: nat) -> PollMeNTimes<T>
    decreases k,
{
    if k == 0 {
        st
    } else {
        poll_me_steps(poll_me_step(st).0, (k - 1) as nat)
    }
}

impl<T: Copy> PollMeNTimes<T> {
    /// Counts one "not ready" down, or is ready with the answer once none are
    /// left.
    pub fn poll(&mut self) -> (res: Async<T>)
        ensures
            (*final(self), res) == poll_me_step(*old(self)),
    {
        if self.n != 0 {
            self.n = self.n - 1;
            Async::NotReady
        } else {
            Async::Ready(self.answer)
        }
    }
}

/// Law: a `PollMeNTimes` with `n` answers left says "not ready" to each of
/// its first `n` polls and is ready with its answer at poll `n + 1` (and at
/// every poll after).
pub proof fn lemma_ready_after_n_polls<T>(st: PollMeNTimes<T>, k: nat)
    ensures
        k < st.n ==> poll_me_step(poll_me_steps(st, k)).1 == Async::<T>::NotReady,
        k >= st.n ==> poll_me_step(poll_me_steps(st, k)).1 == Async::Ready(st.answer),
    decreases k,
{
    if k > 0 {
        lemma_ready_after_n_polls(poll_me_step(st).0, (k - 1) as nat);
    }
}

/// A future that is ready with its value at the first poll and never again.
pub struct MyOk<T>(pub Option<T>);

/// One poll of a `MyOk` holding `held`: what it holds afterwards and the
/// answer.
pub open spec fn my_ok_step<T>(held: Option<T>) -> (Option<T>, Async<T>) {
    match held {
        Some(t) => (None, Async::Ready(t)),
        None => (None, Async::NotReady),
    }
}

impl<T> MyOk<T> {
    /// A future holding `t`.
    pub fn new(t: T) -> (f: Self)
        ensures
            f.0 == Some(t),
    {
        MyOk(Some(t))
    }

    /// Hands the value out if it is still held.
    pub fn poll(&mut self) -> (res: Async<T>)
        ensures
            (final(self).0, res) == my_ok_step(old(self).0),
    {
        match self.0.take() {
            Some(t) => Async::Ready(t),
            None => Async::NotReady,
        }
    }
}

/// Law: a new `MyOk` is ready with its value at the first poll, and answers
/// "not ready" to the poll after, and to every one after that.
pub proof fn lemma_my_ok_ready_once<T>(t: T)
    ensures
        my_ok_step(Some(t)).1 == Async::Ready(t),
        my_ok_step(my_ok_step(Some(t)).0).1 == Async::<T>::NotReady,
        my_ok_step(my_ok_step(Some(t)).0).0 == my_ok_step(Some(t)).0,
{
}

/// One poll of a counter future or stream that last saw `last`, given the
/// counter's value `cur`: the value it remembers afterwards, and whether the
/// counter moved.
pub open spec fn tick_step(last: usize, cur: usize) -> (usize, bool) {
    (cur, last != cur)
}

/// A future over a shared tick counter: ready with the counter each time it
/// has moved since the last value handed out.
pub struct IntervalFut {
    last: usize,
}

impl IntervalFut {
    /// The counter value last handed out (at first, the value at creation).
    pub closed spec fn last_seen(&self) -> usize {
        self.last
    }

    /// A future that starts from the current counter value `counter`.
    pub fn new(counter: usize) -> (f: Self)
        ensures
            f.last_seen() == counter,
    {
        IntervalFut { last: counter }
    }

    /// Given the counter's current value `cur`: not ready while it equals the
    /// last value handed out, else ready with `cur`, which becomes the last
    /// value.
    pub fn poll(&mut self, cur: usize) -> (res: Async<usize>)
        ensures
            final(self).last_seen() == tick_step(old(self).last_seen(), cur).0,
            res == if tick_step(old(self).last_seen(), cur).1 {
                Async::Ready(cur)
            } else {
                Async::<usize>::NotReady
            },
    {
        if self.last == cur {
            Async::NotReady
        } else {
            self.last = cur;
            Async::Ready(cur)
        }
    }
}

/// A stream over a shared tick counter: yields the counter each time it has
/// moved since the last value yielded, and never ends.
pub struct TimeoutStream {
    last: usize,
}

impl TimeoutStream {
    /// The counter value last yielded (at first, the value at creation).
    pub closed spec fn last_seen(&self) -> usize {
        self.last
    }

    /// A stream that starts from the current counter value `counter`.
    pub fn new(counter: usize) -> (f: Self)
        ensures
            f.last_seen() == counter,
    {
        TimeoutStream { last: counter }
    }

    /// Given the counter's current value `cur`: not ready while it equals the
    /// last value yielded (the caller then registers its task to be woken on
    /// the next tick), else yields `cur`, which becomes the last value.
    pub fn poll(&mut self, cur: usize) -> (res: Async<Option<usize>>)
        ensures
            final(self).last_seen() == tick_step(old(self).last_seen(), cur).0,
            res == if tick_step(old(self).last_seen(), cur).1 {
                Async::Ready(Some(cur))
            } else {
                Async::<Option<usize>>::NotReady
            },
    {
        if cur == self.last {
            Async::NotReady
        } else {
            self.last = cur;
            Async::Ready(Some(cur))
        }
    }
}

/// Law: a counter future or stream reports a counter value at most once in
/// a row: polled again with the same counter, it answers "not ready"; and it
/// is ready exactly when the counter differs from the last value reported.
pub proof fn lemma_tick_reported_once(last: usize, cur: usize)
    ensures
        !tick_step(tick_step(last, cur).0, cur).1,
        tick_step(last, cur).1 <==> last != cur,
{
}

/// The value a timeout stream's consumer reports for a tick: twice the
/// counter; the caller keeps the counter within `usize::MAX / 2`, as the
/// doubling overflows past it.
pub fn doubled(cur: usize) -> (d: usize)
    requires
        cur <= usize::MAX / 2,
    ensures
        d == 2 * cur,
{
    cur * 2
}

} // verus!
