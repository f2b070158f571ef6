//! The state machine of a wait group.
//!
//! A wait group counts guards. While the group is open, guards are acquired
//! and released freely. `wait` consumes the group, so that no guard can be
//! acquired any more, and gives a waiter that is polled until every guard
//! has been released. The first poll registers a waker; the release that
//! brings the count to zero wakes it.
//!
//! The types here hold the counter as a plain number and change it through
//! `&mut`: they say what each step decides. Sharing the counter between
//! tasks, and the waker itself, are left to the caller.

use vstd::prelude::*;

verus! {

/// What a poll of the waiter answers.
#[derive(Debug, Clone, Copy, PartialEq, Eq, Structural)]
pub enum Poll {
    /// Every guard has been released.
    Ready,
    /// Some guard is still held.
    Pending,
}

/// What can happen to a waiter: a guard is released, or the waiter is polled.
pub enum Event {
    Release,
    Poll,
}

/// A waiter as a mathematical value.
pub struct WaiterView {
    /// The number of guards that have not been released.
    pub counter: nat,
    /// Whether a poll has registered a waker.
    pub registered: bool,
}

impl WaiterView {
    /// Whether the event can happen: a guard can be released only while one
    /// is held.
    pub open spec fn admits(self, event: Event) -> bool {
        event is Release ==> self.counter > 0
    }

    /// The waiter after the event.
    pub open spec fn step(self, event: Event) -> WaiterView {
        match event {
            Event::Release => WaiterView { counter: (self.counter - 1) as nat, ..self },
            Event::Poll => WaiterView { registered: true, ..self },
        }
    }

    /// Whether the event is the release of the last guard, which calls the
    /// waker.
    pub open spec fn wakes(self, event: Event) -> bool {
        event is Release && self.counter == 1
    }

    /// Whether a poll answers that the waiter is ready.
    pub open spec fn ready(self) -> bool {
        self.counter == 0
    }

    /// Whether the events can happen one after the other.
    pub open spec fn admits_all(self, events: Seq<Event>) -> bool
        decreases events.len(),
    {
        events.len() > 0 ==> self.admits_all(events.drop_last()) && self.run(
            events.drop_last(),
        ).admits(events.last())
    }

    /// The waiter after the events have happened one after the other.
    pub open spec fn run(self, events: Seq<Event>) -> WaiterView
        decreases events.len(),
    {
        if events.len() == 0 {
            self
        } else {
            self.run(events.drop_last()).step(events.last())
        }
    }
}

/// How many of the events are releases.
pub open spec fn releases(events: Seq<Event>) -> nat
    decreases events.len(),
{
    if events.len() == 0 {
        0
    } else {
        releases(events.drop_last()) + if events.last() is Release {
            1nat
        } else {
            0nat
        }
    }
}

/// Whether the release that found `outstanding` guards, its own among
/// them, was the last one: then the waker is to be called.
pub fn is_last_release(outstanding: usize) -> (last: bool)
    requires
        outstanding > 0,
    ensures
        last == (outstanding == 1),
{
    outstanding - 1 == 0
}

/// Whether a poll has to register the waker of its context before it reads
/// the counter: on the first poll, and whenever the context is another one
/// than the one whose waker is registered.
pub fn must_register(initialized: bool, context_changed: bool) -> (register: bool)
    ensures
        register == (!initialized || context_changed),
{
    !initialized || context_changed
}

/// What a poll answers that reads `outstanding` from the counter.
pub fn poll_answer(outstanding: usize) -> (poll: Poll)
    ensures
        poll is Ready <==> outstanding == 0,
{
    if outstanding == 0 {
        Poll::Ready
    } else {
        Poll::Pending
    }
}

/// A handle whose existence counts as one in its wait group.
#[derive(Debug)]
pub struct WaitGroupGuard {
    token: (),
}

/// A [`WaitGroup`] waits for all acquired [`WaitGroupGuard`] to be released.
#[derive(Debug)]
pub struct WaitGroup {
    counter: usize,
}

impl WaitGroup {
    /// The number of guards that have been acquired and not released.
    pub closed spec fn outstanding(&self) -> nat {
        self.counter as nat
    }

    /// A group without guards.
    pub fn new() -> (group: Self)
        ensures
            group.outstanding() == 0,
    {
        Self { counter: 0 }
    }

    /// Acquire a [`WaitGroupGuard`] for the [`WaitGroup`] to wait for.
    pub fn acquire(&mut self) -> (guard: WaitGroupGuard)
        requires
            old(self).outstanding() < usize::MAX,
        ensures
            final(self).outstanding() == old(self).outstanding() + 1,
    {
        self.counter = self.counter + 1;
        WaitGroupGuard { token: () }
    }

    /// Releases a guard while the group is still open. No waker is
    /// registered yet, so nobody is woken, and the count may rise again.
    /// Answers whether the guard was the last one held.
    pub fn release(&mut self, guard: WaitGroupGuard) -> (last: bool)
        requires
            old(self).outstanding() > 0,
        ensures
            final(self).outstanding() == old(self).outstanding() - 1,
            last == (final(self).outstanding() == 0),
    {
        let last = is_last_release(self.counter);
        self.counter = self.counter - 1;
        last
    }

    /// Consume the [`WaitGroup`] and generate a [`WaitGroupFuture`]. From
    /// here on no guard can be acquired.
    pub fn wait(self) -> (future: WaitGroupFuture)
        ensures
            future@ == (WaiterView { counter: self.outstanding(), registered: false }),
    {
        WaitGroupFuture { counter: self.counter, initialized: false }
    }
}

impl Default for WaitGroup {
    fn default() -> (group: Self)
        ensures
            group.outstanding() == 0,
    {
        Self::new()
    }
}

/// A [`WaitGroupFuture`] is generated by [`WaitGroup::wait`].
///
/// A [`WaitGroupFuture`] will not be ready until all related
/// [`WaitGroupGuard`]s are released.
#[must_use]
#[derive(Debug)]
pub struct WaitGroupFuture {
    counter: usize,
    initialized: bool,
}

impl View for WaitGroupFuture {
    type V = WaiterView;

    closed spec fn view(&self) -> WaiterView {
        WaiterView { counter: self.counter as nat, registered: self.initialized }
    }
}

impl WaitGroupFuture {
    /// Releases a guard. Answers whether the waker is to be called: that
    /// is, whether the guard was the last one held.
    pub fn release(&mut self, guard: WaitGroupGuard) -> (wake: bool)
        requires
            old(self)@.counter > 0,
        ensures
            final(self)@ == old(self)@.step(Event::Release),
            wake == old(self)@.wakes(Event::Release),
    {
        let wake = is_last_release(self.counter);
        self.counter = self.counter - 1;
        wake
    }

    /// Polls the waiter: registers the waker on the first poll, then reads
    /// the counter. Ready if and only if no guard is held.
    pub fn poll(&mut self) -> (poll: Poll)
        ensures
            final(self)@ == old(self)@.step(Event::Poll),
            poll is Ready <==> old(self)@.ready(),
    {
        if must_register(self.initialized, false) {
            self.initialized = true;
        }
        poll_answer(self.counter)
    }
}

/// Once the group is consumed the count never rises: whatever happens to
/// the waiter, no more guards are held afterwards than before.
pub proof fn lemma_counter_never_rises(waiter: WaiterView, events: Seq<Event>)
    requires
        waiter.admits_all(events),
    ensures
        waiter.run(events).counter + releases(events) == waiter.counter,
        waiter.run(events).counter <= waiter.counter,
    decreases events.len(),
{
    if events.len() > 0 {
        lemma_counter_never_rises(waiter, events.drop_last());
    }
}

/// The waiter is ready exactly when every guard that was held when the
/// group was consumed has been released.
pub proof fn lemma_ready_iff_all_released(waiter: WaiterView, events: Seq<Event>)
    requires
        waiter.admits_all(events),
    ensures
        waiter.run(events).ready() <==> releases(events) == waiter.counter,
{
    lemma_counter_never_rises(waiter, events);
}

/// A waiter that is ready stays ready: once the count is zero it is zero
/// after whatever happens next, and every later poll answers ready.
pub proof fn lemma_ready_stays_ready(waiter: WaiterView, events: Seq<Event>)
    requires
        waiter.ready(),
        waiter.admits_all(events),
    ensures
        waiter.run(events).ready(),
{
    lemma_counter_never_rises(waiter, events);
}

/// A poll registers the waker, and it stays registered.
pub proof fn lemma_stays_registered(waiter: WaiterView, events: Seq<Event>)
    requires
        waiter.registered,
    ensures
        waiter.run(events).registered,
    decreases events.len(),
{
    if events.len() > 0 {
        lemma_stays_registered(waiter, events.drop_last());
    }
}

/// The waiter is woken. Where a waiter that has registered its waker
/// while guards were held becomes ready, one of the events on the way was
/// the release of the last guard, which called the waker.
pub proof fn lemma_woken_before_ready(waiter: WaiterView, events: Seq<Event>) -> (at: int)
    requires
        waiter.registered,
        !waiter.ready(),
        waiter.admits_all(events),
        waiter.run(events).ready(),
    ensures
        0 <= at < events.len(),
        waiter.run(events.take(at)).registered,
        waiter.run(events.take(at)).wakes(events[at]),
        waiter.run(events.take(at + 1)).ready(),
    decreases events.len(),
{
    let front = events.drop_last();
    assert(events.len() > 0);
    if waiter.run(front).ready() {
        let at = lemma_woken_before_ready(waiter, front);
        assert(front.take(at) =~= events.take(at));
        assert(front.take(at + 1) =~= events.take(at + 1));
        at
    } else {
        let at = events.len() - 1;
        assert(events.take(at) =~= front);
        assert(events.take(at + 1) =~= events);
        lemma_stays_registered(waiter, front);
        at
    }
}

} // verus!
