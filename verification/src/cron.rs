//! Scheduled callbacks: a list of tasks that is polled once per frame with
//! the time that has passed. A task is called every so often, or once
//! after a while, with the context that the poll hands in.

use crate::timing::{longest, nanos, no_time, span_add, span_reached, span_sub};
use std::marker::PhantomData;
use std::time::Duration;
use vstd::prelude::*;

verus! {

/// What a recurring task wants after a call: to be called again, or to be
/// taken off the list.
#[derive(Debug, Copy, Clone, Eq, PartialEq, Structural)]
pub enum ControlFlow {
    Continue,
    Stop,
}

impl From<()> for ControlFlow {
    fn from(nothing: ()) -> (flow: ControlFlow) {
        ControlFlow::Continue
    }
}

impl vstd::std_specs::convert::FromSpecImpl<()> for ControlFlow {
    open spec fn obeys_from_spec() -> bool {
        true
    }

    open spec fn from_spec(nothing: ()) -> ControlFlow {
        ControlFlow::Continue
    }
}

/// What a task may answer: nothing, which stands for going on, or a
/// `ControlFlow`.
pub trait Answer: Sized {
    /// What the answer asks for.
    spec fn asks(self) -> ControlFlow;

    /// What the answer asks for.
    fn flow(self) -> (flow: ControlFlow)
        ensures
            flow == self.asks(),
    ;
}

impl Answer for () {
    open spec fn asks(self) -> ControlFlow {
        ControlFlow::Continue
    }

    fn flow(self) -> (flow: ControlFlow) {
        ControlFlow::Continue
    }
}

impl Answer for ControlFlow {
    open spec fn asks(self) -> ControlFlow {
        self
    }

    fn flow(self) -> (flow: ControlFlow) {
        self
    }
}

/// The handle of a scheduled task.
#[derive(Copy, Clone, Debug, Ord, PartialOrd, Eq, PartialEq)]
pub struct ID(pub usize);

/// A task as the contracts see it: its handle, its interval and the time
/// that has run since it was scheduled or last called, both in
/// nanoseconds, and its handler.
pub struct TimerView<F> {
    pub id: usize,
    pub t: u128,
    pub running: u128,
    pub callback: F,
}

/// A task that is called every `t`.
pub struct Every<F> {
    pub id: usize,
    pub t: Duration,
    pub running: Duration,
    pub callback: F,
}

/// A task that is called once, after `t`.
pub struct After<F> {
    pub id: usize,
    pub t: Duration,
    pub running: Duration,
    pub callback: F,
}

impl<F> View for Every<F> {
    type V = TimerView<F>;

    open spec fn view(&self) -> TimerView<F> {
        TimerView {
            id: self.id,
            t: nanos(self.t),
            running: nanos(self.running),
            callback: self.callback,
        }
    }
}

impl<F> View for After<F> {
    type V = TimerView<F>;

    open spec fn view(&self) -> TimerView<F> {
        TimerView {
            id: self.id,
            t: nanos(self.t),
            running: nanos(self.running),
            callback: self.callback,
        }
    }
}

/// The task list. `T` is the context that the tasks are called with.
pub struct Cron<T, F> {
    pub index: usize,
    pub t: Duration,
    pub every_callbacks: Vec<Every<F>>,
    pub after_callbacks: Vec<After<F>>,
    pub context: PhantomData<T>,
}

/// The task may be called with any context.
pub open spec fn callable<T, C, F: Fn(&mut T) -> C>(callback: F) -> bool {
    forall|ctx: &mut T| call_requires(callback, (ctx,))
}

/// Every one of `timers` may be called with any context.
pub open spec fn timers_callable<T, C, F: Fn(&mut T) -> C>(timers: Seq<TimerView<F>>) -> bool {
    forall|i: int| 0 <= i < timers.len() ==> callable::<T, C, F>((#[trigger] timers[i]).callback)
}

/// A task with `dt` more on its clock.
pub open spec fn later<F>(timer: TimerView<F>, dt: u128) -> TimerView<F> {
    TimerView { running: (timer.running + dt) as u128, ..timer }
}

/// A recurring task is due when `dt` more reaches its interval.
pub open spec fn every_due<F>(timer: TimerView<F>, dt: u128) -> bool {
    timer.running + dt >= timer.t
}

/// A recurring task after `dt` more has passed: the time that has run,
/// less the interval once it has been reached.
pub open spec fn every_stepped<F>(timer: TimerView<F>, dt: u128) -> TimerView<F> {
    if every_due(timer, dt) {
        TimerView { running: (timer.running + dt - timer.t) as u128, ..timer }
    } else {
        later(timer, dt)
    }
}

/// The recurring tasks that are left of `timers` after `dt` has passed,
/// where `stops` tells of each task that was called whether it asked to be
/// taken off the list.
pub open spec fn every_left<F>(timers: Seq<TimerView<F>>, dt: u128, stops: Seq<bool>) -> Seq<
    TimerView<F>,
>
    decreases timers.len(),
{
    if timers.len() == 0 || stops.len() != timers.len() {
        Seq::empty()
    } else {
        let before = every_left(timers.drop_last(), dt, stops.drop_last());
        if every_due(timers.last(), dt) && stops.last() {
            before
        } else {
            before.push(every_stepped(timers.last(), dt))
        }
    }
}

/// A task that waits to be called once stays on the list while its time
/// has not come, also not with `dt` more.
pub open spec fn after_waits<F>(timer: TimerView<F>, dt: u128) -> bool {
    timer.running < timer.t && timer.running + dt < timer.t
}

/// The time of a task that waits to be called once comes with `dt` more.
pub open spec fn after_fires<F>(timer: TimerView<F>, dt: u128) -> bool {
    timer.running < timer.t && timer.running + dt >= timer.t
}

/// The once-only tasks that are left of `timers` after `dt` has passed:
/// those whose time has not come, each with `dt` more on its clock.
pub open spec fn after_left<F>(timers: Seq<TimerView<F>>, dt: u128) -> Seq<TimerView<F>>
    decreases timers.len(),
{
    if timers.len() == 0 {
        Seq::empty()
    } else {
        let before = after_left(timers.drop_last(), dt);
        if after_waits(timers.last(), dt) {
            before.push(later(timers.last(), dt))
        } else {
            before
        }
    }
}

/// The `i`-th of `timers` is the first with handle `id`.
pub open spec fn is_first<F>(timers: Seq<TimerView<F>>, id: usize, i: int) -> bool {
    &&& 0 <= i < timers.len()
    &&& timers[i].id == id
    &&& forall|k: int| 0 <= k < i ==> (#[trigger] timers[k]).id != id
}

/// None of `timers` has handle `id`.
pub open spec fn absent<F>(timers: Seq<TimerView<F>>, id: usize) -> bool {
    forall|k: int| 0 <= k < timers.len() ==> (#[trigger] timers[k]).id != id
}

/// Tasks that may be called may still be called when one of them has left.
pub proof fn lemma_callable_remove<T, C, F: Fn(&mut T) -> C>(timers: Seq<TimerView<F>>, i: int)
    requires
        timers_callable::<T, C, F>(timers),
        0 <= i < timers.len(),
    ensures
        timers_callable::<T, C, F>(timers.remove(i)),
{
    let rest = timers.remove(i);
    assert forall|k: int| 0 <= k < rest.len() implies callable::<T, C, F>(
        (#[trigger] rest[k]).callback,
    ) by {
        if k < i {
            assert(rest[k] == timers[k]);
        } else {
            assert(rest[k] == timers[k + 1]);
        }
    }
}

/// Tasks that may be called and one more that may be called may all be
/// called.
pub proof fn lemma_callable_push<T, C, F: Fn(&mut T) -> C>(
    timers: Seq<TimerView<F>>,
    timer: TimerView<F>,
)
    requires
        timers_callable::<T, C, F>(timers),
        callable::<T, C, F>(timer.callback),
    ensures
        timers_callable::<T, C, F>(timers.push(timer)),
{
    let more = timers.push(timer);
    assert forall|k: int| 0 <= k < more.len() implies callable::<T, C, F>(
        (#[trigger] more[k]).callback,
    ) by {
        if k < timers.len() {
            assert(more[k] == timers[k]);
        }
    }
}

/// The recurring tasks that are left may be called if all could.
pub proof fn lemma_callable_every_left<T, C, F: Fn(&mut T) -> C>(
    timers: Seq<TimerView<F>>,
    dt: u128,
    stops: Seq<bool>,
)
    requires
        timers_callable::<T, C, F>(timers),
    ensures
        timers_callable::<T, C, F>(every_left(timers, dt, stops)),
    decreases timers.len(),
{
    if timers.len() > 0 && stops.len() == timers.len() {
        let rest = timers.drop_last();
        assert forall|k: int| 0 <= k < rest.len() implies callable::<T, C, F>(
            (#[trigger] rest[k]).callback,
        ) by {
            assert(rest[k] == timers[k]);
        }
        lemma_callable_every_left::<T, C, F>(rest, dt, stops.drop_last());
        assert(callable::<T, C, F>(timers[timers.len() - 1].callback));
        if !(every_due(timers.last(), dt) && stops.last()) {
            lemma_callable_push::<T, C, F>(
                every_left(rest, dt, stops.drop_last()),
                every_stepped(timers.last(), dt),
            );
        }
    }
}

/// The once-only tasks that are left may be called if all could.
pub proof fn lemma_callable_after_left<T, C, F: Fn(&mut T) -> C>(
    timers: Seq<TimerView<F>>,
    dt: u128,
)
    requires
        timers_callable::<T, C, F>(timers),
    ensures
        timers_callable::<T, C, F>(after_left(timers, dt)),
    decreases timers.len(),
{
    if timers.len() > 0 {
        let rest = timers.drop_last();
        assert forall|k: int| 0 <= k < rest.len() implies callable::<T, C, F>(
            (#[trigger] rest[k]).callback,
        ) by {
            assert(rest[k] == timers[k]);
        }
        lemma_callable_after_left::<T, C, F>(rest, dt);
        assert(callable::<T, C, F>(timers[timers.len() - 1].callback));
        if after_waits(timers.last(), dt) {
            lemma_callable_push::<T, C, F>(after_left(rest, dt), later(timers.last(), dt));
        }
    }
}

/// Whether a recurring task stays on the list after it was called.
pub fn stays(flow: ControlFlow) -> (keep: bool)
    ensures
        keep == (flow == ControlFlow::Continue),
{
    match flow {
        ControlFlow::Continue => true,
        ControlFlow::Stop => false,
    }
}

impl<T, F> Default for Cron<T, F> {
    fn default() -> (cron: Self)
        ensures
            cron.index == 0,
            nanos(cron.t) == 0,
            cron.every_callbacks@.len() == 0,
            cron.after_callbacks@.len() == 0,
    {
        Cron {
            index: 0,
            t: no_time(),
            every_callbacks: Vec::new(),
            after_callbacks: Vec::new(),
            context: PhantomData,
        }
    }
}

impl<T, C: Answer, F: Fn(&mut T) -> C> Cron<T, F> {
    /// The recurring tasks, in the order of the list.
    pub open spec fn every_timers(&self) -> Seq<TimerView<F>> {
        self.every_callbacks@.map_values(|task: Every<F>| task@)
    }

    /// The once-only tasks, in the order of the list.
    pub open spec fn after_timers(&self) -> Seq<TimerView<F>> {
        self.after_callbacks@.map_values(|task: After<F>| task@)
    }

    /// Every task of the list may be called with any context.
    pub open spec fn all_callable(&self) -> bool {
        &&& timers_callable::<T, C, F>(self.every_timers())
        &&& timers_callable::<T, C, F>(self.after_timers())
    }

    /// A task with handle `id` is on the list.
    pub open spec fn holds(&self, id: usize) -> bool {
        (exists|i: int| 0 <= i < self.every_timers().len() && (#[trigger] self.every_timers()[i]).id
            == id) || (exists|i: int|
            0 <= i < self.after_timers().len() && (#[trigger] self.after_timers()[i]).id == id)
    }

    /// No clock of the list overflows when `dt` more passes.
    pub open spec fn has_room(&self, dt: Duration) -> bool {
        &&& nanos(self.t) + nanos(dt) <= longest()
        &&& forall|i: int|
            0 <= i < self.every_timers().len() ==> (#[trigger] self.every_timers()[i]).running
                + nanos(dt) <= longest()
        &&& forall|i: int|
            0 <= i < self.after_timers().len() && (#[trigger] self.after_timers()[i]).running
                < self.after_timers()[i].t ==> self.after_timers()[i].running + nanos(dt)
                <= longest()
    }

    /// Schedules `callback` to be called every `t`, for as long as it does
    /// not ask to stop.
    pub fn every(&mut self, t: Duration, callback: F) -> (id: ID)
        requires
            old(self).index < usize::MAX,
        ensures
            id.0 == old(self).index,
            final(self).index == old(self).index + 1,
            final(self).t == old(self).t,
            final(self).every_timers() == old(self).every_timers().push(
                TimerView { id: id.0, t: nanos(t), running: 0, callback },
            ),
            final(self).every_callbacks@.last().callback == callback,
            final(self).after_callbacks == old(self).after_callbacks,
            old(self).all_callable() && callable::<T, C, F>(callback) ==> final(self).all_callable(),
    {
        let id = self.new_id();
        self.every_callbacks.push(Every { id, t, running: no_time(), callback });
        proof {
            let added = TimerView { id, t: nanos(t), running: 0, callback };
            assert(self.every_timers() =~= old(self).every_timers().push(added));
            if old(self).all_callable() && callable::<T, C, F>(callback) {
                lemma_callable_push::<T, C, F>(old(self).every_timers(), added);
            }
        }
        ID(id)
    }

    /// Schedules `callback` to be called once, after `t`.
    pub fn after(&mut self, t: Duration, callback: F) -> (id: ID)
        requires
            old(self).index < usize::MAX,
        ensures
            id.0 == old(self).index,
            final(self).index == old(self).index + 1,
            final(self).t == old(self).t,
            final(self).after_timers() == old(self).after_timers().push(
                TimerView { id: id.0, t: nanos(t), running: 0, callback },
            ),
            final(self).after_callbacks@.last().callback == callback,
            final(self).every_callbacks == old(self).every_callbacks,
            old(self).all_callable() && callable::<T, C, F>(callback) ==> final(self).all_callable(),
    {
        let id = self.new_id();
        self.after_callbacks.push(After { id, t, running: no_time(), callback });
        proof {
            let added = TimerView { id, t: nanos(t), running: 0, callback };
            assert(self.after_timers() =~= old(self).after_timers().push(added));
            if old(self).all_callable() && callable::<T, C, F>(callback) {
                lemma_callable_push::<T, C, F>(old(self).after_timers(), added);
            }
        }
        ID(id)
    }

    /// A handle that no task has had yet.
    fn new_id(&mut self) -> (id: usize)
        requires
            old(self).index < usize::MAX,
        ensures
            id == old(self).index,
            final(self).index == old(self).index + 1,
            final(self).t == old(self).t,
            final(self).every_callbacks == old(self).every_callbacks,
            final(self).after_callbacks == old(self).after_callbacks,
    {
        let id = self.index;
        self.index = self.index + 1;
        id
    }

    /// Takes the task with handle `id` off the list: the first recurring
    /// task with that handle or, if there is none, the first once-only
    /// task with it. Says whether a task was taken off.
    pub fn remove(&mut self, id: ID) -> (removed: bool)
        ensures
            removed == old(self).holds(id.0),
            final(self).index == old(self).index,
            final(self).t == old(self).t,
            forall|i: int|
                is_first(old(self).every_timers(), id.0, i) ==> final(self).every_timers() == old(self).every_timers().remove(i)
                    && final(self).after_callbacks == old(self).after_callbacks,
            absent(old(self).every_timers(), id.0) ==> final(self).every_callbacks == old(self).every_callbacks,
            forall|j: int|
                absent(old(self).every_timers(), id.0) && is_first(
                    old(self).after_timers(),
                    id.0,
                    j,
                ) ==> final(self).after_timers() == old(self).after_timers().remove(j),
            !old(self).holds(id.0) ==> final(self).after_callbacks == old(self).after_callbacks,
            old(self).all_callable() ==> final(self).all_callable(),
    {
        let wanted = id.0;
        let ghost every_before = self.every_callbacks@;
        let ghost after_before = self.after_callbacks@;
        let mut i: usize = 0;
        while i < self.every_callbacks.len()
            invariant
                wanted == id.0,
                i <= self.every_callbacks.len(),
                self.every_callbacks@ == every_before,
                self.after_callbacks@ == after_before,
                *self == *old(self),
                forall|k: int| 0 <= k < i ==> (#[trigger] self.every_timers()[k]).id != wanted,
            decreases self.every_callbacks.len() - i,
        {
            if self.every_callbacks[i].id == wanted {
                self.every_callbacks.remove(i);
                proof {
                    assert(is_first(old(self).every_timers(), wanted, i as int));
                    assert(self.every_timers() =~= old(self).every_timers().remove(i as int));
                    assert forall|k: int| is_first(old(self).every_timers(), wanted, k) implies k
                        == i by {}
                    if old(self).all_callable() {
                        lemma_callable_remove::<T, C, F>(old(self).every_timers(), i as int);
                    }
                }
                return true;
            }
            i = i + 1;
        }
        let mut j: usize = 0;
        while j < self.after_callbacks.len()
            invariant
                wanted == id.0,
                j <= self.after_callbacks.len(),
                self.every_callbacks@ == every_before,
                self.after_callbacks@ == after_before,
                *self == *old(self),
                absent(self.every_timers(), wanted),
                forall|k: int| 0 <= k < j ==> (#[trigger] self.after_timers()[k]).id != wanted,
            decreases self.after_callbacks.len() - j,
        {
            if self.after_callbacks[j].id == wanted {
                self.after_callbacks.remove(j);
                proof {
                    assert(is_first(old(self).after_timers(), wanted, j as int));
                    assert(self.after_timers() =~= old(self).after_timers().remove(j as int));
                    assert forall|k: int| is_first(old(self).after_timers(), wanted, k) implies k
                        == j by {}
                    if old(self).all_callable() {
                        lemma_callable_remove::<T, C, F>(old(self).after_timers(), j as int);
                    }
                }
                return true;
            }
            j = j + 1;
        }
        false
    }

    /// Lets `dt` pass on every clock and calls the tasks whose time has
    /// come, each once, with `ctx`: first the recurring tasks whose interval
    /// is reached, then the once-only tasks whose time has come, each list
    /// in its order. A recurring task that was called stays on the list
    /// unless it asks to stop; a once-only task that was called leaves it,
    /// whatever it answers.
    ///
    /// The contract follows the context from call to call: `ran` holds it
    /// before and after each recurring task, `fired` before and after each
    /// once-only task, and what a call makes of it is what the handler
    /// ensures.
    pub fn update(&mut self, dt: Duration, ctx: &mut T)
        requires
            old(self).all_callable(),
            old(self).has_room(dt),
        ensures
            final(self).index == old(self).index,
            nanos(final(self).t) == nanos(old(self).t) + nanos(dt),
            final(self).after_timers() == after_left(old(self).after_timers(), nanos(dt)),
            final(self).all_callable(),
            exists|stops: Seq<bool>, ran: Seq<T>, fired: Seq<T>|
                #![trigger every_left(old(self).every_timers(), nanos(dt), stops), ran.last(), fired.last()]
                {
                    &&& stops.len() == old(self).every_timers().len()
                    &&& ran.len() == old(self).every_timers().len() + 1
                    &&& fired.len() == old(self).after_timers().len() + 1
                    &&& ran[0] == *old(ctx)
                    &&& fired[0] == ran.last()
                    &&& fired.last() == *final(ctx)
                    &&& final(self).every_timers() == every_left(
                        old(self).every_timers(),
                        nanos(dt),
                        stops,
                    )
                    &&& forall|k: int|
                        0 <= k < old(self).every_timers().len() ==> if #[trigger] every_due(
                            old(self).every_timers()[k],
                            nanos(dt),
                        ) {
                            exists|c: &mut T, answer: C|
                                *c == ran[k] && *final(c) == ran[k + 1] && #[trigger] call_ensures(
                                    old(self).every_timers()[k].callback,
                                    (c,),
                                    answer,
                                ) && stops[k] == (answer.asks() == ControlFlow::Stop)
                        } else {
                            ran[k + 1] == ran[k] && !stops[k]
                        }
                    &&& forall|j: int|
                        0 <= j < old(self).after_timers().len() ==> if #[trigger] after_fires(
                            old(self).after_timers()[j],
                            nanos(dt),
                        ) {
                            exists|c: &mut T, answer: C|
                                *c == fired[j] && *final(c) == fired[j + 1]
                                    && #[trigger] call_ensures(
                                    old(self).after_timers()[j].callback,
                                    (c,),
                                    answer,
                                )
                        } else {
                            fired[j + 1] == fired[j]
                        }
                },
    {
        self.t = span_add(self.t, dt);
        let ghost every_before = self.every_timers();
        let ghost after_before = self.after_timers();
        let ghost step = nanos(dt);
        assert(every_before == old(self).every_timers());
        assert(after_before == old(self).after_timers());
        let ghost mut stops: Seq<bool> = Seq::empty();
        let ghost mut ran: Seq<T> = seq![*ctx];
        let ghost mut done: int = 0;
        let mut i: usize = 0;
        while i < self.every_callbacks.len()
            invariant
                step == nanos(dt),
                self.index == old(self).index,
                nanos(self.t) == nanos(old(self).t) + nanos(dt),
                self.after_callbacks == old(self).after_callbacks,
                timers_callable::<T, C, F>(every_before),
                0 <= done <= every_before.len(),
                stops.len() == done,
                ran.len() == done + 1,
                ran[0] == *old(ctx),
                ran.last() == *ctx,
                i <= self.every_callbacks.len(),
                self.every_callbacks.len() - i == every_before.len() - done,
                self.every_timers().take(i as int) == every_left(
                    every_before.take(done),
                    step,
                    stops,
                ),
                self.every_timers().skip(i as int) == every_before.skip(done),
                forall|k: int|
                    0 <= k < every_before.len() ==> (#[trigger] every_before[k]).running + step
                        <= longest(),
                forall|k: int|
                    0 <= k < done ==> if #[trigger] every_due(every_before[k], step) {
                        exists|c: &mut T, answer: C|
                            *c == ran[k] && *final(c) == ran[k + 1] && #[trigger] call_ensures(
                                every_before[k].callback,
                                (c,),
                                answer,
                            ) && stops[k] == (answer.asks() == ControlFlow::Stop)
                    } else {
                        ran[k + 1] == ran[k] && !stops[k]
                    },
            decreases self.every_callbacks.len() - i,
        {
            let ghost timers = self.every_timers();
            let ghost was = *ctx;
            let ghost ran_before = ran;
            let ghost stops_before = stops;
            let mut task = self.every_callbacks.remove(i);
            proof {
                assert(task@ == timers[i as int]);
                assert(timers[i as int] == timers.skip(i as int)[0]);
                assert(every_before[done] == every_before.skip(done)[0]);
                assert(every_before.take(done + 1).drop_last() =~= every_before.take(done));
            }
            let ghost handler = task.callback;
            let running = span_add(task.running, dt);
            let mut keep = true;
            let ghost mut said: Option<C> = None;
            if span_reached(running, task.t) {
                task.running = span_sub(running, task.t);
                let answer = (task.callback)(ctx);
                proof {
                    said = Some(answer);
                    assert(exists|c: &mut T|
                        *c == was && *final(c) == *ctx && #[trigger] call_ensures(
                            handler,
                            (c,),
                            answer,
                        ));
                }
                keep = stays(answer.flow());
            } else {
                task.running = running;
            }
            proof {
                assert(stops.push(!keep).drop_last() =~= stops);
                assert(task@ == every_stepped(every_before[done], step));
            }
            if keep {
                let ghost entry = task;
                self.every_callbacks.insert(i, task);
                proof {
                    assert(self.every_timers().take(i + 1) =~= timers.take(i as int).push(entry@));
                    assert(self.every_timers().skip(i + 1) =~= timers.skip(i as int).skip(1));
                    assert(every_before.skip(done + 1) =~= every_before.skip(done).skip(1));
                }
                i = i + 1;
            } else {
                proof {
                    assert(self.every_timers().take(i as int) =~= timers.take(i as int));
                    assert(self.every_timers().skip(i as int) =~= timers.skip(i as int).skip(1));
                    assert(every_before.skip(done + 1) =~= every_before.skip(done).skip(1));
                }
            }
            proof {
                stops = stops.push(!keep);
                ran = ran.push(*ctx);
                assert forall|k: int| 0 <= k < done + 1 implies if #[trigger] every_due(
                    every_before[k],
                    step,
                ) {
                    exists|c: &mut T, answer: C|
                        *c == ran[k] && *final(c) == ran[k + 1] && #[trigger] call_ensures(
                            every_before[k].callback,
                            (c,),
                            answer,
                        ) && stops[k] == (answer.asks() == ControlFlow::Stop)
                } else {
                    ran[k + 1] == ran[k] && !stops[k]
                } by {
                    if k < done {
                        assert(ran[k] == ran_before[k] && ran[k + 1] == ran_before[k + 1]
                            && stops[k] == stops_before[k]);
                        if every_due(every_before[k], step) {
                            let (c, answer) = choose|c: &mut T, answer: C|
                                *c == ran_before[k] && *final(c) == ran_before[k + 1]
                                    && #[trigger] call_ensures(
                                    every_before[k].callback,
                                    (c,),
                                    answer,
                                ) && stops_before[k] == (answer.asks() == ControlFlow::Stop);
                            assert(call_ensures(every_before[k].callback, (c,), answer));
                        }
                    } else {
                        assert(ran[k] == was && ran[k + 1] == *ctx && stops[k] == !keep);
                        if every_due(every_before[k], step) {
                            let answer = said.unwrap();
                            let c = choose|c: &mut T|
                                *c == was && *final(c) == *ctx && #[trigger] call_ensures(
                                    handler,
                                    (c,),
                                    answer,
                                );
                            assert(call_ensures(every_before[k].callback, (c,), answer));
                        }
                    }
                }
                done = done + 1;
            }
        }
        proof {
            assert(self.every_timers().take(i as int) =~= self.every_timers());
            assert(every_before.take(done) =~= every_before);
        }
        let ghost mut fired: Seq<T> = seq![*ctx];
        let ghost mut seen: int = 0;
        let mut j: usize = 0;
        while j < self.after_callbacks.len()
            invariant
                step == nanos(dt),
                self.index == old(self).index,
                nanos(self.t) == nanos(old(self).t) + nanos(dt),
                self.every_timers() == every_left(every_before, step, stops),
                timers_callable::<T, C, F>(after_before),
                0 <= seen <= after_before.len(),
                fired.len() == seen + 1,
                fired[0] == ran.last(),
                fired.last() == *ctx,
                j <= self.after_callbacks.len(),
                self.after_callbacks.len() - j == after_before.len() - seen,
                self.after_timers().take(j as int) == after_left(after_before.take(seen), step),
                self.after_timers().skip(j as int) == after_before.skip(seen),
                forall|k: int|
                    0 <= k < after_before.len() && (#[trigger] after_before[k]).running
                        < after_before[k].t ==> after_before[k].running + step <= longest(),
                forall|k: int|
                    0 <= k < seen ==> if #[trigger] after_fires(after_before[k], step) {
                        exists|c: &mut T, answer: C|
                            *c == fired[k] && *final(c) == fired[k + 1] && #[trigger] call_ensures(
                                after_before[k].callback,
                                (c,),
                                answer,
                            )
                    } else {
                        fired[k + 1] == fired[k]
                    },
            decreases self.after_callbacks.len() - j,
        {
            let ghost timers = self.after_timers();
            let ghost every_now = self.every_callbacks@;
            let ghost was = *ctx;
            let ghost fired_before = fired;
            let mut task = self.after_callbacks.remove(j);
            proof {
                assert(task@ == timers[j as int]);
                assert(timers[j as int] == timers.skip(j as int)[0]);
                assert(after_before[seen] == after_before.skip(seen)[0]);
                assert(after_before.take(seen + 1).drop_last() =~= after_before.take(seen));
                assert(self.every_callbacks@ == every_now);
            }
            let ghost handler = task.callback;
            let mut keep = false;
            let ghost mut said: Option<C> = None;
            if !span_reached(task.running, task.t) {
                task.running = span_add(task.running, dt);
                if span_reached(task.running, task.t) {
                    let answer = (task.callback)(ctx);
                    proof {
                        said = Some(answer);
                        assert(exists|c: &mut T|
                            *c == was && *final(c) == *ctx && #[trigger] call_ensures(
                                handler,
                                (c,),
                                answer,
                            ));
                    }
                } else {
                    keep = true;
                }
            }
            assert(keep == after_waits(after_before[seen], step));
            if keep {
                let ghost entry = task;
                self.after_callbacks.insert(j, task);
                proof {
                    assert(self.after_timers().take(j + 1) =~= timers.take(j as int).push(entry@));
                    assert(self.after_timers().skip(j + 1) =~= timers.skip(j as int).skip(1));
                    assert(after_before.skip(seen + 1) =~= after_before.skip(seen).skip(1));
                }
                j = j + 1;
            } else {
                proof {
                    assert(self.after_timers().take(j as int) =~= timers.take(j as int));
                    assert(self.after_timers().skip(j as int) =~= timers.skip(j as int).skip(1));
                    assert(after_before.skip(seen + 1) =~= after_before.skip(seen).skip(1));
                }
            }
            proof {
                fired = fired.push(*ctx);
                assert forall|k: int| 0 <= k < seen + 1 implies if #[trigger] after_fires(
                    after_before[k],
                    step,
                ) {
                    exists|c: &mut T, answer: C|
                        *c == fired[k] && *final(c) == fired[k + 1] && #[trigger] call_ensures(
                            after_before[k].callback,
                            (c,),
                            answer,
                        )
                } else {
                    fired[k + 1] == fired[k]
                } by {
                    if k < seen {
                        assert(fired[k] == fired_before[k] && fired[k + 1] == fired_before[k + 1]);
                        if after_fires(after_before[k], step) {
                            let (c, answer) = choose|c: &mut T, answer: C|
                                *c == fired_before[k] && *final(c) == fired_before[k + 1]
                                    && #[trigger] call_ensures(
                                    after_before[k].callback,
                                    (c,),
                                    answer,
                                );
                            assert(call_ensures(after_before[k].callback, (c,), answer));
                        }
                    } else {
                        assert(fired[k] == was && fired[k + 1] == *ctx);
                        if after_fires(after_before[k], step) {
                            let answer = said.unwrap();
                            let c = choose|c: &mut T|
                                *c == was && *final(c) == *ctx && #[trigger] call_ensures(
                                    handler,
                                    (c,),
                                    answer,
                                );
                            assert(call_ensures(after_before[k].callback, (c,), answer));
                        }
                    }
                }
                seen = seen + 1;
            }
        }
        proof {
            assert(self.after_timers().take(j as int) =~= self.after_timers());
            assert(after_before.take(seen) =~= after_before);
            lemma_callable_every_left::<T, C, F>(every_before, step, stops);
            lemma_callable_after_left::<T, C, F>(after_before, step);
            assert(self.every_timers() == every_left(old(self).every_timers(), nanos(dt), stops));
            assert(fired[0] == ran.last() && fired.last() == *ctx);
        }
    }

    /// Whether a task with handle `id` is on the list.
    pub fn contains(&self, id: ID) -> (found: bool)
        ensures
            found == self.holds(id.0),
    {
        let wanted = id.0;
        let mut i: usize = 0;
        while i < self.every_callbacks.len()
            invariant
                wanted == id.0,
                i <= self.every_callbacks.len(),
                forall|k: int| 0 <= k < i ==> (#[trigger] self.every_timers()[k]).id != wanted,
            decreases self.every_callbacks.len() - i,
        {
            if self.every_callbacks[i].id == wanted {
                assert(self.every_timers()[i as int].id == wanted);
                return true;
            }
            i = i + 1;
        }
        let mut j: usize = 0;
        while j < self.after_callbacks.len()
            invariant
                wanted == id.0,
                j <= self.after_callbacks.len(),
                absent(self.every_timers(), wanted),
                forall|k: int| 0 <= k < j ==> (#[trigger] self.after_timers()[k]).id != wanted,
            decreases self.after_callbacks.len() - j,
        {
            if self.after_callbacks[j].id == wanted {
                assert(self.after_timers()[j as int].id == wanted);
                return true;
            }
            j = j + 1;
        }
        false
    }
}

} // verus!
