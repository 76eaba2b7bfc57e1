//! The round-robin scheduler: which thread runs next, which threads wait
//! for their turn, and which sleep until when.

use std::collections::VecDeque;
use vstd::multiset::*;
use vstd::prelude::*;
use vstd::seq_lib::*;
use crate::memory::stack_allocated;
use crate::memory::stack_allocator::StackError;
use crate::scheduler::thread::{KThread, Launch, State, TICKS};
use crate::vmm::VMM;

pub mod thread;

verus! {

/// The threads of a scheduler.
pub struct Threads {
    /// The threads that wait for their turn, the next one first.
    pub ready: Seq<KThread>,
    /// The threads that sleep, the one that wakes first in front. The first
    /// holds the ticks until it wakes, each other the ticks by which it wakes
    /// later than the one before it.
    pub sleeping: Seq<KThread>,
    /// The thread that runs; `None` while the idle thread runs.
    pub current: Option<KThread>,
    /// The thread that runs when no other can.
    pub idle: KThread,
}

/// The number of ticks until the sleeper at `i` wakes: the ticks of the
/// sleepers up to it, added up.
pub open spec fn wake_time(sleeping: Seq<KThread>, i: int) -> int
    decreases i + 1,
{
    if 0 <= i < sleeping.len() {
        wake_time(sleeping, i - 1) + sleeping[i].quanta
    } else {
        0
    }
}

/// The place of the first sleeper from `i` on that wakes later than in
/// `time` ticks; the number of sleepers if there is none.
pub open spec fn first_later(sleeping: Seq<KThread>, time: int, i: int) -> int
    decreases sleeping.len() - i,
{
    if 0 <= i < sleeping.len() && wake_time(sleeping, i) <= time {
        first_later(sleeping, time, i + 1)
    } else {
        i
    }
}

/// The sleepers after `thread` went to sleep for `time` ticks: it stands
/// behind every sleeper that wakes no later than it, with the ticks by which
/// it wakes later than the one before it, and the sleeper behind it is left
/// with the ticks by which that one wakes later still.
pub open spec fn sleeper_added(sleeping: Seq<KThread>, thread: KThread, time: u8) -> Seq<KThread> {
    let place = first_later(sleeping, time as int, 0);
    let sleeper = thread.asleep((time - wake_time(sleeping, place - 1)) as u8);
    let others = if place < sleeping.len() {
        sleeping.update(
            place,
            sleeping[place].with_quanta((wake_time(sleeping, place) - time) as u8),
        )
    } else {
        sleeping
    };
    others.insert(place, sleeper)
}

/// The place of the first sleeper from `i` on that has ticks left; the
/// number of sleepers if there is none.
pub open spec fn first_asleep(sleeping: Seq<KThread>, i: int) -> int
    decreases sleeping.len() - i,
{
    if 0 <= i < sleeping.len() && sleeping[i].quanta == 0 {
        first_asleep(sleeping, i + 1)
    } else {
        i
    }
}

/// The sleepers after a tick has passed, those that wake now among them:
/// the first has one tick less.
pub open spec fn sleepers_ticked(sleeping: Seq<KThread>) -> Seq<KThread> {
    if sleeping.len() > 0 {
        sleeping.update(0, sleeping[0].with_quanta((sleeping[0].quanta - 1) as u8))
    } else {
        sleeping
    }
}

impl Threads {
    /// Every thread that waits or sleeps has a saved context, the thread
    /// that runs has none and has ticks left, and the sleeper in front has
    /// ticks left.
    pub open spec fn wf(self) -> bool {
        &&& forall|i: int| 0 <= i < self.ready.len() ==> (#[trigger] self.ready[i]).context.is_some()
        &&& forall|i: int|
            0 <= i < self.sleeping.len() ==> (#[trigger] self.sleeping[i]).context.is_some()
        &&& self.sleeping.len() > 0 ==> self.sleeping[0].quanta > 0
        &&& match self.current {
            Some(thread) => {
                &&& thread.context.is_none()
                &&& thread.quanta > 0
                &&& self.idle.context.is_some()
            },
            None => self.idle.context.is_none() && self.idle.quanta > 0,
        }
    }

    /// The thread that runs next when the running thread leaves: the first
    /// that waits for its turn, or the idle thread.
    pub open spec fn successor(self) -> KThread {
        if self.ready.len() > 0 {
            self.ready[0]
        } else {
            self.idle
        }
    }

    /// The threads after the running thread has left and its successor runs,
    /// without the thread that left.
    pub open spec fn handed_over(self) -> Threads {
        if self.ready.len() > 0 {
            Threads {
                ready: self.ready.drop_first(),
                current: Some(self.ready[0].swapped_in()),
                ..self
            }
        } else {
            Threads { current: None, idle: self.idle.swapped_in(), ..self }
        }
    }

    /// The threads after the running thread gave up its turn, with its
    /// context at `stack`: it waits behind all others.
    pub open spec fn yielded(self, stack: u64) -> Threads {
        let next = self.handed_over();
        Threads { ready: next.ready.push(self.current.unwrap().swapped_out(stack)), ..next }
    }

    /// The threads after the running thread went to sleep for `time` ticks,
    /// with its context at `stack`.
    pub open spec fn put_to_sleep(self, stack: u64, time: u8) -> Threads {
        let next = self.handed_over();
        Threads {
            sleeping: sleeper_added(
                next.sleeping,
                self.current.unwrap().swapped_out(stack),
                time,
            ),
            ..next
        }
    }

    /// The threads after a tick has passed for the sleepers: those that wake
    /// now wait for their turn, behind all others and in the order in which
    /// they slept.
    pub open spec fn woken(self) -> Threads {
        let ticked = sleepers_ticked(self.sleeping);
        let awake = first_asleep(ticked, 0);
        Threads {
            ready: self.ready + ticked.take(awake),
            sleeping: ticked.skip(awake),
            ..self
        }
    }

    /// The threads after a tick, where the context of the running thread is
    /// at `stack`. The sleepers that wake now wait for their turn. The
    /// running thread has one tick less; when none is left it gives up its
    /// turn, and the idle thread goes on with a whole time slice if no thread
    /// waits.
    pub open spec fn ticked(self, stack: u64) -> Threads {
        let woken = self.woken();
        match woken.current {
            Some(thread) => {
                let spent = Threads {
                    current: Some(thread.with_quanta((thread.quanta - 1) as u8)),
                    ..woken
                };
                if thread.quanta > 1 {
                    spent
                } else {
                    spent.yielded(stack)
                }
            },
            None => {
                if woken.idle.quanta > 1 {
                    Threads {
                        idle: woken.idle.with_quanta((woken.idle.quanta - 1) as u8),
                        ..woken
                    }
                } else if woken.ready.len() == 0 {
                    Threads { idle: woken.idle.with_quanta(TICKS), ..woken }
                } else {
                    Threads {
                        ready: woken.ready.drop_first(),
                        current: Some(woken.ready[0].swapped_in()),
                        idle: woken.idle.with_quanta(0).swapped_out(stack),
                        ..woken
                    }
                }
            },
        }
    }

    /// The address of the context that the processor goes on with after a
    /// tick: `stack` where the running thread stays, else the saved context
    /// of the thread that takes over.
    pub open spec fn resumed(self, stack: u64) -> u64 {
        let woken = self.woken();
        match woken.current {
            Some(thread) => {
                if thread.quanta > 1 {
                    stack
                } else {
                    woken.successor().context.unwrap()
                }
            },
            None => {
                if woken.idle.quanta > 1 || woken.ready.len() == 0 {
                    stack
                } else {
                    woken.ready[0].context.unwrap()
                }
            },
        }
    }
}

/// A round-robin scheduler.
pub struct Scheduler {
    threads: VecDeque<KThread>,
    sleeping: VecDeque<KThread>,
    current: Option<KThread>,
    idle: KThread,
}

impl Scheduler {
    /// The threads of the scheduler.
    pub closed spec fn view(&self) -> Threads {
        Threads {
            ready: self.threads@,
            sleeping: self.sleeping@,
            current: self.current,
            idle: self.idle,
        }
    }

    /// A scheduler of the thread that runs now and of the idle thread.
    pub fn new(main: KThread, idle: KThread) -> (scheduler: Scheduler)
        requires
            main.context.is_none(),
            main.quanta > 0,
            idle.context.is_some(),
        ensures
            scheduler@.wf(),
            scheduler@ == (Threads {
                ready: Seq::empty(),
                sleeping: Seq::empty(),
                current: Some(main),
                idle,
            }),
    {
        Scheduler {
            threads: VecDeque::new(),
            sleeping: VecDeque::new(),
            current: Some(main),
            idle,
        }
    }

    /// Lets `thread` wait for its turn, behind all others.
    pub fn push(&mut self, thread: KThread)
        requires
            old(self)@.wf(),
            thread.context.is_some(),
        ensures
            final(self)@.wf(),
            final(self)@ == (Threads { ready: old(self)@.ready.push(thread), ..old(self)@ }),
    {
        self.threads.push_back(thread);
    }

    /// The number of the thread that runs; `None` while the idle thread
    /// runs.
    pub fn running(&self) -> (id: Option<usize>)
        ensures
            id == match self@.current {
                Some(thread) => Some(thread.id),
                None => None,
            },
    {
        match &self.current {
            Some(thread) => Some(thread.id),
            None => None,
        }
    }

    /// The number of threads that wait for their turn.
    pub fn ready_count(&self) -> (count: usize)
        ensures
            count == self@.ready.len(),
    {
        self.threads.len()
    }

    /// The number of threads that sleep.
    pub fn sleeping_count(&self) -> (count: usize)
        ensures
            count == self@.sleeping.len(),
    {
        self.sleeping.len()
    }

    /// The number of the thread at the given place among those that wait
    /// for their turn.
    pub fn ready_id(&self, place: usize) -> (id: Option<usize>)
        ensures
            place < self@.ready.len() ==> id == Some(self@.ready[place as int].id),
            place >= self@.ready.len() ==> id.is_none(),
    {
        if place < self.threads.len() {
            Some(self.threads[place].id)
        } else {
            None
        }
    }

    /// The number and the ticks of the thread at the given place among
    /// those that sleep.
    pub fn sleeper(&self, place: usize) -> (sleeper: Option<(usize, u8)>)
        ensures
            place < self@.sleeping.len() ==> sleeper == Some(
                (self@.sleeping[place as int].id, self@.sleeping[place as int].quanta),
            ),
            place >= self@.sleeping.len() ==> sleeper.is_none(),
    {
        if place < self.sleeping.len() {
            Some((self.sleeping[place].id, self.sleeping[place].quanta))
        } else {
            None
        }
    }

    /// Takes the running thread off the processor, with its context at
    /// `current_stack`, and puts its successor on. Returns the thread that
    /// left and the address of the context to go on with.
    fn hand_over(&mut self, current_stack: u64) -> (left: (KThread, u64))
        requires
            old(self)@.current.is_some(),
            old(self)@.current.unwrap().context.is_none(),
            old(self)@.successor().context.is_some(),
        ensures
            final(self)@ == old(self)@.handed_over(),
            left.0 == old(self)@.current.unwrap().swapped_out(current_stack),
            Some(left.1) == old(self)@.successor().context,
    {
        let mut current_thread = self.current.take().unwrap();
        let next_thread = self.threads.pop_front();
        let next_stack = match next_thread {
            Some(mut next) => {
                assert(next == old(self)@.ready[0]);
                let next_stack = current_thread.swap(current_stack, &mut next);
                self.current = Some(next);
                next_stack
            },
            None => {
                let next_stack = current_thread.swap(current_stack, &mut self.idle);
                self.current = None;
                next_stack
            },
        };
        (current_thread, next_stack)
    }
}

/// Creates a thread with the number `id` that starts at `start` and goes to
/// `exit` when its function returns, and lets it wait for its turn. Returns
/// what has to lie on the stack of the thread before it first runs.
///
/// Fails as the allocation of the stack fails; the scheduler is unchanged
/// then.
pub fn add(scheduler: &mut Scheduler, vmm: &mut VMM, id: usize, start: u64, exit: u64) -> (result:
    Result<Launch, StackError>)
    requires
        old(scheduler)@.wf(),
        old(vmm).wf(),
    ensures
        final(scheduler)@.wf(),
        final(vmm).wf(),
        final(vmm)@ == old(vmm)@,
        stack_allocated(
            old(vmm).arch(),
            final(vmm).arch(),
            1,
            match result {
                Ok(_) => Ok(final(scheduler)@.ready.last().stack),
                Err(e) => Err(e),
            },
        ),
        old(vmm).arch().stack_allocator.range().remaining() < 2 ==> result == Err::<
            Launch,
            StackError,
        >(StackError::NotEnoughPages),
        old(vmm).arch().stack_allocator.range().remaining() >= 2 ==> (result is Ok || (
        result is Err && result->Err_0 is Mapping)),
        match result {
            Ok(launch) => {
                let thread = final(scheduler)@.ready.last();
                &&& final(scheduler)@ == (Threads {
                    ready: old(scheduler)@.ready.push(thread),
                    ..old(scheduler)@
                })
                &&& thread.id == id
                &&& thread.quanta == TICKS
                &&& thread.state == State::Ready
                &&& thread.context == Some(launch.context_address)
                &&& launch == thread::launch_spec(thread.stack.top_spec(), start, exit)
            },
            Err(_) => final(scheduler)@ == old(scheduler)@,
        },
{
    match KThread::new(vmm, id, start, exit) {
        Ok((thread, launch)) => {
            scheduler.push(thread);
            Ok(launch)
        },
        Err(e) => Err(e),
    }
}

/// The running thread gives up its turn, with its context at
/// `current_stack`: it waits behind all others, and the first that waits
/// runs, or the idle thread where none does. Returns the address of the
/// context to go on with.
pub fn sched_yield(scheduler: &mut Scheduler, current_stack: u64) -> (next: u64)
    requires
        old(scheduler)@.wf(),
        old(scheduler)@.current.is_some(),
    ensures
        final(scheduler)@.wf(),
        final(scheduler)@ == old(scheduler)@.yielded(current_stack),
        Some(next) == old(scheduler)@.successor().context,
{
    let (current_thread, next) = scheduler.hand_over(current_stack);
    scheduler.threads.push_back(current_thread);
    next
}

/// The running thread leaves the scheduler for good, and the first thread
/// that waits runs, or the idle thread where none does. Returns the address
/// of the context to go on with.
pub fn sched_exit(scheduler: &mut Scheduler, current_stack: u64) -> (next: u64)
    requires
        old(scheduler)@.wf(),
        old(scheduler)@.current.is_some(),
    ensures
        final(scheduler)@.wf(),
        final(scheduler)@ == old(scheduler)@.handed_over(),
        Some(next) == old(scheduler)@.successor().context,
{
    let (_, next) = scheduler.hand_over(current_stack);
    next
}

/// The wake time of a sleeper depends on the sleepers up to it alone.
pub proof fn lemma_wake_time_of_prefix(a: Seq<KThread>, b: Seq<KThread>, i: int)
    requires
        i < a.len(),
        i < b.len(),
        forall|j: int| 0 <= j <= i ==> a[j].quanta == b[j].quanta,
    ensures
        wake_time(a, i) == wake_time(b, i),
    decreases i + 1,
{
    if i >= 0 {
        lemma_wake_time_of_prefix(a, b, i - 1);
    }
}

/// Wake times do not fall along the sleepers, and none is negative.
pub proof fn lemma_wake_times_rise(sleeping: Seq<KThread>, i: int, j: int)
    requires
        -1 <= i <= j < sleeping.len(),
    ensures
        0 <= wake_time(sleeping, i) <= wake_time(sleeping, j),
    decreases j + 1,
{
    if i < j {
        lemma_wake_times_rise(sleeping, i, j - 1);
    } else if i >= 0 {
        lemma_wake_times_rise(sleeping, -1, i - 1);
    }
}

/// Where the search for the first sleeper that wakes later than in `time`
/// ticks ends: every sleeper before that place wakes no later, and the
/// sleeper at that place, if there is one, wakes later.
pub proof fn lemma_first_later(sleeping: Seq<KThread>, time: int, i: int)
    requires
        0 <= i <= sleeping.len(),
    ensures
        i <= first_later(sleeping, time, i) <= sleeping.len(),
        forall|j: int| i <= j < first_later(sleeping, time, i) ==> wake_time(sleeping, j) <= time,
        first_later(sleeping, time, i) < sleeping.len() ==> wake_time(
            sleeping,
            first_later(sleeping, time, i),
        ) > time,
    decreases sleeping.len() - i,
{
    if i < sleeping.len() && wake_time(sleeping, i) <= time {
        lemma_first_later(sleeping, time, i + 1);
    }
}

/// A thread that goes to sleep for `time` ticks wakes in `time` ticks, and
/// every other sleeper wakes when it would have: those before the place of
/// the new sleeper keep their places, those from that place on stand one
/// place further back.
pub proof fn lemma_sleep_keeps_wake_times(sleeping: Seq<KThread>, thread: KThread, time: u8, i: int)
    requires
        0 <= i < sleeping.len() + 1,
    ensures
        ({
            let place = first_later(sleeping, time as int, 0);
            let after = sleeper_added(sleeping, thread, time);
            &&& after.len() == sleeping.len() + 1
            &&& 0 <= place <= sleeping.len()
            &&& i < place ==> wake_time(after, i) == wake_time(sleeping, i) && after[i]
                == sleeping[i]
            &&& i == place ==> wake_time(after, i) == time && after[i].id == thread.id
            &&& i > place ==> wake_time(after, i) == wake_time(sleeping, i - 1) && after[i].id
                == sleeping[i - 1].id
        }),
    decreases i,
{
    let place = first_later(sleeping, time as int, 0);
    let after = sleeper_added(sleeping, thread, time);
    lemma_first_later(sleeping, time as int, 0);
    lemma_wake_times_rise(sleeping, -1, place - 1);
    assert(0 <= wake_time(sleeping, place - 1) <= time) by {
        if place > 0 {
            assert(wake_time(sleeping, place - 1) <= time);
        }
    }
    if i > 0 {
        lemma_sleep_keeps_wake_times(sleeping, thread, time, i - 1);
    }
    if i < place {
        lemma_wake_time_of_prefix(after, sleeping, i);
    } else if i == place {
        assert(after[i].quanta == time - wake_time(sleeping, place - 1));
        assert(wake_time(after, i) == wake_time(after, i - 1) + after[i].quanta);
    } else if i == place + 1 {
        assert(wake_time(sleeping, place) == wake_time(sleeping, place - 1)
            + sleeping[place].quanta);
        assert(after[i].quanta == wake_time(sleeping, place) - time);
        assert(wake_time(after, i) == wake_time(after, i - 1) + after[i].quanta);
    } else {
        assert(after[i] == sleeping[i - 1]);
        assert(wake_time(after, i) == wake_time(after, i - 1) + after[i].quanta);
        assert(wake_time(sleeping, i - 1) == wake_time(sleeping, i - 2) + sleeping[i - 1].quanta);
    }
}

/// The running thread goes to sleep for `time` ticks, with its context at
/// `current_stack`, and the first thread that waits runs, or the idle thread
/// where none does. Returns the address of the context to go on with.
pub fn sched_sleep(scheduler: &mut Scheduler, current_stack: u64, time: u8) -> (next: u64)
    requires
        old(scheduler)@.wf(),
        old(scheduler)@.current.is_some(),
        time > 0,
    ensures
        final(scheduler)@.wf(),
        final(scheduler)@ == old(scheduler)@.put_to_sleep(current_stack, time),
        Some(next) == old(scheduler)@.successor().context,
{
    let (mut current_thread, next) = scheduler.hand_over(current_stack);
    let ghost sleeping = scheduler.sleeping@;
    let ghost left = current_thread;
    current_thread.state = State::Sleeping;
    current_thread.quanta = time;
    let mut index: usize = 0;
    while index < scheduler.sleeping.len() && scheduler.sleeping[index].quanta
        <= current_thread.quanta
        invariant
            index <= sleeping.len(),
            scheduler.sleeping@ == sleeping,
            scheduler@ == (Threads { sleeping, ..old(scheduler)@.handed_over() }),
            current_thread == left.asleep(current_thread.quanta),
            current_thread.quanta == time - wake_time(sleeping, index - 1),
            first_later(sleeping, time as int, 0) == first_later(sleeping, time as int, index as int),
        decreases sleeping.len() - index,
    {
        current_thread.quanta = current_thread.quanta - scheduler.sleeping[index].quanta;
        index = index + 1;
    }
    if index < scheduler.sleeping.len() {
        let mut later = scheduler.sleeping.remove(index).unwrap();
        later.quanta = later.quanta - current_thread.quanta;
        scheduler.sleeping.insert(index, later);
        assert(scheduler.sleeping@ =~= sleeping.update(
            index as int,
            sleeping[index as int].with_quanta((wake_time(sleeping, index as int) - time) as u8),
        ));
    }
    scheduler.sleeping.insert(index, current_thread);
    next
}

/// The running thread, with its context at `current_stack`, asks to be taken
/// off the processor: with `time` zero it gives up its turn, else it goes to
/// sleep for as many ticks as the lowest eight bits of `time` say. Returns
/// the address of the context to go on with.
pub fn sleep_handler(scheduler: &mut Scheduler, current_stack: u64, time: u64) -> (next: u64)
    requires
        old(scheduler)@.wf(),
        old(scheduler)@.current.is_some(),
        time == 0 || time % 0x100 != 0,
    ensures
        final(scheduler)@.wf(),
        time == 0 ==> final(scheduler)@ == old(scheduler)@.yielded(current_stack),
        time != 0 ==> final(scheduler)@ == old(scheduler)@.put_to_sleep(
            current_stack,
            (time % 0x100) as u8,
        ),
        Some(next) == old(scheduler)@.successor().context,
{
    if time == 0 {
        sched_yield(scheduler, current_stack)
    } else {
        sched_sleep(scheduler, current_stack, (time % 0x100) as u8)
    }
}

/// Where the search for the first sleeper that has ticks left ends: every
/// sleeper before that place has none, and the sleeper at that place, if
/// there is one, has some.
pub proof fn lemma_first_asleep(sleeping: Seq<KThread>, i: int)
    requires
        0 <= i <= sleeping.len(),
    ensures
        i <= first_asleep(sleeping, i) <= sleeping.len(),
        forall|j: int| i <= j < first_asleep(sleeping, i) ==> (#[trigger] sleeping[j]).quanta == 0,
        first_asleep(sleeping, i) < sleeping.len() ==> sleeping[first_asleep(sleeping, i)].quanta
            > 0,
    decreases sleeping.len() - i,
{
    if i < sleeping.len() && sleeping[i].quanta == 0 {
        lemma_first_asleep(sleeping, i + 1);
    }
}

/// A tick passes, where the context of the running thread is at
/// `current_stack`. The sleeper in front has one tick less, and the sleepers
/// that wake now wait for their turn. The running thread has one tick less;
/// when none is left it gives up its turn to the first thread that waits, or
/// to the idle thread. The idle thread, when it has no tick left, gives way
/// to the first thread that waits, or goes on with a whole time slice.
/// Returns the address of the context to go on with.
pub fn tick(scheduler: &mut Scheduler, current_stack: u64) -> (next: u64)
    requires
        old(scheduler)@.wf(),
    ensures
        final(scheduler)@.wf(),
        final(scheduler)@ == old(scheduler)@.ticked(current_stack),
        next == old(scheduler)@.resumed(current_stack),
{
    let ghost before = scheduler@;
    let ghost ticked = sleepers_ticked(before.sleeping);
    match scheduler.sleeping.pop_front() {
        Some(mut first) => {
            first.quanta = first.quanta - 1;
            scheduler.sleeping.push_front(first);
        },
        None => {},
    }
    assert(scheduler.sleeping@ =~= ticked);
    let ghost mut awake: int = 0;
    proof {
        assert(ticked.skip(0) =~= ticked);
        assert(before.ready + ticked.take(0) =~= before.ready);
    }
    while scheduler.sleeping.len() > 0 && scheduler.sleeping[0].quanta == 0
        invariant
            0 <= awake <= ticked.len(),
            scheduler.sleeping@ == ticked.skip(awake),
            scheduler.threads@ == before.ready + ticked.take(awake),
            scheduler.current == before.current,
            scheduler.idle == before.idle,
            first_asleep(ticked, 0) == first_asleep(ticked, awake),
        decreases ticked.len() - awake,
    {
        let thread = scheduler.sleeping.pop_front().unwrap();
        scheduler.threads.push_back(thread);
        proof {
            assert(thread == ticked[awake]);
            assert(scheduler.sleeping@ =~= ticked.skip(awake + 1));
            assert(scheduler.threads@ =~= before.ready + ticked.take(awake + 1));
            awake = awake + 1;
        }
    }
    proof {
        assert(awake == first_asleep(ticked, 0)) by {
            if awake < ticked.len() {
                assert(ticked.skip(awake)[0] == ticked[awake]);
            }
        }
        assert(scheduler@ == before.woken());
        lemma_first_asleep(ticked, 0);
        assert(scheduler@.sleeping.len() > 0 ==> scheduler@.sleeping[0].quanta > 0);
        assert forall|i: int| 0 <= i < scheduler@.ready.len() implies (
        #[trigger] scheduler@.ready[i]).context.is_some() by {
            if i >= before.ready.len() {
                assert(scheduler@.ready[i] == ticked[i - before.ready.len()]);
                assert(ticked[i - before.ready.len()].context == before.sleeping[i
                    - before.ready.len()].context);
            } else {
                assert(scheduler@.ready[i] == before.ready[i]);
            }
        }
        assert forall|i: int| 0 <= i < scheduler@.sleeping.len() implies (
        #[trigger] scheduler@.sleeping[i]).context.is_some() by {
            assert(scheduler@.sleeping[i] == ticked[i + awake]);
            assert(ticked[i + awake].context == before.sleeping[i + awake].context);
        }
    }
    match scheduler.current.take() {
        Some(mut thread) => {
            thread.quanta = thread.quanta - 1;
            let spent = thread.quanta == 0;
            scheduler.current = Some(thread);
            if !spent {
                return current_stack;
            }
            let (current_thread, next) = scheduler.hand_over(current_stack);
            scheduler.threads.push_back(current_thread);
            next
        },
        None => {
            scheduler.idle.quanta = scheduler.idle.quanta - 1;
            if scheduler.idle.quanta > 0 {
                return current_stack;
            }
            match scheduler.threads.pop_front() {
                Some(mut next_thread) => {
                    let next = scheduler.idle.swap(current_stack, &mut next_thread);
                    scheduler.current = Some(next_thread);
                    next
                },
                None => {
                    scheduler.idle.quanta = TICKS;
                    current_stack
                },
            }
        },
    }
}

/// The numbers of the given threads, each as often as it occurs.
pub open spec fn ids(threads: Seq<KThread>) -> Multiset<usize> {
    threads.map_values(|thread: KThread| thread.id).to_multiset()
}

impl Threads {
    /// The numbers of all threads of the scheduler: of those that wait, of
    /// those that sleep, of the one that runs and of the idle thread.
    pub open spec fn all(self) -> Multiset<usize> {
        let running = match self.current {
            Some(thread) => Multiset::singleton(thread.id),
            None => Multiset::empty(),
        };
        ids(self.ready).add(ids(self.sleeping)).add(running).insert(self.idle.id)
    }
}

proof fn lemma_ids_push(threads: Seq<KThread>, thread: KThread)
    ensures
        ids(threads.push(thread)) == ids(threads).insert(thread.id),
{
    broadcast use group_to_multiset_ensures;

    let id = |thread: KThread| thread.id;
    assert(threads.push(thread).map_values(id) =~= threads.map_values(id).push(thread.id));
}

proof fn lemma_ids_insert(threads: Seq<KThread>, i: int, thread: KThread)
    requires
        0 <= i <= threads.len(),
    ensures
        ids(threads.insert(i, thread)) == ids(threads).insert(thread.id),
{
    broadcast use group_to_multiset_ensures;

    let id = |thread: KThread| thread.id;
    assert(threads.insert(i, thread).map_values(id) =~= threads.map_values(id).insert(
        i,
        thread.id,
    ));
}

proof fn lemma_ids_drop_first(threads: Seq<KThread>)
    requires
        threads.len() > 0,
    ensures
        ids(threads) == ids(threads.drop_first()).insert(threads[0].id),
{
    broadcast use group_to_multiset_ensures;

    let id = |thread: KThread| thread.id;
    assert(threads.map_values(id) =~= threads.drop_first().map_values(id).insert(
        0,
        threads[0].id,
    ));
}

proof fn lemma_ids_same(a: Seq<KThread>, b: Seq<KThread>)
    requires
        a.len() == b.len(),
        forall|i: int| 0 <= i < a.len() ==> a[i].id == b[i].id,
    ensures
        ids(a) == ids(b),
{
    let id = |thread: KThread| thread.id;
    assert(a.map_values(id) =~= b.map_values(id));
}

proof fn lemma_ids_concat(a: Seq<KThread>, b: Seq<KThread>)
    ensures
        ids(a + b) == ids(a).add(ids(b)),
{
    let id = |thread: KThread| thread.id;
    assert((a + b).map_values(id) =~= a.map_values(id) + b.map_values(id));
    lemma_multiset_commutative(a.map_values(id), b.map_values(id));
}

/// When the running thread leaves the scheduler, it alone is gone: every
/// other thread is still there.
pub proof fn lemma_exit_removes_one(threads: Threads)
    requires
        threads.current.is_some(),
    ensures
        threads.handed_over().all().insert(threads.current.unwrap().id) == threads.all(),
{
    broadcast use group_multiset_axioms;

    if threads.ready.len() > 0 {
        lemma_ids_drop_first(threads.ready);
    }
    assert(threads.handed_over().all().insert(threads.current.unwrap().id) =~= threads.all());
}

/// When the running thread gives up its turn, the scheduler has the threads
/// that it had.
pub proof fn lemma_yield_keeps_threads(threads: Threads, stack: u64)
    requires
        threads.current.is_some(),
    ensures
        threads.yielded(stack).all() == threads.all(),
{
    broadcast use group_multiset_axioms;

    lemma_exit_removes_one(threads);
    lemma_ids_push(threads.handed_over().ready, threads.current.unwrap().swapped_out(stack));
    assert(threads.yielded(stack).all() =~= threads.handed_over().all().insert(
        threads.current.unwrap().id,
    ));
}

/// When the running thread goes to sleep, the scheduler has the threads
/// that it had.
pub proof fn lemma_sleep_keeps_threads(threads: Threads, stack: u64, time: u8)
    requires
        threads.current.is_some(),
    ensures
        threads.put_to_sleep(stack, time).all() == threads.all(),
{
    broadcast use group_multiset_axioms;

    lemma_exit_removes_one(threads);
    let sleeping = threads.sleeping;
    let place = first_later(sleeping, time as int, 0);
    lemma_first_later(sleeping, time as int, 0);
    let others = if place < sleeping.len() {
        sleeping.update(
            place,
            sleeping[place].with_quanta((wake_time(sleeping, place) - time) as u8),
        )
    } else {
        sleeping
    };
    lemma_ids_same(others, sleeping);
    let thread = threads.current.unwrap().swapped_out(stack);
    lemma_ids_insert(
        others,
        place,
        thread.asleep((time - wake_time(sleeping, place - 1)) as u8),
    );
    assert(threads.put_to_sleep(stack, time).all() =~= threads.handed_over().all().insert(
        threads.current.unwrap().id,
    ));
}

/// When sleepers wake, the scheduler has the threads that it had.
pub proof fn lemma_waking_keeps_threads(threads: Threads)
    ensures
        threads.woken().all() == threads.all(),
{
    broadcast use group_multiset_axioms;

    let ticked = sleepers_ticked(threads.sleeping);
    let awake = first_asleep(ticked, 0);
    lemma_first_asleep(ticked, 0);
    lemma_ids_same(ticked, threads.sleeping);
    lemma_ids_concat(threads.ready, ticked.take(awake));
    lemma_ids_concat(ticked.take(awake), ticked.skip(awake));
    assert(ticked.take(awake) + ticked.skip(awake) =~= ticked);
    assert(threads.woken().all() =~= threads.all());
}

/// When a tick passes, the scheduler has the threads that it had.
pub proof fn lemma_tick_keeps_threads(threads: Threads, stack: u64)
    ensures
        threads.ticked(stack).all() == threads.all(),
{
    broadcast use group_multiset_axioms;

    lemma_waking_keeps_threads(threads);
    let woken = threads.woken();
    match woken.current {
        Some(thread) => {
            let spent = Threads {
                current: Some(thread.with_quanta((thread.quanta - 1) as u8)),
                ..woken
            };
            assert(spent.all() =~= woken.all());
            lemma_yield_keeps_threads(spent, stack);
        },
        None => {
            if woken.idle.quanta <= 1 && woken.ready.len() > 0 {
                lemma_ids_drop_first(woken.ready);
            }
            assert(threads.ticked(stack).all() =~= woken.all());
        },
    }
}

} // verus!
