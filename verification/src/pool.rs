//! Model of the bounded-concurrency command pool: how many tasks are
//! accepted, how many of their external processes hold one of the `capacity`
//! slots, and how many completions await consumption. A slot is taken when a
//! process actually starts — not when its task is accepted — and given back
//! the moment the process exits, so acceptance is never blocked while the
//! number of simultaneously running processes stays within the capacity.

use vstd::prelude::*;

verus! {

/// One observable transition of the pool.
#[derive(Clone, Copy, PartialEq, Eq, Structural, Debug)]
pub enum PoolEvent {
    /// A task is accepted; it waits internally for a slot.
    Spawn,
    /// A waiting task takes a free slot and its process starts.
    Start,
    /// A running process exits and gives its slot back.
    Finish,
    /// A completion is handed to the consumer.
    Take,
}

/// The pool's accounting state.
#[derive(Clone, Copy, PartialEq, Eq, Structural, Debug)]
pub struct PoolState {
    /// Slots: the hard cap on simultaneously running processes.
    pub capacity: usize,
    /// Tasks accepted and waiting for a slot.
    pub pending: usize,
    /// Tasks whose external process is running, each holding a slot.
    pub running: usize,
    /// Tasks finished whose completion was not yet consumed.
    pub done: usize,
}

impl PoolState {
    /// No more processes run than there are slots.
    pub open spec fn bounded(&self) -> bool {
        self.running <= self.capacity
    }

    /// Tasks accepted and not yet consumed, in any stage.
    pub open spec fn outstanding(&self) -> int {
        self.pending + self.running + self.done
    }

    /// An idle pool with `capacity` slots.
    pub fn new(capacity: usize) -> (s: PoolState)
        ensures
            s == pool_init(capacity),
            s.bounded(),
    {
        PoolState { capacity, pending: 0, running: 0, done: 0 }
    }

    /// Accept one task. Never blocks and never takes a slot.
    pub fn spawn(&mut self)
        requires
            old(self).outstanding() < usize::MAX,
        ensures
            pool_step(*old(self), PoolEvent::Spawn) == Option::Some(*final(self)),
            final(self).running == old(self).running,
            final(self).outstanding() == old(self).outstanding() + 1,
    {
        self.pending = self.pending + 1;
    }

    /// A waiting task starts its process. Only enabled while a slot is free:
    /// this is the acquisition that the capacity bounds.
    pub fn start(&mut self)
        requires
            old(self).pending >= 1,
            old(self).running < old(self).capacity,
        ensures
            pool_step(*old(self), PoolEvent::Start) == Option::Some(*final(self)),
            final(self).bounded(),
            final(self).outstanding() == old(self).outstanding(),
    {
        self.pending = self.pending - 1;
        self.running = self.running + 1;
    }

    /// A running process exits; its slot is free again at once.
    pub fn finish(&mut self)
        requires
            old(self).running >= 1,
            old(self).done < usize::MAX,
        ensures
            pool_step(*old(self), PoolEvent::Finish) == Option::Some(*final(self)),
            old(self).bounded() ==> final(self).bounded(),
            final(self).outstanding() == old(self).outstanding(),
    {
        self.running = self.running - 1;
        self.done = self.done + 1;
    }

    /// Hand one completion to the consumer.
    pub fn take(&mut self)
        requires
            old(self).done >= 1,
        ensures
            pool_step(*old(self), PoolEvent::Take) == Option::Some(*final(self)),
            old(self).bounded() ==> final(self).bounded(),
            final(self).outstanding() == old(self).outstanding() - 1,
    {
        self.done = self.done - 1;
    }

    /// No pending or in-flight task and no unconsumed completion: the
    /// consumer's drain loop may stop.
    pub fn drained(&self) -> (r: bool)
        ensures
            r == (self.outstanding() == 0),
    {
        self.pending == 0 && self.running == 0 && self.done == 0
    }
}

/// The idle pool with `capacity` slots.
pub open spec fn pool_init(capacity: usize) -> PoolState {
    PoolState { capacity, pending: 0, running: 0, done: 0 }
}

/// One step of the pool's state machine; `None` where the event is not
/// enabled (no free slot, nothing to finish, counter at its limit).
pub open spec fn pool_step(s: PoolState, e: PoolEvent) -> Option<PoolState> {
    match e {
        PoolEvent::Spawn => if s.pending < usize::MAX && s.outstanding() < usize::MAX {
            Option::Some(PoolState { pending: (s.pending + 1) as usize, ..s })
        } else {
            Option::None
        },
        PoolEvent::Start => if s.pending >= 1 && s.running < s.capacity {
            Option::Some(
                PoolState {
                    pending: (s.pending - 1) as usize,
                    running: (s.running + 1) as usize,
                    ..s
                },
            )
        } else {
            Option::None
        },
        PoolEvent::Finish => if s.running >= 1 && s.done < usize::MAX {
            Option::Some(
                PoolState { running: (s.running - 1) as usize, done: (s.done + 1) as usize, ..s },
            )
        } else {
            Option::None
        },
        PoolEvent::Take => if s.done >= 1 {
            Option::Some(PoolState { done: (s.done - 1) as usize, ..s })
        } else {
            Option::None
        },
    }
}

/// The pool after a whole history of events, if every event was enabled.
pub open spec fn pool_run(s: PoolState, es: Seq<PoolEvent>) -> Option<PoolState>
    decreases es.len(),
{
    if es.len() == 0 {
        Option::Some(s)
    } else {
        match pool_step(s, es[0]) {
            Option::Some(s2) => pool_run(s2, es.drop_first()),
            Option::None => Option::None,
        }
    }
}

/// One enabled step keeps the bound: a process starts only into a free slot.
pub proof fn lemma_pool_step_bounded(s: PoolState, e: PoolEvent, s2: PoolState)
    requires
        s.bounded(),
        pool_step(s, e) == Option::Some(s2),
    ensures
        s2.bounded(),
{
}

/// Boundedness: starting from an idle pool, after every prefix of any
/// history of enabled events — any submission pattern, including
/// resubmission while earlier tasks still drain — at most `capacity`
/// external processes are running.
pub proof fn lemma_pool_bounded(s: PoolState, es: Seq<PoolEvent>, k: int)
    requires
        s.bounded(),
        pool_run(s, es) matches Option::Some(_),
        0 <= k <= es.len(),
    ensures
        pool_run(s, es.take(k)) matches Option::Some(m) && m.bounded(),
    decreases k,
{
    if k == 0 {
        assert(es.take(0) =~= Seq::<PoolEvent>::empty());
    } else {
        let s2 = match pool_step(s, es[0]) {
            Option::Some(s2) => s2,
            Option::None => s,  // unreachable: the whole run is enabled
        };
        assert(pool_step(s, es[0]) == Option::Some(s2));
        lemma_pool_step_bounded(s, es[0], s2);
        assert(es.drop_first().take(k - 1) =~= es.take(k).drop_first());
        lemma_pool_bounded(s2, es.drop_first(), k - 1);
        assert(es.take(k)[0] == es[0]);
    }
}

} // verus!
