use vstd::prelude::*;

verus! {

/// How many probes may run at once across one whole batch.
pub const MAX_IN_FLIGHT: usize = 10;

/// One event at the concurrency limiter: a task took a slot, or gave one back.
pub enum SlotEvent {
    Acquire,
    Release,
}

/// How many probes are in flight after a history of limiter events, starting
/// from an idle limiter. An acquire is granted only below the capacity, and a
/// release with no slot out is kept total as doing nothing.
pub open spec fn in_flight_after(events: Seq<SlotEvent>) -> nat
    decreases events.len(),
{
    if events.len() == 0 {
        0
    } else {
        let prev = in_flight_after(events.drop_last());
        match events.last() {
            SlotEvent::Acquire => if prev < MAX_IN_FLIGHT {
                prev + 1
            } else {
                prev
            },
            SlotEvent::Release => if prev > 0 {
                (prev - 1) as nat
            } else {
                0
            },
        }
    }
}

/// However a batch of any size interleaves its acquires and releases, the
/// number of probes in flight never exceeds the limiter's capacity.
pub proof fn lemma_in_flight_bounded(events: Seq<SlotEvent>)
    ensures
        in_flight_after(events) <= MAX_IN_FLIGHT,
    decreases events.len(),
{
    if events.len() > 0 {
        lemma_in_flight_bounded(events.drop_last());
    }
}

/// The concurrency limiter of a batch: counts the probes in flight and
/// remembers its own history. A slot is granted only while fewer than the
/// capacity are out, so the count can never pass it.
pub struct SlotLimiter {
    in_flight: usize,
    history: Ghost<Seq<SlotEvent>>,
}

impl SlotLimiter {
    /// The limiter's event history so far.
    pub closed spec fn log(self) -> Seq<SlotEvent> {
        self.history@
    }

    /// How many slots are out right now.
    pub closed spec fn slots_in_use(self) -> nat {
        self.in_flight as nat
    }

    /// The count agrees with the history.
    pub closed spec fn wf(self) -> bool {
        self.in_flight as nat == in_flight_after(self.history@)
    }

    pub fn new() -> (r: SlotLimiter)
        ensures
            r.wf(),
            r.slots_in_use() == 0,
            r.log() == Seq::<SlotEvent>::empty(),
    {
        SlotLimiter { in_flight: 0, history: Ghost(Seq::empty()) }
    }

    /// Take a slot when one is free. Whether or not the slot is granted, the
    /// count stays within the capacity.
    pub fn try_acquire(&mut self) -> (granted: bool)
        requires
            old(self).wf(),
        ensures
            final(self).wf(),
            granted == (old(self).slots_in_use() < MAX_IN_FLIGHT),
            final(self).log() == old(self).log().push(SlotEvent::Acquire),
            granted ==> final(self).slots_in_use() == old(self).slots_in_use() + 1,
            !granted ==> final(self).slots_in_use() == old(self).slots_in_use(),
            final(self).slots_in_use() <= MAX_IN_FLIGHT,
    {
        proof {
            lemma_in_flight_bounded(self.history@);
            assert(self.history@.push(SlotEvent::Acquire).drop_last() =~= self.history@);
        }
        let granted = self.in_flight < MAX_IN_FLIGHT;
        if granted {
            self.in_flight = self.in_flight + 1;
        }
        self.history = Ghost(self.history@.push(SlotEvent::Acquire));
        granted
    }

    /// Give a slot back once its probe has finished, however the probe
    /// ended.
    pub fn release(&mut self)
        requires
            old(self).wf(),
            old(self).slots_in_use() > 0,
        ensures
            final(self).wf(),
            final(self).slots_in_use() == old(self).slots_in_use() - 1,
            final(self).log() == old(self).log().push(SlotEvent::Release),
    {
        proof {
            assert(self.history@.push(SlotEvent::Release).drop_last() =~= self.history@);
        }
        self.in_flight = self.in_flight - 1;
        self.history = Ghost(self.history@.push(SlotEvent::Release));
    }
}

/// The shared progress counter of a batch: how many probes have started, out
/// of how many the batch holds. It only ever counts up, one probe at a time.
pub struct ProgressCounter {
    started: usize,
    total: usize,
}

impl ProgressCounter {
    /// How many probes have started.
    pub closed spec fn started_count(self) -> nat {
        self.started as nat
    }

    /// How many endpoints the batch holds.
    pub closed spec fn total_count(self) -> nat {
        self.total as nat
    }

    pub fn new(total: usize) -> (r: ProgressCounter)
        ensures
            r.started_count() == 0,
            r.total_count() == total,
    {
        ProgressCounter { started: 0, total }
    }

    pub fn started(&self) -> (r: usize)
        ensures
            r == self.started_count(),
    {
        self.started
    }

    pub fn total(&self) -> (r: usize)
        ensures
            r == self.total_count(),
    {
        self.total
    }

    /// Count one more probe as started, and hand back the label of the
    /// progress line: the count before this probe, out of the total.
    pub fn note_started(&mut self) -> (r: (usize, usize))
        requires
            old(self).started_count() < old(self).total_count(),
        ensures
            final(self).started_count() == old(self).started_count() + 1,
            final(self).total_count() == old(self).total_count(),
            r.0 == old(self).started_count(),
            r.1 == old(self).total_count(),
    {
        let label = (self.started, self.total);
        self.started = self.started + 1;
        label
    }
}

} // verus!
