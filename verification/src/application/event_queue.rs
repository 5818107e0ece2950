//! A bounded queue of application events.
//!
//! Queueing an event never allocates: the slots are reserved when a member joins,
//! one for each. When the queue is full all the same, the oldest event makes room,
//! so that the newest exit is never lost.

use vstd::prelude::*;

verus! {

/// What an application is told.
#[derive(Clone, Copy, Debug, Eq, PartialEq, Structural)]
pub enum ApplicationEvent {
    /// A member thread has fully exited.
    ExecutionUnitExited { thread_id: usize },
}

/// A first-in first-out ring of events.
#[derive(Debug)]
pub struct ApplicationEventQueue {
    pub ring: Vec<Option<ApplicationEvent>>,
    pub head: usize,
    pub count: usize,
}

/// The slot `distance` behind `head` in a ring.
pub open spec fn ring_slot(capacity: int, head: int, distance: int) -> int {
    if head + distance < capacity {
        head + distance
    } else {
        head + distance - capacity
    }
}

impl ApplicationEventQueue {
    /// How many events the queue can hold.
    pub open spec fn capacity_spec(self) -> int {
        self.ring@.len() as int
    }

    /// Every queued event stands in its slot.
    pub open spec fn wf(self) -> bool {
        &&& self.count <= self.ring@.len()
        &&& self.head < self.ring@.len() || self.head == 0
        &&& forall|i: int|
            0 <= i < self.count ==> #[trigger] self.ring@[ring_slot(
                self.capacity_spec(),
                self.head as int,
                i,
            )] is Some
    }

    /// The queued events, the oldest first.
    pub open spec fn events(self) -> Seq<ApplicationEvent> {
        Seq::new(
            self.count as nat,
            |i: int| self.ring@[ring_slot(self.capacity_spec(), self.head as int, i)]->0,
        )
    }

    /// A queue with this many slots.
    pub fn new(capacity: usize) -> (r: Self)
        ensures
            r.wf(),
            r.capacity_spec() == capacity,
            r.events().len() == 0,
    {
        let mut ring: Vec<Option<ApplicationEvent>> = Vec::new();
        ring.resize(capacity, None);
        ApplicationEventQueue { ring, head: 0, count: 0 }
    }

    #[inline]
    fn capacity(&self) -> (r: usize)
        ensures
            r == self.capacity_spec(),
    {
        self.ring.len()
    }

    fn is_full(&self) -> (r: bool)
        ensures
            r == (self.capacity_spec() != 0 && self.count == self.capacity_spec()),
    {
        self.capacity() != 0 && self.count == self.capacity()
    }

    #[inline]
    pub fn is_empty(&self) -> (r: bool)
        ensures
            r == (self.events().len() == 0),
    {
        self.count == 0
    }

    #[inline]
    pub fn len(&self) -> (r: usize)
        ensures
            r == self.events().len(),
    {
        self.count
    }

    /// The slot behind the newest event.
    fn tail(&self) -> (r: usize)
        requires
            self.wf(),
            self.count < self.ring@.len(),
        ensures
            r == ring_slot(self.capacity_spec(), self.head as int, self.count as int),
            r < self.ring@.len(),
    {
        let room: usize = self.capacity() - self.count;
        if self.head < room {
            self.head + self.count
        } else {
            self.head - room
        }
    }

    fn after_head(&self) -> (r: usize)
        requires
            self.head < self.ring@.len(),
        ensures
            r == ring_slot(self.capacity_spec(), self.head as int, 1),
            r < self.ring@.len(),
    {
        let last: usize = self.capacity() - 1;
        if self.head == last {
            0
        } else {
            self.head + 1
        }
    }

    /// The capacity of the queue with this many more slots, if there is such a number.
    pub fn grown_capacity(&self, additional: usize) -> (r: Option<usize>)
        ensures
            r == (if self.capacity_spec() + additional <= usize::MAX {
                Some((self.capacity_spec() + additional) as usize)
            } else {
                None
            }),
    {
        self.capacity().checked_add(additional)
    }

    /// Adds slots in a ring that was reserved for the grown capacity, and keeps what is
    /// queued. Returns `false`, with nothing changed, if slots are wanted and there is
    /// no such ring.
    pub fn grow_into(
        &mut self,
        additional: usize,
        reserved: Option<Vec<Option<ApplicationEvent>>>,
    ) -> (r: bool)
        requires
            old(self).wf(),
            reserved matches Some(ring) ==> ring@.len() == 0,
        ensures
            final(self).wf(),
            final(self).events() == old(self).events(),
            r == (additional == 0 || (old(self).capacity_spec() + additional <= usize::MAX
                && reserved is Some)),
            final(self).capacity_spec() == old(self).capacity_spec() + (if r {
                additional as int
            } else {
                0
            }),
            additional == 0 || !r ==> *final(self) == *old(self),
    {
        if additional == 0 {
            return true;
        }
        let new_capacity: usize = match self.grown_capacity(additional) {
            Some(capacity) => capacity,
            None => return false,
        };
        let mut ring: Vec<Option<ApplicationEvent>> = match reserved {
            Some(ring) => ring,
            None => return false,
        };
        let ghost events = self.events();
        let live: Vec<ApplicationEvent> = self.drain();
        let mut index: usize = 0;
        while index < live.len()
            invariant
                index <= live@.len(),
                live@ == events,
                ring@.len() == index,
                forall|i: int| 0 <= i < index ==> #[trigger] ring@[i] == Some(events[i]),
            decreases live@.len() - index,
        {
            ring.push(Some(live[index]));
            index = index + 1;
        }
        let ghost replayed = ring@;
        ring.resize(new_capacity, None);
        assert(forall|i: int| 0 <= i < replayed.len() ==> ring@[i] == replayed[i]);
        self.ring = ring;
        self.head = 0;
        self.count = live.len();
        assert forall|i: int| 0 <= i < self.count implies #[trigger] self.ring@[ring_slot(
            self.capacity_spec(),
            self.head as int,
            i,
        )] == Some(events[i]) by {
            assert(ring_slot(self.capacity_spec(), 0, i) == i);
            assert(replayed[i] == Some(events[i]));
            assert(self.ring@[i] == replayed[i]);
        }
        assert(self.events() =~= events);
        true
    }

    /// Adds slots and keeps what is queued. Returns `false`, with nothing changed, if
    /// there can be no such ring.
    ///
    /// Whether the allocator has room for the grown capacity is not stated; what
    /// follows its answer is what [`Self::grow_into`] does.
    pub fn reserve_capacity(&mut self, additional: usize) -> (r: bool)
        requires
            old(self).wf(),
        ensures
            final(self).wf(),
            final(self).events() == old(self).events(),
            additional == 0 ==> r,
            additional > 0 && old(self).capacity_spec() + additional > usize::MAX ==> !r,
            final(self).capacity_spec() == old(self).capacity_spec() + (if r {
                additional as int
            } else {
                0
            }),
            additional == 0 || !r ==> *final(self) == *old(self),
    {
        if additional == 0 {
            return true;
        }
        let capacity: usize = match self.grown_capacity(additional) {
            Some(capacity) => capacity,
            None => return false,
        };
        let mut ring: Vec<Option<ApplicationEvent>> = Vec::new();
        let reserved: bool = ring.try_reserve(capacity).is_ok();
        self.grow_into(
            additional,
            if reserved {
                Some(ring)
            } else {
                None
            },
        )
    }

    /// Queues an event. Returns `false`, with nothing changed, if the queue is
    /// full.
    pub fn enqueue(&mut self, event: ApplicationEvent) -> (r: bool)
        requires
            old(self).wf(),
        ensures
            final(self).wf(),
            final(self).capacity_spec() == old(self).capacity_spec(),
            r == (old(self).events().len() < old(self).capacity_spec()),
            final(self).events() == enqueued(old(self).events(), old(self).capacity_spec(), event),
    {
        if self.capacity() == 0 || self.is_full() {
            return false;
        }
        let ghost before = self.events();
        let tail: usize = self.tail();
        self.ring.set(tail, Some(event));
        self.count = self.count + 1;
        assert forall|i: int| 0 <= i < self.count implies #[trigger] self.ring@[ring_slot(
            self.capacity_spec(),
            self.head as int,
            i,
        )] == Some(before.push(event)[i]) by {
            if i < self.count - 1 {
                assert(old(self).ring@[ring_slot(
                    old(self).capacity_spec(),
                    old(self).head as int,
                    i,
                )] is Some);
            }
        }
        assert(self.events() =~= before.push(event));
        true
    }

    /// Queues an event. A full queue gives up its oldest event, which is returned; a
    /// queue without slots gives back the event itself.
    pub fn enqueue_or_oldest(&mut self, event: ApplicationEvent) -> (r: Option<ApplicationEvent>)
        requires
            old(self).wf(),
        ensures
            final(self).wf(),
            final(self).capacity_spec() == old(self).capacity_spec(),
            final(self).events() == forced(old(self).events(), old(self).capacity_spec(), event),
            r == (if old(self).capacity_spec() == 0 {
                Some(event)
            } else if old(self).events().len() < old(self).capacity_spec() {
                None
            } else {
                Some(old(self).events()[0])
            }),
    {
        if self.capacity() == 0 {
            return Some(event);
        }
        if !self.is_full() {
            self.enqueue(event);
            return None;
        }
        let ghost before = self.events();
        assert(self.ring@[ring_slot(self.capacity_spec(), self.head as int, 0)] is Some);
        let evicted: Option<ApplicationEvent> = self.ring[self.head];
        self.ring.set(self.head, Some(event));
        self.head = self.after_head();
        let ghost wanted = before.drop_first().push(event);
        assert forall|i: int| 0 <= i < self.count implies #[trigger] self.ring@[ring_slot(
            self.capacity_spec(),
            self.head as int,
            i,
        )] == Some(wanted[i]) by {
            if i < self.count - 1 {
                assert(old(self).ring@[ring_slot(
                    old(self).capacity_spec(),
                    old(self).head as int,
                    i + 1,
                )] is Some);
            }
        }
        assert(self.events() =~= wanted);
        evicted
    }

    /// Takes every queued event, the oldest first.
    pub fn drain(&mut self) -> (r: Vec<ApplicationEvent>)
        requires
            old(self).wf(),
        ensures
            final(self).wf(),
            final(self).capacity_spec() == old(self).capacity_spec(),
            r@ == old(self).events(),
            final(self).events().len() == 0,
    {
        let ghost events = self.events();
        let mut out: Vec<ApplicationEvent> = Vec::new();
        let mut left: usize = self.count;
        while left > 0
            invariant
                self.count == events.len(),
                left <= self.count <= self.ring@.len(),
                self.head < self.ring@.len() || self.head == 0,
                self.ring@.len() == old(self).ring@.len(),
                out@ == events.subrange(0, events.len() - left),
                forall|i: int|
                    0 <= i < left ==> #[trigger] self.ring@[ring_slot(
                        self.ring@.len() as int,
                        self.head as int,
                        i,
                    )] == Some(events[events.len() - left + i]),
            decreases left,
        {
            assert(self.ring@[ring_slot(self.ring@.len() as int, self.head as int, 0)] == Some(
                events[events.len() - left],
            ));
            let slot: Option<ApplicationEvent> = self.ring[self.head];
            let ghost ring = self.ring@;
            let ghost head = self.head as int;
            self.ring.set(self.head, None);
            self.head = self.after_head();
            if let Some(event) = slot {
                out.push(event);
            }
            assert forall|i: int| 0 <= i < left - 1 implies #[trigger] self.ring@[ring_slot(
                self.ring@.len() as int,
                self.head as int,
                i,
            )] == Some(events[events.len() - left + 1 + i]) by {
                assert(ring[ring_slot(ring.len() as int, head, i + 1)] == Some(
                    events[events.len() - left + (i + 1)],
                ));
            }
            assert(events.subrange(0, events.len() - left + 1) =~= events.subrange(
                0,
                events.len() - left,
            ).push(events[events.len() - left]));
            left = left - 1;
        }
        assert(events.subrange(0, events.len() as int) =~= events);
        self.count = 0;
        out
    }
}

impl Default for ApplicationEventQueue {
    fn default() -> (r: Self)
        ensures
            r.wf(),
            r.capacity_spec() == 0,
            r.events().len() == 0,
    {
        ApplicationEventQueue::new(0)
    }
}

/// What a queue holds after an event was forced into it.
pub open spec fn forced(
    events: Seq<ApplicationEvent>,
    capacity: int,
    event: ApplicationEvent,
) -> Seq<ApplicationEvent> {
    if capacity == 0 {
        events
    } else if events.len() < capacity {
        events.push(event)
    } else {
        events.drop_first().push(event)
    }
}

/// What a queue holds after the first `k` of some events were forced into it.
pub open spec fn forced_all(
    events: Seq<ApplicationEvent>,
    capacity: int,
    arriving: Seq<ApplicationEvent>,
    k: int,
) -> Seq<ApplicationEvent>
    decreases k,
{
    if k <= 0 {
        events
    } else {
        forced(forced_all(events, capacity, arriving, k - 1), capacity, arriving[k - 1])
    }
}

/// The events after one more was offered to a queue with this many slots.
pub open spec fn enqueued(
    events: Seq<ApplicationEvent>,
    capacity: int,
    event: ApplicationEvent,
) -> Seq<ApplicationEvent> {
    if events.len() < capacity {
        events.push(event)
    } else {
        events
    }
}

/// The events after the first `k` of some were offered.
pub open spec fn enqueued_all(
    events: Seq<ApplicationEvent>,
    capacity: int,
    arriving: Seq<ApplicationEvent>,
    k: int,
) -> Seq<ApplicationEvent>
    decreases k,
{
    if k <= 0 {
        events
    } else {
        enqueued(enqueued_all(events, capacity, arriving, k - 1), capacity, arriving[k - 1])
    }
}

/// Once `additional` slots were added to a queue, exactly as many more events are
/// taken as the slots that there are then have room for, in the order of their
/// arrival, and every further one is refused.
pub proof fn reserved_slots_take_events(
    events: Seq<ApplicationEvent>,
    capacity: int,
    additional: int,
    arriving: Seq<ApplicationEvent>,
    k: int,
)
    requires
        0 <= events.len() <= capacity,
        0 <= additional,
        0 <= k <= arriving.len(),
    ensures
        ({
            let room = capacity + additional - events.len();
            let after = enqueued_all(events, capacity + additional, arriving, k);
            &&& after == events + arriving.subrange(
                0,
                if k < room {
                    k
                } else {
                    room
                },
            )
            &&& after.len() < capacity + additional <==> k < room
        }),
    decreases k,
{
    let room = capacity + additional - events.len();
    let after = enqueued_all(events, capacity + additional, arriving, k);
    if k == 0 {
        assert(after =~= events + arriving.subrange(0, 0));
    } else {
        reserved_slots_take_events(events, capacity, additional, arriving, k - 1);
        let taken = if k < room {
            k
        } else {
            room
        };
        assert(after =~= events + arriving.subrange(0, taken));
    }
}

/// A queue holds the newest events that it has room for, in the order of their
/// arrival.
pub proof fn queues_keep_the_newest_events(
    events: Seq<ApplicationEvent>,
    capacity: int,
    arriving: Seq<ApplicationEvent>,
    k: int,
)
    requires
        0 <= events.len() <= capacity,
        0 <= k <= arriving.len(),
    ensures
        ({
            let all = events + arriving.subrange(0, k);
            let kept = forced_all(events, capacity, arriving, k);
            kept == (if all.len() <= capacity {
                all
            } else {
                all.subrange(all.len() - capacity, all.len() as int)
            })
        }),
    decreases k,
{
    let all = events + arriving.subrange(0, k);
    let kept = forced_all(events, capacity, arriving, k);
    if k == 0 {
        assert(all =~= events);
    } else {
        queues_keep_the_newest_events(events, capacity, arriving, k - 1);
        let before = events + arriving.subrange(0, k - 1);
        assert(all =~= before.push(arriving[k - 1]));
        if capacity == 0 {
            assert(kept =~= all.subrange(all.len() - capacity, all.len() as int));
        } else if before.len() < capacity {
            assert(kept =~= all);
        } else if before.len() == capacity {
            assert(kept =~= all.subrange(all.len() - capacity, all.len() as int));
        } else {
            assert(kept =~= all.subrange(all.len() - capacity, all.len() as int));
        }
    }
}

} // verus!
