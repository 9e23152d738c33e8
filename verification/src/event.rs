use vstd::prelude::*;

verus! {

/// An input event: kind 1 is a key (data1 holds the character), kind 2 a mouse report
/// (data1, data2 the position, data3 the button bits).
#[derive(Clone, Copy)]
pub struct Event {
    pub kind: u32,
    pub data1: i32,
    pub data2: i32,
    pub data3: i32,
}

/// Number of slots of the event ring; it holds one event less than that.
pub const QUEUE_SIZE: usize = 256;

/// A ring buffer of input events: `head` is where the next event is written, `tail` where
/// the next one is read. When it is full, a new event pushes out the oldest.
pub struct EventQueue {
    pub queue: Vec<Event>,
    pub head: usize,
    pub tail: usize,
}

impl EventQueue {
    /// The ring's shape: `QUEUE_SIZE` slots, both positions inside it.
    pub open spec fn wf(&self) -> bool {
        self.queue@.len() == QUEUE_SIZE && self.head < QUEUE_SIZE && self.tail < QUEUE_SIZE
    }

    /// Number of events waiting.
    pub open spec fn count(&self) -> int {
        ((self.head - self.tail) + QUEUE_SIZE) % (QUEUE_SIZE as int)
    }

    /// The events waiting, oldest first.
    pub open spec fn pending(&self) -> Seq<Event> {
        Seq::new(self.count() as nat, |i: int| self.queue@[(self.tail + i) % (QUEUE_SIZE as int)])
    }

    /// An empty queue.
    pub fn new() -> (r: EventQueue)
        ensures
            r.wf(),
            r.pending() == Seq::<Event>::empty(),
    {
        let q = EventQueue {
            queue: vec![Event { kind: 0, data1: 0, data2: 0, data3: 0 }; QUEUE_SIZE],
            head: 0,
            tail: 0,
        };
        assert(q.pending() =~= Seq::<Event>::empty());
        q
    }

    /// Adds `ev` after the waiting events; when 255 are already waiting the oldest is
    /// dropped.
    pub fn push(&mut self, ev: Event)
        requires
            old(self).wf(),
        ensures
            final(self).wf(),
            old(self).count() < 255 ==> final(self).pending() == old(self).pending().push(ev),
            old(self).count() == 255 ==> final(self).pending() == old(self).pending().drop_first().push(ev),
            pushed(old(self), final(self), ev),
    {
        let next = (self.head + 1) % QUEUE_SIZE;
        if next == self.tail {
            self.tail = (self.tail + 1) % QUEUE_SIZE;
        }
        let h = self.head;
        self.queue.set(h, ev);
        self.head = next;
        proof {
            let o = old(self).pending();
            if old(self).count() < 255 {
                assert(self.count() == old(self).count() + 1);
                assert forall|i: int| 0 <= i < self.count() implies #[trigger] self.pending()[i]
                    == o.push(ev)[i] by {
                    if i < old(self).count() {
                        assert((old(self).tail + i) % 256 != h as int);
                    }
                }
                assert(self.pending() =~= o.push(ev));
            } else {
                assert(self.count() == 255);
                assert forall|i: int| 0 <= i < self.count() implies #[trigger] self.pending()[i]
                    == o.drop_first().push(ev)[i] by {
                    if i < 254 {
                        assert((self.tail + i) % 256 == (old(self).tail + (i + 1)) % 256);
                        assert((old(self).tail + (i + 1)) % 256 != h as int);
                    }
                }
                assert(self.pending() =~= o.drop_first().push(ev));
            }
        }
    }

    /// Takes the oldest waiting event, if any.
    pub fn pop(&mut self) -> (r: Option<Event>)
        requires
            old(self).wf(),
        ensures
            final(self).wf(),
            old(self).pending().len() == 0 ==> r is None && final(self).pending() == old(self).pending(),
            old(self).pending().len() > 0 ==> r == Some(old(self).pending()[0])
                && final(self).pending() == old(self).pending().drop_first(),
            popped(old(self), final(self), r),
    {
        if self.head == self.tail {
            return None;
        }
        let ev = self.queue[self.tail];
        self.tail = (self.tail + 1) % QUEUE_SIZE;
        proof {
            let o = old(self).pending();
            assert(self.count() == old(self).count() - 1);
            assert forall|i: int| 0 <= i < self.count() implies #[trigger] self.pending()[i]
                == o.drop_first()[i] by {
                assert((self.tail + i) % 256 == (old(self).tail + (i + 1)) % 256);
            }
            assert(self.pending() =~= o.drop_first());
        }
        Some(ev)
    }
}

/// What `push` of `ev` does to the waiting events: appended, the oldest dropped when 255
/// were waiting.
pub open spec fn pushed(before: &EventQueue, after: &EventQueue, ev: Event) -> bool {
    &&& after.wf()
    &&& before.count() < 255 ==> after.pending() == before.pending().push(ev)
    &&& before.count() == 255 ==> after.pending() == before.pending().drop_first().push(ev)
}

/// What `pop` does: the oldest waiting event taken out, nothing when none waits.
pub open spec fn popped(before: &EventQueue, after: &EventQueue, r: Option<Event>) -> bool {
    &&& after.wf()
    &&& before.pending().len() == 0 ==> r is None && after.pending() == before.pending()
    &&& before.pending().len() > 0 ==> r == Some(before.pending()[0]) && after.pending() == before.pending().drop_first()
}

/// Events come out in the order they went in: events pushed, one after the other, onto a
/// queue with room for them all, are popped back in that order after those already waiting.
pub proof fn lemma_fifo(q: Seq<EventQueue>, evs: Seq<Event>, out: Seq<Option<Event>>)
    requires
        q.len() == evs.len() + out.len() + 1,
        q[0].wf(),
        q[0].count() + evs.len() < 256,
        forall|i: int| 0 <= i < evs.len() ==> pushed(&q[i], &q[i + 1], #[trigger] evs[i]),
        forall|i: int| 0 <= i < out.len() ==> popped(&q[evs.len() + i], &q[evs.len() + i + 1], #[trigger] out[i]),
    ensures
        forall|i: int| 0 <= i < out.len() && i < q[0].pending().len() + evs.len() ==> #[trigger] out[i] == Some(
            (q[0].pending() + evs)[i],
        ),
        q[q.len() - 1].pending() == (q[0].pending() + evs).subrange(
            if out.len() < q[0].pending().len() + evs.len() { out.len() as int } else { (q[0].pending().len() + evs.len()) as int },
            (q[0].pending().len() + evs.len()) as int,
        ),
{
    let all = q[0].pending() + evs;
    let n = all.len();
    assert forall|k: int| 0 <= k <= evs.len() implies #[trigger] q[k].pending() == (q[0].pending() + evs.subrange(0, k)) && q[k].count() == q[k].pending().len() by {
        lemma_fifo_pushes(q, evs, k);
    }
    assert(evs.subrange(0, evs.len() as int) =~= evs);
    assert forall|k: int| 0 <= k <= out.len() implies #[trigger] q[evs.len() + k].pending() == all.subrange(
        if k < n { k } else { n as int },
        n as int,
    ) && (forall|i: int| 0 <= i < k && i < n ==> #[trigger] out[i] == Some(all[i])) by {
        lemma_fifo_pops(q, evs, out, all, k);
    }
}

/// The queue after the first `k` pushes of `lemma_fifo`.
proof fn lemma_fifo_pushes(q: Seq<EventQueue>, evs: Seq<Event>, k: int)
    requires
        q.len() >= evs.len() + 1,
        q[0].wf(),
        q[0].count() + evs.len() < 256,
        forall|i: int| 0 <= i < evs.len() ==> pushed(&q[i], &q[i + 1], #[trigger] evs[i]),
        0 <= k <= evs.len(),
    ensures
        q[k].pending() == q[0].pending() + evs.subrange(0, k),
        q[k].count() == q[k].pending().len(),
        q[k].wf(),
    decreases k,
{
    if k == 0 {
        assert(evs.subrange(0, 0) =~= Seq::<Event>::empty());
        assert(q[0].pending() + Seq::<Event>::empty() =~= q[0].pending());
    } else {
        lemma_fifo_pushes(q, evs, k - 1);
        assert(pushed(&q[k - 1], &q[k], evs[k - 1]));
        assert(q[0].pending() + evs.subrange(0, k) =~= (q[0].pending() + evs.subrange(0, k - 1)).push(evs[k - 1]));
    }
}

/// The queue and the answers after the first `k` pops of `lemma_fifo`.
proof fn lemma_fifo_pops(q: Seq<EventQueue>, evs: Seq<Event>, out: Seq<Option<Event>>, all: Seq<Event>, k: int)
    requires
        q.len() == evs.len() + out.len() + 1,
        q[evs.len() as int].pending() == all,
        forall|i: int| 0 <= i < out.len() ==> popped(&q[evs.len() + i], &q[evs.len() + i + 1], #[trigger] out[i]),
        0 <= k <= out.len(),
    ensures
        q[evs.len() + k].pending() == all.subrange(if k < all.len() { k } else { all.len() as int }, all.len() as int),
        forall|i: int| 0 <= i < k && i < all.len() ==> #[trigger] out[i] == Some(all[i]),
    decreases k,
{
    if k == 0 {
        assert(all.subrange(0, all.len() as int) =~= all);
    } else {
        lemma_fifo_pops(q, evs, out, all, k - 1);
        assert(popped(&q[evs.len() + (k - 1)], &q[evs.len() + k], out[k - 1]));
        let p = q[evs.len() + (k - 1)].pending();
        if k - 1 < all.len() {
            assert(p[0] == all[k - 1]);
            assert(p.drop_first() =~= all.subrange(k, all.len() as int));
        }
    }
}

/// The newest 255 events of `s` (all of them when there are no more).
pub open spec fn newest(s: Seq<Event>) -> Seq<Event> {
    if s.len() <= 255 { s } else { s.subrange(s.len() - 255, s.len() as int) }
}

/// A full queue drops the oldest events, never the newest: after events are pushed, one after
/// the other, onto any queue, and then popped, the pops give back, in push order, the newest
/// 255 of the events that were waiting followed by those pushed, and then nothing.
pub proof fn lemma_overflow_keeps_newest(q: Seq<EventQueue>, evs: Seq<Event>, out: Seq<Option<Event>>)
    requires
        q.len() == evs.len() + out.len() + 1,
        q[0].wf(),
        forall|i: int| 0 <= i < evs.len() ==> pushed(&q[i], &q[i + 1], #[trigger] evs[i]),
        forall|i: int| 0 <= i < out.len() ==> popped(&q[evs.len() + i], &q[evs.len() + i + 1], #[trigger] out[i]),
    ensures
        forall|i: int| 0 <= i < out.len() && i < newest(q[0].pending() + evs).len() ==> #[trigger] out[i] == Some(
            newest(q[0].pending() + evs)[i],
        ),
        forall|i: int| newest(q[0].pending() + evs).len() <= i < out.len() ==> #[trigger] out[i] is None,
{
    let all = newest(q[0].pending() + evs);
    lemma_pushes_keep_newest(q, evs, evs.len() as int);
    assert(evs.subrange(0, evs.len() as int) =~= evs);
    assert forall|k: int| 0 <= k <= out.len() implies #[trigger] q[evs.len() + k].pending() == all.subrange(
        if k < all.len() { k } else { all.len() as int },
        all.len() as int,
    ) && (forall|i: int| 0 <= i < k && i < all.len() ==> #[trigger] out[i] == Some(all[i])) by {
        lemma_fifo_pops(q, evs, out, all, k);
    }
    assert forall|i: int| all.len() <= i < out.len() implies #[trigger] out[i] is None by {
        assert(q[evs.len() + i].pending() == all.subrange(all.len() as int, all.len() as int));
        assert(popped(&q[evs.len() + i], &q[evs.len() + i + 1], out[i]));
    }
}

/// The queue after the first `k` pushes of `lemma_overflow_keeps_newest`.
proof fn lemma_pushes_keep_newest(q: Seq<EventQueue>, evs: Seq<Event>, k: int)
    requires
        q.len() >= evs.len() + 1,
        q[0].wf(),
        forall|i: int| 0 <= i < evs.len() ==> pushed(&q[i], &q[i + 1], #[trigger] evs[i]),
        0 <= k <= evs.len(),
    ensures
        q[k].pending() == newest(q[0].pending() + evs.subrange(0, k)),
        q[k].wf(),
    decreases k,
{
    if k == 0 {
        assert(evs.subrange(0, 0) =~= Seq::<Event>::empty());
        assert(q[0].pending() + Seq::<Event>::empty() =~= q[0].pending());
        assert(q[0].pending().len() <= 255);
    } else {
        lemma_pushes_keep_newest(q, evs, k - 1);
        assert(pushed(&q[k - 1], &q[k], evs[k - 1]));
        let a = q[0].pending() + evs.subrange(0, k - 1);
        let b = q[0].pending() + evs.subrange(0, k);
        assert(b =~= a.push(evs[k - 1]));
        let p = q[k - 1].pending();
        assert(p.len() == q[k - 1].count());
        if q[k - 1].count() < 255 {
            assert(a.len() < 255);
            assert(p =~= a);
        } else {
            assert(q[k - 1].count() == 255);
            assert(a.len() >= 255);
            assert(p.drop_first().push(evs[k - 1]) =~= b.subrange(b.len() - 255, b.len() as int));
        }
    }
}

} // verus!
