//! The bounded event ring between the fault path and its consumers.
//!
//! Producers push; a single consumer cursor drains, oldest first. Sequence
//! numbers are assigned at enqueue time and strictly increase, so a gap in the
//! numbers a consumer sees means events were dropped, never reordered. When
//! the ring is full, the oldest unconsumed event is overwritten and the drop
//! count rises; the faulting thread is never blocked.

use vstd::prelude::*;

verus! {

/// Where a change happened, best effort.
#[derive(Debug)]
pub struct Location {
    pub file: Option<String>,
    pub function: Option<String>,
    pub line: u32,
    pub fault_ip: u64,
}

/// The mathematical value of a `Location`.
pub ghost struct LocationView {
    pub file: Option<Seq<char>>,
    pub function: Option<Seq<char>>,
    pub line: u32,
    pub fault_ip: u64,
}

impl View for Location {
    type V = LocationView;

    open spec fn view(&self) -> LocationView {
        LocationView {
            file: match self.file {
                Some(f) => Some(f@),
                None => None,
            },
            function: match self.function {
                Some(f) => Some(f@),
                None => None,
            },
            line: self.line,
            fault_ip: self.fault_ip,
        }
    }
}

/// One detected change of a watched region.
#[derive(Debug)]
pub struct ChangeEvent {
    /// Assigned at enqueue time; strictly increasing across the engine's life.
    pub seq: u64,
    /// When the change was reported to the engine.
    pub timestamp_ns: u64,
    /// The region the change is attributed to.
    pub region_id: u32,
    /// The region's name, when it has one.
    pub variable_name: Option<String>,
    /// Offset of the first changed byte, relative to the region's base.
    pub byte_offset: usize,
    /// Length of the smallest byte range covering every changed byte.
    pub length_changed: usize,
    /// Where the change happened, best effort.
    pub location: Location,
    /// The changed bytes before the write, bounded by the region's policy.
    pub old_preview: Vec<u8>,
    /// The changed bytes after the write, bounded by the region's policy.
    pub new_preview: Vec<u8>,
}

/// The mathematical value of a `ChangeEvent`.
pub ghost struct ChangeEventView {
    pub seq: u64,
    pub timestamp_ns: u64,
    pub region_id: u32,
    pub variable_name: Option<Seq<char>>,
    pub byte_offset: usize,
    pub length_changed: usize,
    pub location: LocationView,
    pub old_preview: Seq<u8>,
    pub new_preview: Seq<u8>,
}

impl View for ChangeEvent {
    type V = ChangeEventView;

    open spec fn view(&self) -> ChangeEventView {
        ChangeEventView {
            seq: self.seq,
            timestamp_ns: self.timestamp_ns,
            region_id: self.region_id,
            variable_name: match self.variable_name {
                Some(n) => Some(n@),
                None => None,
            },
            byte_offset: self.byte_offset,
            length_changed: self.length_changed,
            location: self.location@,
            old_preview: self.old_preview@,
            new_preview: self.new_preview@,
        }
    }
}

/// The views of a sequence of events.
pub open spec fn events_view(s: Seq<ChangeEvent>) -> Seq<ChangeEventView> {
    s.map_values(|e: ChangeEvent| e@)
}

/// The preview bytes an event retains.
pub open spec fn event_bytes(e: ChangeEventView) -> nat {
    e.old_preview.len() + e.new_preview.len()
}

/// The preview bytes retained by all events of `s` together.
pub open spec fn pending_bytes(s: Seq<ChangeEventView>) -> nat
    decreases s.len(),
{
    if s.len() == 0 {
        0
    } else {
        event_bytes(s[0]) + pending_bytes(s.drop_first())
    }
}

/// Appending one event adds exactly its bytes to the total.
pub proof fn lemma_pending_bytes_push(s: Seq<ChangeEventView>, e: ChangeEventView)
    ensures
        pending_bytes(s.push(e)) == pending_bytes(s) + event_bytes(e),
    decreases s.len(),
{
    let t = s.push(e);
    assert(t.len() == s.len() + 1);
    assert(pending_bytes(t) == event_bytes(t[0]) + pending_bytes(t.drop_first()));
    if s.len() == 0 {
        assert(t[0] == e);
        assert(t.drop_first() =~= Seq::<ChangeEventView>::empty());
        assert(pending_bytes(Seq::<ChangeEventView>::empty()) == 0);
        assert(pending_bytes(s) == 0);
    } else {
        assert(t[0] == s[0]);
        assert(t.drop_first() =~= s.drop_first().push(e));
        lemma_pending_bytes_push(s.drop_first(), e);
        assert(pending_bytes(s) == event_bytes(s[0]) + pending_bytes(s.drop_first()));
    }
}

/// The retained bytes of a concatenation are the two totals added.
pub proof fn lemma_pending_bytes_concat(a: Seq<ChangeEventView>, b: Seq<ChangeEventView>)
    ensures
        pending_bytes(a + b) == pending_bytes(a) + pending_bytes(b),
    decreases b.len(),
{
    if b.len() == 0 {
        assert(a + b =~= a);
    } else {
        assert(a + b =~= (a + b.drop_last()).push(b.last()));
        lemma_pending_bytes_concat(a, b.drop_last());
        lemma_pending_bytes_push(a + b.drop_last(), b.last());
        assert(b.drop_last().push(b.last()) =~= b);
        lemma_pending_bytes_push(b.drop_last(), b.last());
    }
}

/// Fixed-capacity queue of change events with drop accounting and a single
/// consumer cursor.
pub struct EventRing {
    pending: Vec<ChangeEvent>,
    capacity: usize,
    write_count: u64,
    drop_count: u64,
    delivered_count: u64,
    last_delivered_seq: u64,
    storage_bytes: u64,
}

impl EventRing {
    /// The undelivered events, oldest first.
    pub closed spec fn pending_view(self) -> Seq<ChangeEventView> {
        events_view(self.pending@)
    }

    /// The fixed capacity the ring was made with.
    pub closed spec fn spec_capacity(self) -> usize {
        self.capacity
    }

    /// The sequence number the next offered event will carry.
    pub open spec fn spec_next_seq(self) -> int {
        self.spec_write_count() + 1
    }

    /// How many events were ever offered to the ring.
    pub closed spec fn spec_write_count(self) -> u64 {
        self.write_count
    }

    /// How many offered events were lost: evicted while unconsumed, or
    /// refused outright.
    pub closed spec fn spec_drop_count(self) -> u64 {
        self.drop_count
    }

    /// How many events were handed to the consumer.
    pub closed spec fn spec_delivered_count(self) -> u64 {
        self.delivered_count
    }

    /// The highest sequence number the consumer has seen; 0 before the first
    /// delivery, since sequence numbers start at 1.
    pub closed spec fn spec_last_delivered(self) -> u64 {
        self.last_delivered_seq
    }

    /// The preview bytes currently retained by undelivered events.
    pub closed spec fn spec_storage_bytes(self) -> u64 {
        self.storage_bytes
    }

    /// The ring's invariant. Every offered event was delivered, is still
    /// pending, or was dropped; pending sequence numbers strictly increase,
    /// lie above the consumer cursor and below `next_seq`.
    pub open spec fn wf(self) -> bool {
        &&& self.spec_capacity() >= 1
        &&& self.pending_view().len() <= self.spec_capacity()
        &&& self.spec_write_count() == self.spec_delivered_count() + self.pending_view().len()
            + self.spec_drop_count()
        &&& (forall|i: int, j: int|
            0 <= i < j < self.pending_view().len() ==> self.pending_view()[i].seq
                < self.pending_view()[j].seq)
        &&& (forall|i: int|
            0 <= i < self.pending_view().len() ==> self.spec_last_delivered() < (
            #[trigger] self.pending_view()[i]).seq < self.spec_next_seq())
        &&& self.spec_last_delivered() < self.spec_next_seq()
        &&& self.spec_storage_bytes() == pending_bytes(self.pending_view())
    }

    /// An empty ring of the given capacity.
    pub fn new(capacity: usize) -> (r: EventRing)
        requires
            capacity >= 1,
        ensures
            r.wf(),
            r.spec_capacity() == capacity,
            r.pending_view() == Seq::<ChangeEventView>::empty(),
            r.spec_next_seq() == 1,
            r.spec_write_count() == 0u64,
            r.spec_drop_count() == 0u64,
            r.spec_delivered_count() == 0u64,
            r.spec_last_delivered() == 0u64,
            r.spec_storage_bytes() == 0u64,
    {
        let r = EventRing {
            pending: Vec::new(),
            capacity,
            write_count: 0,
            drop_count: 0,
            delivered_count: 0,
            last_delivered_seq: 0,
            storage_bytes: 0,
        };
        proof {
            assert(r.pending_view() =~= Seq::<ChangeEventView>::empty());
        }
        r
    }

    /// Reads the write counter.
    pub fn write_count_now(&self) -> (n: u64)
        ensures
            n == self.spec_write_count(),
    {
        self.write_count
    }

    /// Reads the drop counter.
    pub fn drop_count_now(&self) -> (n: u64)
        ensures
            n == self.spec_drop_count(),
    {
        self.drop_count
    }

    /// Reads the retained preview byte counter.
    pub fn storage_bytes_now(&self) -> (n: u64)
        ensures
            n == self.spec_storage_bytes(),
    {
        self.storage_bytes
    }

    /// Offers one event. The ring stamps it with the next sequence number and
    /// never blocks: when full, the oldest unconsumed event is evicted and
    /// counted dropped; when the stamped event's previews cannot be accounted
    /// (their byte count would overflow the storage counter), the new event
    /// itself is dropped and counted.
    pub fn push(&mut self, ev: ChangeEvent)
        requires
            old(self).wf(),
            old(self).spec_write_count() < u64::MAX,
        ensures
            final(self).wf(),
            final(self).spec_capacity() == old(self).spec_capacity(),
            final(self).spec_write_count() == old(self).spec_write_count() + 1,
            final(self).spec_delivered_count() == old(self).spec_delivered_count(),
            final(self).spec_last_delivered() == old(self).spec_last_delivered(),
            ({
                let stamped = ChangeEventView { seq: (old(self).spec_write_count() + 1) as u64, ..ev@ };
                let evicted = if old(self).pending_view().len() == old(self).spec_capacity() {
                    old(self).pending_view().drop_first()
                } else {
                    old(self).pending_view()
                };
                let evict_drops: int = if old(self).pending_view().len() == old(
                    self,
                ).spec_capacity() {
                    1
                } else {
                    0
                };
                if pending_bytes(evicted) + event_bytes(stamped) <= u64::MAX {
                    &&& final(self).pending_view() == evicted.push(stamped)
                    &&& final(self).spec_drop_count() == old(self).spec_drop_count() + evict_drops
                } else {
                    &&& final(self).pending_view() == evicted
                    &&& final(self).spec_drop_count() == old(self).spec_drop_count() + evict_drops
                        + 1
                }
            }),
    {
        let ghost prior = self.pending_view();
        if self.pending.len() == self.capacity {
            let oldest = &self.pending[0];
            let oldest_bytes = oldest.old_preview.len() as u64 + oldest.new_preview.len() as u64;
            proof {
                assert(pending_bytes(prior) == event_bytes(prior[0]) + pending_bytes(
                    prior.drop_first(),
                ));
                assert(event_bytes(prior[0]) <= u64::MAX);
            }
            self.pending.remove(0);
            proof {
                assert(events_view(self.pending@) =~= prior.drop_first());
            }
            self.storage_bytes = self.storage_bytes - oldest_bytes;
            self.drop_count = self.drop_count + 1;
        }
        let ghost evicted = self.pending_view();
        let mut stamped = ev;
        stamped.seq = self.write_count + 1;
        let old_len = stamped.old_preview.len() as u64;
        let new_len = stamped.new_preview.len() as u64;
        let fits_u64 = old_len <= u64::MAX - new_len;
        if fits_u64 && old_len + new_len <= u64::MAX - self.storage_bytes {
            proof {
                lemma_pending_bytes_push(evicted, stamped@);
            }
            self.storage_bytes = self.storage_bytes + (old_len + new_len);
            self.pending.push(stamped);
            proof {
                assert(events_view(self.pending@) =~= evicted.push(stamped@));
            }
        } else {
            self.drop_count = self.drop_count + 1;
        }
        self.write_count = self.write_count + 1;
    }

    /// Hands out up to `max_events` of the oldest undelivered events and
    /// advances the consumer cursor past them: a later drain can never yield
    /// one of them again. The yielded sequence numbers strictly increase and
    /// all lie above the cursor as it stood before the call.
    pub fn drain(&mut self, max_events: usize) -> (out: Vec<ChangeEvent>)
        requires
            old(self).wf(),
        ensures
            final(self).wf(),
            final(self).spec_capacity() == old(self).spec_capacity(),
            final(self).spec_write_count() == old(self).spec_write_count(),
            final(self).spec_drop_count() == old(self).spec_drop_count(),
            out@.len() == if max_events <= old(self).pending_view().len() {
                max_events as int
            } else {
                old(self).pending_view().len() as int
            },
            events_view(out@) == old(self).pending_view().take(out@.len() as int),
            final(self).pending_view() == old(self).pending_view().skip(out@.len() as int),
            final(self).spec_delivered_count() == old(self).spec_delivered_count() + out@.len(),
            forall|i: int, j: int| 0 <= i < j < out@.len() ==> out@[i].seq < out@[j].seq,
            forall|i: int|
                0 <= i < out@.len() ==> old(self).spec_last_delivered() < (#[trigger] out@[i]).seq,
            final(self).spec_last_delivered() == if out@.len() > 0 {
                out@.last().seq
            } else {
                old(self).spec_last_delivered()
            },
    {
        let k = if max_events <= self.pending.len() {
            max_events
        } else {
            self.pending.len()
        };
        let ghost prior = self.pending_view();
        let mut out: Vec<ChangeEvent> = Vec::new();
        let mut j: usize = 0;
        while j < k
            invariant
                k <= prior.len(),
                j <= k,
                prior == old(self).pending_view(),
                events_view(out@) =~= prior.take(j as int),
                out@.len() == j,
                self.pending_view() == prior.skip(j as int),
                self.capacity == old(self).spec_capacity(),
                self.write_count == old(self).spec_write_count(),
                self.drop_count == old(self).spec_drop_count(),
                self.delivered_count == old(self).spec_delivered_count(),
                self.last_delivered_seq == old(self).spec_last_delivered(),
                self.storage_bytes == pending_bytes(self.pending_view()),
                old(self).wf(),
            decreases k - j,
        {
            let ghost rest = self.pending_view();
            let ev = self.pending.remove(0);
            let ev_bytes = ev.old_preview.len() as u64 + ev.new_preview.len() as u64;
            proof {
                assert(rest[0] == prior.skip(j as int)[0]);
                assert(pending_bytes(rest) == event_bytes(rest[0]) + pending_bytes(
                    rest.drop_first(),
                ));
                assert(event_bytes(ev@) <= u64::MAX);
                assert(events_view(self.pending@) =~= rest.drop_first());
                assert(rest.drop_first() =~= prior.skip(j + 1));
            }
            self.storage_bytes = self.storage_bytes - ev_bytes;
            out.push(ev);
            proof {
                assert(events_view(out@) =~= prior.take(j + 1));
            }
            j += 1;
        }
        if k > 0 {
            self.last_delivered_seq = out[k - 1].seq;
            proof {
                assert(out@.last()@ == prior.take(k as int).last());
            }
        }
        self.delivered_count = self.delivered_count + k as u64;
        proof {
            assert forall|i: int, j2: int| 0 <= i < j2 < out@.len() implies out@[i].seq
                < out@[j2].seq by {
                assert(events_view(out@)[i] == out@[i]@);
                assert(events_view(out@)[j2] == out@[j2]@);
                assert(prior[i].seq < prior[j2].seq);
            }
            assert forall|i: int| 0 <= i < out@.len() implies old(self).spec_last_delivered() < (
            #[trigger] out@[i]).seq by {
                assert(events_view(out@)[i] == out@[i]@);
                assert(prior[i].seq > old(self).spec_last_delivered());
            }
        }
        out
    }

    /// Every offered event is delivered, still pending, or dropped, and
    /// nothing else: the writes not dropped are exactly the deliveries owed.
    pub proof fn lemma_ring_accounting(self)
        requires
            self.wf(),
        ensures
            self.spec_write_count() == self.spec_delivered_count() + self.pending_view().len()
                + self.spec_drop_count(),
            self.spec_write_count() - self.spec_drop_count() == self.spec_delivered_count()
                + self.pending_view().len(),
    {
    }
}

/// Batches drained one after another from a single consumer cursor never
/// repeat a sequence number: each batch strictly increases, the first ends at
/// the cursor the second starts above, so their concatenation strictly
/// increases as well.
pub proof fn lemma_successive_drains_increase(
    first: Seq<ChangeEventView>,
    cursor_between: u64,
    second: Seq<ChangeEventView>,
)
    requires
        forall|i: int, j: int| 0 <= i < j < first.len() ==> first[i].seq < first[j].seq,
        forall|i: int| 0 <= i < first.len() ==> (#[trigger] first[i]).seq <= cursor_between,
        forall|i: int| 0 <= i < second.len() ==> (#[trigger] second[i]).seq > cursor_between,
        forall|i: int, j: int| 0 <= i < j < second.len() ==> second[i].seq < second[j].seq,
    ensures
        forall|i: int, j: int|
            0 <= i < j < (first + second).len() ==> (first + second)[i].seq < (first
                + second)[j].seq,
{
    assert forall|i: int, j: int| 0 <= i < j < (first + second).len() implies (first
        + second)[i].seq < (first + second)[j].seq by {
        if j < first.len() {
            assert((first + second)[i] == first[i]);
            assert((first + second)[j] == first[j]);
        } else if i >= first.len() {
            assert((first + second)[i] == second[i - first.len()]);
            assert((first + second)[j] == second[j - first.len()]);
        } else {
            assert((first + second)[i] == first[i]);
            assert((first + second)[j] == second[j - first.len()]);
        }
    }
}

} // verus!
