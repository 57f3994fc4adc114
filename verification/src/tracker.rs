//! A snapshot-comparison tracker: the software-only counterpart of the
//! watch engine, for hosts without page-protection trapping.
//!
//! The caller registers byte buffers, reports their current contents when
//! they may have moved, and polls `detect_changes`, which emits one event per
//! byte that differs from the remembered snapshot and brings the snapshot up
//! to date.

use vstd::prelude::*;

use crate::decimal::{dec_digits, u64_to_string};

verus! {

/// One changed byte: where it sits and what it read before and after.
#[derive(Debug)]
pub struct MemoryEvent {
    /// The region's display name, `region_` followed by its number.
    pub name: String,
    /// The byte's offset within the region.
    pub offset: usize,
    pub old_value: u8,
    pub new_value: u8,
}

/// The display name of region `id`.
pub open spec fn region_name(id: nat) -> Seq<char> {
    "region_"@ + dec_digits(id)
}

/// The events one diff pass emits for region `id`: one per differing index,
/// in offset order, each carrying the region's display name.
pub open spec fn diff_events(init: Seq<u8>, cur: Seq<u8>, id: nat) -> Seq<
    (Seq<char>, nat, u8, u8),
>
    decreases init.len(),
{
    if init.len() == 0 || init.len() != cur.len() {
        Seq::empty()
    } else {
        diff_events(init.drop_last(), cur.drop_last(), id) + if init.last() != cur.last() {
            seq![(region_name(id), (init.len() - 1) as nat, init.last(), cur.last())]
        } else {
            Seq::empty()
        }
    }
}

/// The complete view of an emitted event run: name, offset, old byte, new byte.
pub open spec fn tracker_events_view(evs: Seq<MemoryEvent>) -> Seq<(Seq<char>, nat, u8, u8)> {
    evs.map_values(|e: MemoryEvent| (e.name@, e.offset as nat, e.old_value, e.new_value))
}

/// Tracks registered buffers by remembered snapshot and detects changes by
/// comparison.
pub struct MemoryTracker {
    regions: Vec<Vec<u8>>,
    initial: Vec<Vec<u8>>,
    events: Vec<MemoryEvent>,
    region_count: usize,
}

impl MemoryTracker {
    /// The current contents reported for each region, by identifier.
    pub closed spec fn regions_view(self) -> Seq<Seq<u8>> {
        self.regions@.map_values(|v: Vec<u8>| v@)
    }

    /// The remembered snapshot of each region, by identifier.
    pub closed spec fn initial_view(self) -> Seq<Seq<u8>> {
        self.initial@.map_values(|v: Vec<u8>| v@)
    }

    /// The events emitted so far, oldest first.
    pub closed spec fn events_seq(self) -> Seq<MemoryEvent> {
        self.events@
    }

    /// Identifiers are dense: one current and one remembered buffer per
    /// region, of equal length.
    pub open spec fn wf(self) -> bool {
        &&& self.regions_view().len() == self.spec_region_count()
        &&& self.initial_view().len() == self.spec_region_count()
        &&& (forall|j: int|
            0 <= j < self.spec_region_count() ==> (#[trigger] self.initial_view()[j]).len()
                == self.regions_view()[j].len())
    }

    /// How many regions were ever registered.
    pub closed spec fn spec_region_count(self) -> nat {
        self.region_count as nat
    }

    /// An empty tracker.
    pub fn new() -> (t: MemoryTracker)
        ensures
            t.wf(),
            t.spec_region_count() == 0,
            t.events_seq() == Seq::<MemoryEvent>::empty(),
    {
        MemoryTracker {
            regions: Vec::new(),
            initial: Vec::new(),
            events: Vec::new(),
            region_count: 0,
        }
    }

    /// Registers a buffer under the next identifier, remembering its bytes
    /// as the baseline for change detection. The given name is for the
    /// caller's own records; emitted events carry the region's display name.
    pub fn watch(&mut self, data: &[u8], name: &str) -> (id: usize)
        requires
            old(self).wf(),
            old(self).spec_region_count() < usize::MAX,
        ensures
            final(self).wf(),
            id == old(self).spec_region_count(),
            final(self).spec_region_count() == old(self).spec_region_count() + 1,
            final(self).regions_view() == old(self).regions_view().push(data@),
            final(self).initial_view() == old(self).initial_view().push(data@),
            final(self).events_seq() == old(self).events_seq(),
    {
        let id = self.region_count;
        self.region_count = self.region_count + 1;
        self.regions.push(vstd::slice::slice_to_vec(data));
        self.initial.push(vstd::slice::slice_to_vec(data));
        proof {
            assert(self.regions@.map_values(|v: Vec<u8>| v@) =~= old(self).regions_view().push(
                data@,
            ));
            assert(self.initial@.map_values(|v: Vec<u8>| v@) =~= old(self).initial_view().push(
                data@,
            ));
        }
        id
    }

    /// Reports the region's current contents; the remembered snapshot is kept
    /// so the next `detect_changes` sees the difference. Rejects an unknown
    /// identifier and contents of another length, since a region's extent is
    /// fixed at registration.
    pub fn set_region_data(&mut self, id: usize, data: &[u8]) -> (ok: bool)
        requires
            old(self).wf(),
        ensures
            final(self).wf(),
            ok == (id < old(self).spec_region_count() && data@.len() == old(self).regions_view()[
                id as int
            ].len()),
            ok ==> final(self).regions_view() == old(self).regions_view().update(id as int, data@)
                && final(self).initial_view() == old(self).initial_view()
                && final(self).events_seq() == old(self).events_seq()
                && final(self).spec_region_count() == old(self).spec_region_count(),
            !ok ==> *final(self) == *old(self),
    {
        if id >= self.regions.len() {
            return false;
        }
        if data.len() != self.regions[id].len() {
            return false;
        }
        self.regions.set(id, vstd::slice::slice_to_vec(data));
        proof {
            assert(self.regions@.map_values(|v: Vec<u8>| v@) =~= old(self).regions_view().update(
                id as int,
                data@,
            ));
            assert(self.initial@.map_values(|v: Vec<u8>| v@) =~= old(self).initial_view());
        }
        true
    }

    /// Emits one event per byte whose current value differs from the
    /// remembered snapshot, region by region and offset by offset, and brings
    /// every snapshot up to date.
    #[verifier::loop_isolation(false)]
    pub fn detect_changes(&mut self)
        requires
            old(self).wf(),
        ensures
            final(self).wf(),
            final(self).spec_region_count() == old(self).spec_region_count(),
            final(self).regions_view() == old(self).regions_view(),
            final(self).initial_view() == old(self).regions_view(),
            tracker_events_view(final(self).events_seq()) == tracker_events_view(
                old(self).events_seq(),
            ) + all_diff_events(old(self).initial_view(), old(self).regions_view()),
    {
        let n = self.regions.len();
        let ghost old_events = self.events@;
        let ghost regs0 = self.regions_view();
        let ghost init0 = self.initial_view();
        let mut id: usize = 0;
        while id < n
            invariant
                id <= n,
                self.region_count == old(self).spec_region_count(),
                self.regions@.len() == n,
                self.initial@.len() == n,
                self.regions_view() == regs0,
                forall|j: int|
                    0 <= j < id ==> (#[trigger] self.initial_view()[j]) == regs0[j],
                forall|j: int|
                    id <= j < n ==> (#[trigger] self.initial_view()[j]) == init0[j],
                forall|j: int|
                    0 <= j < n ==> (#[trigger] self.initial_view()[j]).len() == regs0[j].len(),
                tracker_events_view(self.events@) == tracker_events_view(old_events)
                    + all_diff_events(init0.take(id as int), regs0.take(id as int)),
            decreases n - id,
        {
            proof {
                assert(init0.take(id + 1).drop_last() =~= init0.take(id as int));
                assert(regs0.take(id + 1).drop_last() =~= regs0.take(id as int));
                lemma_all_diff_push(init0.take(id as int), regs0.take(id as int), init0[id as int], regs0[id as int]);
                assert(init0.take(id + 1) =~= init0.take(id as int).push(init0[id as int]));
                assert(regs0.take(id + 1) =~= regs0.take(id as int).push(regs0[id as int]));
            }
            self.emit_region(id);
            id += 1;
        }
        proof {
            assert(init0.take(n as int) =~= init0);
            assert(regs0.take(n as int) =~= regs0);
            assert(self.regions@.map_values(|v: Vec<u8>| v@) =~= regs0);
            assert(self.initial@.map_values(|v: Vec<u8>| v@) =~= regs0);
        }
    }

    /// Diffs one region and emits its events, then refreshes its snapshot.
    #[verifier::loop_isolation(false)]
    fn emit_region(&mut self, id: usize)
        requires
            old(self).wf(),
            id < old(self).spec_region_count(),
        ensures
            final(self).wf(),
            final(self).spec_region_count() == old(self).spec_region_count(),
            final(self).regions_view() == old(self).regions_view(),
            final(self).initial_view() == old(self).initial_view().update(
                id as int,
                old(self).regions_view()[id as int],
            ),
            tracker_events_view(final(self).events_seq()) == tracker_events_view(
                old(self).events_seq(),
            ) + diff_events(
                old(self).initial_view()[id as int],
                old(self).regions_view()[id as int],
                id as nat,
            ),
    {
        let ghost init_s = self.initial_view()[id as int];
        let ghost cur_s = self.regions_view()[id as int];
        let ghost old_events = self.events@;
        let rlen = self.regions[id].len();
        let mut name = String::from_str("region_");
        name.append(u64_to_string(id as u64).as_str());
        proof {
            assert(name@ == region_name(id as nat));
            assert(self.initial@[id as int]@ == init_s);
            assert(self.regions@[id as int]@ == cur_s);
        }
        let mut k: usize = 0;
        while k < rlen
            invariant
                k <= rlen,
                rlen == cur_s.len(),
                init_s.len() == cur_s.len(),
                id < self.regions@.len(),
                self.regions == old(self).regions,
                self.initial == old(self).initial,
                self.region_count == old(self).region_count,
                name@ == region_name(id as nat),
                tracker_events_view(self.events@) == tracker_events_view(old_events) + diff_events(
                    init_s.take(k as int),
                    cur_s.take(k as int),
                    id as nat,
                ),
            decreases rlen - k,
        {
            proof {
                lemma_diff_events_take(init_s, cur_s, id as nat, k as int);
            }
            let old_b = self.initial[id][k];
            let new_b = self.regions[id][k];
            let ghost before_events = self.events@;
            if old_b != new_b {
                let ev = MemoryEvent {
                    name: name.clone(),
                    offset: k,
                    old_value: old_b,
                    new_value: new_b,
                };
                self.events.push(ev);
                proof {
                    assert(tracker_events_view(self.events@) =~= tracker_events_view(
                        before_events,
                    ).push((region_name(id as nat), k as nat, old_b, new_b)));
                }
            }
            k += 1;
        }
        proof {
            assert(init_s.take(rlen as int) =~= init_s);
            assert(cur_s.take(rlen as int) =~= cur_s);
        }
        let snapshot = vstd::slice::slice_to_vec(self.regions[id].as_slice());
        self.initial.set(id, snapshot);
        proof {
            assert(self.initial@.map_values(|v: Vec<u8>| v@) =~= old(self).initial_view().update(
                id as int,
                cur_s,
            ));
            assert(self.regions@.map_values(|v: Vec<u8>| v@) =~= old(self).regions_view());
        }
    }

    /// How many events have been emitted over the tracker's life.
    pub fn event_count(&self) -> (n: usize)
        ensures
            n == self.events_seq().len(),
    {
        self.events.len()
    }

    /// The emitted events, oldest first.
    pub fn events(&self) -> (evs: &Vec<MemoryEvent>)
        ensures
            evs@ == self.events_seq(),
    {
        &self.events
    }
}

/// The events of one pass over many regions, region by region.
pub open spec fn all_diff_events(inits: Seq<Seq<u8>>, curs: Seq<Seq<u8>>) -> Seq<
    (Seq<char>, nat, u8, u8),
>
    decreases inits.len(),
{
    if inits.len() == 0 || inits.len() != curs.len() {
        Seq::empty()
    } else {
        all_diff_events(inits.drop_last(), curs.drop_last()) + diff_events(
            inits.last(),
            curs.last(),
            (inits.len() - 1) as nat,
        )
    }
}

proof fn lemma_all_diff_push(inits: Seq<Seq<u8>>, curs: Seq<Seq<u8>>, i0: Seq<u8>, c0: Seq<u8>)
    requires
        inits.len() == curs.len(),
    ensures
        all_diff_events(inits.push(i0), curs.push(c0)) == all_diff_events(inits, curs)
            + diff_events(i0, c0, inits.len()),
{
    assert(inits.push(i0).drop_last() =~= inits);
    assert(curs.push(c0).drop_last() =~= curs);
    assert(inits.push(i0).last() == i0);
    assert(curs.push(c0).last() == c0);
}

proof fn lemma_diff_events_take(init: Seq<u8>, cur: Seq<u8>, id: nat, k: int)
    requires
        init.len() == cur.len(),
        0 <= k <= init.len(),
    ensures
        k < init.len() ==> diff_events(init.take(k + 1), cur.take(k + 1), id) == diff_events(
            init.take(k),
            cur.take(k),
            id,
        ) + if init[k] != cur[k] {
            seq![(region_name(id), k as nat, init[k], cur[k])]
        } else {
            Seq::<(Seq<char>, nat, u8, u8)>::empty()
        },
        k == init.len() ==> diff_events(init.take(k), cur.take(k), id) == diff_events(
            init,
            cur,
            id,
        ),
{
    if k < init.len() {
        assert(init.take(k + 1).drop_last() =~= init.take(k));
        assert(cur.take(k + 1).drop_last() =~= cur.take(k));
        assert(init.take(k + 1).last() == init[k]);
        assert(cur.take(k + 1).last() == cur[k]);
    } else {
        assert(init.take(k) =~= init);
        assert(cur.take(k) =~= cur);
    }
}

} // verus!
