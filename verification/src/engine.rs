//! The watch engine facade.
//!
//! Composes the region table, the page map and the event ring behind the
//! public operations: initialise, watch and unwatch regions, report a write
//! (the fault path), poll for changes, run one worker cycle, read statistics,
//! shut down. The engine's invariant ties the parts together: every protected
//! page's reference count equals the number of live regions overlapping it.
//!
//! The engine cannot trap writes itself — page protection and the signal
//! handler are the host's work. It is told of each write through
//! `handle_write`, which plays the fault handler: it attributes the write to
//! the overlapping regions, computes the exact changed byte range per region
//! by diffing the remembered bytes against the written ones, captures bounded
//! previews under each region's policy, and offers one event per changed
//! region to the ring.

use vstd::prelude::*;

use crate::clone_opt_string;
use crate::pagemap::{
    armed_count, armed_of, contains_page, range_covers_index, rc_of, spec_page_index, PageMap,
    ProtectedPage,
};
use crate::region::{has_id, valid_policy, without_id, Region, RegionTable};
use crate::ring::{
    event_bytes, lemma_pending_bytes_concat, pending_bytes, ChangeEvent, ChangeEventView,
    EventRing, Location, LocationView,
};
use crate::valuestore::{capture, preview_of};
use crate::ErrorCode;

verus! {

/// How many events the ring holds before the oldest unconsumed one is
/// overwritten.
pub const RING_CAPACITY: usize = 1024;

/// The engine's lifecycle: `Running` is entered once by `init` and left once,
/// for good, by `shutdown`.
#[derive(Clone, Copy, Debug, PartialEq, Eq, Structural)]
pub enum EngineState {
    Uninitialized,
    Running,
    Shutdown,
}

/// Whether the region overlaps the page with index `pi`.
pub open spec fn region_covers_page(r: Region, pi: u64) -> bool {
    range_covers_index(r.base_address, r.spec_len(), pi)
}

/// How many regions of `rs` overlap the page with index `pi`.
pub open spec fn covering_count(rs: Seq<Region>, pi: u64) -> nat
    decreases rs.len(),
{
    if rs.len() == 0 {
        0
    } else {
        covering_count(rs.drop_last(), pi) + if region_covers_page(rs.last(), pi) {
            1nat
        } else {
            0nat
        }
    }
}

/// No page is overlapped by more regions than there are.
pub proof fn lemma_covering_count_le(rs: Seq<Region>, pi: u64)
    ensures
        covering_count(rs, pi) <= rs.len(),
    decreases rs.len(),
{
    if rs.len() > 0 {
        lemma_covering_count_le(rs.drop_last(), pi);
    }
}

/// A page some region overlaps is overlapped at least once.
pub proof fn lemma_covering_count_pos(rs: Seq<Region>, i: int, pi: u64)
    requires
        0 <= i < rs.len(),
        region_covers_page(rs[i], pi),
    ensures
        covering_count(rs, pi) >= 1,
    decreases rs.len(),
{
    if i == rs.len() - 1 {
        assert(rs.last() == rs[i]);
    } else {
        assert(rs.drop_last()[i] == rs[i]);
        lemma_covering_count_pos(rs.drop_last(), i, pi);
    }
}

/// Removing one region lowers each page's overlap count by exactly that
/// region's contribution.
pub proof fn lemma_covering_count_remove(rs: Seq<Region>, i: int, pi: u64)
    requires
        0 <= i < rs.len(),
    ensures
        covering_count(rs.remove(i), pi) == covering_count(rs, pi) - if region_covers_page(
            rs[i],
            pi,
        ) {
            1int
        } else {
            0int
        },
    decreases rs.len(),
{
    let t = rs.remove(i);
    if i == rs.len() - 1 {
        assert(t =~= rs.drop_last());
    } else {
        assert(t.last() == rs.last());
        assert(t.drop_last() =~= rs.drop_last().remove(i));
        assert(rs.drop_last()[i] == rs[i]);
        lemma_covering_count_remove(rs.drop_last(), i, pi);
    }
}

/// Overlap counts depend on each region's place and extent alone, never on
/// its remembered bytes.
pub proof fn lemma_covering_count_geometry(rs1: Seq<Region>, rs2: Seq<Region>, pi: u64)
    requires
        rs1.len() == rs2.len(),
        forall|k: int|
            0 <= k < rs1.len() ==> (#[trigger] rs2[k]).base_address == rs1[k].base_address
                && rs2[k].spec_len() == rs1[k].spec_len(),
    ensures
        covering_count(rs2, pi) == covering_count(rs1, pi),
    decreases rs1.len(),
{
    if rs1.len() > 0 {
        assert(rs1[rs1.len() - 1] == rs1.last());
        assert(rs2[rs2.len() - 1] == rs2.last());
        assert(forall|k: int|
            0 <= k < rs1.drop_last().len() ==> (#[trigger] rs2.drop_last()[k]).base_address
                == rs1.drop_last()[k].base_address && rs2.drop_last()[k].spec_len()
                == rs1.drop_last()[k].spec_len());
        lemma_covering_count_geometry(rs1.drop_last(), rs2.drop_last(), pi);
    }
}

/// The region's bytes once the write `bytes` at `address` has landed.
pub open spec fn updated_contents(r: Region, address: u64, bytes: Seq<u8>) -> Seq<u8> {
    Seq::new(
        r.spec_len(),
        |k: int|
            if address <= r.base_address + k < address + bytes.len() {
                bytes[r.base_address + k - address]
            } else {
                r.contents@[k]
            },
    )
}

/// The first index at or after `k` where `a` and `b` differ; their length
/// when they agree from `k` on.
pub open spec fn diff_low_from(a: Seq<u8>, b: Seq<u8>, k: nat) -> nat
    decreases a.len() - k,
    when k <= a.len()
{
    if k >= a.len() {
        a.len()
    } else if a[k as int] != b[k as int] {
        k
    } else {
        diff_low_from(a, b, k + 1)
    }
}

/// One past the last index where `a` and `b` differ; 0 when they agree
/// everywhere.
pub open spec fn diff_high(a: Seq<u8>, b: Seq<u8>) -> nat
    decreases a.len(),
{
    if a.len() == 0 {
        0
    } else if a.last() != b[a.len() - 1] {
        a.len()
    } else {
        diff_high(a.drop_last(), b)
    }
}

proof fn lemma_diff_low_at(a: Seq<u8>, b: Seq<u8>, k: nat, l: nat)
    requires
        b.len() == a.len(),
        k <= l < a.len(),
        a[l as int] != b[l as int],
        forall|m: int| k <= m < l ==> a[m] == b[m],
    ensures
        diff_low_from(a, b, k) == l,
    decreases l - k,
{
    if k < l {
        lemma_diff_low_at(a, b, k + 1, l);
    }
}

proof fn lemma_diff_low_none(a: Seq<u8>, b: Seq<u8>, k: nat)
    requires
        b.len() == a.len(),
        k <= a.len(),
        forall|m: int| k <= m < a.len() ==> a[m] == b[m],
    ensures
        diff_low_from(a, b, k) == a.len(),
    decreases a.len() - k,
{
    if k < a.len() {
        lemma_diff_low_none(a, b, k + 1);
    }
}

proof fn lemma_diff_high_at(a: Seq<u8>, b: Seq<u8>, h: nat)
    requires
        b.len() >= a.len(),
        h < a.len(),
        a[h as int] != b[h as int],
        forall|m: int| h < m < a.len() ==> a[m] == b[m],
    ensures
        diff_high(a, b) == h + 1,
    decreases a.len(),
{
    if h == a.len() - 1 {
        assert(a.last() == a[a.len() - 1]);
    } else {
        assert(a.last() == a[a.len() - 1]);
        assert(a.last() == b[a.len() - 1]);
        assert(a.drop_last()[h as int] == a[h as int]);
        lemma_diff_high_at(a.drop_last(), b, h);
    }
}

/// `diff_high` never exceeds the compared length.
proof fn lemma_diff_high_le(a: Seq<u8>, b: Seq<u8>)
    ensures
        diff_high(a, b) <= a.len(),
    decreases a.len(),
{
    if a.len() > 0 {
        lemma_diff_high_le(a.drop_last(), b);
    }
}

/// A write that misses the region, or writes nothing, leaves its bytes as
/// they were.
proof fn lemma_untouched_contents(r: Region, address: u64, bytes: Seq<u8>)
    requires
        !write_touches(r, address, bytes) || bytes.len() == 0,
    ensures
        updated_contents(r, address, bytes) == r.contents@,
{
    assert(updated_contents(r, address, bytes) =~= r.contents@);
}

/// Whether the write touches the region at all.
pub open spec fn write_touches(r: Region, address: u64, bytes: Seq<u8>) -> bool {
    r.overlaps_range(address, bytes.len())
}

/// Whether the write changes at least one byte the engine remembers for the
/// region: only such a write yields an event; rewriting equal bytes does not.
pub open spec fn region_changed(r: Region, address: u64, bytes: Seq<u8>) -> bool {
    write_touches(r, address, bytes) && diff_low_from(
        r.contents@,
        updated_contents(r, address, bytes),
        0,
    ) < r.spec_len()
}

/// The event the fault handler builds for a changed region, before the ring
/// stamps its sequence number: the changed range is the smallest one covering
/// every differing byte, and the previews obey the region's policy.
pub open spec fn event_for(r: Region, address: u64, bytes: Seq<u8>, timestamp_ns: u64) -> ChangeEventView {
    let new_c = updated_contents(r, address, bytes);
    let off = diff_low_from(r.contents@, new_c, 0);
    let high = diff_high(r.contents@, new_c);
    ChangeEventView {
        seq: 0u64,
        timestamp_ns,
        region_id: r.id,
        variable_name: match r.name {
            Some(n) => Some(n@),
            None => None,
        },
        byte_offset: off as usize,
        length_changed: (high - off) as usize,
        location: LocationView { file: None, function: None, line: 0u32, fault_ip: 0u64 },
        old_preview: preview_of(r.max_value_bytes, r.contents@, off, (high - off) as nat),
        new_preview: preview_of(r.max_value_bytes, new_c, off, (high - off) as nat),
    }
}

/// The events one write produces: one per changed region, in table order.
pub open spec fn events_for_write(
    rs: Seq<Region>,
    address: u64,
    bytes: Seq<u8>,
    timestamp_ns: u64,
) -> Seq<ChangeEventView>
    decreases rs.len(),
{
    if rs.len() == 0 {
        Seq::empty()
    } else {
        events_for_write(rs.drop_last(), address, bytes, timestamp_ns) + if region_changed(
            rs.last(),
            address,
            bytes,
        ) {
            seq![event_for(rs.last(), address, bytes, timestamp_ns)]
        } else {
            Seq::empty()
        }
    }
}

/// The events with their ring sequence numbers, counted from `start`.
pub open spec fn stamp_events(evs: Seq<ChangeEventView>, start: int) -> Seq<ChangeEventView> {
    Seq::new(evs.len(), |k: int| ChangeEventView { seq: (start + k) as u64, ..evs[k] })
}

/// One region's contribution to a write's events.
pub proof fn lemma_events_singleton(r: Region, address: u64, bytes: Seq<u8>, ts: u64)
    ensures
        events_for_write(seq![r], address, bytes, ts) == if region_changed(r, address, bytes) {
            seq![event_for(r, address, bytes, ts)]
        } else {
            Seq::<ChangeEventView>::empty()
        },
{
    assert(seq![r].drop_last() =~= Seq::<Region>::empty());
    assert(seq![r].last() == r);
    assert(events_for_write(Seq::<Region>::empty(), address, bytes, ts)
        == Seq::<ChangeEventView>::empty());
    if region_changed(r, address, bytes) {
        assert(Seq::<ChangeEventView>::empty() + seq![event_for(r, address, bytes, ts)]
            =~= seq![event_for(r, address, bytes, ts)]);
    } else {
        assert(Seq::<ChangeEventView>::empty() + Seq::<ChangeEventView>::empty()
            =~= Seq::<ChangeEventView>::empty());
    }
}

/// One write's events split over a split of the region table.
pub proof fn lemma_events_concat(
    s1: Seq<Region>,
    s2: Seq<Region>,
    address: u64,
    bytes: Seq<u8>,
    ts: u64,
)
    ensures
        events_for_write(s1 + s2, address, bytes, ts) == events_for_write(s1, address, bytes, ts)
            + events_for_write(s2, address, bytes, ts),
    decreases s2.len(),
{
    if s2.len() == 0 {
        assert(s1 + s2 =~= s1);
        assert(events_for_write(s1, address, bytes, ts) + Seq::<ChangeEventView>::empty()
            =~= events_for_write(s1, address, bytes, ts));
    } else {
        assert((s1 + s2).drop_last() =~= s1 + s2.drop_last());
        assert((s1 + s2).last() == s2.last());
        lemma_events_concat(s1, s2.drop_last(), address, bytes, ts);
    }
}

/// A write never yields more events than there are regions.
pub proof fn lemma_events_len_le(rs: Seq<Region>, address: u64, bytes: Seq<u8>, ts: u64)
    ensures
        events_for_write(rs, address, bytes, ts).len() <= rs.len(),
    decreases rs.len(),
{
    if rs.len() > 0 {
        lemma_events_len_le(rs.drop_last(), address, bytes, ts);
    }
}

/// Every event a write produces is attributed to a region the write touches:
/// it carries that region's identifier and name. Writing into one of several
/// disjoint regions therefore yields events naming that region alone.
pub proof fn lemma_events_attributed(rs: Seq<Region>, address: u64, bytes: Seq<u8>, ts: u64)
    ensures
        forall|k: int|
            0 <= k < events_for_write(rs, address, bytes, ts).len() ==> exists|i: int|
                0 <= i < rs.len() && write_touches(#[trigger] rs[i], address, bytes) && (
                #[trigger] events_for_write(rs, address, bytes, ts)[k]).region_id == rs[i].id,
    decreases rs.len(),
{
    if rs.len() > 0 {
        lemma_events_attributed(rs.drop_last(), address, bytes, ts);
        let evs = events_for_write(rs, address, bytes, ts);
        let front = events_for_write(rs.drop_last(), address, bytes, ts);
        assert forall|k: int| 0 <= k < evs.len() implies exists|i: int|
            0 <= i < rs.len() && write_touches(#[trigger] rs[i], address, bytes) && (
            #[trigger] evs[k]).region_id == rs[i].id by {
            if k < front.len() {
                let i = choose|i: int|
                    0 <= i < rs.drop_last().len() && write_touches(
                        #[trigger] rs.drop_last()[i],
                        address,
                        bytes,
                    ) && front[k].region_id == rs.drop_last()[i].id;
                assert(rs[i] == rs.drop_last()[i]);
                assert(evs[k] == front[k]);
            } else {
                assert(region_changed(rs.last(), address, bytes));
                assert(evs[k] == event_for(rs.last(), address, bytes, ts));
                assert(rs[rs.len() - 1] == rs.last());
            }
        }
    }
}

/// The retention policy holds of every event: policy 0 stores nothing, a
/// positive policy at most that many bytes, and policy -1 the full region
/// content, old and new.
pub proof fn lemma_event_preview_policy(r: Region, address: u64, bytes: Seq<u8>, ts: u64)
    requires
        r.wf(),
        region_changed(r, address, bytes),
    ensures
        r.max_value_bytes == 0 ==> event_for(r, address, bytes, ts).old_preview.len() == 0
            && event_for(r, address, bytes, ts).new_preview.len() == 0,
        r.max_value_bytes > 0 ==> event_for(r, address, bytes, ts).old_preview.len()
            <= r.max_value_bytes && event_for(r, address, bytes, ts).new_preview.len()
            <= r.max_value_bytes,
        r.max_value_bytes == -1 ==> event_for(r, address, bytes, ts).old_preview == r.contents@
            && event_for(r, address, bytes, ts).new_preview == updated_contents(r, address, bytes)
            && event_for(r, address, bytes, ts).new_preview.len() == r.spec_len(),
{
    let new_c = updated_contents(r, address, bytes);
    let off = diff_low_from(r.contents@, new_c, 0);
    let high = diff_high(r.contents@, new_c);
    lemma_diff_high_le(r.contents@, new_c);
    assert(off < r.spec_len());
    lemma_diff_low_found(r.contents@, new_c, 0);
    lemma_diff_high_at_least(r.contents@, new_c, off);
    crate::valuestore::lemma_preview_policy(
        r.max_value_bytes,
        r.contents@,
        off,
        (high - off) as nat,
    );
    crate::valuestore::lemma_preview_policy(r.max_value_bytes, new_c, off, (high - off) as nat);
}

/// A low diff below the length marks a genuinely differing byte.
proof fn lemma_diff_low_found(a: Seq<u8>, b: Seq<u8>, k: nat)
    requires
        b.len() >= a.len(),
        k <= a.len(),
        diff_low_from(a, b, k) < a.len(),
    ensures
        k <= diff_low_from(a, b, k),
        a[diff_low_from(a, b, k) as int] != b[diff_low_from(a, b, k) as int],
    decreases a.len() - k,
{
    if k < a.len() && a[k as int] == b[k as int] {
        lemma_diff_low_found(a, b, k + 1);
    }
}

/// A differing byte keeps `diff_high` above it.
proof fn lemma_diff_high_at_least(a: Seq<u8>, b: Seq<u8>, l: nat)
    requires
        b.len() >= a.len(),
        l < a.len(),
        a[l as int] != b[l as int],
    ensures
        diff_high(a, b) >= l + 1,
    decreases a.len(),
{
    if a.last() == b[a.len() - 1] {
        assert(l < a.len() - 1);
        assert(a.drop_last()[l as int] == a[l as int]);
        lemma_diff_high_at_least(a.drop_last(), b, l);
    }
}

/// Engine statistics: a snapshot of the counters at one moment.
#[derive(Clone, Copy, Debug, PartialEq, Eq, Structural)]
pub struct Stats {
    /// Live regions.
    pub num_tracked_regions: u32,
    /// Protected pages currently armed.
    pub num_active_watchpoints: u32,
    /// Events ever produced; every produced event is offered to the ring, so
    /// this equals `ring_write_count`.
    pub total_events: u64,
    /// Events ever offered to the ring.
    pub ring_write_count: u64,
    /// Offered events that were lost to overwriting or refusal.
    pub ring_drop_count: u64,
    /// Preview bytes retained by undelivered events.
    pub storage_bytes_used: u64,
    /// Pages currently held by the page map.
    pub mprotect_page_count: u32,
    /// The worker thread last seen, 0 before any cycle ran.
    pub worker_thread_id: u32,
    /// Worker cycles completed.
    pub worker_cycles: u64,
}

/// A location with nothing known: the model keeps no debug information.
fn unknown_location() -> (l: Location)
    ensures
        l@ == (LocationView { file: None, function: None, line: 0u32, fault_ip: 0u64 }),
{
    Location { file: None, function: None, line: 0, fault_ip: 0 }
}

/// The memory watch engine.
pub struct MemWatch {
    state: EngineState,
    table: RegionTable,
    pages: PageMap,
    ring: EventRing,
    callback_installed: bool,
    worker_thread_id: u32,
    worker_cycles: u64,
}

impl MemWatch {
    /// The engine's lifecycle state.
    pub closed spec fn spec_state(self) -> EngineState {
        self.state
    }

    /// The registered regions, oldest first.
    pub closed spec fn regions(self) -> Seq<Region> {
        self.table.regions_seq()
    }

    /// The identifier the next watch will receive.
    pub closed spec fn next_region_id(self) -> u32 {
        self.table.spec_next_id()
    }

    /// The protected pages.
    pub closed spec fn pages_seq(self) -> Seq<ProtectedPage> {
        self.pages.pages_seq()
    }

    /// The undelivered events.
    pub closed spec fn ring_pending(self) -> Seq<ChangeEventView> {
        self.ring.pending_view()
    }

    /// The ring's capacity.
    pub closed spec fn ring_capacity(self) -> usize {
        self.ring.spec_capacity()
    }

    /// Events ever offered to the ring.
    pub closed spec fn ring_write_count(self) -> u64 {
        self.ring.spec_write_count()
    }

    /// Offered events lost to overwriting or refusal.
    pub closed spec fn ring_drop_count(self) -> u64 {
        self.ring.spec_drop_count()
    }

    /// Events handed to consumers.
    pub closed spec fn ring_delivered_count(self) -> u64 {
        self.ring.spec_delivered_count()
    }

    /// The highest sequence number a consumer has seen.
    pub closed spec fn ring_last_delivered(self) -> u64 {
        self.ring.spec_last_delivered()
    }

    /// Preview bytes retained by undelivered events.
    pub closed spec fn storage_bytes_used(self) -> u64 {
        self.ring.spec_storage_bytes()
    }

    /// Whether push delivery through the worker is enabled.
    pub closed spec fn spec_callback_installed(self) -> bool {
        self.callback_installed
    }

    /// The worker thread last seen.
    pub closed spec fn spec_worker_thread_id(self) -> u32 {
        self.worker_thread_id
    }

    /// Worker cycles completed.
    pub closed spec fn spec_worker_cycles(self) -> u64 {
        self.worker_cycles
    }

    /// The engine's invariant: the parts are well formed, every protected
    /// page's reference count equals the number of live regions overlapping
    /// it, and outside `Running` no region or page lingers.
    pub open spec fn wf(self) -> bool {
        &&& self.table_wf()
        &&& crate::pagemap::pages_wf(self.pages_seq())
        &&& self.ring_wf()
        &&& (forall|pi: u64|
            rc_of(self.pages_seq(), pi) == covering_count(self.regions(), pi))
        &&& (self.spec_state() != EngineState::Running ==> self.regions().len() == 0
            && self.pages_seq().len() == 0)
        &&& self.ring_capacity() == RING_CAPACITY
    }

    /// The region table's own invariant, at the engine's interface.
    pub closed spec fn table_wf(self) -> bool {
        self.table.wf()
    }

    /// The ring's own invariant, at the engine's interface.
    pub closed spec fn ring_wf(self) -> bool {
        self.ring.wf()
    }

    /// Whether two engine values agree on regions, pages and ring: everything
    /// but the lifecycle state, the callback flag and the worker counters.
    pub open spec fn same_core(self, other: MemWatch) -> bool {
        &&& self.regions() == other.regions()
        &&& self.next_region_id() == other.next_region_id()
        &&& self.pages_seq() == other.pages_seq()
        &&& self.ring_pending() == other.ring_pending()
        &&& self.ring_capacity() == other.ring_capacity()
        &&& self.ring_write_count() == other.ring_write_count()
        &&& self.ring_drop_count() == other.ring_drop_count()
        &&& self.ring_delivered_count() == other.ring_delivered_count()
        &&& self.ring_last_delivered() == other.ring_last_delivered()
        &&& self.storage_bytes_used() == other.storage_bytes_used()
    }

    /// A fresh engine: everything empty, not yet initialised.
    pub fn new() -> (m: MemWatch)
        ensures
            m.wf(),
            m.spec_state() == EngineState::Uninitialized,
            m.regions() == Seq::<Region>::empty(),
            m.next_region_id() == 1u32,
            m.pages_seq() == Seq::<ProtectedPage>::empty(),
            m.ring_pending() == Seq::<ChangeEventView>::empty(),
            m.ring_write_count() == 0u64,
            m.ring_drop_count() == 0u64,
            m.ring_delivered_count() == 0u64,
            m.ring_last_delivered() == 0u64,
            m.storage_bytes_used() == 0u64,
            !m.spec_callback_installed(),
            m.spec_worker_thread_id() == 0u32,
            m.spec_worker_cycles() == 0u64,
    {
        MemWatch {
            state: EngineState::Uninitialized,
            table: RegionTable::new(),
            pages: PageMap::new(),
            ring: EventRing::new(RING_CAPACITY),
            callback_installed: false,
            worker_thread_id: 0,
            worker_cycles: 0,
        }
    }

    /// Brings the engine to `Running`. A second call, even after `shutdown`,
    /// reports `AlreadyInitialized` and changes nothing: the lifecycle runs
    /// one way only.
    pub fn init(&mut self) -> (r: Result<(), ErrorCode>)
        requires
            old(self).wf(),
        ensures
            final(self).wf(),
            match r {
                Ok(()) => {
                    &&& old(self).spec_state() == EngineState::Uninitialized
                    &&& final(self).spec_state() == EngineState::Running
                    &&& final(self).same_core(*old(self))
                    &&& final(self).spec_callback_installed() == old(
                        self,
                    ).spec_callback_installed()
                    &&& final(self).spec_worker_thread_id() == old(self).spec_worker_thread_id()
                    &&& final(self).spec_worker_cycles() == old(self).spec_worker_cycles()
                },
                Err(ErrorCode::AlreadyInitialized) => old(self).spec_state()
                    != EngineState::Uninitialized && *final(self) == *old(self),
                Err(_) => false,
            },
    {
        match self.state {
            EngineState::Uninitialized => {
                self.state = EngineState::Running;
                Ok(())
            },
            _ => Err(ErrorCode::AlreadyInitialized),
        }
    }

    /// Stops the engine: every page is released and every region freed. Safe
    /// to call in any state, and idempotent; events already drained stay with
    /// their consumers, undelivered ones are discarded with the ring.
    pub fn shutdown(&mut self)
        requires
            old(self).wf(),
        ensures
            final(self).wf(),
            final(self).spec_state() == EngineState::Shutdown,
            final(self).regions() == Seq::<Region>::empty(),
            final(self).pages_seq() == Seq::<ProtectedPage>::empty(),
            final(self).ring_pending() == Seq::<ChangeEventView>::empty(),
            final(self).storage_bytes_used() == 0u64,
    {
        self.state = EngineState::Shutdown;
        self.table = RegionTable::new();
        self.pages = PageMap::new();
        self.ring = EventRing::new(RING_CAPACITY);
        proof {
            assert forall|pi: u64| rc_of(self.pages.pages_seq(), pi) == covering_count(
                self.table.regions_seq(),
                pi,
            ) by {
            }
        }
    }

    /// Registers the byte range `[address, address + data.len())` for
    /// watching, with `data` as its current contents, and protects the pages
    /// it touches. Succeeds on every non-empty, non-wrapping range with a
    /// well-formed policy while identifiers remain; rejects exactly the
    /// malformed ranges with `InvalidRange`, reports `ResourceExhausted` when
    /// the identifier space is spent, and `NotInitialized` outside `Running`.
    pub fn watch(
        &mut self,
        address: u64,
        data: &[u8],
        name: Option<String>,
        max_value_bytes: i64,
    ) -> (r: Result<u32, ErrorCode>)
        requires
            old(self).wf(),
        ensures
            final(self).wf(),
            final(self).spec_state() == old(self).spec_state(),
            match r {
                Ok(id) => {
                    &&& old(self).spec_state() == EngineState::Running
                    &&& data@.len() > 0
                    &&& address + data@.len() <= u64::MAX
                    &&& valid_policy(max_value_bytes)
                    &&& id == old(self).next_region_id()
                    &&& !has_id(old(self).regions(), id)
                    &&& final(self).regions().len() == old(self).regions().len() + 1
                    &&& final(self).regions().drop_last() == old(self).regions()
                    &&& final(self).regions().last().id == id
                    &&& final(self).regions().last().base_address == address
                    &&& final(self).regions().last().name == name
                    &&& final(self).regions().last().max_value_bytes == max_value_bytes
                    &&& final(self).regions().last().contents@ == data@
                    &&& final(self).next_region_id() == id + 1
                    &&& final(self).ring_pending() == old(self).ring_pending()
                    &&& final(self).ring_write_count() == old(self).ring_write_count()
                    &&& final(self).ring_drop_count() == old(self).ring_drop_count()
                    &&& final(self).ring_delivered_count() == old(self).ring_delivered_count()
                    &&& final(self).ring_last_delivered() == old(self).ring_last_delivered()
                    &&& final(self).spec_callback_installed() == old(
                        self,
                    ).spec_callback_installed()
                    &&& (forall|pi: u64|
                        range_covers_index(address, data@.len(), pi)
                            ==> armed_of(final(self).pages_seq(), pi) && rc_of(
                            final(self).pages_seq(),
                            pi,
                        ) == rc_of(old(self).pages_seq(), pi) + 1)
                },
                Err(ErrorCode::NotInitialized) => old(self).spec_state() != EngineState::Running
                    && *final(self) == *old(self),
                Err(ErrorCode::InvalidRange) => {
                    &&& old(self).spec_state() == EngineState::Running
                    &&& (data@.len() == 0 || address + data@.len() > u64::MAX || !valid_policy(
                        max_value_bytes,
                    ))
                    &&& *final(self) == *old(self)
                },
                Err(ErrorCode::ResourceExhausted) => {
                    &&& old(self).spec_state() == EngineState::Running
                    &&& old(self).next_region_id() == u32::MAX
                    &&& *final(self) == *old(self)
                },
                Err(_) => false,
            },
    {
        if !matches!(self.state, EngineState::Running) {
            return Err(ErrorCode::NotInitialized);
        }
        let ghost prior_regions = self.table.regions_seq();
        let len = data.len();
        match self.table.add(address, data, name, max_value_bytes) {
            Ok(id) => {
                proof {
                    assert forall|pi: u64|
                        range_covers_index(address, len as nat, pi) implies rc_of(
                        self.pages.pages_seq(),
                        pi,
                    ) < u32::MAX by {
                        lemma_covering_count_le(prior_regions, pi);
                    }
                }
                self.pages.protect(address, len);
                proof {
                    let ghost now_regions = self.table.regions_seq();
                    assert(now_regions.drop_last() =~= prior_regions);
                    assert forall|pi: u64| rc_of(self.pages.pages_seq(), pi) == covering_count(
                        now_regions,
                        pi,
                    ) by {
                        assert(covering_count(now_regions, pi) == covering_count(prior_regions, pi)
                            + if region_covers_page(now_regions.last(), pi) {
                            1nat
                        } else {
                            0nat
                        });
                        assert(region_covers_page(now_regions.last(), pi) == range_covers_index(
                            address,
                            len as nat,
                            pi,
                        ));
                    }
                }
                Ok(id)
            },
            Err(e) => Err(e),
        }
    }

    /// Drops the region with identifier `region_id` and releases its pages:
    /// pages it shared with other regions stay protected, pages only it used
    /// are forgotten. Exactly the registered identifiers are removed, with
    /// `true`; an unknown identifier, or an engine not running, changes
    /// nothing and reports `false`.
    #[verifier::loop_isolation(false)]
    pub fn unwatch(&mut self, region_id: u32) -> (r: bool)
        requires
            old(self).wf(),
        ensures
            final(self).wf(),
            final(self).spec_state() == old(self).spec_state(),
            r == (old(self).spec_state() == EngineState::Running && has_id(
                old(self).regions(),
                region_id,
            )),
            r ==> final(self).regions() == without_id(old(self).regions(), region_id)
                && final(self).next_region_id() == old(self).next_region_id()
                && final(self).ring_pending() == old(self).ring_pending(),
            !r ==> *final(self) == *old(self),
    {
        if !matches!(self.state, EngineState::Running) {
            return false;
        }
        let ghost prior_regions = self.table.regions_seq();
        let n = self.table.len();
        let mut i: usize = 0;
        while i < n
            invariant
                n == self.table.regions_seq().len(),
                i <= n,
                *self == *old(self),
                forall|a: int|
                    0 <= a < i ==> (#[trigger] self.table.regions_seq()[a]).id != region_id,
            decreases n - i,
        {
            if self.table.region_at(i).id == region_id {
                let base = self.table.region_at(i).base_address;
                let len = self.table.region_at(i).contents.len();
                proof {
                    assert(self.table.regions_seq()[i as int].wf());
                    assert forall|pi: u64| range_covers_index(base, len as nat, pi) implies
                        contains_page(self.pages.pages_seq(), pi) by {
                        assert(region_covers_page(self.table.regions_seq()[i as int], pi));
                        lemma_covering_count_pos(self.table.regions_seq(), i as int, pi);
                        crate::pagemap::lemma_contains_iff_rc(self.pages.pages_seq(), pi);
                    }
                }
                self.pages.unprotect(base, len);
                let ghost mid_pages = self.pages.pages_seq();
                let removed = self.table.remove(region_id);
                proof {
                    assert(removed);
                    crate::region::lemma_without_id_is_remove(
                        prior_regions,
                        region_id,
                        i as int,
                    );
                    assert forall|pi: u64| rc_of(self.pages.pages_seq(), pi) == covering_count(
                        self.table.regions_seq(),
                        pi,
                    ) by {
                        lemma_covering_count_remove(prior_regions, i as int, pi);
                        assert(region_covers_page(prior_regions[i as int], pi)
                            == range_covers_index(base, len as nat, pi));
                        if range_covers_index(base, len as nat, pi) {
                            assert(rc_of(mid_pages, pi) == rc_of(old(self).pages_seq(), pi) - 1);
                        } else {
                            assert(rc_of(mid_pages, pi) == rc_of(old(self).pages_seq(), pi));
                        }
                    }
                }
                return true;
            }
            i += 1;
        }
        proof {
            assert(!has_id(self.table.regions_seq(), region_id));
        }
        false
    }


    /// Computes the region's bytes after the write and the smallest range
    /// covering every byte the write changes: the returned offsets are the
    /// low diff and one past the high diff, with low equal to the region's
    /// length when nothing changes.
    #[verifier::loop_isolation(false)]
    fn diff_region(region: &Region, address: u64, bytes: &[u8]) -> (r: (Vec<u8>, usize, usize))
        requires
            region.wf(),
        ensures
            r.0@ == updated_contents(*region, address, bytes@),
            r.1 <= region.spec_len(),
            (r.1 < region.spec_len()) == region_changed(*region, address, bytes@),
            r.1 < region.spec_len() ==> r.1
                == diff_low_from(
                region.contents@,
                updated_contents(*region, address, bytes@),
                0,
            ) && r.2 == diff_high(region.contents@, updated_contents(*region, address, bytes@))
                && r.1 < r.2 <= region.spec_len(),
    {
        let base = region.base_address;
        let rlen = region.contents.len();
        let blen = bytes.len();
        let ghost upd_spec = updated_contents(*region, address, bytes@);
        let mut updated: Vec<u8> = Vec::new();
        let mut first: usize = rlen;
        let mut high: usize = 0;
        let mut k: usize = 0;
        while k < rlen
            invariant
                k <= rlen,
                first <= rlen,
                updated@ == upd_spec.take(k as int),
                first == rlen ==> high == 0 && (forall|m: int|
                    0 <= m < k ==> region.contents@[m] == upd_spec[m]),
                first < rlen ==> {
                    &&& first < k
                    &&& region.contents@[first as int] != upd_spec[first as int]
                    &&& (forall|m: int| 0 <= m < first ==> region.contents@[m] == upd_spec[m])
                    &&& first < high <= k
                    &&& region.contents@[high - 1] != upd_spec[high - 1]
                    &&& (forall|m: int| high <= m < k ==> region.contents@[m] == upd_spec[m])
                },
            decreases rlen - k,
        {
            let b_old = region.contents[k];
            let pos = base + k as u64;
            let in_write = pos >= address && pos - address < blen as u64;
            let b_new = if in_write {
                *vstd::slice::slice_index_get(bytes, (pos - address) as usize)
            } else {
                b_old
            };
            proof {
                assert(b_new == upd_spec[k as int]);
                assert(upd_spec.take(k + 1) =~= upd_spec.take(k as int).push(upd_spec[k as int]));
            }
            if b_new != b_old {
                if first == rlen {
                    first = k;
                }
                high = k + 1;
            }
            updated.push(b_new);
            k += 1;
        }
        proof {
            assert(upd_spec.take(rlen as int) =~= upd_spec);
            if first < rlen {
                lemma_diff_low_at(region.contents@, upd_spec, 0, first as nat);
                lemma_diff_high_at(region.contents@, upd_spec, (high - 1) as nat);
                assert(region_changed(*region, address, bytes@));
            } else {
                assert forall|m: int| 0 <= m < region.contents@.len() implies region.contents@[m]
                    == upd_spec[m] by {
                }
                lemma_diff_low_none(region.contents@, upd_spec, 0);
                assert(!region_changed(*region, address, bytes@));
            }
        }
        (updated, first, high)
    }

    /// Plays the fault handler for one write of `bytes` at `address`: each
    /// region the write changes gets one event with the smallest byte range
    /// covering every changed byte and previews bounded by its policy, the
    /// region's remembered bytes are brought up to date, and the faulting page
    /// is left permissive for the store to complete. A write that matches no
    /// region, or changes no byte, produces nothing and returns normally:
    /// the fault path never surfaces an error. Returns how many events were
    /// produced. When the ring has room for them all, none is dropped and
    /// they sit behind the pending ones in table order.
    #[verifier::loop_isolation(false)]
    #[verifier::rlimit(100)]
    pub fn handle_write(&mut self, address: u64, bytes: &[u8], timestamp_ns: u64) -> (produced:
        usize)
        requires
            old(self).wf(),
            old(self).ring_write_count() + old(self).regions().len() < u64::MAX,
        ensures
            final(self).wf(),
            final(self).spec_state() == old(self).spec_state(),
            old(self).spec_state() != EngineState::Running ==> *final(self) == *old(self)
                && produced == 0,
            old(self).spec_state() == EngineState::Running ==> {
                let evs = events_for_write(old(self).regions(), address, bytes@, timestamp_ns);
                let start = old(self).ring_write_count() + 1;
                &&& produced == evs.len()
                &&& final(self).regions().len() == old(self).regions().len()
                &&& final(self).next_region_id() == old(self).next_region_id()
                &&& (forall|j: int|
                    0 <= j < old(self).regions().len() ==> (#[trigger] final(self).regions()[j]).id
                        == old(self).regions()[j].id
                        && final(self).regions()[j].base_address == old(
                        self,
                    ).regions()[j].base_address
                        && final(self).regions()[j].name == old(self).regions()[j].name
                        && final(self).regions()[j].max_value_bytes == old(
                        self,
                    ).regions()[j].max_value_bytes
                        && final(self).regions()[j].contents@ == updated_contents(
                        old(self).regions()[j],
                        address,
                        bytes@,
                    ))
                &&& final(self).ring_write_count() == old(self).ring_write_count() + evs.len()
                &&& final(self).ring_delivered_count() == old(self).ring_delivered_count()
                &&& final(self).ring_last_delivered() == old(self).ring_last_delivered()
                &&& (forall|q: u64|
                    rc_of(final(self).pages_seq(), q) == rc_of(old(self).pages_seq(), q)
                        && contains_page(final(self).pages_seq(), q) == contains_page(
                        old(self).pages_seq(),
                        q,
                    ))
                &&& armed_of(final(self).pages_seq(), spec_page_index(address) as u64) == false
                &&& (forall|q: u64|
                    q != spec_page_index(address) as u64 ==> armed_of(final(self).pages_seq(), q)
                        == armed_of(old(self).pages_seq(), q))
                &&& ((old(self).ring_pending().len() + evs.len() <= old(self).ring_capacity()
                    && pending_bytes(old(self).ring_pending()) + pending_bytes(
                    stamp_events(evs, start),
                ) <= u64::MAX) ==> final(self).ring_pending() == old(self).ring_pending()
                    + stamp_events(evs, start) && final(self).ring_drop_count() == old(
                    self,
                ).ring_drop_count())
            },
    {
        if !matches!(self.state, EngineState::Running) {
            return 0;
        }
        let ghost rs0 = self.table.regions_seq();
        let ghost evs = events_for_write(rs0, address, bytes@, timestamp_ns);
        let ghost start = self.ring.spec_write_count() + 1;
        let ghost old_pending = self.ring.pending_view();
        let ghost fits = old_pending.len() + evs.len() <= self.ring.spec_capacity()
            && pending_bytes(old_pending) + pending_bytes(stamp_events(evs, start)) <= u64::MAX;
        let blen = bytes.len();
        let n = self.table.len();
        let mut produced: usize = 0;
        let mut i: usize = 0;
        while i < n
            invariant
                i <= n,
                n == rs0.len(),
                produced <= i,
                self.state == old(self).spec_state(),
                self.table.wf(),
                self.table.regions_seq().len() == n,
                self.table.spec_next_id() == old(self).next_region_id(),
                forall|j: int|
                    0 <= j < n ==> (#[trigger] self.table.regions_seq()[j]).id == rs0[j].id
                        && self.table.regions_seq()[j].base_address == rs0[j].base_address
                        && self.table.regions_seq()[j].name == rs0[j].name
                        && self.table.regions_seq()[j].max_value_bytes == rs0[j].max_value_bytes
                        && self.table.regions_seq()[j].spec_len() == rs0[j].spec_len(),
                forall|j: int| i <= j < n ==> (#[trigger] self.table.regions_seq()[j]) == rs0[j],
                forall|j: int|
                    0 <= j < i ==> (#[trigger] self.table.regions_seq()[j]).contents@
                        == updated_contents(rs0[j], address, bytes@),
                self.pages == old(self).pages,
                self.ring.wf(),
                self.ring.spec_capacity() == old(self).ring_capacity(),
                self.ring.spec_delivered_count() == old(self).ring_delivered_count(),
                self.ring.spec_last_delivered() == old(self).ring_last_delivered(),
                produced == events_for_write(rs0.take(i as int), address, bytes@, timestamp_ns).len(),
                self.ring.spec_write_count() == old(self).ring_write_count() + produced,
                fits ==> self.ring.pending_view() == old_pending + stamp_events(
                    events_for_write(rs0.take(i as int), address, bytes@, timestamp_ns),
                    start,
                ) && self.ring.spec_drop_count() == old(self).ring_drop_count(),
            decreases n - i,
        {
            let ghost evs_i = events_for_write(rs0.take(i as int), address, bytes@, timestamp_ns);
            proof {
                assert(rs0.take(i + 1) =~= rs0.take(i as int) + seq![rs0[i as int]]);
                lemma_events_concat(
                    rs0.take(i as int),
                    seq![rs0[i as int]],
                    address,
                    bytes@,
                    timestamp_ns,
                );
                lemma_events_singleton(rs0[i as int], address, bytes@, timestamp_ns);
                assert(rs0.take(n as int) =~= rs0);
                assert(rs0.take(i as int) + rs0.skip(i as int) =~= rs0);
                lemma_events_concat(
                    rs0.take(i as int),
                    rs0.skip(i as int),
                    address,
                    bytes@,
                    timestamp_ns,
                );
                assert(rs0.skip(i as int) =~= seq![rs0[i as int]] + rs0.skip(i + 1));
                lemma_events_concat(
                    seq![rs0[i as int]],
                    rs0.skip(i + 1),
                    address,
                    bytes@,
                    timestamp_ns,
                );
            }
            let region = self.table.region_at(i);
            let policy = region.max_value_bytes;
            let rlen = region.contents.len();
            let (updated, first, high) = Self::diff_region(region, address, bytes);
            let changed = first < rlen;
            if changed {
                let (old_preview, new_preview) = capture(
                    policy,
                    region.contents.as_slice(),
                    updated.as_slice(),
                    first,
                    high - first,
                );
                let ev = ChangeEvent {
                    seq: 0,
                    timestamp_ns,
                    region_id: region.id,
                    variable_name: clone_opt_string(&region.name),
                    byte_offset: first,
                    length_changed: high - first,
                    location: unknown_location(),
                    old_preview,
                    new_preview,
                };
                proof {
                    assert(ev@ == event_for(rs0[i as int], address, bytes@, timestamp_ns));
                    assert(evs == evs_i + events_for_write(
                        rs0.skip(i as int),
                        address,
                        bytes@,
                        timestamp_ns,
                    ));
                    assert(events_for_write(rs0.skip(i as int), address, bytes@, timestamp_ns)
                        == seq![ev@] + events_for_write(
                        rs0.skip(i + 1),
                        address,
                        bytes@,
                        timestamp_ns,
                    ));
                    lemma_events_len_le(rs0.take(i as int), address, bytes@, timestamp_ns);
                    if fits {
                        lemma_pending_bytes_concat(old_pending, stamp_events(evs_i, start));
                        let stamped_all = stamp_events(evs, start);
                        assert(stamp_events(evs_i, start) =~= stamped_all.take(
                            evs_i.len() as int,
                        ));
                        let rest = stamped_all.skip(evs_i.len() as int);
                        assert(stamped_all.take(evs_i.len() as int) + rest =~= stamped_all);
                        lemma_pending_bytes_concat(stamped_all.take(evs_i.len() as int), rest);
                        assert(rest[0] == stamped_all[evs_i.len() as int]);
                        assert(pending_bytes(rest) == event_bytes(rest[0]) + pending_bytes(
                            rest.drop_first(),
                        ));
                        assert(event_bytes(rest[0]) == event_bytes(ev@));
                    }
                }
                self.ring.push(ev);
                produced += 1;
                proof {
                    if fits {
                        assert(self.ring.pending_view() =~= old_pending + stamp_events(
                            events_for_write(rs0.take(i + 1), address, bytes@, timestamp_ns),
                            start,
                        ));
                    }
                }
            }
            self.table.set_contents_at(i, updated);
            i += 1;
        }
        proof {
            assert(rs0.take(n as int) =~= rs0);
            let ghost rs1 = self.table.regions_seq();
            assert forall|pi: u64| rc_of(self.pages.pages_seq(), pi) == covering_count(
                rs1,
                pi,
            ) by {
                lemma_covering_count_geometry(rs0, rs1, pi);
            }
        }
        self.pages.on_fault(address);
        proof {
            let ghost rs1 = self.table.regions_seq();
            assert forall|pi: u64| rc_of(self.pages.pages_seq(), pi) == covering_count(
                rs1,
                pi,
            ) by {
                lemma_covering_count_geometry(rs0, rs1, pi);
            }
        }
        produced
    }

    /// Hands out up to `max_events` undelivered events, oldest first, without
    /// blocking: the poll path. Yielded sequence numbers strictly increase and
    /// are never yielded twice. Outside `Running` it reports `NotInitialized`.
    pub fn check_changes(&mut self, max_events: usize) -> (r: Result<
        Vec<ChangeEvent>,
        ErrorCode,
    >)
        requires
            old(self).wf(),
        ensures
            final(self).wf(),
            final(self).spec_state() == old(self).spec_state(),
            final(self).regions() == old(self).regions(),
            final(self).pages_seq() == old(self).pages_seq(),
            final(self).ring_write_count() == old(self).ring_write_count(),
            final(self).ring_drop_count() == old(self).ring_drop_count(),
            match r {
                Ok(out) => {
                    &&& old(self).spec_state() == EngineState::Running
                    &&& out@.len() == if max_events <= old(self).ring_pending().len() {
                        max_events as int
                    } else {
                        old(self).ring_pending().len() as int
                    }
                    &&& crate::ring::events_view(out@) == old(self).ring_pending().take(
                        out@.len() as int,
                    )
                    &&& final(self).ring_pending() == old(self).ring_pending().skip(
                        out@.len() as int,
                    )
                    &&& final(self).ring_delivered_count() == old(self).ring_delivered_count()
                        + out@.len()
                    &&& (forall|i: int, j: int|
                        0 <= i < j < out@.len() ==> out@[i].seq < out@[j].seq)
                    &&& (forall|i: int|
                        0 <= i < out@.len() ==> old(self).ring_last_delivered() < (
                        #[trigger] out@[i]).seq)
                },
                Err(ErrorCode::NotInitialized) => old(self).spec_state() != EngineState::Running
                    && *final(self) == *old(self),
                Err(_) => false,
            },
    {
        if !matches!(self.state, EngineState::Running) {
            return Err(ErrorCode::NotInitialized);
        }
        Ok(self.ring.drain(max_events))
    }

    /// Enables or disables push delivery: with it enabled, each worker cycle
    /// drains events for the installed callback. Outside `Running` it reports
    /// `NotInitialized`.
    pub fn set_callback(&mut self, enabled: bool) -> (r: Result<(), ErrorCode>)
        requires
            old(self).wf(),
        ensures
            final(self).wf(),
            match r {
                Ok(()) => {
                    &&& old(self).spec_state() == EngineState::Running
                    &&& final(self).spec_state() == EngineState::Running
                    &&& final(self).same_core(*old(self))
                    &&& final(self).spec_callback_installed() == enabled
                    &&& final(self).spec_worker_thread_id() == old(self).spec_worker_thread_id()
                    &&& final(self).spec_worker_cycles() == old(self).spec_worker_cycles()
                },
                Err(ErrorCode::NotInitialized) => old(self).spec_state() != EngineState::Running
                    && *final(self) == *old(self),
                Err(_) => false,
            },
    {
        if !matches!(self.state, EngineState::Running) {
            return Err(ErrorCode::NotInitialized);
        }
        self.callback_installed = enabled;
        Ok(())
    }

    /// Runs one worker cycle on the caller's thread: re-arms every page a
    /// fault left permissive, counts the cycle, and, when push delivery is
    /// enabled, drains up to `max_events` events for the caller to hand to
    /// its callback. The cycle counter saturates rather than wraps.
    pub fn worker_cycle(&mut self, thread_id: u32, max_events: usize) -> (r: Result<
        Vec<ChangeEvent>,
        ErrorCode,
    >)
        requires
            old(self).wf(),
        ensures
            final(self).wf(),
            final(self).spec_state() == old(self).spec_state(),
            final(self).regions() == old(self).regions(),
            match r {
                Ok(out) => {
                    &&& old(self).spec_state() == EngineState::Running
                    &&& final(self).ring_write_count() == old(self).ring_write_count()
                    &&& final(self).ring_drop_count() == old(self).ring_drop_count()
                    &&& final(self).next_region_id() == old(self).next_region_id()
                    &&& final(self).spec_callback_installed() == old(
                        self,
                    ).spec_callback_installed()
                    &&& final(self).spec_worker_thread_id() == thread_id
                    &&& final(self).spec_worker_cycles() == if old(self).spec_worker_cycles()
                        < u64::MAX {
                        old(self).spec_worker_cycles() + 1
                    } else {
                        u64::MAX as int
                    }
                    &&& (forall|pi: u64|
                        armed_of(final(self).pages_seq(), pi) == contains_page(
                            old(self).pages_seq(),
                            pi,
                        ) && rc_of(final(self).pages_seq(), pi) == rc_of(old(self).pages_seq(), pi))
                    &&& (old(self).spec_callback_installed() ==> crate::ring::events_view(out@)
                        == old(self).ring_pending().take(out@.len() as int)
                        && final(self).ring_pending() == old(self).ring_pending().skip(
                        out@.len() as int,
                    ) && out@.len() == if max_events <= old(self).ring_pending().len() {
                        max_events as int
                    } else {
                        old(self).ring_pending().len() as int
                    })
                    &&& (!old(self).spec_callback_installed() ==> out@.len() == 0
                        && final(self).ring_pending() == old(self).ring_pending())
                },
                Err(ErrorCode::NotInitialized) => old(self).spec_state() != EngineState::Running
                    && *final(self) == *old(self),
                Err(_) => false,
            },
    {
        if !matches!(self.state, EngineState::Running) {
            return Err(ErrorCode::NotInitialized);
        }
        self.pages.rearm_all();
        self.worker_thread_id = thread_id;
        if self.worker_cycles < u64::MAX {
            self.worker_cycles = self.worker_cycles + 1;
        }
        if self.callback_installed {
            Ok(self.ring.drain(max_events))
        } else {
            Ok(Vec::new())
        }
    }

    /// A snapshot of the engine's counters. Region and page counts saturate
    /// at the field width; the others are exact. Outside `Running` it reports
    /// `NotInitialized`.
    pub fn get_stats(&self) -> (r: Result<Stats, ErrorCode>)
        requires
            self.wf(),
        ensures
            match r {
                Ok(s) => {
                    &&& self.spec_state() == EngineState::Running
                    &&& s.num_tracked_regions == self.regions().len()
                    &&& s.num_active_watchpoints == if armed_count(self.pages_seq()) <= u32::MAX {
                        armed_count(self.pages_seq()) as int
                    } else {
                        u32::MAX as int
                    }
                    &&& s.total_events == self.ring_write_count()
                    &&& s.ring_write_count == self.ring_write_count()
                    &&& s.ring_drop_count == self.ring_drop_count()
                    &&& s.storage_bytes_used == self.storage_bytes_used()
                    &&& s.mprotect_page_count == if self.pages_seq().len() <= u32::MAX {
                        self.pages_seq().len() as int
                    } else {
                        u32::MAX as int
                    }
                    &&& s.worker_thread_id == self.spec_worker_thread_id()
                    &&& s.worker_cycles == self.spec_worker_cycles()
                },
                Err(ErrorCode::NotInitialized) => self.spec_state() != EngineState::Running,
                Err(_) => false,
            },
    {
        if !matches!(self.state, EngineState::Running) {
            return Err(ErrorCode::NotInitialized);
        }
        let region_total = self.table.len();
        proof {
            assert(self.table.regions_seq().len() <= self.table.spec_next_id());
        }
        let armed = self.pages.armed_page_count();
        let held = self.pages.page_count();
        Ok(
            Stats {
                num_tracked_regions: region_total as u32,
                num_active_watchpoints: if armed <= u32::MAX as usize {
                    armed as u32
                } else {
                    u32::MAX
                },
                total_events: self.ring.write_count_now(),
                ring_write_count: self.ring.write_count_now(),
                ring_drop_count: self.ring.drop_count_now(),
                storage_bytes_used: self.ring.storage_bytes_now(),
                mprotect_page_count: if held <= u32::MAX as usize {
                    held as u32
                } else {
                    u32::MAX
                },
                worker_thread_id: self.worker_thread_id,
                worker_cycles: self.worker_cycles,
            },
        )
    }
}

} // verus!
