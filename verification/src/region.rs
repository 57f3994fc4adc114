//! Watched regions and the table that owns them.
//!
//! A region is a caller-registered byte range. The table assigns each region a
//! fresh identifier, never reused while the engine is alive, and finds the
//! regions a faulting address belongs to. The engine cannot read the caller's
//! memory itself, so each region carries the byte contents last reported to
//! the engine; their length is the region's length.

use vstd::prelude::*;

use crate::clone_opt_string;
use crate::ErrorCode;

verus! {

/// Whether a retention policy value is well formed: `0` stores nothing,
/// a positive count truncates, `-1` stores the full region.
pub open spec fn valid_policy(max_value_bytes: i64) -> bool {
    max_value_bytes == -1 || max_value_bytes >= 0
}

/// One registered watch region.
pub struct Region {
    /// Unique, monotonically assigned by the table.
    pub id: u32,
    /// First address of the watched range.
    pub base_address: u64,
    /// Optional caller-supplied name.
    pub name: Option<String>,
    /// Value-retention policy: `0`, positive, or `-1`.
    pub max_value_bytes: i64,
    /// The bytes of the range as last seen by the engine; the region's length
    /// is `contents.len()`.
    pub contents: Vec<u8>,
}

impl Region {
    /// The number of bytes watched.
    pub open spec fn spec_len(self) -> nat {
        self.contents@.len()
    }

    /// One past the last watched address.
    pub open spec fn end(self) -> int {
        self.base_address + self.spec_len()
    }

    /// A region is non-empty, lies fully below the top of the address space,
    /// and carries a well-formed policy.
    pub open spec fn wf(self) -> bool {
        &&& self.spec_len() > 0
        &&& self.end() <= u64::MAX
        &&& valid_policy(self.max_value_bytes)
    }

    /// Whether `address` lies inside the region.
    pub open spec fn covers_addr(self, address: u64) -> bool {
        self.base_address <= address < self.end()
    }

    /// Whether the write range `[address, address + len)` intersects the region.
    pub open spec fn overlaps_range(self, address: u64, len: nat) -> bool {
        address < self.end() && self.base_address < address + len
    }
}

/// Whether some region in `rs` has the identifier `id`.
pub open spec fn has_id(rs: Seq<Region>, id: u32) -> bool {
    exists|i: int| 0 <= i < rs.len() && (#[trigger] rs[i]).id == id
}

/// `rs` without its region of identifier `id` (without any, when several
/// carried it; the table keeps them unique).
pub open spec fn without_id(rs: Seq<Region>, id: u32) -> Seq<Region> {
    rs.filter(|r: Region| r.id != id)
}

/// The identifiers of the regions containing `address`, in table order.
pub open spec fn ids_overlapping(rs: Seq<Region>, address: u64) -> Seq<u32> {
    rs.filter(|r: Region| r.covers_addr(address)).map_values(|r: Region| r.id)
}

/// Removing an absent identifier changes nothing.
pub proof fn lemma_without_id_absent(rs: Seq<Region>, id: u32)
    requires
        !has_id(rs, id),
    ensures
        without_id(rs, id) == rs,
    decreases rs.len(),
{
    reveal(Seq::filter);
    if rs.len() > 0 {
        assert(!has_id(rs.drop_last(), id));
        lemma_without_id_absent(rs.drop_last(), id);
        assert(without_id(rs, id) =~= rs);
    }
}

/// With unique identifiers, removing by identifier removes exactly the one
/// region that carries it.
pub proof fn lemma_without_id_is_remove(rs: Seq<Region>, id: u32, i: int)
    requires
        0 <= i < rs.len(),
        rs[i].id == id,
        forall|a: int, b: int| 0 <= a < b < rs.len() ==> rs[a].id != rs[b].id,
    ensures
        without_id(rs, id) == rs.remove(i),
    decreases rs.len(),
{
    reveal(Seq::filter);
    let l = rs.len() - 1;
    if i == l {
        assert(!has_id(rs.drop_last(), id));
        lemma_without_id_absent(rs.drop_last(), id);
        assert(rs.remove(i) =~= rs.drop_last());
    } else {
        assert(rs.drop_last()[i].id == id);
        lemma_without_id_is_remove(rs.drop_last(), id, i);
        assert(rs.last().id != id);
        assert(without_id(rs, id) == rs.drop_last().remove(i).push(rs.last()));
        assert(rs.drop_last().remove(i).push(rs.last()) =~= rs.remove(i));
    }
}

/// Removing the region just registered restores exactly the prior table: the
/// identifier was fresh, so nothing else is touched.
pub proof fn lemma_unwatch_after_watch(rs: Seq<Region>, r: Region)
    requires
        !has_id(rs, r.id),
    ensures
        without_id(rs.push(r), r.id) == rs,
{
    reveal(Seq::filter);
    assert(rs.push(r).drop_last() =~= rs);
    assert(rs.push(r).last() == r);
    lemma_without_id_absent(rs, r.id);
}

/// Unwatching the identifier a watch just returned restores exactly the prior
/// table, stated in the shape the two operations' contracts give: the new
/// table extends the old one by a single region carrying a fresh identifier.
pub proof fn lemma_watch_then_unwatch(before: Seq<Region>, after: Seq<Region>, id: u32)
    requires
        !has_id(before, id),
        after.len() == before.len() + 1,
        after.drop_last() == before,
        after.last().id == id,
    ensures
        without_id(after, id) == before,
{
    assert(after =~= before.push(after.last()));
    lemma_unwatch_after_watch(before, after.last());
}

/// Removing one identifier leaves every other registration in place.
pub proof fn lemma_without_id_keeps_others(rs: Seq<Region>, id: u32, other: u32)
    requires
        other != id,
    ensures
        has_id(without_id(rs, id), other) == has_id(rs, other),
    decreases rs.len(),
{
    reveal(Seq::filter);
    if rs.len() > 0 {
        lemma_without_id_keeps_others(rs.drop_last(), id, other);
        if rs.last().id != id {
            assert(without_id(rs, id).last() == rs.last());
            assert(without_id(rs, id).drop_last() =~= without_id(rs.drop_last(), id));
        }
        if has_id(rs.drop_last(), other) {
            assert(has_id(rs, other));
        }
        if has_id(rs, other) && rs.last().id != other {
            let w = choose|i: int| 0 <= i < rs.len() && (#[trigger] rs[i]).id == other;
            assert(rs.drop_last()[w].id == other);
        }
    }
}

/// Owns the registered regions and assigns their identifiers.
pub struct RegionTable {
    regions: Vec<Region>,
    next_id: u32,
}

impl RegionTable {
    /// The registered regions, oldest first.
    pub closed spec fn regions_seq(self) -> Seq<Region> {
        self.regions@
    }

    /// The identifier the next registration will receive.
    pub closed spec fn spec_next_id(self) -> u32 {
        self.next_id
    }

    /// Every region is well formed, identifiers are unique and below
    /// `next_id`, and the table never holds more regions than identifiers
    /// already assigned.
    pub open spec fn wf(self) -> bool {
        &&& (forall|i: int|
            0 <= i < self.regions_seq().len() ==> (#[trigger] self.regions_seq()[i]).wf())
        &&& (forall|i: int|
            0 <= i < self.regions_seq().len() ==> (#[trigger] self.regions_seq()[i]).id
                < self.spec_next_id())
        &&& (forall|a: int, b: int|
            0 <= a < b < self.regions_seq().len() ==> self.regions_seq()[a].id
                != self.regions_seq()[b].id)
        &&& self.regions_seq().len() <= self.spec_next_id()
    }

    /// An empty table; the first region will get identifier 1, so that 0
    /// never names a region.
    pub fn new() -> (t: RegionTable)
        ensures
            t.wf(),
            t.regions_seq() == Seq::<Region>::empty(),
            t.spec_next_id() == 1u32,
    {
        RegionTable { regions: Vec::new(), next_id: 1 }
    }

    /// How many regions are registered.
    pub fn len(&self) -> (n: usize)
        ensures
            n == self.regions_seq().len(),
    {
        self.regions.len()
    }

    /// The region at table position `i`.
    pub fn region_at(&self, i: usize) -> (r: &Region)
        requires
            i < self.regions_seq().len(),
        ensures
            *r == self.regions_seq()[i as int],
    {
        &self.regions[i]
    }

    /// Replaces the remembered bytes of the region at position `i`; the
    /// length may not change, since it is the region's extent.
    pub fn set_contents_at(&mut self, i: usize, contents: Vec<u8>)
        requires
            old(self).wf(),
            i < old(self).regions_seq().len(),
            contents@.len() == old(self).regions_seq()[i as int].spec_len(),
        ensures
            final(self).wf(),
            final(self).spec_next_id() == old(self).spec_next_id(),
            final(self).regions_seq() == old(self).regions_seq().update(
                i as int,
                Region { contents, ..old(self).regions_seq()[i as int] },
            ),
    {
        let region = &self.regions[i];
        let updated = Region {
            id: region.id,
            base_address: region.base_address,
            name: clone_opt_string(&region.name),
            max_value_bytes: region.max_value_bytes,
            contents,
        };
        self.regions.set(i, updated);
    }

    /// Registers the byte range `[base_address, base_address + data.len())`,
    /// remembering `data` as its current contents. Returns the fresh
    /// identifier; rejects an empty or wrapping range and a malformed policy
    /// as `InvalidRange`, and reports `ResourceExhausted` when the identifier
    /// space is used up.
    pub fn add(
        &mut self,
        base_address: u64,
        data: &[u8],
        name: Option<String>,
        max_value_bytes: i64,
    ) -> (r: Result<u32, ErrorCode>)
        requires
            old(self).wf(),
        ensures
            final(self).wf(),
            match r {
                Ok(id) => {
                    &&& data@.len() > 0
                    &&& base_address + data@.len() <= u64::MAX
                    &&& valid_policy(max_value_bytes)
                    &&& old(self).spec_next_id() < u32::MAX
                    &&& id == old(self).spec_next_id()
                    &&& !has_id(old(self).regions_seq(), id)
                    &&& final(self).regions_seq().len() == old(self).regions_seq().len() + 1
                    &&& final(self).regions_seq().drop_last() == old(self).regions_seq()
                    &&& final(self).regions_seq().last().id == id
                    &&& final(self).regions_seq().last().base_address == base_address
                    &&& final(self).regions_seq().last().name == name
                    &&& final(self).regions_seq().last().max_value_bytes == max_value_bytes
                    &&& final(self).regions_seq().last().contents@ == data@
                    &&& final(self).spec_next_id() == id + 1
                },
                Err(ErrorCode::InvalidRange) => {
                    &&& (data@.len() == 0 || base_address + data@.len() > u64::MAX
                        || !valid_policy(max_value_bytes))
                    &&& *final(self) == *old(self)
                },
                Err(ErrorCode::ResourceExhausted) => {
                    &&& data@.len() > 0
                    &&& base_address + data@.len() <= u64::MAX
                    &&& valid_policy(max_value_bytes)
                    &&& old(self).spec_next_id() == u32::MAX
                    &&& *final(self) == *old(self)
                },
                Err(_) => false,
            },
    {
        if data.len() == 0 {
            return Err(ErrorCode::InvalidRange);
        }
        if base_address > u64::MAX - (data.len() as u64) {
            return Err(ErrorCode::InvalidRange);
        }
        if !(max_value_bytes == -1 || max_value_bytes >= 0) {
            return Err(ErrorCode::InvalidRange);
        }
        if self.next_id == u32::MAX {
            return Err(ErrorCode::ResourceExhausted);
        }
        let id = self.next_id;
        proof {
            assert(!has_id(self.regions@, id)) by {
                if has_id(self.regions@, id) {
                    let w = choose|i: int|
                        0 <= i < self.regions@.len() && (#[trigger] self.regions@[i]).id == id;
                    assert(self.regions@[w].id < self.next_id);
                }
            }
        }
        let region = Region {
            id,
            base_address,
            name,
            max_value_bytes,
            contents: vstd::slice::slice_to_vec(data),
        };
        self.regions.push(region);
        self.next_id = id + 1;
        proof {
            assert(self.regions@.drop_last() =~= old(self).regions@);
        }
        Ok(id)
    }

    /// Drops the region with identifier `id`; `false` when no region carries
    /// it, in which case nothing changes.
    #[verifier::loop_isolation(false)]
    pub fn remove(&mut self, id: u32) -> (r: bool)
        requires
            old(self).wf(),
        ensures
            final(self).wf(),
            r == has_id(old(self).regions_seq(), id),
            final(self).regions_seq() == without_id(old(self).regions_seq(), id),
            final(self).spec_next_id() == old(self).spec_next_id(),
    {
        let n = self.regions.len();
        let mut i: usize = 0;
        while i < n
            invariant
                n == self.regions@.len(),
                i <= n,
                *self == *old(self),
                forall|a: int| 0 <= a < i ==> (#[trigger] self.regions@[a]).id != id,
            decreases n - i,
        {
            if self.regions[i].id == id {
                proof {
                    lemma_without_id_is_remove(self.regions@, id, i as int);
                }
                self.regions.remove(i);
                return true;
            }
            i += 1;
        }
        proof {
            assert(!has_id(self.regions@, id));
            lemma_without_id_absent(self.regions@, id);
        }
        false
    }

    /// The identifiers of the regions containing `address`, in table order;
    /// a fault at `address` is attributed to exactly these.
    #[verifier::loop_isolation(false)]
    pub fn find_overlapping(&self, address: u64) -> (ids: Vec<u32>)
        ensures
            ids@ == ids_overlapping(self.regions_seq(), address),
    {
        let mut ids: Vec<u32> = Vec::new();
        let n = self.regions.len();
        let mut i: usize = 0;
        while i < n
            invariant
                n == self.regions@.len(),
                i <= n,
                ids@ == ids_overlapping(self.regions@.take(i as int), address),
            decreases n - i,
        {
            let region = &self.regions[i];
            let inside = region.base_address <= address && address - region.base_address
                < region.contents.len() as u64;
            proof {
                reveal(Seq::filter);
                assert(self.regions@.take(i + 1).drop_last() =~= self.regions@.take(i as int));
                assert(self.regions@.take(i + 1).last() == self.regions@[i as int]);
                assert(inside == self.regions@[i as int].covers_addr(address));
                if inside {
                    assert(ids_overlapping(self.regions@.take(i + 1), address) =~= ids_overlapping(
                        self.regions@.take(i as int),
                        address,
                    ).push(self.regions@[i as int].id));
                } else {
                    assert(ids_overlapping(self.regions@.take(i + 1), address) =~= ids_overlapping(
                        self.regions@.take(i as int),
                        address,
                    ));
                }
            }
            if inside {
                ids.push(region.id);
            }
            i += 1;
        }
        proof {
            assert(self.regions@.take(n as int) =~= self.regions@);
        }
        ids
    }
}

} // verus!
