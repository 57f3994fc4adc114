//! Page-protection bookkeeping.
//!
//! Watched ranges are protected at page granularity. A page may back several
//! regions, so each protected page carries a reference count: the number of
//! live regions overlapping it (the engine maintains that equality). The page
//! is forgotten when the count reaches zero. Pages are identified by their
//! page index, `address / PAGE_SIZE`; the page's address is the index times
//! `PAGE_SIZE`. A page is `armed` while write access is removed; a fault
//! leaves exactly the faulting page permissive until the worker re-arms it.

use vstd::prelude::*;

verus! {

/// Hardware page size in bytes.
pub const PAGE_SIZE: u64 = 4096;

/// The index of the page containing `address`.
pub open spec fn spec_page_index(address: u64) -> int {
    address as int / PAGE_SIZE as int
}

/// Whether the byte range `[base, base + len)` touches the page with index `pi`.
pub open spec fn range_covers_index(base: u64, len: nat, pi: u64) -> bool {
    len > 0 && spec_page_index(base) <= pi <= (base + len - 1) / (PAGE_SIZE as int)
}

/// One write-protected page.
pub struct ProtectedPage {
    /// The page's index: its address divided by `PAGE_SIZE`.
    pub page_index: u64,
    /// How many live regions overlap the page.
    pub ref_count: u32,
    /// Whether write access is currently removed. A fault disarms the page so
    /// the faulting store can complete; the worker re-arms it.
    pub armed: bool,
}

/// The reference count recorded for page `pi`: 0 when the page is not held.
pub open spec fn rc_of(s: Seq<ProtectedPage>, pi: u64) -> nat
    decreases s.len(),
{
    if s.len() == 0 {
        0
    } else if s.last().page_index == pi {
        s.last().ref_count as nat
    } else {
        rc_of(s.drop_last(), pi)
    }
}

/// Whether page `pi` is armed: false when the page is not held.
pub open spec fn armed_of(s: Seq<ProtectedPage>, pi: u64) -> bool
    decreases s.len(),
{
    if s.len() == 0 {
        false
    } else if s.last().page_index == pi {
        s.last().armed
    } else {
        armed_of(s.drop_last(), pi)
    }
}

/// Whether page `pi` is held in the map.
pub open spec fn contains_page(s: Seq<ProtectedPage>, pi: u64) -> bool {
    exists|i: int| 0 <= i < s.len() && (#[trigger] s[i]).page_index == pi
}

/// How many held pages are armed.
pub open spec fn armed_count(s: Seq<ProtectedPage>) -> nat
    decreases s.len(),
{
    if s.len() == 0 {
        0
    } else {
        armed_count(s.drop_last()) + if s.last().armed {
            1nat
        } else {
            0nat
        }
    }
}

/// Entries are unique per page and never hold a zero count.
pub open spec fn pages_wf(s: Seq<ProtectedPage>) -> bool {
    &&& (forall|a: int, b: int|
        0 <= a < b < s.len() ==> s[a].page_index != s[b].page_index)
    &&& (forall|i: int| 0 <= i < s.len() ==> (#[trigger] s[i]).ref_count > 0)
}

/// A page is held exactly when its recorded count is positive.
pub proof fn lemma_contains_iff_rc(s: Seq<ProtectedPage>, pi: u64)
    requires
        pages_wf(s),
    ensures
        contains_page(s, pi) <==> rc_of(s, pi) > 0,
    decreases s.len(),
{
    if s.len() > 0 {
        assert(pages_wf(s.drop_last()));
        lemma_contains_iff_rc(s.drop_last(), pi);
        if s.last().page_index == pi {
            assert(s[s.len() - 1].page_index == pi);
        } else {
            if contains_page(s, pi) {
                let w = choose|i: int|
                    0 <= i < s.len() && (#[trigger] s[i]).page_index == pi;
                assert(s.drop_last()[w].page_index == pi);
            }
            if contains_page(s.drop_last(), pi) {
                let w = choose|i: int|
                    0 <= i < s.drop_last().len() && (#[trigger] s.drop_last()[i]).page_index == pi;
                assert(s[w].page_index == pi);
            }
        }
    }
}

/// Replacing the entry at `i` by one for the same page changes the recorded
/// count and arming of that page alone.
pub proof fn lemma_entry_update(s: Seq<ProtectedPage>, i: int, e: ProtectedPage, pi: u64)
    requires
        pages_wf(s),
        0 <= i < s.len(),
        e.page_index == s[i].page_index,
    ensures
        rc_of(s.update(i, e), pi) == if pi == e.page_index {
            e.ref_count as nat
        } else {
            rc_of(s, pi)
        },
        armed_of(s.update(i, e), pi) == if pi == e.page_index {
            e.armed
        } else {
            armed_of(s, pi)
        },
        contains_page(s.update(i, e), pi) == contains_page(s, pi),
    decreases s.len(),
{
    let t = s.update(i, e);
    assert(t.len() == s.len());
    if i == s.len() - 1 {
        assert(t.last() == e);
        assert(t.drop_last() =~= s.drop_last());
        if e.page_index != pi {
            assert(rc_of(t, pi) == rc_of(t.drop_last(), pi));
        }
    } else {
        assert(t.last() == s.last());
        assert(t.drop_last() =~= s.drop_last().update(i, e));
        assert(pages_wf(s.drop_last()));
        assert(s.drop_last()[i] == s[i]);
        lemma_entry_update(s.drop_last(), i, e, pi);
        if s.last().page_index == pi {
            assert(s[s.len() - 1].page_index == pi);
            assert(e.page_index != pi);
        }
    }
    assert forall|q: int| 0 <= q < t.len() && (#[trigger] t[q]).page_index == pi implies
        contains_page(s, pi) by {
        if q == i {
            assert(s[i].page_index == pi);
        } else {
            assert(s[q].page_index == pi);
        }
    }
    if contains_page(s, pi) {
        let w = choose|q: int| 0 <= q < s.len() && (#[trigger] s[q]).page_index == pi;
        if w == i {
            assert(t[i].page_index == pi);
        } else {
            assert(t[w].page_index == pi);
        }
    }
}

/// Removing the entry at `i` zeroes the recorded count of its page alone.
pub proof fn lemma_entry_remove(s: Seq<ProtectedPage>, i: int, pi: u64)
    requires
        pages_wf(s),
        0 <= i < s.len(),
    ensures
        rc_of(s.remove(i), pi) == if pi == s[i].page_index {
            0nat
        } else {
            rc_of(s, pi)
        },
        armed_of(s.remove(i), pi) == if pi == s[i].page_index {
            false
        } else {
            armed_of(s, pi)
        },
        contains_page(s.remove(i), pi) == (contains_page(s, pi) && pi != s[i].page_index),
    decreases s.len(),
{
    let t = s.remove(i);
    if i == s.len() - 1 {
        assert(t =~= s.drop_last());
        if s[i].page_index == pi {
            assert(!contains_page(t, pi)) by {
                if contains_page(t, pi) {
                    let w = choose|q: int|
                        0 <= q < t.len() && (#[trigger] t[q]).page_index == pi;
                    assert(s[w].page_index == pi);
                }
            }
            assert(pages_wf(t));
            lemma_contains_iff_rc(t, pi);
            lemma_armed_absent(t, pi);
        }
    } else {
        assert(t.last() == s.last());
        assert(t.drop_last() =~= s.drop_last().remove(i));
        assert(pages_wf(s.drop_last()));
        assert(s.drop_last()[i] == s[i]);
        lemma_entry_remove(s.drop_last(), i, pi);
        if s.last().page_index == pi {
            assert(s[s.len() - 1].page_index == pi);
            assert(s[i].page_index != pi);
        }
    }
    assert forall|q: int| 0 <= q < t.len() && (#[trigger] t[q]).page_index == pi implies
        contains_page(s, pi) && pi != s[i].page_index by {
        if q < i {
            assert(s[q].page_index == pi);
        } else {
            assert(s[q + 1].page_index == pi);
        }
    }
    if contains_page(s, pi) && pi != s[i].page_index {
        let w = choose|q: int| 0 <= q < s.len() && (#[trigger] s[q]).page_index == pi;
        if w < i {
            assert(t[w].page_index == pi);
        } else {
            assert(t[w - 1].page_index == pi);
        }
    }
}

/// An unheld page is not armed.
pub proof fn lemma_armed_absent(s: Seq<ProtectedPage>, pi: u64)
    requires
        !contains_page(s, pi),
    ensures
        armed_of(s, pi) == false,
        rc_of(s, pi) == 0,
    decreases s.len(),
{
    if s.len() > 0 {
        assert(s[s.len() - 1] == s.last());
        assert(s.last().page_index != pi);
        assert(!contains_page(s.drop_last(), pi)) by {
            if contains_page(s.drop_last(), pi) {
                let w = choose|q: int|
                    0 <= q < s.drop_last().len() && (#[trigger] s.drop_last()[q]).page_index == pi;
                assert(s[w].page_index == pi);
            }
        }
        lemma_armed_absent(s.drop_last(), pi);
    }
}

/// When every entry is armed, a page is armed exactly when it is held.
pub proof fn lemma_armed_all(s: Seq<ProtectedPage>, pi: u64)
    requires
        forall|i: int| 0 <= i < s.len() ==> (#[trigger] s[i]).armed,
    ensures
        armed_of(s, pi) == contains_page(s, pi),
    decreases s.len(),
{
    if s.len() > 0 {
        assert(s[s.len() - 1] == s.last());
        lemma_armed_all(s.drop_last(), pi);
        if s.last().page_index != pi {
            if contains_page(s, pi) {
                let w = choose|q: int|
                    0 <= q < s.len() && (#[trigger] s[q]).page_index == pi;
                assert(s.drop_last()[w].page_index == pi);
            }
            if contains_page(s.drop_last(), pi) {
                let w = choose|q: int|
                    0 <= q < s.drop_last().len() && (#[trigger] s.drop_last()[q]).page_index == pi;
                assert(s[w].page_index == pi);
            }
        }
    }
}

/// Tracks which pages are write-protected and how many regions lean on each.
pub struct PageMap {
    pages: Vec<ProtectedPage>,
}

impl PageMap {
    /// The held pages, in the order first protected.
    pub closed spec fn pages_seq(self) -> Seq<ProtectedPage> {
        self.pages@
    }

    /// The map's invariant: one entry per page, counts positive.
    pub open spec fn wf(self) -> bool {
        pages_wf(self.pages_seq())
    }

    /// An empty map.
    pub fn new() -> (m: PageMap)
        ensures
            m.wf(),
            m.pages_seq() == Seq::<ProtectedPage>::empty(),
    {
        PageMap { pages: Vec::new() }
    }

    /// How many pages are currently held (each is one `mprotect` unit).
    pub fn page_count(&self) -> (n: usize)
        ensures
            n == self.pages_seq().len(),
    {
        self.pages.len()
    }

    /// How many held pages are currently armed.
    #[verifier::loop_isolation(false)]
    pub fn armed_page_count(&self) -> (n: usize)
        ensures
            n == armed_count(self.pages_seq()),
    {
        let mut n: usize = 0;
        let mut i: usize = 0;
        let total = self.pages.len();
        while i < total
            invariant
                i <= total,
                n == armed_count(self.pages@.take(i as int)),
                n <= i,
            decreases total - i,
        {
            proof {
                assert(self.pages@.take(i + 1).drop_last() =~= self.pages@.take(i as int));
                assert(self.pages@.take(i + 1).last() == self.pages@[i as int]);
            }
            if self.pages[i].armed {
                n += 1;
            }
            i += 1;
        }
        proof {
            assert(self.pages@.take(total as int) =~= self.pages@);
        }
        n
    }

    fn find_page(&self, pi: u64) -> (r: Option<usize>)
        ensures
            match r {
                Some(i) => i < self.pages_seq().len() && self.pages_seq()[i as int].page_index
                    == pi,
                None => !contains_page(self.pages_seq(), pi),
            },
    {
        let n = self.pages.len();
        let mut i: usize = 0;
        while i < n
            invariant
                n == self.pages@.len(),
                i <= n,
                forall|a: int| 0 <= a < i ==> (#[trigger] self.pages@[a]).page_index != pi,
            decreases n - i,
        {
            if self.pages[i].page_index == pi {
                return Some(i);
            }
            i += 1;
        }
        proof {
            if contains_page(self.pages@, pi) {
                let w = choose|q: int|
                    0 <= q < self.pages@.len() && (#[trigger] self.pages@[q]).page_index == pi;
            }
        }
        None
    }

    /// Protects the pages covering `[base, base + len)`: a page not yet held
    /// is taken with count 1; a held page's count rises by one. Every covered
    /// page ends armed; other pages are untouched.
    #[verifier::loop_isolation(false)]
    pub fn protect(&mut self, base: u64, len: usize)
        requires
            old(self).wf(),
            len > 0,
            base + len <= u64::MAX,
            forall|pi: u64|
                range_covers_index(base, len as nat, pi) ==> rc_of(old(self).pages_seq(), pi)
                    < u32::MAX,
        ensures
            final(self).wf(),
            forall|pi: u64|
                range_covers_index(base, len as nat, pi) ==> rc_of(final(self).pages_seq(), pi)
                    == rc_of(old(self).pages_seq(), pi) + 1 && armed_of(
                    final(self).pages_seq(),
                    pi,
                ) && contains_page(final(self).pages_seq(), pi),
            forall|pi: u64|
                !range_covers_index(base, len as nat, pi) ==> rc_of(final(self).pages_seq(), pi)
                    == rc_of(old(self).pages_seq(), pi) && armed_of(final(self).pages_seq(), pi)
                    == armed_of(old(self).pages_seq(), pi) && contains_page(
                    final(self).pages_seq(),
                    pi,
                ) == contains_page(old(self).pages_seq(), pi),
    {
        let first: u64 = base / PAGE_SIZE;
        let last: u64 = (base + (len - 1) as u64) / PAGE_SIZE;
        let mut pi: u64 = first;
        while pi <= last
            invariant
                first <= pi,
                pi <= last + 1,
                pages_wf(self.pages@),
                forall|q: u64|
                    (range_covers_index(base, len as nat, q) && q < pi) ==> rc_of(
                        self.pages@,
                        q,
                    ) == rc_of(old(self).pages_seq(), q) + 1 && armed_of(self.pages@, q)
                        && contains_page(self.pages@, q),
                forall|q: u64|
                    !(range_covers_index(base, len as nat, q) && q < pi) ==> rc_of(self.pages@, q)
                        == rc_of(old(self).pages_seq(), q) && armed_of(self.pages@, q) == armed_of(
                        old(self).pages_seq(),
                        q,
                    ) && contains_page(self.pages@, q) == contains_page(old(self).pages_seq(), q),
            decreases last + 1 - pi,
        {
            let ghost before = self.pages@;
            proof {
                assert(range_covers_index(base, len as nat, pi));
                assert(rc_of(before, pi) == rc_of(old(self).pages_seq(), pi));
            }
            match self.find_page(pi) {
                Some(i) => {
                    let entry = &self.pages[i];
                    proof {
                        lemma_rc_at_index(before, i as int);
                    }
                    let bumped = ProtectedPage {
                        page_index: pi,
                        ref_count: entry.ref_count + 1,
                        armed: true,
                    };
                    self.pages.set(i, bumped);
                    proof {
                        assert forall|q: u64| true implies rc_of(self.pages@, q) == (if q == pi {
                            rc_of(before, q) + 1
                        } else {
                            rc_of(before, q)
                        }) && armed_of(self.pages@, q) == (if q == pi {
                            true
                        } else {
                            armed_of(before, q)
                        }) && contains_page(self.pages@, q) == contains_page(before, q) by {
                            lemma_entry_update(before, i as int, bumped, q);
                            if q == pi {
                                lemma_rc_at_index(before, i as int);
                            }
                        }
                    }
                },
                None => {
                    proof {
                        lemma_contains_iff_rc(before, pi);
                        lemma_armed_absent(before, pi);
                    }
                    self.pages.push(ProtectedPage { page_index: pi, ref_count: 1, armed: true });
                    proof {
                        assert(self.pages@.drop_last() =~= before);
                        assert(self.pages@.last().page_index == pi);
                        assert forall|q: u64| q != pi implies rc_of(self.pages@, q) == rc_of(
                            before,
                            q,
                        ) && armed_of(self.pages@, q) == armed_of(before, q) by {
                        }
                        assert forall|q: u64| true implies contains_page(self.pages@, q) == (
                        contains_page(before, q) || q == pi) by {
                            if contains_page(self.pages@, q) {
                                let w = choose|x: int|
                                    0 <= x < self.pages@.len() && (
                                    #[trigger] self.pages@[x]).page_index == q;
                                if w < before.len() {
                                    assert(before[w].page_index == q);
                                }
                            }
                            if contains_page(before, q) {
                                let w = choose|x: int|
                                    0 <= x < before.len() && (#[trigger] before[x]).page_index
                                        == q;
                                assert(self.pages@[w].page_index == q);
                            }
                            if q == pi {
                                assert(self.pages@[self.pages@.len() - 1].page_index == pi);
                            }
                        }
                        assert(pages_wf(self.pages@));
                    }
                },
            }
            proof {
                let ghost now = self.pages@;
                let ghost prior = old(self).pages_seq();
                assert forall|q: u64| range_covers_index(base, len as nat, q) && q < pi + 1 implies
                    rc_of(now, q) == rc_of(prior, q) + 1 && armed_of(now, q) && contains_page(
                    now,
                    q,
                ) by {
                    if q == pi {
                        assert(rc_of(now, q) == rc_of(before, q) + 1);
                        assert(rc_of(before, q) == rc_of(prior, q));
                    } else {
                        assert(rc_of(before, q) == rc_of(prior, q) + 1);
                        assert(armed_of(before, q));
                        assert(contains_page(before, q));
                        assert(rc_of(now, q) == rc_of(before, q));
                        assert(armed_of(now, q) == armed_of(before, q));
                        assert(contains_page(now, q) == contains_page(before, q));
                    }
                }
                assert forall|q: u64| !(range_covers_index(base, len as nat, q) && q < pi + 1)
                    implies rc_of(now, q) == rc_of(prior, q) && armed_of(now, q) == armed_of(
                    prior,
                    q,
                ) && contains_page(now, q) == contains_page(prior, q) by {
                    assert(q != pi);
                    assert(!(range_covers_index(base, len as nat, q) && q < pi));
                    assert(rc_of(before, q) == rc_of(prior, q));
                    assert(armed_of(before, q) == armed_of(prior, q));
                    assert(contains_page(before, q) == contains_page(prior, q));
                    assert(rc_of(now, q) == rc_of(before, q));
                    assert(armed_of(now, q) == armed_of(before, q));
                    assert(contains_page(now, q) == contains_page(before, q));
                }
            }
            pi += 1;
        }
    }

    /// Releases one reference of each page covering `[base, base + len)`: a
    /// count of one frees the page, a larger count only falls. Covered pages
    /// must be held, which holds whenever every covered page backs at least
    /// this one region. Other pages are untouched.
    #[verifier::loop_isolation(false)]
    pub fn unprotect(&mut self, base: u64, len: usize)
        requires
            old(self).wf(),
            len > 0,
            base + len <= u64::MAX,
            forall|pi: u64|
                range_covers_index(base, len as nat, pi) ==> contains_page(
                    old(self).pages_seq(),
                    pi,
                ),
        ensures
            final(self).wf(),
            forall|pi: u64|
                range_covers_index(base, len as nat, pi) ==> rc_of(final(self).pages_seq(), pi)
                    == rc_of(old(self).pages_seq(), pi) - 1 && contains_page(
                    final(self).pages_seq(),
                    pi,
                ) == (rc_of(old(self).pages_seq(), pi) > 1),
            forall|pi: u64|
                !range_covers_index(base, len as nat, pi) ==> rc_of(final(self).pages_seq(), pi)
                    == rc_of(old(self).pages_seq(), pi) && armed_of(final(self).pages_seq(), pi)
                    == armed_of(old(self).pages_seq(), pi) && contains_page(
                    final(self).pages_seq(),
                    pi,
                ) == contains_page(old(self).pages_seq(), pi),
    {
        let first: u64 = base / PAGE_SIZE;
        let last: u64 = (base + (len - 1) as u64) / PAGE_SIZE;
        let mut pi: u64 = first;
        while pi <= last
            invariant
                first <= pi,
                pi <= last + 1,
                pages_wf(self.pages@),
                forall|q: u64|
                    (range_covers_index(base, len as nat, q) && q < pi) ==> rc_of(
                        self.pages@,
                        q,
                    ) == rc_of(old(self).pages_seq(), q) - 1 && contains_page(self.pages@, q) == (
                    rc_of(old(self).pages_seq(), q) > 1),
                forall|q: u64|
                    !(range_covers_index(base, len as nat, q) && q < pi) ==> rc_of(self.pages@, q)
                        == rc_of(old(self).pages_seq(), q) && armed_of(self.pages@, q) == armed_of(
                        old(self).pages_seq(),
                        q,
                    ) && contains_page(self.pages@, q) == contains_page(old(self).pages_seq(), q),
            decreases last + 1 - pi,
        {
            let ghost before = self.pages@;
            proof {
                assert(range_covers_index(base, len as nat, pi));
                assert(contains_page(old(self).pages_seq(), pi));
                assert(contains_page(before, pi));
                assert(rc_of(before, pi) == rc_of(old(self).pages_seq(), pi));
            }
            match self.find_page(pi) {
                Some(i) => {
                    let entry_rc = self.pages[i].ref_count;
                    proof {
                        lemma_rc_at_index(before, i as int);
                    }
                    if entry_rc == 1 {
                        self.pages.remove(i);
                        proof {
                            assert forall|q: u64| true implies rc_of(self.pages@, q) == (if q == pi {
                                0nat
                            } else {
                                rc_of(before, q)
                            }) && armed_of(self.pages@, q) == (if q == pi {
                                false
                            } else {
                                armed_of(before, q)
                            }) && contains_page(self.pages@, q) == (contains_page(before, q) && q
                                != pi) by {
                                lemma_entry_remove(before, i as int, q);
                            }
                        }
                    } else {
                        let lowered = ProtectedPage {
                            page_index: pi,
                            ref_count: entry_rc - 1,
                            armed: self.pages[i].armed,
                        };
                        let ghost kept_armed = self.pages@[i as int].armed;
                        self.pages.set(i, lowered);
                        proof {
                            assert forall|q: u64| true implies rc_of(self.pages@, q) == (if q == pi {
                                (rc_of(before, q) - 1) as nat
                            } else {
                                rc_of(before, q)
                            }) && contains_page(self.pages@, q) == contains_page(before, q)
                                && armed_of(self.pages@, q) == (if q == pi {
                                kept_armed
                            } else {
                                armed_of(before, q)
                            }) by {
                                lemma_entry_update(before, i as int, lowered, q);
                            }
                            lemma_armed_at_index(before, i as int);
                        }
                    }
                },
                None => {
                    // Unreachable: every covered page is held, by the
                    // precondition, and this one is still unprocessed.
                    proof {
                        assert(false);
                    }
                },
            }
            proof {
                let ghost now = self.pages@;
                let ghost prior = old(self).pages_seq();
                lemma_contains_iff_rc(before, pi);
                assert forall|q: u64| range_covers_index(base, len as nat, q) && q < pi + 1 implies
                    rc_of(now, q) == rc_of(prior, q) - 1 && contains_page(now, q) == (rc_of(
                    prior,
                    q,
                ) > 1) by {
                    if q == pi {
                        assert(rc_of(before, q) == rc_of(prior, q));
                        assert(rc_of(now, q) == rc_of(before, q) - 1);
                        assert(contains_page(before, q));
                    } else {
                        assert(rc_of(before, q) == rc_of(prior, q) - 1);
                        assert(contains_page(before, q) == (rc_of(prior, q) > 1));
                        assert(rc_of(now, q) == rc_of(before, q));
                        assert(contains_page(now, q) == contains_page(before, q));
                    }
                }
                assert forall|q: u64| !(range_covers_index(base, len as nat, q) && q < pi + 1)
                    implies rc_of(now, q) == rc_of(prior, q) && armed_of(now, q) == armed_of(
                    prior,
                    q,
                ) && contains_page(now, q) == contains_page(prior, q) by {
                    assert(q != pi);
                    assert(!(range_covers_index(base, len as nat, q) && q < pi));
                    assert(rc_of(before, q) == rc_of(prior, q));
                    assert(armed_of(before, q) == armed_of(prior, q));
                    assert(contains_page(before, q) == contains_page(prior, q));
                    assert(rc_of(now, q) == rc_of(before, q));
                    assert(armed_of(now, q) == armed_of(before, q));
                    assert(contains_page(now, q) == contains_page(before, q));
                }
            }
            pi += 1;
        }
    }

    /// Reacts to a write fault at `address`: the faulting page, when held, is
    /// disarmed so the store can complete; an unknown page is left alone and
    /// reported `false`, never an error, since a stale fault must not bring
    /// the process down.
    pub fn on_fault(&mut self, address: u64) -> (r: bool)
        requires
            old(self).wf(),
        ensures
            final(self).wf(),
            r == contains_page(old(self).pages_seq(), spec_page_index(address) as u64),
            forall|q: u64|
                q != spec_page_index(address) as u64 ==> rc_of(final(self).pages_seq(), q) == rc_of(
                    old(self).pages_seq(),
                    q,
                ) && armed_of(final(self).pages_seq(), q) == armed_of(old(self).pages_seq(), q),
            rc_of(final(self).pages_seq(), spec_page_index(address) as u64) == rc_of(
                old(self).pages_seq(),
                spec_page_index(address) as u64,
            ),
            armed_of(final(self).pages_seq(), spec_page_index(address) as u64) == false,
            forall|q: u64|
                contains_page(final(self).pages_seq(), q) == contains_page(
                    old(self).pages_seq(),
                    q,
                ),
    {
        let pi = address / PAGE_SIZE;
        let ghost before = self.pages@;
        match self.find_page(pi) {
            Some(i) => {
                let disarmed = ProtectedPage {
                    page_index: pi,
                    ref_count: self.pages[i].ref_count,
                    armed: false,
                };
                proof {
                    lemma_rc_at_index(before, i as int);
                }
                self.pages.set(i, disarmed);
                proof {
                    assert forall|q: u64| true implies rc_of(self.pages@, q) == rc_of(before, q)
                        && armed_of(self.pages@, q) == (if q == pi {
                        false
                    } else {
                        armed_of(before, q)
                    }) && contains_page(self.pages@, q) == contains_page(before, q) by {
                        lemma_entry_update(before, i as int, disarmed, q);
                        if q == pi {
                            lemma_rc_at_index(before, i as int);
                        }
                    }
                }
                true
            },
            None => {
                proof {
                    lemma_armed_absent(before, pi);
                }
                false
            },
        }
    }

    /// Re-arms every held page; the worker calls this each cycle so pages a
    /// fault left permissive protect again.
    #[verifier::loop_isolation(false)]
    pub fn rearm_all(&mut self)
        requires
            old(self).wf(),
        ensures
            final(self).wf(),
            forall|q: u64|
                rc_of(final(self).pages_seq(), q) == rc_of(old(self).pages_seq(), q)
                    && contains_page(final(self).pages_seq(), q) == contains_page(
                    old(self).pages_seq(),
                    q,
                ) && armed_of(final(self).pages_seq(), q) == contains_page(
                    old(self).pages_seq(),
                    q,
                ),
    {
        let n = self.pages.len();
        let mut i: usize = 0;
        while i < n
            invariant
                n == self.pages@.len(),
                i <= n,
                pages_wf(self.pages@),
                forall|a: int|
                    0 <= a < n ==> (#[trigger] self.pages@[a]).page_index == old(
                        self,
                    ).pages_seq()[a].page_index && self.pages@[a].ref_count == old(
                        self,
                    ).pages_seq()[a].ref_count,
                forall|a: int| 0 <= a < i ==> (#[trigger] self.pages@[a]).armed,
                forall|a: int|
                    i <= a < n ==> (#[trigger] self.pages@[a]).armed == old(
                        self,
                    ).pages_seq()[a].armed,
            decreases n - i,
        {
            let rearmed = ProtectedPage {
                page_index: self.pages[i].page_index,
                ref_count: self.pages[i].ref_count,
                armed: true,
            };
            self.pages.set(i, rearmed);
            i += 1;
        }
        proof {
            assert forall|q: u64| true implies rc_of(self.pages@, q) == rc_of(
                old(self).pages_seq(),
                q,
            ) && contains_page(self.pages@, q) == contains_page(old(self).pages_seq(), q)
                && armed_of(self.pages@, q) == contains_page(old(self).pages_seq(), q) by {
                lemma_same_pages_same_rc(old(self).pages_seq(), self.pages@, q);
                lemma_armed_all(self.pages@, q);
            }
        }
    }
}

/// The entry at `i` records its own page's count.
pub proof fn lemma_rc_at_index(s: Seq<ProtectedPage>, i: int)
    requires
        pages_wf(s),
        0 <= i < s.len(),
    ensures
        rc_of(s, s[i].page_index) == s[i].ref_count as nat,
        contains_page(s, s[i].page_index),
    decreases s.len(),
{
    if i == s.len() - 1 {
        assert(s.last() == s[i]);
    } else {
        assert(s.last().page_index != s[i].page_index);
        assert(pages_wf(s.drop_last()));
        assert(s.drop_last()[i] == s[i]);
        lemma_rc_at_index(s.drop_last(), i);
    }
}

/// The entry at `i` records its own page's arming.
pub proof fn lemma_armed_at_index(s: Seq<ProtectedPage>, i: int)
    requires
        pages_wf(s),
        0 <= i < s.len(),
    ensures
        armed_of(s, s[i].page_index) == s[i].armed,
    decreases s.len(),
{
    if i == s.len() - 1 {
        assert(s.last() == s[i]);
    } else {
        assert(s.last().page_index != s[i].page_index);
        assert(pages_wf(s.drop_last()));
        assert(s.drop_last()[i] == s[i]);
        lemma_armed_at_index(s.drop_last(), i);
    }
}

/// Two maps whose entries agree on page and count record the same counts.
pub proof fn lemma_same_pages_same_rc(s1: Seq<ProtectedPage>, s2: Seq<ProtectedPage>, pi: u64)
    requires
        s1.len() == s2.len(),
        forall|a: int|
            0 <= a < s1.len() ==> (#[trigger] s2[a]).page_index == s1[a].page_index
                && s2[a].ref_count == s1[a].ref_count,
    ensures
        rc_of(s2, pi) == rc_of(s1, pi),
        contains_page(s2, pi) == contains_page(s1, pi),
    decreases s1.len(),
{
    if s1.len() > 0 {
        assert(s1[s1.len() - 1] == s1.last());
        assert(s2[s2.len() - 1] == s2.last());
        assert(forall|a: int|
            0 <= a < s1.drop_last().len() ==> (#[trigger] s2.drop_last()[a]).page_index
                == s1.drop_last()[a].page_index && s2.drop_last()[a].ref_count
                == s1.drop_last()[a].ref_count);
        lemma_same_pages_same_rc(s1.drop_last(), s2.drop_last(), pi);
        if contains_page(s1, pi) {
            let w = choose|q: int| 0 <= q < s1.len() && (#[trigger] s1[q]).page_index == pi;
            assert(s2[w].page_index == pi);
        }
        if contains_page(s2, pi) {
            let w = choose|q: int| 0 <= q < s2.len() && (#[trigger] s2[q]).page_index == pi;
            assert(s1[w].page_index == pi);
        }
    } else {
        if contains_page(s1, pi) {
            let w = choose|q: int| 0 <= q < s1.len() && (#[trigger] s1[q]).page_index == pi;
        }
        if contains_page(s2, pi) {
            let w = choose|q: int| 0 <= q < s2.len() && (#[trigger] s2[q]).page_index == pi;
        }
    }
}

} // verus!
