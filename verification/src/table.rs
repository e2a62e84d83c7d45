//! The virtual descriptor table itself.
//!
//! A [`FdTables`] value holds every cage's slot array, the process-wide
//! reference counts of the real descriptors those slots share, and the epoll
//! side table.  The host keeps one `FdTables` per process and serialises
//! access to it; every operation here is a plain function over that value,
//! so each call is atomic by construction and owed close-handler work is
//! returned as data (see [`crate::handlers`]).
//!
//! The central invariant, [`FdTables::wf`], ties the stored count of every
//! real descriptor to the number of (cage, slot) pairs that hold it.

use vstd::prelude::*;

use crate::commonconstants::EPOLLFD;
use crate::commonconstants::FDTableEntry;
use crate::commonconstants::FD_PER_PROCESS_MAX;
use crate::commonconstants::INVALID_FD;
use crate::commonconstants::NO_REAL_FD;
use crate::commonconstants::epoll_event;
use crate::commonconstants::is_real_fd;
use crate::handlers::CloseCall;
use crate::threei;

verus! {

/// One cage's slot array; the index is the virtual descriptor number.
pub struct FdCage {
    /// The cage this array belongs to.
    pub cageid: u64,
    /// Exactly `FD_PER_PROCESS_MAX` slots, each empty or holding one entry.
    pub slots: Vec<Option<FDTableEntry>>,
}

/// Stored reference count of one real descriptor.
pub struct RealCount {
    /// The real descriptor; never a sentinel.
    pub realfd: u64,
    /// How many (cage, slot) pairs hold it; always positive.
    pub count: u64,
}

/// One epoll aggregator: the kernel epollfd created for it and the unreal
/// descriptors it watches.
pub struct EpollEntry {
    /// The kernel epollfd the host made for the real descriptors.
    pub realfd: u64,
    /// Watched unreal descriptors and their event masks; keys are unique.
    pub watched: Vec<(u64, epoll_event)>,
}

/// The whole table: cages, descriptor reference counts, epoll side table.
pub struct FdTables {
    /// One slot array per live cage; cage ids are unique.
    pub cages: Vec<FdCage>,
    /// Reference counts of the real descriptors held anywhere in `cages`.
    pub realcounts: Vec<RealCount>,
    /// Epoll side table, indexed by the `optionalinfo` of `EPOLLFD` slots.
    /// Entries are never removed, so indices stay valid.
    pub epolls: Vec<EpollEntry>,
}

// ---------------------------------------------------------------------------
// Counting references over the representation.
// ---------------------------------------------------------------------------

/// How many references one slot contributes to `realfd`: one or zero.
pub open spec fn entry_refs(e: Option<FDTableEntry>, realfd: u64) -> nat {
    match e {
        Some(en) => if en.realfd == realfd { 1nat } else { 0nat },
        None => 0nat,
    }
}

/// How many slots of one cage hold `realfd`.
pub open spec fn slots_refs(s: Seq<Option<FDTableEntry>>, realfd: u64) -> nat
    decreases s.len(),
{
    if s.len() == 0 {
        0nat
    } else {
        slots_refs(s.drop_last(), realfd) + entry_refs(s.last(), realfd)
    }
}

/// How many slots over all cages hold `realfd`.
pub open spec fn cages_refs(cs: Seq<FdCage>, realfd: u64) -> nat
    decreases cs.len(),
{
    if cs.len() == 0 {
        0nat
    } else {
        cages_refs(cs.drop_last(), realfd) + slots_refs(cs.last().slots@, realfd)
    }
}

// ---------------------------------------------------------------------------
// The stored counts, as a map.
// ---------------------------------------------------------------------------

/// Whether the count list has an entry for `realfd`.
pub open spec fn seq_has_count(s: Seq<RealCount>, realfd: u64) -> bool {
    exists|i: int| 0 <= i < s.len() && (#[trigger] s[i]).realfd == realfd
}

/// The index of the count entry for `realfd`.
pub open spec fn seq_count_at(s: Seq<RealCount>, realfd: u64) -> int {
    choose|i: int| 0 <= i < s.len() && (#[trigger] s[i]).realfd == realfd
}

/// The count list as a map from real descriptor to stored count.
pub open spec fn counts_map_of(s: Seq<RealCount>) -> Map<u64, u64> {
    Map::new(
        |realfd: u64| seq_has_count(s, realfd),
        |realfd: u64| s[seq_count_at(s, realfd)].count,
    )
}

/// The stored count of `realfd`, zero when absent.
pub open spec fn stored_count_of(s: Seq<RealCount>, realfd: u64) -> nat {
    if counts_map_of(s).contains_key(realfd) {
        counts_map_of(s)[realfd] as nat
    } else {
        0nat
    }
}

/// The count list is well formed: unique keys, only real descriptors,
/// only positive counts.
pub open spec fn counts_wf(s: Seq<RealCount>) -> bool {
    &&& forall|i: int, j: int| 0 <= i < j < s.len() ==> s[i].realfd != s[j].realfd
    &&& forall|i: int| 0 <= i < s.len() ==> is_real_fd((#[trigger] s[i]).realfd) && s[i].count > 0
}

// ---------------------------------------------------------------------------
// The watched set of one epoll aggregator, as a map.
// ---------------------------------------------------------------------------

/// Whether `w` watches virtual descriptor `virtfd`.
pub open spec fn seq_has_watch(w: Seq<(u64, epoll_event)>, virtfd: u64) -> bool {
    exists|i: int| 0 <= i < w.len() && (#[trigger] w[i]).0 == virtfd
}

/// The index of the watch entry for `virtfd`.
pub open spec fn seq_watch_at(w: Seq<(u64, epoll_event)>, virtfd: u64) -> int {
    choose|i: int| 0 <= i < w.len() && (#[trigger] w[i]).0 == virtfd
}

/// The watch list as a map from virtual descriptor to event mask.
pub open spec fn watched_map_of(w: Seq<(u64, epoll_event)>) -> Map<u64, epoll_event> {
    Map::new(
        |virtfd: u64| seq_has_watch(w, virtfd),
        |virtfd: u64| w[seq_watch_at(w, virtfd)].1,
    )
}

/// The watch list has unique keys.
pub open spec fn watched_wf(w: Seq<(u64, epoll_event)>) -> bool {
    forall|i: int, j: int| 0 <= i < j < w.len() ==> w[i].0 != w[j].0
}

/// Appending a fresh watch entry inserts that key alone.
pub proof fn lemma_watched_push(w: Seq<(u64, epoll_event)>, p: (u64, epoll_event))
    requires
        watched_wf(w),
        !seq_has_watch(w, p.0),
    ensures
        watched_wf(w.push(p)),
        watched_map_of(w.push(p)) == watched_map_of(w).insert(p.0, p.1),
{
    let w2 = w.push(p);
    let n = w.len() as int;
    assert forall|a: int, b: int| 0 <= a < b < w2.len() implies w2[a].0 != w2[b].0 by {
        if b == n {
            assert(w2[a].0 == w[a].0);
            if w2[a].0 == p.0 {
                assert(seq_has_watch(w, p.0));
            }
        }
    }
    lemma_watch_at(w2, n);
    assert forall|k: u64| #[trigger] watched_map_of(w2).contains_key(k) implies watched_map_of(
        w,
    ).insert(p.0, p.1).contains_key(k) && watched_map_of(w2)[k] == watched_map_of(w).insert(
        p.0,
        p.1,
    )[k] by {
        if k != p.0 {
            let i = seq_watch_at(w2, k);
            lemma_watch_at(w2, i);
            assert(i != n);
            assert(w[i].0 == k);
            lemma_watch_at(w, i);
        }
    }
    assert forall|k: u64| watched_map_of(w).insert(p.0, p.1).contains_key(
        k,
    ) implies #[trigger] watched_map_of(w2).contains_key(k) by {
        if k != p.0 {
            let i = seq_watch_at(w, k);
            lemma_watch_at(w, i);
            assert(w2[i].0 == k);
            lemma_watch_at(w2, i);
        }
    }
    assert(watched_map_of(w2) =~= watched_map_of(w).insert(p.0, p.1));
}

/// Overwriting a watch entry in place re-inserts that key alone.
pub proof fn lemma_watched_update(w: Seq<(u64, epoll_event)>, i: int, p: (u64, epoll_event))
    requires
        watched_wf(w),
        0 <= i < w.len(),
        p.0 == w[i].0,
    ensures
        watched_wf(w.update(i, p)),
        watched_map_of(w.update(i, p)) == watched_map_of(w).insert(p.0, p.1),
{
    let w2 = w.update(i, p);
    assert forall|a: int, b: int| 0 <= a < b < w2.len() implies w2[a].0 != w2[b].0 by {
        assert(w2[a].0 == w[a].0);
        assert(w2[b].0 == w[b].0);
    }
    lemma_watch_at(w2, i);
    assert forall|k: u64| #[trigger] watched_map_of(w2).contains_key(k) implies watched_map_of(
        w,
    ).insert(p.0, p.1).contains_key(k) && watched_map_of(w2)[k] == watched_map_of(w).insert(
        p.0,
        p.1,
    )[k] by {
        if k != p.0 {
            let j = seq_watch_at(w2, k);
            lemma_watch_at(w2, j);
            assert(j != i);
            assert(w[j].0 == k);
            lemma_watch_at(w, j);
        }
    }
    assert forall|k: u64| watched_map_of(w).insert(p.0, p.1).contains_key(
        k,
    ) implies #[trigger] watched_map_of(w2).contains_key(k) by {
        if k != p.0 {
            let j = seq_watch_at(w, k);
            lemma_watch_at(w, j);
            assert(j != i);
            assert(w2[j].0 == k);
            lemma_watch_at(w2, j);
        }
    }
    assert(watched_map_of(w2) =~= watched_map_of(w).insert(p.0, p.1));
}

/// Removing a watch entry erases that key alone.
pub proof fn lemma_watched_remove(w: Seq<(u64, epoll_event)>, i: int)
    requires
        watched_wf(w),
        0 <= i < w.len(),
    ensures
        watched_wf(w.remove(i)),
        watched_map_of(w.remove(i)) == watched_map_of(w).remove(w[i].0),
{
    let w2 = w.remove(i);
    assert forall|a: int, b: int| 0 <= a < b < w2.len() implies w2[a].0 != w2[b].0 by {
        let a0 = if a < i { a } else { a + 1 };
        let b0 = if b < i { b } else { b + 1 };
        assert(w2[a] == w[a0]);
        assert(w2[b] == w[b0]);
    }
    assert forall|k: int| 0 <= k < w2.len() implies w2[k].0 != w[i].0 by {
        let k0 = if k < i { k } else { k + 1 };
        assert(w2[k] == w[k0]);
    }
    assert forall|k: u64| #[trigger] watched_map_of(w2).contains_key(k) implies watched_map_of(
        w,
    ).remove(w[i].0).contains_key(k) && watched_map_of(w2)[k] == watched_map_of(w).remove(
        w[i].0,
    )[k] by {
        let j = seq_watch_at(w2, k);
        lemma_watch_at(w2, j);
        let j0 = if j < i { j } else { j + 1 };
        assert(w2[j] == w[j0]);
        lemma_watch_at(w, j0);
    }
    assert forall|k: u64| watched_map_of(w).remove(w[i].0).contains_key(
        k,
    ) implies #[trigger] watched_map_of(w2).contains_key(k) by {
        let j = seq_watch_at(w, k);
        lemma_watch_at(w, j);
        assert(j != i);
        let j2 = if j < i { j } else { j - 1 };
        assert(w2[j2] == w[j]);
        lemma_watch_at(w2, j2);
    }
    assert(watched_map_of(w2) =~= watched_map_of(w).remove(w[i].0));
}

// ---------------------------------------------------------------------------
// The table's own model.
// ---------------------------------------------------------------------------

/// Whether the cage list holds cage `cageid`.
pub open spec fn seq_has_cage(cs: Seq<FdCage>, cageid: u64) -> bool {
    exists|i: int| 0 <= i < cs.len() && (#[trigger] cs[i]).cageid == cageid
}

/// The index of cage `cageid` in the cage list.
pub open spec fn seq_cage_at(cs: Seq<FdCage>, cageid: u64) -> int {
    choose|i: int| 0 <= i < cs.len() && (#[trigger] cs[i]).cageid == cageid
}

impl FdTables {
    /// Whether cage `cageid` is in the table.
    pub open spec fn has_cage(&self, cageid: u64) -> bool {
        seq_has_cage(self.cages@, cageid)
    }

    /// The index of cage `cageid` in the cage list.
    pub open spec fn cage_at(&self, cageid: u64) -> int {
        seq_cage_at(self.cages@, cageid)
    }

    /// The slot array of cage `cageid`.
    pub open spec fn slots_of(&self, cageid: u64) -> Seq<Option<FDTableEntry>> {
        self.cages@[self.cage_at(cageid)].slots@
    }

    /// The entry at (cage, virtual fd), `None` when empty or out of range.
    pub open spec fn slot(&self, cageid: u64, virtualfd: u64) -> Option<FDTableEntry> {
        if virtualfd < FD_PER_PROCESS_MAX {
            self.slots_of(cageid)[virtualfd as int]
        } else {
            None
        }
    }

    /// Whether a stored count exists for `realfd`.
    pub open spec fn has_count(&self, realfd: u64) -> bool {
        seq_has_count(self.realcounts@, realfd)
    }

    /// The stored counts as a map; its domain is exactly the real
    /// descriptors with a positive count.
    pub open spec fn counts(&self) -> Map<u64, u64> {
        counts_map_of(self.realcounts@)
    }

    /// The stored count of `realfd`, zero when absent.
    pub open spec fn stored_count(&self, realfd: u64) -> nat {
        stored_count_of(self.realcounts@, realfd)
    }

    /// The number of (cage, slot) pairs that hold `realfd`.
    pub open spec fn nrefs(&self, realfd: u64) -> nat {
        cages_refs(self.cages@, realfd)
    }

    /// Cage ids are unique and every slot array has the fixed capacity.
    pub open spec fn cages_wf(&self) -> bool {
        &&& forall|i: int, j: int|
            0 <= i < j < self.cages@.len() ==> self.cages@[i].cageid != self.cages@[j].cageid
        &&& forall|i: int|
            0 <= i < self.cages@.len() ==> (#[trigger] self.cages@[i]).slots@.len()
                == FD_PER_PROCESS_MAX
    }

    /// Every occupied slot holds a storable entry: never `INVALID_FD`, and
    /// an `EPOLLFD` entry points into the epoll side table.
    pub open spec fn entries_wf(&self) -> bool {
        forall|i: int, v: int|
            0 <= i < self.cages@.len() && 0 <= v < self.cages@[i].slots@.len() ==> match (
            #[trigger] self.cages@[i].slots@[v]) {
                Some(e) => e.realfd != INVALID_FD && (e.realfd == EPOLLFD ==> e.optionalinfo
                    < self.epolls@.len()),
                None => true,
            }
    }

    /// The reference-count invariant: the stored count of every real
    /// descriptor equals the number of slots that hold it, and sentinels
    /// are never counted.
    pub open spec fn rc_wf(&self) -> bool {
        forall|realfd: u64|
            is_real_fd(realfd) ==> #[trigger] self.stored_count(realfd) == cages_refs(
                self.cages@,
                realfd,
            )
    }

    /// Every epoll entry's watch list has unique keys.
    pub open spec fn epolls_wf(&self) -> bool {
        forall|k: int|
            0 <= k < self.epolls@.len() ==> watched_wf((#[trigger] self.epolls@[k]).watched@)
    }

    /// The table invariant, established by [`refresh`] and preserved by
    /// every operation.
    pub open spec fn wf(&self) -> bool {
        &&& self.cages_wf()
        &&& counts_wf(self.realcounts@)
        &&& self.rc_wf()
        &&& self.entries_wf()
        &&& self.epolls_wf()
    }
}

// ---------------------------------------------------------------------------
// Finding a cage or a count entry, and pinning the model's choice.
// ---------------------------------------------------------------------------

/// With unique cage ids, index `i` is the index the model picks for its id.
pub proof fn lemma_cage_at(t: &FdTables, i: int)
    requires
        forall|a: int, b: int|
            0 <= a < b < t.cages@.len() ==> t.cages@[a].cageid != t.cages@[b].cageid,
        0 <= i < t.cages@.len(),
    ensures
        t.has_cage(t.cages@[i].cageid),
        t.cage_at(t.cages@[i].cageid) == i,
{
    let cageid = t.cages@[i].cageid;
    assert(t.has_cage(cageid));
    let j = t.cage_at(cageid);
    if j < i {
        assert(t.cages@[j].cageid != t.cages@[i].cageid);
    } else if j > i {
        assert(t.cages@[i].cageid != t.cages@[j].cageid);
    }
}

/// With unique keys, index `i` is the index the model picks for its key.
pub proof fn lemma_count_at(s: Seq<RealCount>, i: int)
    requires
        forall|a: int, b: int| 0 <= a < b < s.len() ==> s[a].realfd != s[b].realfd,
        0 <= i < s.len(),
    ensures
        seq_has_count(s, s[i].realfd),
        seq_count_at(s, s[i].realfd) == i,
        counts_map_of(s).contains_key(s[i].realfd),
        counts_map_of(s)[s[i].realfd] == s[i].count,
        stored_count_of(s, s[i].realfd) == s[i].count,
{
    let realfd = s[i].realfd;
    assert(seq_has_count(s, realfd));
    let j = seq_count_at(s, realfd);
    if j < i {
        assert(s[j].realfd != s[i].realfd);
    } else if j > i {
        assert(s[i].realfd != s[j].realfd);
    }
}

/// With unique keys, index `i` is the index the model picks for its key.
pub proof fn lemma_watch_at(w: Seq<(u64, epoll_event)>, i: int)
    requires
        watched_wf(w),
        0 <= i < w.len(),
    ensures
        seq_has_watch(w, w[i].0),
        seq_watch_at(w, w[i].0) == i,
        watched_map_of(w).contains_key(w[i].0),
        watched_map_of(w)[w[i].0] == w[i].1,
{
    let virtfd = w[i].0;
    assert(seq_has_watch(w, virtfd));
    let j = seq_watch_at(w, virtfd);
    if j < i {
        assert(w[j].0 != w[i].0);
    } else if j > i {
        assert(w[i].0 != w[j].0);
    }
}

/// The index of cage `cageid`, or `None` when the cage is not in the table.
pub(crate) fn find_cage_idx(t: &FdTables, cageid: u64) -> (res: Option<usize>)
    ensures
        match res {
            Some(i) => i < t.cages@.len() && t.cages@[i as int].cageid == cageid,
            None => !t.has_cage(cageid),
        },
{
    let n = t.cages.len();
    let mut i: usize = 0;
    while i < n
        invariant
            n == t.cages@.len(),
            i <= n,
            forall|j: int| 0 <= j < i ==> (#[trigger] t.cages@[j]).cageid != cageid,
        decreases n - i,
    {
        if t.cages[i].cageid == cageid {
            return Some(i);
        }
        i = i + 1;
    }
    None
}

/// The index of the count entry for `realfd`, or `None` when absent.
fn find_count_idx(counts: &Vec<RealCount>, realfd: u64) -> (res: Option<usize>)
    ensures
        match res {
            Some(i) => i < counts@.len() && counts@[i as int].realfd == realfd,
            None => !seq_has_count(counts@, realfd),
        },
{
    let n = counts.len();
    let mut i: usize = 0;
    while i < n
        invariant
            n == counts@.len(),
            i <= n,
            forall|j: int| 0 <= j < i ==> (#[trigger] counts@[j]).realfd != realfd,
        decreases n - i,
    {
        if counts[i].realfd == realfd {
            return Some(i);
        }
        i = i + 1;
    }
    None
}

// ---------------------------------------------------------------------------
// Creating tables and cages.
// ---------------------------------------------------------------------------

/// A slot array with every slot empty.
fn empty_slots() -> (v: Vec<Option<FDTableEntry>>)
    ensures
        v@.len() == FD_PER_PROCESS_MAX,
        forall|i: int| 0 <= i < v@.len() ==> (#[trigger] v@[i]) is None,
{
    let mut v: Vec<Option<FDTableEntry>> = Vec::new();
    let mut i: u64 = 0;
    while i < FD_PER_PROCESS_MAX
        invariant
            i <= FD_PER_PROCESS_MAX,
            v@.len() == i,
            forall|j: int| 0 <= j < v@.len() ==> (#[trigger] v@[j]) is None,
        decreases FD_PER_PROCESS_MAX - i,
    {
        v.push(None);
        i = i + 1;
    }
    v
}

/// Updating one slot shifts a reference count by the difference between the
/// outgoing and the incoming entry.
pub proof fn lemma_slots_refs_update(
    s: Seq<Option<FDTableEntry>>,
    v: int,
    e: Option<FDTableEntry>,
    realfd: u64,
)
    requires
        0 <= v < s.len(),
    ensures
        slots_refs(s.update(v, e), realfd) + entry_refs(s[v], realfd) == slots_refs(s, realfd)
            + entry_refs(e, realfd),
    decreases s.len(),
{
    let s2 = s.update(v, e);
    assert(s2.len() == s.len());
    if v == s.len() - 1 {
        assert(s2.drop_last() =~= s.drop_last());
        assert(s2.last() == e);
    } else {
        assert(s2.drop_last() =~= s.drop_last().update(v, e));
        assert(s2.last() == s.last());
        lemma_slots_refs_update(s.drop_last(), v, e, realfd);
    }
}

/// Replacing one cage shifts a reference count by the difference between
/// the outgoing and the incoming slot array.
pub proof fn lemma_cages_refs_update(cs: Seq<FdCage>, j: int, c: FdCage, realfd: u64)
    requires
        0 <= j < cs.len(),
    ensures
        cages_refs(cs.update(j, c), realfd) + slots_refs(cs[j].slots@, realfd) == cages_refs(
            cs,
            realfd,
        ) + slots_refs(c.slots@, realfd),
    decreases cs.len(),
{
    let cs2 = cs.update(j, c);
    assert(cs2.len() == cs.len());
    if j == cs.len() - 1 {
        assert(cs2.drop_last() =~= cs.drop_last());
        assert(cs2.last() == c);
    } else {
        assert(cs2.drop_last() =~= cs.drop_last().update(j, c));
        assert(cs2.last() == cs.last());
        lemma_cages_refs_update(cs.drop_last(), j, c, realfd);
    }
}

/// Removing one cage takes its references away.
pub proof fn lemma_cages_refs_remove(cs: Seq<FdCage>, j: int, realfd: u64)
    requires
        0 <= j < cs.len(),
    ensures
        cages_refs(cs.remove(j), realfd) + slots_refs(cs[j].slots@, realfd) == cages_refs(
            cs,
            realfd,
        ),
    decreases cs.len(),
{
    let cs2 = cs.remove(j);
    if j == cs.len() - 1 {
        assert(cs2 =~= cs.drop_last());
    } else {
        assert(cs2.drop_last() =~= cs.drop_last().remove(j));
        assert(cs2.last() == cs.last());
        lemma_cages_refs_remove(cs.drop_last(), j, realfd);
    }
}

/// A slot that holds `realfd` witnesses at least one reference.
pub proof fn lemma_slots_refs_lower(s: Seq<Option<FDTableEntry>>, v: int, realfd: u64)
    requires
        0 <= v < s.len(),
    ensures
        slots_refs(s, realfd) >= entry_refs(s[v], realfd),
    decreases s.len(),
{
    if v == s.len() - 1 {
        assert(s.last() == s[v]);
    } else {
        assert(s.drop_last()[v] == s[v]);
        lemma_slots_refs_lower(s.drop_last(), v, realfd);
    }
}

/// One cage's references are part of the total.
pub proof fn lemma_cages_refs_lower(cs: Seq<FdCage>, j: int, realfd: u64)
    requires
        0 <= j < cs.len(),
    ensures
        cages_refs(cs, realfd) >= slots_refs(cs[j].slots@, realfd),
    decreases cs.len(),
{
    if j == cs.len() - 1 {
        assert(cs.last() == cs[j]);
    } else {
        assert(cs.drop_last()[j] == cs[j]);
        lemma_cages_refs_lower(cs.drop_last(), j, realfd);
    }
}

/// An all-empty slot array contributes no references.
pub proof fn lemma_slots_refs_all_none(s: Seq<Option<FDTableEntry>>, realfd: u64)
    requires
        forall|i: int| 0 <= i < s.len() ==> (#[trigger] s[i]) is None,
    ensures
        slots_refs(s, realfd) == 0,
    decreases s.len(),
{
    if s.len() > 0 {
        lemma_slots_refs_all_none(s.drop_last(), realfd);
    }
}

/// A fresh table: empty but for the reserved testing cage, no counted
/// descriptors, no epoll entries.
pub fn refresh() -> (t: FdTables)
    ensures
        t.wf(),
        forall|cageid: u64| t.has_cage(cageid) <==> cageid == threei::TESTING_CAGEID,
        forall|virtualfd: u64|
            #[trigger] t.slot(threei::TESTING_CAGEID, virtualfd) is None,
        forall|realfd: u64| #[trigger] t.stored_count(realfd) == 0 && !t.has_count(realfd),
        t.epolls@.len() == 0,
{
    let cage = FdCage { cageid: threei::TESTING_CAGEID, slots: empty_slots() };
    let mut cages: Vec<FdCage> = Vec::new();
    cages.push(cage);
    let t = FdTables { cages, realcounts: Vec::new(), epolls: Vec::new() };
    proof {
        assert forall|realfd: u64| is_real_fd(realfd) implies #[trigger] t.stored_count(realfd)
            == cages_refs(t.cages@, realfd) by {
            lemma_slots_refs_all_none(t.cages@[0].slots@, realfd);
            assert(t.cages@.last() == t.cages@[0]);
            assert(t.cages@.drop_last().len() == 0);
            assert(cages_refs(t.cages@.drop_last(), realfd) == 0);
            assert(cages_refs(t.cages@, realfd) == 0);
            assert(!seq_has_count(t.realcounts@, realfd));
            assert(!counts_map_of(t.realcounts@).contains_key(realfd));
            assert(t.stored_count(realfd) == 0);
        }
        assert forall|realfd: u64| #[trigger] t.stored_count(realfd) == 0 && !t.has_count(
            realfd,
        ) by {
            assert(!seq_has_count(t.realcounts@, realfd));
        }
        assert forall|cageid: u64| t.has_cage(cageid) implies cageid
            == threei::TESTING_CAGEID by {}
        assert(t.cages@[0].cageid == threei::TESTING_CAGEID);
        assert(t.has_cage(threei::TESTING_CAGEID));
        lemma_cage_at(&t, 0);
    }
    t
}

/// Creates a new, empty cage.  The caller must not pass a cage that already
/// exists; the host treats that as a programming error.
pub fn init_empty_cage(t: &mut FdTables, cageid: u64)
    requires
        old(t).wf(),
        !old(t).has_cage(cageid),
    ensures
        final(t).wf(),
        final(t).has_cage(cageid),
        forall|c: u64| c != cageid ==> #[trigger] final(t).has_cage(c) == old(t).has_cage(c),
        forall|c: u64|
            c != cageid && old(t).has_cage(c) ==> #[trigger] final(t).slots_of(c) == old(t).slots_of(c),
        forall|virtualfd: u64| #[trigger] final(t).slot(cageid, virtualfd) is None,
        final(t).realcounts@ == old(t).realcounts@,
        final(t).epolls@ == old(t).epolls@,
{
    let ghost t0 = *t;
    let cage = FdCage { cageid, slots: empty_slots() };
    t.cages.push(cage);
    proof {
        let n = t0.cages@.len();
        assert forall|a: int, b: int|
            0 <= a < b < t.cages@.len() implies t.cages@[a].cageid != t.cages@[b].cageid by {
            if b == n {
                lemma_cage_at(&t0, a);
            }
        }
        assert forall|realfd: u64| is_real_fd(realfd) implies #[trigger] t.stored_count(realfd)
            == cages_refs(t.cages@, realfd) by {
            assert(t.cages@.drop_last() =~= t0.cages@);
            assert(t.cages@.last() == t.cages@[n as int]);
            lemma_slots_refs_all_none(t.cages@[n as int].slots@, realfd);
            assert(cages_refs(t.cages@, realfd) == cages_refs(t0.cages@, realfd) + slots_refs(
                t.cages@[n as int].slots@,
                realfd,
            ));
            assert(t0.stored_count(realfd) == cages_refs(t0.cages@, realfd));
            assert(t.realcounts@ == t0.realcounts@);
            assert(t.stored_count(realfd) == t0.stored_count(realfd));
        }
        assert forall|c: u64| c != cageid implies #[trigger] t.has_cage(c) == t0.has_cage(c) by {
            if t.has_cage(c) {
                let i = t.cage_at(c);
                assert(t.cages@[i].cageid == c);
                assert(0 <= i < n);
                assert(t0.has_cage(c));
            }
            if t0.has_cage(c) {
                let i = t0.cage_at(c);
                assert(t0.cages@[i].cageid == c);
                assert(t.cages@[i].cageid == c);
                assert(t.has_cage(c));
            }
        }
        assert forall|c: u64| c != cageid && t0.has_cage(c) implies #[trigger] t.slots_of(c)
            == t0.slots_of(c) by {
            let i = t0.cage_at(c);
            assert(t0.cages@[i].cageid == c);
            lemma_cage_at(t, i);
        }
        lemma_cage_at(t, n as int);
        assert(t.slots_of(cageid) == t.cages@[n as int].slots@);
    }
}

// ---------------------------------------------------------------------------
// Reading slots.
// ---------------------------------------------------------------------------

/// Returns the `realfd` stored at (cage, virtual fd), which may be a
/// sentinel, or `EBADFD` when the slot is empty.
pub fn translate_virtual_fd(t: &FdTables, cageid: u64, virtualfd: u64) -> (res: Result<
    u64,
    threei::RetVal,
>)
    requires
        t.wf(),
        t.has_cage(cageid),
    ensures
        match res {
            Ok(realfd) => t.slot(cageid, virtualfd) matches Some(e) && realfd == e.realfd,
            Err(e) => e == threei::EBADFD && t.slot(cageid, virtualfd) is None,
        },
{
    let idx_opt = find_cage_idx(t, cageid);
    let idx = idx_opt.unwrap();
    proof {
        lemma_cage_at(t, idx as int);
    }
    if virtualfd >= FD_PER_PROCESS_MAX {
        return Err(threei::EBADFD);
    }
    match t.cages[idx].slots[virtualfd as usize] {
        Some(entry) => Ok(entry.realfd),
        None => Err(threei::EBADFD),
    }
}

/// The reference-count law: in a well-formed table the stored count of
/// every real descriptor equals the number of (cage, slot) pairs whose
/// record holds it, and a count entry exists exactly while that number is
/// positive.  Sentinels are never counted.
pub proof fn lemma_refcount_matches_slots(t: &FdTables, realfd: u64)
    requires
        t.wf(),
    ensures
        is_real_fd(realfd) ==> t.stored_count(realfd) == t.nrefs(realfd),
        is_real_fd(realfd) ==> (t.has_count(realfd) <==> t.nrefs(realfd) > 0),
        !is_real_fd(realfd) ==> !t.has_count(realfd),
{
    if is_real_fd(realfd) {
        assert(t.stored_count(realfd) == cages_refs(t.cages@, realfd));
        if t.has_count(realfd) {
            let i = seq_count_at(t.realcounts@, realfd);
            assert(0 <= i < t.realcounts@.len() && t.realcounts@[i].realfd == realfd);
            lemma_count_at(t.realcounts@, i);
            assert(t.realcounts@[i].count > 0);
        }
    } else {
        if t.has_count(realfd) {
            let i = seq_count_at(t.realcounts@, realfd);
            assert(0 <= i < t.realcounts@.len() && t.realcounts@[i].realfd == realfd);
            assert(is_real_fd(t.realcounts@[i].realfd));
        }
    }
}

// ---------------------------------------------------------------------------
// Changing the stored counts.
// ---------------------------------------------------------------------------

/// Overwriting a count entry in place changes that key alone.
pub proof fn lemma_counts_update(s: Seq<RealCount>, i: int, c: RealCount)
    requires
        forall|a: int, b: int| 0 <= a < b < s.len() ==> s[a].realfd != s[b].realfd,
        0 <= i < s.len(),
        c.realfd == s[i].realfd,
    ensures
        forall|a: int, b: int|
            0 <= a < b < s.update(i, c).len() ==> s.update(i, c)[a].realfd != s.update(
                i,
                c,
            )[b].realfd,
        seq_has_count(s.update(i, c), c.realfd),
        stored_count_of(s.update(i, c), c.realfd) == c.count,
        forall|r: u64|
            r != c.realfd ==> #[trigger] stored_count_of(s.update(i, c), r) == stored_count_of(
                s,
                r,
            ),
        forall|r: u64|
            r != c.realfd ==> #[trigger] seq_has_count(s.update(i, c), r) == seq_has_count(s, r),
{
    let s2 = s.update(i, c);
    lemma_count_at(s2, i);
    assert forall|r: u64|
        r != c.realfd implies #[trigger] stored_count_of(s2, r) == stored_count_of(s, r) by {
        if seq_has_count(s, r) {
            let k = seq_count_at(s, r);
            lemma_count_at(s, k);
            assert(s2[k].realfd == r);
            lemma_count_at(s2, k);
        }
        if seq_has_count(s2, r) {
            let k = seq_count_at(s2, r);
            lemma_count_at(s2, k);
            assert(k != i);
            assert(s[k].realfd == r);
            lemma_count_at(s, k);
        }
        assert(seq_has_count(s2, r) == seq_has_count(s, r));
    }
    assert forall|r: u64|
        r != c.realfd implies #[trigger] seq_has_count(s2, r) == seq_has_count(s, r) by {
        if seq_has_count(s, r) {
            let k = seq_count_at(s, r);
            lemma_count_at(s, k);
            assert(s2[k].realfd == r);
            lemma_count_at(s2, k);
        }
        if seq_has_count(s2, r) {
            let k = seq_count_at(s2, r);
            lemma_count_at(s2, k);
            assert(k != i);
            assert(s[k].realfd == r);
            lemma_count_at(s, k);
        }
        assert(seq_has_count(s2, r) == seq_has_count(s, r));
    }
}

/// Appending a fresh count entry changes that key alone.
pub proof fn lemma_counts_push(s: Seq<RealCount>, c: RealCount)
    requires
        forall|a: int, b: int| 0 <= a < b < s.len() ==> s[a].realfd != s[b].realfd,
        !seq_has_count(s, c.realfd),
    ensures
        forall|a: int, b: int|
            0 <= a < b < s.push(c).len() ==> s.push(c)[a].realfd != s.push(c)[b].realfd,
        seq_has_count(s.push(c), c.realfd),
        stored_count_of(s.push(c), c.realfd) == c.count,
        forall|r: u64|
            r != c.realfd ==> #[trigger] stored_count_of(s.push(c), r) == stored_count_of(s, r),
        forall|r: u64|
            r != c.realfd ==> #[trigger] seq_has_count(s.push(c), r) == seq_has_count(s, r),
{
    let s2 = s.push(c);
    let n = s.len() as int;
    assert forall|a: int, b: int|
        0 <= a < b < s2.len() implies s2[a].realfd != s2[b].realfd by {
        if b == n {
            assert(s2[a].realfd == s[a].realfd);
            if s2[a].realfd == c.realfd {
                assert(seq_has_count(s, c.realfd));
            }
        }
    }
    lemma_count_at(s2, n);
    assert forall|r: u64|
        r != c.realfd implies #[trigger] stored_count_of(s2, r) == stored_count_of(s, r) by {
        if seq_has_count(s, r) {
            let k = seq_count_at(s, r);
            lemma_count_at(s, k);
            assert(s2[k].realfd == r);
            lemma_count_at(s2, k);
        }
        if seq_has_count(s2, r) {
            let k = seq_count_at(s2, r);
            lemma_count_at(s2, k);
            assert(k != n);
            assert(s[k].realfd == r);
            lemma_count_at(s, k);
        }
        assert(seq_has_count(s2, r) == seq_has_count(s, r));
    }
    assert forall|r: u64|
        r != c.realfd implies #[trigger] seq_has_count(s2, r) == seq_has_count(s, r) by {
        if seq_has_count(s, r) {
            let k = seq_count_at(s, r);
            lemma_count_at(s, k);
            assert(s2[k].realfd == r);
            lemma_count_at(s2, k);
        }
        if seq_has_count(s2, r) {
            let k = seq_count_at(s2, r);
            lemma_count_at(s2, k);
            assert(k != n);
            assert(s[k].realfd == r);
            lemma_count_at(s, k);
        }
        assert(seq_has_count(s2, r) == seq_has_count(s, r));
    }
}

/// Removing a count entry erases that key alone.
pub proof fn lemma_counts_remove(s: Seq<RealCount>, i: int)
    requires
        forall|a: int, b: int| 0 <= a < b < s.len() ==> s[a].realfd != s[b].realfd,
        0 <= i < s.len(),
    ensures
        forall|a: int, b: int|
            0 <= a < b < s.remove(i).len() ==> s.remove(i)[a].realfd != s.remove(i)[b].realfd,
        !seq_has_count(s.remove(i), s[i].realfd),
        stored_count_of(s.remove(i), s[i].realfd) == 0,
        forall|r: u64|
            r != s[i].realfd ==> #[trigger] stored_count_of(s.remove(i), r) == stored_count_of(
                s,
                r,
            ),
        forall|r: u64|
            r != s[i].realfd ==> #[trigger] seq_has_count(s.remove(i), r) == seq_has_count(s, r),
{
    let s2 = s.remove(i);
    assert forall|a: int, b: int|
        0 <= a < b < s2.len() implies s2[a].realfd != s2[b].realfd by {
        let a0 = if a < i { a } else { a + 1 };
        let b0 = if b < i { b } else { b + 1 };
        assert(s2[a] == s[a0]);
        assert(s2[b] == s[b0]);
    }
    assert forall|k: int| 0 <= k < s2.len() implies s2[k].realfd != s[i].realfd by {
        let k0 = if k < i { k } else { k + 1 };
        assert(s2[k] == s[k0]);
    }
    assert(!seq_has_count(s2, s[i].realfd));
    assert forall|r: u64|
        r != s[i].realfd implies #[trigger] stored_count_of(s2, r) == stored_count_of(s, r) by {
        if seq_has_count(s, r) {
            let k = seq_count_at(s, r);
            lemma_count_at(s, k);
            let k2 = if k < i { k } else { k - 1 };
            assert(s2[k2] == s[k]);
            lemma_count_at(s2, k2);
        }
        if seq_has_count(s2, r) {
            let k = seq_count_at(s2, r);
            lemma_count_at(s2, k);
            let k0 = if k < i { k } else { k + 1 };
            assert(s2[k] == s[k0]);
            lemma_count_at(s, k0);
        }
        assert(seq_has_count(s2, r) == seq_has_count(s, r));
    }
    assert forall|r: u64|
        r != s[i].realfd implies #[trigger] seq_has_count(s2, r) == seq_has_count(s, r) by {
        if seq_has_count(s, r) {
            let k = seq_count_at(s, r);
            lemma_count_at(s, k);
            let k2 = if k < i { k } else { k - 1 };
            assert(s2[k2] == s[k]);
            lemma_count_at(s2, k2);
        }
        if seq_has_count(s2, r) {
            let k = seq_count_at(s2, r);
            lemma_count_at(s2, k);
            let k0 = if k < i { k } else { k + 1 };
            assert(s2[k] == s[k0]);
            lemma_count_at(s, k0);
        }
        assert(seq_has_count(s2, r) == seq_has_count(s, r));
    }
}

/// Adds one reference to a real descriptor's stored count, creating the
/// entry when this is the first reference.
fn _increment_realfd(counts: &mut Vec<RealCount>, realfd: u64) -> (newcount: u64)
    requires
        counts_wf(old(counts)@),
        is_real_fd(realfd),
        stored_count_of(old(counts)@, realfd) < u64::MAX,
    ensures
        counts_wf(final(counts)@),
        seq_has_count(final(counts)@, realfd),
        stored_count_of(final(counts)@, realfd) == stored_count_of(old(counts)@, realfd) + 1,
        newcount as nat == stored_count_of(final(counts)@, realfd),
        forall|r: u64|
            r != realfd ==> #[trigger] stored_count_of(final(counts)@, r) == stored_count_of(
                old(counts)@,
                r,
            ),
        forall|r: u64|
            r != realfd ==> #[trigger] seq_has_count(final(counts)@, r) == seq_has_count(
                old(counts)@,
                r,
            ),
{
    let ghost s0 = counts@;
    match find_count_idx(counts, realfd) {
        Some(i) => {
            proof {
                lemma_count_at(s0, i as int);
            }
            let c = counts[i].count;
            counts[i] = RealCount { realfd, count: c + 1 };
            proof {
                lemma_counts_update(s0, i as int, RealCount { realfd, count: (c + 1) as u64 });
                assert(counts@ == s0.update(i as int, RealCount { realfd, count: (c + 1) as u64 }));
                assert forall|r: u64| r != realfd implies #[trigger] stored_count_of(counts@, r)
                    == stored_count_of(s0, r) && seq_has_count(counts@, r) == seq_has_count(
                    s0,
                    r,
                ) by {
                    assert(stored_count_of(s0.update(i as int, RealCount { realfd, count: (c + 1) as u64 }), r) == stored_count_of(s0, r));
                    assert(seq_has_count(s0.update(i as int, RealCount { realfd, count: (c + 1) as u64 }), r) == seq_has_count(s0, r));
                }
            }
            c + 1
        },
        None => {
            proof {
                assert(stored_count_of(s0, realfd) == 0);
            }
            counts.push(RealCount { realfd, count: 1 });
            proof {
                lemma_counts_push(s0, RealCount { realfd, count: 1u64 });
                assert(counts@ == s0.push(RealCount { realfd, count: 1u64 }));
                assert forall|r: u64| r != realfd implies #[trigger] stored_count_of(counts@, r)
                    == stored_count_of(s0, r) && seq_has_count(counts@, r) == seq_has_count(
                    s0,
                    r,
                ) by {
                    assert(stored_count_of(s0.push(RealCount { realfd, count: 1u64 }), r) == stored_count_of(s0, r));
                    assert(seq_has_count(s0.push(RealCount { realfd, count: 1u64 }), r) == seq_has_count(s0, r));
                }
            }
            1
        },
    }
}

/// Takes one reference from a real descriptor's stored count, removing the
/// entry when this was the last reference, and reports the close call the
/// host now owes: `Intermediate` while references remain, else `Last`.
fn _decrement_realfd(counts: &mut Vec<RealCount>, realfd: u64) -> (call: CloseCall)
    requires
        counts_wf(old(counts)@),
        is_real_fd(realfd),
        stored_count_of(old(counts)@, realfd) >= 1,
    ensures
        counts_wf(final(counts)@),
        stored_count_of(final(counts)@, realfd) == stored_count_of(old(counts)@, realfd) - 1,
        seq_has_count(final(counts)@, realfd) == (stored_count_of(old(counts)@, realfd) > 1),
        forall|r: u64|
            r != realfd ==> #[trigger] stored_count_of(final(counts)@, r) == stored_count_of(
                old(counts)@,
                r,
            ),
        forall|r: u64|
            r != realfd ==> #[trigger] seq_has_count(final(counts)@, r) == seq_has_count(
                old(counts)@,
                r,
            ),
        call == if stored_count_of(old(counts)@, realfd) > 1 {
            CloseCall::Intermediate(realfd)
        } else {
            CloseCall::Last(realfd)
        },
{
    let ghost s0 = counts@;
    let idx_opt = find_count_idx(counts, realfd);
    let i = idx_opt.unwrap();
    proof {
        lemma_count_at(s0, i as int);
    }
    let c = counts[i].count;
    if c > 1 {
        counts[i] = RealCount { realfd, count: c - 1 };
        proof {
            lemma_counts_update(s0, i as int, RealCount { realfd, count: (c - 1) as u64 });
        }
        CloseCall::Intermediate(realfd)
    } else {
        counts.remove(i);
        proof {
            lemma_counts_remove(s0, i as int);
        }
        CloseCall::Last(realfd)
    }
}

// ---------------------------------------------------------------------------
// Writing one slot.
// ---------------------------------------------------------------------------

/// An entry that may be stored in a slot of this table: never `INVALID_FD`,
/// and an `EPOLLFD` entry must point into the epoll side table.
pub open spec fn storable(e: Option<FDTableEntry>, n_epolls: nat) -> bool {
    match e {
        Some(en) => en.realfd != INVALID_FD && (en.realfd == EPOLLFD ==> en.optionalinfo
            < n_epolls),
        None => true,
    }
}

/// Writes one slot of one cage and accounts for the reference change; the
/// stored counts are left to the caller.
fn set_slot(t: &mut FdTables, cage_idx: usize, virtualfd: u64, e: Option<FDTableEntry>)
    requires
        old(t).cages_wf(),
        old(t).entries_wf(),
        cage_idx < old(t).cages@.len(),
        virtualfd < FD_PER_PROCESS_MAX,
        storable(e, old(t).epolls@.len()),
    ensures
        final(t).cages_wf(),
        final(t).entries_wf(),
        final(t).realcounts@ == old(t).realcounts@,
        final(t).epolls@ == old(t).epolls@,
        final(t).cages@.len() == old(t).cages@.len(),
        forall|i: int|
            0 <= i < old(t).cages@.len() && i != cage_idx ==> #[trigger] final(t).cages@[i]
                == old(t).cages@[i],
        final(t).cages@[cage_idx as int].cageid == old(t).cages@[cage_idx as int].cageid,
        final(t).cages@[cage_idx as int].slots@ == old(t).cages@[cage_idx as int].slots@.update(
            virtualfd as int,
            e,
        ),
        forall|c: u64| #[trigger] final(t).has_cage(c) == old(t).has_cage(c),
        forall|c: u64|
            c != old(t).cages@[cage_idx as int].cageid && old(t).has_cage(c)
                ==> #[trigger] final(t).slots_of(c) == old(t).slots_of(c),
        final(t).slots_of(old(t).cages@[cage_idx as int].cageid) == old(t).cages@[
            cage_idx as int
        ].slots@.update(virtualfd as int, e),
        forall|r: u64|
            #[trigger] cages_refs(final(t).cages@, r) + entry_refs(
                old(t).cages@[cage_idx as int].slots@[virtualfd as int],
                r,
            ) == cages_refs(old(t).cages@, r) + entry_refs(e, r),
{
    let ghost t0 = *t;
    let cage = &mut t.cages[cage_idx];
    cage.slots[virtualfd as usize] = e;
    proof {
        let j = cage_idx as int;
        let v = virtualfd as int;
        let cageid = t0.cages@[j].cageid;
        assert(t.cages@[j].slots@ =~= t0.cages@[j].slots@.update(v, e));
        assert(t.cages@ =~= t0.cages@.update(
            j,
            FdCage { cageid, slots: t.cages@[j].slots },
        ));
        assert forall|c: u64| #[trigger] t.has_cage(c) == t0.has_cage(c) by {
            if t.has_cage(c) {
                let i = t.cage_at(c);
                assert(t0.cages@[i].cageid == c);
                assert(t0.has_cage(c));
            }
            if t0.has_cage(c) {
                let i = t0.cage_at(c);
                assert(t.cages@[i].cageid == c);
                assert(t.has_cage(c));
            }
        }
        assert forall|c: u64|
            c != cageid && t0.has_cage(c) implies #[trigger] t.slots_of(c) == t0.slots_of(c) by {
            let i = t0.cage_at(c);
            assert(t0.cages@[i].cageid == c);
            assert(i != j);
            lemma_cage_at(t, i);
        }
        lemma_cage_at(t, j);
        assert forall|r: u64|
            #[trigger] cages_refs(t.cages@, r) + entry_refs(t0.cages@[j].slots@[v], r)
                == cages_refs(t0.cages@, r) + entry_refs(e, r) by {
            lemma_cages_refs_update(t0.cages@, j, t.cages@[j], r);
            lemma_slots_refs_update(t0.cages@[j].slots@, v, e, r);
        }
        assert forall|i: int, vv: int|
            0 <= i < t.cages@.len() && 0 <= vv < t.cages@[i].slots@.len() implies match (
        #[trigger] t.cages@[i].slots@[vv]) {
            Some(en) => en.realfd != INVALID_FD && (en.realfd == EPOLLFD ==> en.optionalinfo
                < t.epolls@.len()),
            None => true,
        } by {
            if i != j || vv != v {
                assert(t.cages@[i].slots@[vv] == t0.cages@[i].slots@[vv]);
            }
        }
    }
}

// ---------------------------------------------------------------------------
// Slot mutators.
// ---------------------------------------------------------------------------

/// Sets the close-on-exec flag of an occupied slot; `EBADFD` when empty.
pub fn set_cloexec(t: &mut FdTables, cageid: u64, virtualfd: u64, is_cloexec: bool) -> (res: Result<
    (),
    threei::RetVal,
>)
    requires
        old(t).wf(),
        old(t).has_cage(cageid),
    ensures
        final(t).wf(),
        final(t).realcounts@ == old(t).realcounts@,
        final(t).epolls@ == old(t).epolls@,
        forall|c: u64| #[trigger] final(t).has_cage(c) == old(t).has_cage(c),
        forall|c: u64|
            c != cageid && old(t).has_cage(c) ==> #[trigger] final(t).slots_of(c) == old(t).slots_of(c),
        match res {
            Ok(()) => old(t).slot(cageid, virtualfd) matches Some(e) && final(t).slots_of(cageid)
                == old(t).slots_of(cageid).update(
                virtualfd as int,
                Some(
                    FDTableEntry {
                        realfd: e.realfd,
                        should_cloexec: is_cloexec,
                        optionalinfo: e.optionalinfo,
                    },
                ),
            ),
            Err(err) => err == threei::EBADFD && old(t).slot(cageid, virtualfd) is None && final(t).slots_of(cageid) == old(t).slots_of(cageid),
        },
{
    let ghost t0 = *t;
    let idx_opt = find_cage_idx(t, cageid);
    let idx = idx_opt.unwrap();
    proof {
        lemma_cage_at(t, idx as int);
    }
    if virtualfd >= FD_PER_PROCESS_MAX {
        return Err(threei::EBADFD);
    }
    match t.cages[idx].slots[virtualfd as usize] {
        Some(entry) => {
            let newentry = FDTableEntry {
                realfd: entry.realfd,
                should_cloexec: is_cloexec,
                optionalinfo: entry.optionalinfo,
            };
            set_slot(t, idx, virtualfd, Some(newentry));
            proof {
                assert forall|r: u64| is_real_fd(r) implies #[trigger] t.stored_count(r)
                    == cages_refs(t.cages@, r) by {
                    assert(cages_refs(t.cages@, r) + entry_refs(Some(entry), r) == cages_refs(
                        t0.cages@,
                        r,
                    ) + entry_refs(Some(newentry), r));
                    assert(t0.stored_count(r) == cages_refs(t0.cages@, r));
                    assert(t.realcounts@ == t0.realcounts@);
                    assert(t.stored_count(r) == t0.stored_count(r));
                }
            }
            Ok(())
        },
        None => Err(threei::EBADFD),
    }
}

/// Sets the `optionalinfo` of an occupied slot; `EBADFD` when empty.
pub fn set_optionalinfo(t: &mut FdTables, cageid: u64, virtualfd: u64, optionalinfo: u64) -> (res:
    Result<(), threei::RetVal>)
    requires
        old(t).wf(),
        old(t).has_cage(cageid),
        old(t).slot(cageid, virtualfd) matches Some(e) && e.realfd == EPOLLFD ==> optionalinfo
            < old(t).epolls@.len(),
    ensures
        final(t).wf(),
        final(t).realcounts@ == old(t).realcounts@,
        final(t).epolls@ == old(t).epolls@,
        forall|c: u64| #[trigger] final(t).has_cage(c) == old(t).has_cage(c),
        forall|c: u64|
            c != cageid && old(t).has_cage(c) ==> #[trigger] final(t).slots_of(c) == old(t).slots_of(c),
        match res {
            Ok(()) => old(t).slot(cageid, virtualfd) matches Some(e) && final(t).slots_of(cageid)
                == old(t).slots_of(cageid).update(
                virtualfd as int,
                Some(
                    FDTableEntry {
                        realfd: e.realfd,
                        should_cloexec: e.should_cloexec,
                        optionalinfo,
                    },
                ),
            ),
            Err(err) => err == threei::EBADFD && old(t).slot(cageid, virtualfd) is None && final(t).slots_of(cageid) == old(t).slots_of(cageid),
        },
{
    let ghost t0 = *t;
    let idx_opt = find_cage_idx(t, cageid);
    let idx = idx_opt.unwrap();
    proof {
        lemma_cage_at(t, idx as int);
    }
    if virtualfd >= FD_PER_PROCESS_MAX {
        return Err(threei::EBADFD);
    }
    match t.cages[idx].slots[virtualfd as usize] {
        Some(entry) => {
            let newentry = FDTableEntry {
                realfd: entry.realfd,
                should_cloexec: entry.should_cloexec,
                optionalinfo,
            };
            set_slot(t, idx, virtualfd, Some(newentry));
            proof {
                assert forall|r: u64| is_real_fd(r) implies #[trigger] t.stored_count(r)
                    == cages_refs(t.cages@, r) by {
                    assert(cages_refs(t.cages@, r) + entry_refs(Some(entry), r) == cages_refs(
                        t0.cages@,
                        r,
                    ) + entry_refs(Some(newentry), r));
                    assert(t0.stored_count(r) == cages_refs(t0.cages@, r));
                    assert(t.realcounts@ == t0.realcounts@);
                    assert(t.stored_count(r) == t0.stored_count(r));
                }
            }
            Ok(())
        },
        None => Err(threei::EBADFD),
    }
}

// ---------------------------------------------------------------------------
// Allocation.
// ---------------------------------------------------------------------------

/// Allocates the lowest empty slot of the cage (first fit from zero), fills
/// it with the given record, and counts the new reference when `realfd` is
/// real.  Fails with `EMFILE`, leaving the table unchanged, exactly when
/// every slot is occupied.
pub fn get_unused_virtual_fd(
    t: &mut FdTables,
    cageid: u64,
    realfd: u64,
    should_cloexec: bool,
    optionalinfo: u64,
) -> (res: Result<u64, threei::RetVal>)
    requires
        old(t).wf(),
        old(t).has_cage(cageid),
        realfd != INVALID_FD,
        realfd == EPOLLFD ==> optionalinfo < old(t).epolls@.len(),
        is_real_fd(realfd) ==> old(t).stored_count(realfd) < u64::MAX,
    ensures
        final(t).wf(),
        final(t).epolls@ == old(t).epolls@,
        forall|c: u64| #[trigger] final(t).has_cage(c) == old(t).has_cage(c),
        forall|c: u64|
            c != cageid && old(t).has_cage(c) ==> #[trigger] final(t).slots_of(c) == old(t).slots_of(c),
        forall|r: u64|
            r != realfd ==> #[trigger] final(t).stored_count(r) == old(t).stored_count(r),
        forall|r: u64| r != realfd ==> #[trigger] final(t).has_count(r) == old(t).has_count(r),
        match res {
            Ok(virtualfd) => {
                &&& virtualfd < FD_PER_PROCESS_MAX
                &&& old(t).slot(cageid, virtualfd) is None
                &&& forall|w: u64| w < virtualfd ==> #[trigger] old(t).slot(cageid, w) is Some
                &&& final(t).slots_of(cageid) == old(t).slots_of(cageid).update(
                    virtualfd as int,
                    Some(FDTableEntry { realfd, should_cloexec, optionalinfo }),
                )
                &&& is_real_fd(realfd) ==> final(t).stored_count(realfd) == old(t).stored_count(
                    realfd,
                ) + 1
                &&& !is_real_fd(realfd) ==> final(t).realcounts@ == old(t).realcounts@
            },
            Err(e) => {
                &&& e == threei::EMFILE
                &&& forall|w: u64|
                    w < FD_PER_PROCESS_MAX ==> #[trigger] old(t).slot(cageid, w) is Some
                &&& *final(t) == *old(t)
            },
        },
{
    let ghost t0 = *t;
    let idx_opt = find_cage_idx(t, cageid);
    let idx = idx_opt.unwrap();
    proof {
        lemma_cage_at(t, idx as int);
    }
    let myentry = FDTableEntry { realfd, should_cloexec, optionalinfo };
    let mut fdcandidate: u64 = 0;
    while fdcandidate < FD_PER_PROCESS_MAX
        invariant
            t0 == *old(t),
            *t == t0,
            t0.wf(),
            idx < t0.cages@.len(),
            t0.cages@[idx as int].cageid == cageid,
            t0.cage_at(cageid) == idx,
            fdcandidate <= FD_PER_PROCESS_MAX,
            forall|w: u64| w < fdcandidate ==> #[trigger] t0.slot(cageid, w) is Some,
            myentry == (FDTableEntry { realfd, should_cloexec, optionalinfo }),
            realfd != INVALID_FD,
            realfd == EPOLLFD ==> optionalinfo < t0.epolls@.len(),
            is_real_fd(realfd) ==> t0.stored_count(realfd) < u64::MAX,
        decreases FD_PER_PROCESS_MAX - fdcandidate,
    {
        if t.cages[idx].slots[fdcandidate as usize].is_none() {
            if realfd != NO_REAL_FD && realfd != EPOLLFD {
                let _ = _increment_realfd(&mut t.realcounts, realfd);
            }
            proof {
                assert(t.cages_wf() && t.entries_wf());
            }
            set_slot(t, idx, fdcandidate, Some(myentry));
            proof {
                assert forall|r: u64| is_real_fd(r) implies #[trigger] t.stored_count(r)
                    == cages_refs(t.cages@, r) by {
                    assert(cages_refs(t.cages@, r) + entry_refs(None, r) == cages_refs(
                        t0.cages@,
                        r,
                    ) + entry_refs(Some(myentry), r));
                    assert(t0.stored_count(r) == cages_refs(t0.cages@, r));
                    if r == realfd {
                        assert(entry_refs(Some(myentry), r) == 1);
                        assert(stored_count_of(t.realcounts@, r) == stored_count_of(
                            t0.realcounts@,
                            r,
                        ) + 1);
                    } else {
                        assert(entry_refs(Some(myentry), r) == 0);
                        assert(stored_count_of(t.realcounts@, r) == stored_count_of(
                            t0.realcounts@,
                            r,
                        ));
                    }
                }
            }
            return Ok(fdcandidate);
        }
        fdcandidate = fdcandidate + 1;
    }
    Err(threei::EMFILE)
}

/// The stored counts changed by counting one new reference to `realfd` and
/// nothing else; a sentinel `realfd` is not counted, so nothing changed.
pub open spec fn counts_inc_only(pre: Seq<RealCount>, post: Seq<RealCount>, realfd: u64) -> bool {
    if is_real_fd(realfd) {
        &&& stored_count_of(post, realfd) == stored_count_of(pre, realfd) + 1
        &&& seq_has_count(post, realfd)
        &&& forall|r: u64|
            r != realfd ==> #[trigger] stored_count_of(post, r) == stored_count_of(pre, r)
        &&& forall|r: u64| r != realfd ==> #[trigger] seq_has_count(post, r) == seq_has_count(pre, r)
    } else {
        post == pre
    }
}

// ---------------------------------------------------------------------------
// Closing one slot.
// ---------------------------------------------------------------------------

/// Clears one slot.  An unreal occupant owes the `unreal` handler its
/// `optionalinfo`; a real occupant loses one reference and owes
/// `intermediate` or `last` by whether references remain; clearing an epoll
/// aggregator owes nothing (its side-table entry stays, as entries are
/// never reused).  Fails with `EBADFD`, leaving the table unchanged, when
/// the slot is empty.
pub fn close_virtualfd(t: &mut FdTables, cageid: u64, virtfd: u64) -> (res: Result<
    Option<CloseCall>,
    threei::RetVal,
>)
    requires
        old(t).wf(),
        old(t).has_cage(cageid),
    ensures
        final(t).wf(),
        final(t).epolls@ == old(t).epolls@,
        forall|c: u64| #[trigger] final(t).has_cage(c) == old(t).has_cage(c),
        forall|c: u64|
            c != cageid && old(t).has_cage(c) ==> #[trigger] final(t).slots_of(c) == old(t).slots_of(c),
        match res {
            Ok(call) => match old(t).slot(cageid, virtfd) {
                Some(e) => {
                    &&& virtfd < FD_PER_PROCESS_MAX
                    &&& final(t).slots_of(cageid) == old(t).slots_of(cageid).update(
                        virtfd as int,
                        None,
                    )
                    &&& if e.realfd == NO_REAL_FD {
                        &&& call == Some(CloseCall::Unreal(e.optionalinfo))
                        &&& final(t).realcounts@ == old(t).realcounts@
                    } else if e.realfd == EPOLLFD {
                        &&& call is None
                        &&& final(t).realcounts@ == old(t).realcounts@
                    } else {
                        &&& old(t).stored_count(e.realfd) >= 1
                        &&& final(t).stored_count(e.realfd) == old(t).stored_count(e.realfd) - 1
                        &&& final(t).has_count(e.realfd) == (old(t).stored_count(e.realfd) > 1)
                        &&& (forall|r: u64|
                            r != e.realfd ==> #[trigger] final(t).stored_count(r) == old(t).stored_count(r))
                        &&& (forall|r: u64|
                            r != e.realfd ==> #[trigger] final(t).has_count(r) == old(t).has_count(r))
                        &&& call == Some(
                            if old(t).stored_count(e.realfd) > 1 {
                                CloseCall::Intermediate(e.realfd)
                            } else {
                                CloseCall::Last(e.realfd)
                            },
                        )
                    }
                },
                None => false,
            },
            Err(err) => err == threei::EBADFD && old(t).slot(cageid, virtfd) is None && *final(t)
                == *old(t),
        },
{
    let ghost t0 = *t;
    let idx_opt = find_cage_idx(t, cageid);
    let idx = idx_opt.unwrap();
    proof {
        lemma_cage_at(t, idx as int);
    }
    if virtfd >= FD_PER_PROCESS_MAX {
        return Err(threei::EBADFD);
    }
    match t.cages[idx].slots[virtfd as usize] {
        None => Err(threei::EBADFD),
        Some(entry) => {
            let call: Option<CloseCall> = if entry.realfd == NO_REAL_FD {
                Some(CloseCall::Unreal(entry.optionalinfo))
            } else if entry.realfd == EPOLLFD {
                None
            } else {
                proof {
                    lemma_slots_refs_lower(t0.cages@[idx as int].slots@, virtfd as int, entry.realfd);
                    lemma_cages_refs_lower(t0.cages@, idx as int, entry.realfd);
                    assert(t0.stored_count(entry.realfd) == cages_refs(t0.cages@, entry.realfd));
                }
                Some(_decrement_realfd(&mut t.realcounts, entry.realfd))
            };
            set_slot(t, idx, virtfd, None);
            proof {
                assert forall|r: u64| is_real_fd(r) implies #[trigger] t.stored_count(r)
                    == cages_refs(t.cages@, r) by {
                    assert(cages_refs(t.cages@, r) + entry_refs(Some(entry), r) == cages_refs(
                        t0.cages@,
                        r,
                    ) + entry_refs(None, r));
                    assert(t0.stored_count(r) == cages_refs(t0.cages@, r));
                    if is_real_fd(entry.realfd) && r == entry.realfd {
                        assert(entry_refs(Some(entry), r) == 1);
                        assert(stored_count_of(t.realcounts@, r) == stored_count_of(
                            t0.realcounts@,
                            r,
                        ) - 1);
                    } else {
                        assert(entry_refs(Some(entry), r) == 0);
                        assert(stored_count_of(t.realcounts@, r) == stored_count_of(
                            t0.realcounts@,
                            r,
                        ));
                    }
                }
            }
            Ok(call)
        },
    }
}

/// Places a record at a caller-chosen slot, as `dup2` does: the new
/// reference is counted before the displaced occupant's is dropped, so
/// replacing an occupant that holds the same real descriptor owes the
/// `intermediate` handler, never `last`.  A displaced unreal occupant owes
/// `unreal` its `optionalinfo`.  Fails with `EBADF`, leaving the table
/// unchanged, when the requested slot number is out of range.
pub fn get_specific_virtual_fd(
    t: &mut FdTables,
    cageid: u64,
    requested_virtualfd: u64,
    realfd: u64,
    should_cloexec: bool,
    optionalinfo: u64,
) -> (res: Result<Option<CloseCall>, threei::RetVal>)
    requires
        old(t).wf(),
        old(t).has_cage(cageid),
        realfd != INVALID_FD,
        realfd == EPOLLFD ==> optionalinfo < old(t).epolls@.len(),
        is_real_fd(realfd) ==> old(t).stored_count(realfd) < u64::MAX,
    ensures
        final(t).wf(),
        final(t).epolls@ == old(t).epolls@,
        forall|c: u64| #[trigger] final(t).has_cage(c) == old(t).has_cage(c),
        forall|c: u64|
            c != cageid && old(t).has_cage(c) ==> #[trigger] final(t).slots_of(c) == old(t).slots_of(c),
        match res {
            Ok(call) => {
                &&& requested_virtualfd < FD_PER_PROCESS_MAX
                &&& final(t).slots_of(cageid) == old(t).slots_of(cageid).update(
                    requested_virtualfd as int,
                    Some(FDTableEntry { realfd, should_cloexec, optionalinfo }),
                )
                &&& match old(t).slot(cageid, requested_virtualfd) {
                    None => {
                        &&& call is None
                        &&& counts_inc_only(old(t).realcounts@, final(t).realcounts@, realfd)
                    },
                    Some(p) => if p.realfd == NO_REAL_FD {
                        &&& call == Some(CloseCall::Unreal(p.optionalinfo))
                        &&& counts_inc_only(old(t).realcounts@, final(t).realcounts@, realfd)
                    } else if p.realfd == EPOLLFD {
                        &&& call is None
                        &&& counts_inc_only(old(t).realcounts@, final(t).realcounts@, realfd)
                    } else {
                        &&& call == Some(
                            if final(t).stored_count(p.realfd) > 0 {
                                CloseCall::Intermediate(p.realfd)
                            } else {
                                CloseCall::Last(p.realfd)
                            },
                        )
                        &&& (p.realfd == realfd ==> call == Some(CloseCall::Intermediate(realfd))
                            && (forall|r: u64|
                            #[trigger] final(t).stored_count(r) == old(t).stored_count(r)) && (
                        forall|r: u64| #[trigger] final(t).has_count(r) == old(t).has_count(r)))
                        &&& (p.realfd != realfd ==> {
                            &&& final(t).stored_count(p.realfd) == old(t).stored_count(p.realfd)
                                - 1
                            &&& old(t).stored_count(p.realfd) >= 1
                            &&& final(t).has_count(p.realfd) == (old(t).stored_count(p.realfd)
                                > 1)
                            &&& (is_real_fd(realfd) ==> final(t).stored_count(realfd) == old(t).stored_count(realfd) + 1 && final(t).has_count(realfd))
                            &&& (forall|r: u64|
                                r != realfd && r != p.realfd ==> #[trigger] final(t).stored_count(r) == old(t).stored_count(r))
                            &&& (forall|r: u64|
                                r != realfd && r != p.realfd ==> #[trigger] final(t).has_count(r)
                                    == old(t).has_count(r))
                        })
                    },
                }
            },
            Err(err) => err == threei::EBADF && requested_virtualfd >= FD_PER_PROCESS_MAX && *final(t) == *old(t),
        },
{
    let ghost t0 = *t;
    let idx_opt = find_cage_idx(t, cageid);
    let idx = idx_opt.unwrap();
    proof {
        lemma_cage_at(t, idx as int);
    }
    if requested_virtualfd >= FD_PER_PROCESS_MAX {
        return Err(threei::EBADF);
    }
    let myentry = FDTableEntry { realfd, should_cloexec, optionalinfo };
    let prior = t.cages[idx].slots[requested_virtualfd as usize];
    if realfd != NO_REAL_FD && realfd != EPOLLFD {
        let _ = _increment_realfd(&mut t.realcounts, realfd);
    }
    let ghost t1 = *t;
    let call: Option<CloseCall> = match prior {
        None => None,
        Some(p) => {
            if p.realfd == NO_REAL_FD {
                Some(CloseCall::Unreal(p.optionalinfo))
            } else if p.realfd == EPOLLFD {
                None
            } else {
                proof {
                    lemma_slots_refs_lower(
                        t0.cages@[idx as int].slots@,
                        requested_virtualfd as int,
                        p.realfd,
                    );
                    lemma_cages_refs_lower(t0.cages@, idx as int, p.realfd);
                    assert(t0.stored_count(p.realfd) == cages_refs(t0.cages@, p.realfd));
                    assert(stored_count_of(t1.realcounts@, p.realfd) >= 1);
                }
                Some(_decrement_realfd(&mut t.realcounts, p.realfd))
            }
        },
    };
    let ghost t2 = *t;
    set_slot(t, idx, requested_virtualfd, Some(myentry));
    proof {
        assert forall|r: u64| is_real_fd(r) implies #[trigger] t.stored_count(r) == cages_refs(
            t.cages@,
            r,
        ) by {
            assert(cages_refs(t.cages@, r) + entry_refs(prior, r) == cages_refs(t0.cages@, r)
                + entry_refs(Some(myentry), r));
            assert(t0.stored_count(r) == cages_refs(t0.cages@, r));
            if is_real_fd(realfd) && r == realfd {
                assert(stored_count_of(t1.realcounts@, r) == stored_count_of(t0.realcounts@, r)
                    + 1);
            } else {
                assert(stored_count_of(t1.realcounts@, r) == stored_count_of(t0.realcounts@, r));
            }
            match prior {
                Some(p) => {
                    if is_real_fd(p.realfd) && r == p.realfd {
                        assert(stored_count_of(t2.realcounts@, r) == stored_count_of(
                            t1.realcounts@,
                            r,
                        ) - 1);
                        assert(entry_refs(prior, r) == 1);
                    } else {
                        assert(stored_count_of(t2.realcounts@, r) == stored_count_of(
                            t1.realcounts@,
                            r,
                        ));
                        assert(entry_refs(prior, r) == 0);
                    }
                },
                None => {
                    assert(stored_count_of(t2.realcounts@, r) == stored_count_of(
                        t1.realcounts@,
                        r,
                    ));
                },
            }
            assert(t.realcounts@ == t2.realcounts@);
        }
    }
    Ok(call)
}

// ---------------------------------------------------------------------------
// Copying a cage for fork, and snapshots.
// ---------------------------------------------------------------------------

/// A slot array never holds more references than it has slots.
pub proof fn lemma_slots_refs_bound(s: Seq<Option<FDTableEntry>>, realfd: u64)
    ensures
        slots_refs(s, realfd) <= s.len(),
    decreases s.len(),
{
    if s.len() > 0 {
        lemma_slots_refs_bound(s.drop_last(), realfd);
    }
}

/// A copy of a slot array.
fn copy_slots(src: &Vec<Option<FDTableEntry>>) -> (v: Vec<Option<FDTableEntry>>)
    ensures
        v@ == src@,
{
    let n = src.len();
    let mut v: Vec<Option<FDTableEntry>> = Vec::new();
    let mut i: usize = 0;
    while i < n
        invariant
            n == src@.len(),
            i <= n,
            v@ == src@.take(i as int),
        decreases n - i,
    {
        v.push(src[i]);
        proof {
            assert(v@ =~= src@.take(i + 1 as int));
        }
        i = i + 1;
    }
    proof {
        assert(src@.take(n as int) =~= src@);
    }
    v
}

/// Duplicates the source cage's slot array into a new cage, counting one
/// more reference for every occupied real slot, as `fork` needs.  The new
/// cage must not exist yet and the source must; the host treats a violation
/// as a programming error.
pub fn copy_fdtable_for_cage(t: &mut FdTables, srccageid: u64, newcageid: u64) -> (res: Result<
    (),
    threei::RetVal,
>)
    requires
        old(t).wf(),
        old(t).has_cage(srccageid),
        !old(t).has_cage(newcageid),
        forall|r: u64|
            is_real_fd(r) ==> #[trigger] old(t).stored_count(r) <= u64::MAX - FD_PER_PROCESS_MAX,
    ensures
        final(t).wf(),
        res is Ok,
        final(t).epolls@ == old(t).epolls@,
        final(t).has_cage(newcageid),
        forall|c: u64| c != newcageid ==> #[trigger] final(t).has_cage(c) == old(t).has_cage(c),
        forall|c: u64|
            c != newcageid && old(t).has_cage(c) ==> #[trigger] final(t).slots_of(c) == old(
                t,
            ).slots_of(c),
        final(t).slots_of(newcageid) == old(t).slots_of(srccageid),
        forall|r: u64|
            is_real_fd(r) ==> #[trigger] final(t).stored_count(r) == old(t).stored_count(r)
                + slots_refs(old(t).slots_of(srccageid), r),
        forall|r: u64| #[trigger] final(t).has_count(r) == old(t).has_count(r),
{
    let ghost t0 = *t;
    let idx_opt = find_cage_idx(t, srccageid);
    let idx = idx_opt.unwrap();
    proof {
        lemma_cage_at(t, idx as int);
    }
    let newslots = copy_slots(&t.cages[idx].slots);
    let ghost src = t0.slots_of(srccageid);
    let mut v: u64 = 0;
    while v < FD_PER_PROCESS_MAX
        invariant
            t0 == *old(t),
            t0.wf(),
            t0.has_cage(srccageid),
            idx < t0.cages@.len(),
            t0.cages@[idx as int].cageid == srccageid,
            t0.cage_at(srccageid) == idx,
            src == t0.slots_of(srccageid),
            src.len() == FD_PER_PROCESS_MAX,
            v <= FD_PER_PROCESS_MAX,
            t.cages@ == t0.cages@,
            t.epolls@ == t0.epolls@,
            counts_wf(t.realcounts@),
            forall|r: u64|
                is_real_fd(r) ==> #[trigger] old(t).stored_count(r) <= u64::MAX
                    - FD_PER_PROCESS_MAX,
            forall|r: u64|
                is_real_fd(r) ==> #[trigger] stored_count_of(t.realcounts@, r) == stored_count_of(
                    t0.realcounts@,
                    r,
                ) + slots_refs(src.take(v as int), r),
            forall|r: u64|
                #[trigger] seq_has_count(t.realcounts@, r) == seq_has_count(t0.realcounts@, r),
        decreases FD_PER_PROCESS_MAX - v,
    {
        let ghost pre = t.realcounts@;
        let slotval = t.cages[idx].slots[v as usize];
        match slotval {
            Some(e) => {
                if e.realfd != NO_REAL_FD && e.realfd != EPOLLFD {
                    proof {
                        lemma_slots_refs_bound(src.take(v as int), e.realfd);
                        assert(src.take(v as int).len() == v);
                        assert(stored_count_of(pre, e.realfd) == stored_count_of(
                            t0.realcounts@,
                            e.realfd,
                        ) + slots_refs(src.take(v as int), e.realfd));
                        assert(t0.stored_count(e.realfd) <= u64::MAX - FD_PER_PROCESS_MAX);
                        assert(stored_count_of(pre, e.realfd) < u64::MAX);
                        lemma_slots_refs_lower(src, v as int, e.realfd);
                        lemma_cages_refs_lower(t0.cages@, idx as int, e.realfd);
                        assert(t0.stored_count(e.realfd) == cages_refs(t0.cages@, e.realfd));
                        assert(stored_count_of(t0.realcounts@, e.realfd) >= 1);
                        assert(seq_has_count(t0.realcounts@, e.realfd));
                    }
                    let _ = _increment_realfd(&mut t.realcounts, e.realfd);
                }
            },
            None => {},
        }
        proof {
            assert(src.take(v + 1 as int).drop_last() =~= src.take(v as int));
            assert(src.take(v + 1 as int).last() == src[v as int]);
            assert forall|r: u64| is_real_fd(r) implies #[trigger] stored_count_of(
                t.realcounts@,
                r,
            ) == stored_count_of(t0.realcounts@, r) + slots_refs(src.take(v + 1 as int), r) by {
                assert(slots_refs(src.take(v + 1 as int), r) == slots_refs(src.take(v as int), r)
                    + entry_refs(src[v as int], r));
                match slotval {
                    Some(e) => {
                        if is_real_fd(e.realfd) && r == e.realfd {
                            assert(stored_count_of(t.realcounts@, r) == stored_count_of(pre, r)
                                + 1);
                            assert(entry_refs(src[v as int], r) == 1);
                        } else {
                            assert(stored_count_of(t.realcounts@, r) == stored_count_of(pre, r));
                            assert(entry_refs(src[v as int], r) == 0);
                        }
                    },
                    None => {
                        assert(stored_count_of(t.realcounts@, r) == stored_count_of(pre, r));
                        assert(entry_refs(src[v as int], r) == 0);
                    },
                }
            }
        }
        v = v + 1;
    }
    let newcage = FdCage { cageid: newcageid, slots: newslots };
    t.cages.push(newcage);
    proof {
        let n = t0.cages@.len();
        assert(src.take(FD_PER_PROCESS_MAX as int) =~= src);
        assert forall|a: int, b: int|
            0 <= a < b < t.cages@.len() implies t.cages@[a].cageid != t.cages@[b].cageid by {
            if b == n {
                lemma_cage_at(&t0, a);
            }
        }
        assert forall|r: u64| is_real_fd(r) implies #[trigger] t.stored_count(r) == cages_refs(
            t.cages@,
            r,
        ) by {
            assert(t.cages@.drop_last() =~= t0.cages@);
            assert(t.cages@.last() == t.cages@[n as int]);
            assert(t.cages@[n as int].slots@ == src);
            assert(cages_refs(t.cages@, r) == cages_refs(t0.cages@, r) + slots_refs(src, r));
            assert(t0.stored_count(r) == cages_refs(t0.cages@, r));
            assert(stored_count_of(t.realcounts@, r) == stored_count_of(t0.realcounts@, r)
                + slots_refs(src, r));
        }
        assert forall|c: u64| c != newcageid implies #[trigger] t.has_cage(c) == t0.has_cage(
            c,
        ) by {
            if t.has_cage(c) {
                let i = t.cage_at(c);
                assert(t.cages@[i].cageid == c);
                assert(0 <= i < n);
                assert(t0.has_cage(c));
            }
            if t0.has_cage(c) {
                let i = t0.cage_at(c);
                assert(t0.cages@[i].cageid == c);
                assert(t.cages@[i].cageid == c);
            }
        }
        assert forall|c: u64| c != newcageid && t0.has_cage(c) implies #[trigger] t.slots_of(c)
            == t0.slots_of(c) by {
            let i = t0.cage_at(c);
            assert(t0.cages@[i].cageid == c);
            lemma_cage_at(t, i);
        }
        lemma_cage_at(t, n as int);
        assert(t.slots_of(newcageid) == src);
        assert forall|i: int, vv: int|
            0 <= i < t.cages@.len() && 0 <= vv < t.cages@[i].slots@.len() implies match (
        #[trigger] t.cages@[i].slots@[vv]) {
            Some(en) => en.realfd != INVALID_FD && (en.realfd == EPOLLFD ==> en.optionalinfo
                < t.epolls@.len()),
            None => true,
        } by {
            if i < n {
                assert(t.cages@[i].slots@[vv] == t0.cages@[i].slots@[vv]);
            } else {
                assert(t.cages@[i].slots@[vv] == t0.cages@[idx as int].slots@[vv]);
            }
        }
    }
    Ok(())
}

/// A copy of the cage's table as a map from virtual fd to entry; later
/// table changes are not visible in it.
pub fn return_fdtable_copy(t: &FdTables, cageid: u64) -> (hm: std::collections::HashMap<
    u64,
    FDTableEntry,
>)
    requires
        t.wf(),
        t.has_cage(cageid),
    ensures
        forall|v: u64| #[trigger] hm@.contains_key(v) <==> t.slot(cageid, v) is Some,
        forall|v: u64|
            #[trigger] t.slot(cageid, v) matches Some(e) ==> hm@.contains_key(v) && hm@[v] == e,
{
    broadcast use vstd::std_specs::hash::group_hash_axioms;

    let idx_opt = find_cage_idx(t, cageid);
    let idx = idx_opt.unwrap();
    proof {
        lemma_cage_at(t, idx as int);
    }
    let mut hm: std::collections::HashMap<u64, FDTableEntry> = std::collections::HashMap::new();
    let mut v: u64 = 0;
    while v < FD_PER_PROCESS_MAX
        invariant
            t.wf(),
            t.has_cage(cageid),
            idx < t.cages@.len(),
            t.cages@[idx as int].cageid == cageid,
            t.cage_at(cageid) == idx,
            v <= FD_PER_PROCESS_MAX,
            forall|w: u64|
                #[trigger] hm@.contains_key(w) <==> (w < v && t.slot(cageid, w) is Some),
            forall|w: u64|
                w < v ==> (#[trigger] t.slot(cageid, w) matches Some(e) ==> hm@.contains_key(w)
                    && hm@[w] == e),
        decreases FD_PER_PROCESS_MAX - v,
    {
        match t.cages[idx].slots[v as usize] {
            Some(entry) => {
                hm.insert(v, entry);
            },
            None => {},
        }
        v = v + 1;
    }
    hm
}

// ---------------------------------------------------------------------------
// Draining a cage, for exec and exit.
// ---------------------------------------------------------------------------

/// Whether the drain clears this entry: exec clears only close-on-exec
/// slots, exit clears them all.
pub open spec fn drains(e: FDTableEntry, only_cloexec: bool) -> bool {
    !only_cloexec || e.should_cloexec
}

/// The close call owed for clearing entry `e` under stored counts `m`:
/// exactly the decision of closing one slot.
pub open spec fn clear_call(e: FDTableEntry, m: Map<u64, u64>) -> Option<CloseCall> {
    if e.realfd == NO_REAL_FD {
        Some(CloseCall::Unreal(e.optionalinfo))
    } else if e.realfd == EPOLLFD {
        None
    } else if m.contains_key(e.realfd) && m[e.realfd] > 1 {
        Some(CloseCall::Intermediate(e.realfd))
    } else {
        Some(CloseCall::Last(e.realfd))
    }
}

/// The stored counts after clearing entry `e`.
pub open spec fn clear_counts(e: FDTableEntry, m: Map<u64, u64>) -> Map<u64, u64> {
    if is_real_fd(e.realfd) {
        if m.contains_key(e.realfd) && m[e.realfd] > 1 {
            m.insert(e.realfd, (m[e.realfd] - 1) as u64)
        } else {
            m.remove(e.realfd)
        }
    } else {
        m
    }
}

/// The close calls owed by clearing the drained slots in ascending slot
/// order, threading the evolving stored counts through the decisions.
pub open spec fn drain_calls(
    slots: Seq<Option<FDTableEntry>>,
    m: Map<u64, u64>,
    only_cloexec: bool,
) -> Seq<CloseCall>
    decreases slots.len(),
{
    if slots.len() == 0 {
        Seq::empty()
    } else {
        match slots[0] {
            Some(e) => if drains(e, only_cloexec) {
                (match clear_call(e, m) {
                    Some(c) => seq![c],
                    None => Seq::empty(),
                }) + drain_calls(slots.drop_first(), clear_counts(e, m), only_cloexec)
            } else {
                drain_calls(slots.drop_first(), m, only_cloexec)
            },
            None => drain_calls(slots.drop_first(), m, only_cloexec),
        }
    }
}

/// The slot array after the drain: drained slots empty, the rest as they
/// were.
pub open spec fn drained_slots(s: Seq<Option<FDTableEntry>>, only_cloexec: bool) -> Seq<
    Option<FDTableEntry>,
> {
    Seq::new(
        s.len(),
        |w: int|
            match s[w] {
                Some(e) => if drains(e, only_cloexec) {
                    None
                } else {
                    Some(e)
                },
                None => None,
            },
    )
}

/// How many references to `realfd` the drained slots hold.
pub open spec fn slots_refs_drained(
    s: Seq<Option<FDTableEntry>>,
    realfd: u64,
    only_cloexec: bool,
) -> nat
    decreases s.len(),
{
    if s.len() == 0 {
        0nat
    } else {
        slots_refs_drained(s.drop_last(), realfd, only_cloexec) + (match s.last() {
            Some(e) => if drains(e, only_cloexec) && e.realfd == realfd {
                1nat
            } else {
                0nat
            },
            None => 0nat,
        })
    }
}

/// Taking one reference in the count list matches taking one in the map.
proof fn lemma_counts_map_dec(pre: Seq<RealCount>, post: Seq<RealCount>, e: FDTableEntry)
    requires
        counts_wf(pre),
        counts_wf(post),
        is_real_fd(e.realfd),
        stored_count_of(pre, e.realfd) >= 1,
        stored_count_of(post, e.realfd) == stored_count_of(pre, e.realfd) - 1,
        seq_has_count(post, e.realfd) == (stored_count_of(pre, e.realfd) > 1),
        forall|r: u64|
            r != e.realfd ==> #[trigger] stored_count_of(post, r) == stored_count_of(pre, r),
        forall|r: u64| r != e.realfd ==> #[trigger] seq_has_count(post, r) == seq_has_count(pre, r),
    ensures
        counts_map_of(post) == clear_counts(e, counts_map_of(pre)),
{
    let mpre = counts_map_of(pre);
    let mpost = counts_map_of(post);
    let goal = clear_counts(e, mpre);
    assert(seq_has_count(pre, e.realfd));
    assert(mpre.contains_key(e.realfd));
    assert(mpre[e.realfd] >= 1);
    assert forall|k: u64| mpost.contains_key(k) implies goal.contains_key(k) && mpost[k]
        == goal[k] by {
        assert(stored_count_of(post, k) == mpost[k]);
        if k == e.realfd {
            assert(stored_count_of(pre, k) > 1);
        } else {
            assert(seq_has_count(pre, k));
            assert(stored_count_of(post, k) == stored_count_of(pre, k));
        }
    }
    assert forall|k: u64| goal.contains_key(k) implies mpost.contains_key(k) by {
        if k == e.realfd {
            assert(mpre[e.realfd] > 1);
            assert(stored_count_of(pre, k) > 1);
        } else {
            assert(mpre.contains_key(k));
            assert(seq_has_count(pre, k));
        }
    }
    assert(mpost =~= goal);
}

/// Clears every drained slot of the cage at index `idx`, in ascending slot
/// order, adjusting the stored counts as each slot goes, and returns the
/// owed close calls in order.
fn drain_cage(t: &mut FdTables, idx: usize, only_cloexec: bool) -> (calls: Vec<CloseCall>)
    requires
        old(t).wf(),
        idx < old(t).cages@.len(),
    ensures
        final(t).wf(),
        final(t).epolls@ == old(t).epolls@,
        final(t).cages@.len() == old(t).cages@.len(),
        forall|i: int|
            0 <= i < old(t).cages@.len() && i != idx ==> #[trigger] final(t).cages@[i]
                == old(t).cages@[i],
        final(t).cages@[idx as int].cageid == old(t).cages@[idx as int].cageid,
        final(t).cages@[idx as int].slots@ == drained_slots(
            old(t).cages@[idx as int].slots@,
            only_cloexec,
        ),
        calls@ == drain_calls(
            old(t).cages@[idx as int].slots@,
            counts_map_of(old(t).realcounts@),
            only_cloexec,
        ),
        forall|r: u64|
            is_real_fd(r) ==> #[trigger] stored_count_of(final(t).realcounts@, r)
                + slots_refs_drained(old(t).cages@[idx as int].slots@, r, only_cloexec)
                == stored_count_of(old(t).realcounts@, r),
{
    let ghost t0 = *t;
    let ghost src = t0.cages@[idx as int].slots@;
    let ghost m0 = counts_map_of(t0.realcounts@);
    let mut calls: Vec<CloseCall> = Vec::new();
    proof {
        assert(src.skip(0) =~= src);
        assert(calls@ + drain_calls(src, m0, only_cloexec) =~= drain_calls(src, m0, only_cloexec));
    }
    let mut v: u64 = 0;
    while v < FD_PER_PROCESS_MAX
        invariant
            t0 == *old(t),
            t0.wf(),
            t.wf(),
            idx < t0.cages@.len(),
            src == t0.cages@[idx as int].slots@,
            src.len() == FD_PER_PROCESS_MAX,
            m0 == counts_map_of(t0.realcounts@),
            v <= FD_PER_PROCESS_MAX,
            t.epolls@ == t0.epolls@,
            t.cages@.len() == t0.cages@.len(),
            forall|i: int|
                0 <= i < t0.cages@.len() && i != idx ==> #[trigger] t.cages@[i] == t0.cages@[i],
            t.cages@[idx as int].cageid == t0.cages@[idx as int].cageid,
            t.cages@[idx as int].slots@.len() == FD_PER_PROCESS_MAX,
            forall|w: int|
                0 <= w < v ==> #[trigger] t.cages@[idx as int].slots@[w] == drained_slots(
                    src,
                    only_cloexec,
                )[w],
            forall|w: int|
                v <= w < FD_PER_PROCESS_MAX ==> #[trigger] t.cages@[idx as int].slots@[w]
                    == src[w],
            calls@ + drain_calls(src.skip(v as int), counts_map_of(t.realcounts@), only_cloexec)
                == drain_calls(src, m0, only_cloexec),
            forall|r: u64|
                is_real_fd(r) ==> #[trigger] stored_count_of(t.realcounts@, r)
                    + slots_refs_drained(src.take(v as int), r, only_cloexec) == stored_count_of(
                    t0.realcounts@,
                    r,
                ),
        decreases FD_PER_PROCESS_MAX - v,
    {
        let ghost tpre = *t;
        let ghost mpre = counts_map_of(t.realcounts@);
        let slotval = t.cages[idx].slots[v as usize];
        proof {
            assert(slotval == src[v as int]);
            assert(src.skip(v as int)[0] == src[v as int]);
            assert(src.skip(v as int).drop_first() =~= src.skip(v + 1 as int));
            assert(src.take(v + 1 as int).drop_last() =~= src.take(v as int));
            assert(src.take(v + 1 as int).last() == src[v as int]);
        }
        match slotval {
            Some(e) => {
                if !only_cloexec || e.should_cloexec {
                    let call: Option<CloseCall> = if e.realfd == NO_REAL_FD {
                        Some(CloseCall::Unreal(e.optionalinfo))
                    } else if e.realfd == EPOLLFD {
                        None
                    } else {
                        proof {
                            lemma_slots_refs_lower(
                                tpre.cages@[idx as int].slots@,
                                v as int,
                                e.realfd,
                            );
                            lemma_cages_refs_lower(tpre.cages@, idx as int, e.realfd);
                            assert(tpre.stored_count(e.realfd) == cages_refs(
                                tpre.cages@,
                                e.realfd,
                            ));
                        }
                        Some(_decrement_realfd(&mut t.realcounts, e.realfd))
                    };
                    proof {
                        if is_real_fd(e.realfd) {
                            lemma_counts_map_dec(tpre.realcounts@, t.realcounts@, e);
                        }
                        assert(counts_map_of(t.realcounts@) == clear_counts(e, mpre));
                        assert(call == clear_call(e, mpre));
                    }
                    let ghost calls_before = calls@;
                    match call {
                        Some(c) => {
                            calls.push(c);
                        },
                        None => {},
                    }
                    set_slot(t, idx, v, None);
                    proof {
                        assert forall|r: u64| is_real_fd(r) implies #[trigger] t.stored_count(r)
                            == cages_refs(t.cages@, r) by {
                            assert(cages_refs(t.cages@, r) + entry_refs(Some(e), r) == cages_refs(
                                tpre.cages@,
                                r,
                            ) + entry_refs(None, r));
                            assert(tpre.stored_count(r) == cages_refs(tpre.cages@, r));
                            if is_real_fd(e.realfd) && r == e.realfd {
                                assert(entry_refs(Some(e), r) == 1);
                                assert(stored_count_of(t.realcounts@, r) == stored_count_of(
                                    tpre.realcounts@,
                                    r,
                                ) - 1);
                            } else {
                                assert(entry_refs(Some(e), r) == 0);
                                assert(stored_count_of(t.realcounts@, r) == stored_count_of(
                                    tpre.realcounts@,
                                    r,
                                ));
                            }
                        }
                        assert(drain_calls(src.skip(v as int), mpre, only_cloexec) == (match clear_call(
                            e,
                            mpre,
                        ) {
                            Some(c) => seq![c],
                            None => Seq::<CloseCall>::empty(),
                        }) + drain_calls(
                            src.skip(v + 1 as int),
                            clear_counts(e, mpre),
                            only_cloexec,
                        ));
                        let rest = drain_calls(
                            src.skip(v + 1 as int),
                            clear_counts(e, mpre),
                            only_cloexec,
                        );
                        match call {
                            Some(c) => {
                                assert(calls@ =~= calls_before.push(c));
                                assert(calls_before.push(c) + rest =~= calls_before + (seq![c]
                                    + rest));
                            },
                            None => {
                                assert(Seq::<CloseCall>::empty() + rest =~= rest);
                            },
                        }
                    }
                } else {
                    proof {
                        assert(drain_calls(src.skip(v as int), mpre, only_cloexec) == drain_calls(
                            src.skip(v + 1 as int),
                            mpre,
                            only_cloexec,
                        ));
                    }
                }
            },
            None => {
                proof {
                    assert(drain_calls(src.skip(v as int), mpre, only_cloexec) == drain_calls(
                        src.skip(v + 1 as int),
                        mpre,
                        only_cloexec,
                    ));
                }
            },
        }
        v = v + 1;
    }
    proof {
        assert(src.skip(FD_PER_PROCESS_MAX as int) =~= Seq::<Option<FDTableEntry>>::empty());
        assert(src.take(FD_PER_PROCESS_MAX as int) =~= src);
        assert(calls@ + Seq::<CloseCall>::empty() =~= calls@);
        assert(t.cages@[idx as int].slots@ =~= drained_slots(src, only_cloexec));
    }
    calls
}

/// Exit clears every slot; its drained reference count is the plain one.
pub proof fn lemma_slots_refs_drained_all(s: Seq<Option<FDTableEntry>>, realfd: u64)
    ensures
        slots_refs_drained(s, realfd, false) == slots_refs(s, realfd),
    decreases s.len(),
{
    if s.len() > 0 {
        lemma_slots_refs_drained_all(s.drop_last(), realfd);
    }
}

/// Handles exec: clears exactly the slots whose close-on-exec flag is set,
/// in ascending slot order, with the close semantics of `close_virtualfd`,
/// and returns the owed close calls in order.  Slots without the flag are
/// untouched.
pub fn empty_fds_for_exec(t: &mut FdTables, cageid: u64) -> (calls: Vec<CloseCall>)
    requires
        old(t).wf(),
        old(t).has_cage(cageid),
    ensures
        final(t).wf(),
        final(t).epolls@ == old(t).epolls@,
        forall|c: u64| #[trigger] final(t).has_cage(c) == old(t).has_cage(c),
        forall|c: u64|
            c != cageid && old(t).has_cage(c) ==> #[trigger] final(t).slots_of(c) == old(
                t,
            ).slots_of(c),
        final(t).slots_of(cageid) == drained_slots(old(t).slots_of(cageid), true),
        calls@ == drain_calls(old(t).slots_of(cageid), old(t).counts(), true),
        forall|r: u64|
            is_real_fd(r) ==> #[trigger] final(t).stored_count(r) + slots_refs_drained(
                old(t).slots_of(cageid),
                r,
                true,
            ) == old(t).stored_count(r),
{
    let ghost t0 = *t;
    let idx_opt = find_cage_idx(t, cageid);
    let idx = idx_opt.unwrap();
    proof {
        lemma_cage_at(t, idx as int);
    }
    let calls = drain_cage(t, idx, true);
    proof {
        assert forall|c: u64| #[trigger] t.has_cage(c) == t0.has_cage(c) by {
            if t.has_cage(c) {
                let i = t.cage_at(c);
                assert(t.cages@[i].cageid == c);
                assert(t0.cages@[i].cageid == c);
                assert(t0.has_cage(c));
            }
            if t0.has_cage(c) {
                let i = t0.cage_at(c);
                assert(t0.cages@[i].cageid == c);
                assert(t.cages@[i].cageid == c);
            }
        }
        assert forall|c: u64| c != cageid && t0.has_cage(c) implies #[trigger] t.slots_of(c)
            == t0.slots_of(c) by {
            let i = t0.cage_at(c);
            assert(t0.cages@[i].cageid == c);
            assert(i != idx);
            assert(t.cages@[i].cageid == c);
            lemma_cage_at(t, i);
        }
        lemma_cage_at(t, idx as int);
    }
    calls
}

/// Handles exit: clears every slot of the cage, in ascending slot order,
/// with the close semantics of `close_virtualfd`, removes the cage from the
/// table, and returns the owed close calls in order.
pub fn remove_cage_from_fdtable(t: &mut FdTables, cageid: u64) -> (calls: Vec<CloseCall>)
    requires
        old(t).wf(),
        old(t).has_cage(cageid),
    ensures
        final(t).wf(),
        final(t).epolls@ == old(t).epolls@,
        !final(t).has_cage(cageid),
        forall|c: u64| c != cageid ==> #[trigger] final(t).has_cage(c) == old(t).has_cage(c),
        forall|c: u64|
            c != cageid && old(t).has_cage(c) ==> #[trigger] final(t).slots_of(c) == old(
                t,
            ).slots_of(c),
        calls@ == drain_calls(old(t).slots_of(cageid), old(t).counts(), false),
        forall|r: u64|
            is_real_fd(r) ==> #[trigger] final(t).stored_count(r) + slots_refs(
                old(t).slots_of(cageid),
                r,
            ) == old(t).stored_count(r),
{
    let ghost t0 = *t;
    let idx_opt = find_cage_idx(t, cageid);
    let idx = idx_opt.unwrap();
    proof {
        lemma_cage_at(t, idx as int);
    }
    let calls = drain_cage(t, idx, false);
    let ghost tmid = *t;
    t.cages.remove(idx);
    proof {
        let n = tmid.cages@.len();
        assert(t.cages@ == tmid.cages@.remove(idx as int));
        assert forall|a: int, b: int|
            0 <= a < b < t.cages@.len() implies t.cages@[a].cageid != t.cages@[b].cageid by {
            let a0 = if a < idx { a } else { a + 1 };
            let b0 = if b < idx { b } else { b + 1 };
            assert(t.cages@[a] == tmid.cages@[a0]);
            assert(t.cages@[b] == tmid.cages@[b0]);
        }
        assert forall|k: int| 0 <= k < t.cages@.len() implies t.cages@[k].cageid != cageid by {
            let k0 = if k < idx { k } else { k + 1 };
            assert(t.cages@[k] == tmid.cages@[k0]);
            assert(tmid.cages@[k0].cageid == t0.cages@[k0].cageid);
            if k0 != idx {
                lemma_cage_at(&t0, k0);
            }
        }
        assert(!t.has_cage(cageid));
        assert forall|r: u64| is_real_fd(r) implies #[trigger] t.stored_count(r) == cages_refs(
            t.cages@,
            r,
        ) by {
            lemma_cages_refs_remove(tmid.cages@, idx as int, r);
            assert forall|w: int|
                0 <= w < tmid.cages@[idx as int].slots@.len() implies (#[trigger] tmid.cages@[
            idx as int].slots@[w]) is None by {
                assert(tmid.cages@[idx as int].slots@[w] == drained_slots(
                    t0.cages@[idx as int].slots@,
                    false,
                )[w]);
            }
            lemma_slots_refs_all_none(tmid.cages@[idx as int].slots@, r);
            assert(tmid.stored_count(r) == cages_refs(tmid.cages@, r));
            assert(t.realcounts@ == tmid.realcounts@);
        }
        assert forall|c: u64| c != cageid implies #[trigger] t.has_cage(c) == t0.has_cage(c) by {
            if t.has_cage(c) {
                let i = t.cage_at(c);
                assert(t.cages@[i].cageid == c);
                let i0 = if i < idx { i } else { i + 1 };
                assert(t.cages@[i] == tmid.cages@[i0]);
                assert(t0.cages@[i0].cageid == c);
                assert(t0.has_cage(c));
            }
            if t0.has_cage(c) {
                let i = t0.cage_at(c);
                assert(t0.cages@[i].cageid == c);
                assert(i != idx);
                let i2 = if i < idx { i } else { i - 1 };
                assert(t.cages@[i2] == tmid.cages@[i]);
                assert(t.cages@[i2].cageid == c);
                assert(t.has_cage(c));
            }
        }
        assert forall|c: u64| c != cageid && t0.has_cage(c) implies #[trigger] t.slots_of(c)
            == t0.slots_of(c) by {
            let i = t0.cage_at(c);
            assert(t0.cages@[i].cageid == c);
            assert(i != idx);
            let i2 = if i < idx { i } else { i - 1 };
            assert(t.cages@[i2] == tmid.cages@[i]);
            assert(tmid.cages@[i] == t0.cages@[i]);
            lemma_cage_at(t, i2);
        }
        assert forall|i: int, vv: int|
            0 <= i < t.cages@.len() && 0 <= vv < t.cages@[i].slots@.len() implies match (
        #[trigger] t.cages@[i].slots@[vv]) {
            Some(en) => en.realfd != INVALID_FD && (en.realfd == EPOLLFD ==> en.optionalinfo
                < t.epolls@.len()),
            None => true,
        } by {
            let i0 = if i < idx { i } else { i + 1 };
            assert(t.cages@[i] == tmid.cages@[i0]);
        }
        assert forall|r: u64| is_real_fd(r) implies #[trigger] t.stored_count(r) + slots_refs(
            t0.slots_of(cageid),
            r,
        ) == t0.stored_count(r) by {
            lemma_slots_refs_drained_all(t0.slots_of(cageid), r);
            assert(stored_count_of(tmid.realcounts@, r) + slots_refs_drained(
                t0.cages@[idx as int].slots@,
                r,
                false,
            ) == stored_count_of(t0.realcounts@, r));
        }
    }
    calls
}

/// Returns the `optionalinfo` stored at (cage, virtual fd), or `EBADFD`
/// when the slot is empty.
pub fn get_optionalinfo(t: &FdTables, cageid: u64, virtualfd: u64) -> (res: Result<
    u64,
    threei::RetVal,
>)
    requires
        t.wf(),
        t.has_cage(cageid),
    ensures
        match res {
            Ok(optionalinfo) => t.slot(cageid, virtualfd) matches Some(e) && optionalinfo
                == e.optionalinfo,
            Err(e) => e == threei::EBADFD && t.slot(cageid, virtualfd) is None,
        },
{
    let idx_opt = find_cage_idx(t, cageid);
    let idx = idx_opt.unwrap();
    proof {
        lemma_cage_at(t, idx as int);
    }
    if virtualfd >= FD_PER_PROCESS_MAX {
        return Err(threei::EBADFD);
    }
    match t.cages[idx].slots[virtualfd as usize] {
        Some(entry) => Ok(entry.optionalinfo),
        None => Err(threei::EBADFD),
    }
}

} // verus!
