//! The poll translator: replaces the virtual descriptors of a poll vector
//! with real ones, handing back what the host must check itself, and turns
//! the kernel's answer back into virtual descriptors.
//!
//! Duplicates in the input are kept: the output vectors preserve order and
//! multiplicity, so index correspondence survives the round trip.

use vstd::prelude::*;

use crate::commonconstants::INVALID_FD;
use crate::commonconstants::NO_REAL_FD;
use crate::commonconstants::is_real_fd;
use crate::table::FdTables;
use crate::table::lemma_cage_at;

verus! {

broadcast use vstd::std_specs::hash::group_hash_axioms;

/// What the real-descriptor vector must hold for each input descriptor:
/// the slot's `realfd` (which may be `NO_REAL_FD`), or `INVALID_FD` for an
/// empty slot.
pub open spec fn poll_real_of(t: &FdTables, cageid: u64, virtfd: u64) -> u64 {
    match t.slot(cageid, virtfd) {
        Some(e) => e.realfd,
        None => INVALID_FD,
    }
}

/// The `(virtfd, optionalinfo)` pairs of the unreal input descriptors, in
/// input order.
pub open spec fn poll_unreals(t: &FdTables, cageid: u64, virtualfds: Seq<u64>) -> Seq<(u64, u64)>
    decreases virtualfds.len(),
{
    if virtualfds.len() == 0 {
        Seq::empty()
    } else {
        poll_unreals(t, cageid, virtualfds.drop_last()) + (match t.slot(
            cageid,
            virtualfds.last(),
        ) {
            Some(e) => if e.realfd == NO_REAL_FD {
                seq![(virtualfds.last(), e.optionalinfo)]
            } else {
                Seq::empty()
            },
            None => Seq::empty(),
        })
    }
}

/// The input descriptors whose slots are empty, in input order.
pub open spec fn poll_invalids(t: &FdTables, cageid: u64, virtualfds: Seq<u64>) -> Seq<u64>
    decreases virtualfds.len(),
{
    if virtualfds.len() == 0 {
        Seq::empty()
    } else {
        poll_invalids(t, cageid, virtualfds.drop_last()) + (match t.slot(
            cageid,
            virtualfds.last(),
        ) {
            Some(e) => Seq::empty(),
            None => seq![virtualfds.last()],
        })
    }
}

/// The reverse mapping from each occupied non-unreal slot's `realfd` back
/// to its virtual descriptor; a later input wins a shared `realfd`.
pub open spec fn poll_mapping(t: &FdTables, cageid: u64, virtualfds: Seq<u64>) -> Map<u64, u64>
    decreases virtualfds.len(),
{
    if virtualfds.len() == 0 {
        Map::empty()
    } else {
        let m = poll_mapping(t, cageid, virtualfds.drop_last());
        match t.slot(cageid, virtualfds.last()) {
            Some(e) => if e.realfd != NO_REAL_FD {
                m.insert(e.realfd, virtualfds.last())
            } else {
                m
            },
            None => m,
        }
    }
}

/// Translates a poll vector of virtual descriptors into the vector of
/// their real descriptors (`NO_REAL_FD` marking in-memory descriptors the
/// host checks itself, `INVALID_FD` marking empty slots), together with
/// the unreal pairs, the invalid descriptors, and the reverse mapping for
/// the kernel's reply.
pub fn convert_virtualfds_to_real(t: &FdTables, cageid: u64, virtualfds: Vec<u64>) -> (res: (
    Vec<u64>,
    Vec<(u64, u64)>,
    Vec<u64>,
    std::collections::HashMap<u64, u64>,
))
    requires
        t.wf(),
        t.has_cage(cageid),
    ensures
        res.0@.len() == virtualfds@.len(),
        forall|i: int|
            0 <= i < virtualfds@.len() ==> res.0@[i] == poll_real_of(t, cageid, virtualfds@[i]),
        res.1@ == poll_unreals(t, cageid, virtualfds@),
        res.2@ == poll_invalids(t, cageid, virtualfds@),
        res.3@ == poll_mapping(t, cageid, virtualfds@),
{
    let idx_opt = crate::table::find_cage_idx(t, cageid);
    let idx = idx_opt.unwrap();
    proof {
        lemma_cage_at(t, idx as int);
    }
    let mut realvec: Vec<u64> = Vec::new();
    let mut unrealvec: Vec<(u64, u64)> = Vec::new();
    let mut invalidvec: Vec<u64> = Vec::new();
    let mut mappingtable: std::collections::HashMap<u64, u64> = std::collections::HashMap::new();
    proof {
        assert(virtualfds@.take(0) =~= Seq::<u64>::empty());
        assert(poll_unreals(t, cageid, virtualfds@.take(0)) =~= Seq::<(u64, u64)>::empty());
        assert(poll_invalids(t, cageid, virtualfds@.take(0)) =~= Seq::<u64>::empty());
        assert(poll_mapping(t, cageid, virtualfds@.take(0)) =~= Map::<u64, u64>::empty());
    }
    let n = virtualfds.len();
    let mut i: usize = 0;
    while i < n
        invariant
            t.wf(),
            t.has_cage(cageid),
            idx < t.cages@.len(),
            t.cages@[idx as int].cageid == cageid,
            t.cage_at(cageid) == idx,
            n == virtualfds@.len(),
            i <= n,
            realvec@.len() == i,
            forall|j: int| 0 <= j < i ==> realvec@[j] == poll_real_of(t, cageid, virtualfds@[j]),
            unrealvec@ == poll_unreals(t, cageid, virtualfds@.take(i as int)),
            invalidvec@ == poll_invalids(t, cageid, virtualfds@.take(i as int)),
            mappingtable@ == poll_mapping(t, cageid, virtualfds@.take(i as int)),
        decreases n - i,
    {
        let virtfd = virtualfds[i];
        proof {
            assert(virtualfds@.take(i + 1).drop_last() =~= virtualfds@.take(i as int));
            assert(virtualfds@.take(i + 1).last() == virtualfds@[i as int]);
        }
        let slotval = if virtfd < crate::commonconstants::FD_PER_PROCESS_MAX {
            t.cages[idx].slots[virtfd as usize]
        } else {
            None
        };
        proof {
            assert(slotval == t.slot(cageid, virtfd));
        }
        match slotval {
            Some(entry) => {
                realvec.push(entry.realfd);
                if entry.realfd == NO_REAL_FD {
                    unrealvec.push((virtfd, entry.optionalinfo));
                } else {
                    mappingtable.insert(entry.realfd, virtfd);
                }
            },
            None => {
                realvec.push(INVALID_FD);
                invalidvec.push(virtfd);
            },
        }
        i = i + 1;
    }
    proof {
        assert(virtualfds@.take(n as int) =~= virtualfds@);
    }
    (realvec, unrealvec, invalidvec, mappingtable)
}

/// Translates the kernel's reply back: replaces each real descriptor with
/// the virtual one the reverse mapping records for it.  Every entry must be
/// in the mapping; the host treats a miss as a programming error.
pub fn convert_realfds_back_to_virtual(
    realfds: Vec<u64>,
    mappingtable: &std::collections::HashMap<u64, u64>,
) -> (virtvec: Vec<u64>)
    requires
        forall|i: int|
            0 <= i < realfds@.len() ==> mappingtable@.contains_key(#[trigger] realfds@[i]),
    ensures
        virtvec@.len() == realfds@.len(),
        forall|i: int| 0 <= i < realfds@.len() ==> virtvec@[i] == mappingtable@[realfds@[i]],
{
    let mut virtvec: Vec<u64> = Vec::new();
    let n = realfds.len();
    let mut i: usize = 0;
    while i < n
        invariant
            n == realfds@.len(),
            i <= n,
            virtvec@.len() == i,
            forall|j: int|
                0 <= j < realfds@.len() ==> mappingtable@.contains_key(#[trigger] realfds@[j]),
            forall|j: int| 0 <= j < i ==> virtvec@[j] == mappingtable@[realfds@[j]],
        decreases n - i,
    {
        let r = mappingtable.get(&realfds[i]);
        virtvec.push(*r.unwrap());
        i = i + 1;
    }
    virtvec
}

/// A poll vector of real-only virtual descriptors, no two of which share a
/// real descriptor, survives the round trip: translating the real vector
/// back through the returned mapping restores the input, order and
/// multiplicity included.
pub proof fn lemma_poll_round_trip(t: &FdTables, cageid: u64, virtualfds: Seq<u64>)
    requires
        t.wf(),
        t.has_cage(cageid),
        forall|i: int|
            0 <= i < virtualfds.len() ==> ((#[trigger] t.slot(cageid, virtualfds[i])) matches Some(
                e,
            ) && is_real_fd(e.realfd)),
        forall|i: int, j: int|
            0 <= i < virtualfds.len() && 0 <= j < virtualfds.len() && poll_real_of(
                t,
                cageid,
                virtualfds[i],
            ) == poll_real_of(t, cageid, virtualfds[j]) ==> virtualfds[i] == virtualfds[j],
    ensures
        forall|i: int|
            0 <= i < virtualfds.len() ==> poll_mapping(t, cageid, virtualfds).contains_key(
                #[trigger] poll_real_of(t, cageid, virtualfds[i]),
            ) && poll_mapping(t, cageid, virtualfds)[poll_real_of(t, cageid, virtualfds[i])]
                == virtualfds[i],
    decreases virtualfds.len(),
{
    if virtualfds.len() > 0 {
        let pre = virtualfds.drop_last();
        let last = virtualfds.last();
        assert forall|i: int, j: int|
            0 <= i < pre.len() && 0 <= j < pre.len() && poll_real_of(t, cageid, pre[i])
                == poll_real_of(t, cageid, pre[j]) implies pre[i] == pre[j] by {
            assert(pre[i] == virtualfds[i]);
            assert(pre[j] == virtualfds[j]);
        }
        lemma_poll_round_trip(t, cageid, pre);
        let m = poll_mapping(t, cageid, pre);
        let rlast = poll_real_of(t, cageid, last);
        assert(t.slot(cageid, last) matches Some(e) && is_real_fd(e.realfd)) by {
            assert(virtualfds[virtualfds.len() - 1] == last);
        }
        assert(poll_mapping(t, cageid, virtualfds) == m.insert(rlast, last));
        assert forall|i: int|
            0 <= i < virtualfds.len() implies poll_mapping(t, cageid, virtualfds).contains_key(
            #[trigger] poll_real_of(t, cageid, virtualfds[i]),
        ) && poll_mapping(t, cageid, virtualfds)[poll_real_of(t, cageid, virtualfds[i])]
            == virtualfds[i] by {
            let r = poll_real_of(t, cageid, virtualfds[i]);
            if r == rlast {
                assert(virtualfds[i] == last);
            } else {
                assert(i < pre.len());
                assert(pre[i] == virtualfds[i]);
            }
        }
    }
}

} // verus!
