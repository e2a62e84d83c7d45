//! The epoll shadow table.
//!
//! An epoll aggregator is itself a slot, holding the sentinel `EPOLLFD` and
//! an `optionalinfo` that indexes the process-wide epoll side table.  Each
//! side-table entry carries the kernel epollfd the host created for real
//! descriptors, and the shadow map of watched *unreal* descriptors, which
//! the kernel cannot see and the host must poll itself.  Real descriptors
//! are never recorded here: `try_epoll_ctl` passes them back for the host
//! to register with the kernel directly.

use vstd::prelude::*;

use crate::commonconstants::EPOLLFD;
use crate::commonconstants::EPOLL_CTL_ADD;
use crate::commonconstants::EPOLL_CTL_DEL;
use crate::commonconstants::EPOLL_CTL_MOD;
use crate::commonconstants::FDTableEntry;
use crate::commonconstants::FD_PER_PROCESS_MAX;
use crate::commonconstants::NO_REAL_FD;
use crate::commonconstants::epoll_event;
use crate::commonconstants::is_real_fd;
use crate::table::EpollEntry;
use crate::table::cages_refs;
use crate::table::FdTables;
use crate::table::lemma_cage_at;
use crate::table::lemma_watch_at;
use crate::table::lemma_watched_push;
use crate::table::lemma_watched_remove;
use crate::table::lemma_watched_update;
use crate::table::seq_has_watch;
use crate::table::watched_map_of;
use crate::table::watched_wf;
use crate::threei;

verus! {

broadcast use vstd::std_specs::hash::group_hash_axioms;

/// The result `try_epoll_ctl` owes for each input, error precedence
/// included: a self-reference is `EINVAL`; a missing aggregator slot is
/// `EBADF` and a non-aggregator is `EINVAL`; a missing target is `EBADF`;
/// a non-unreal target passes its `realfd` back for the host to handle; an
/// unreal target updates the shadow map, failing with `EEXIST` on a
/// duplicate add and `ENOENT` on a modify or delete of an unwatched
/// descriptor; any other op is `EINVAL`.
pub open spec fn try_epoll_ctl_spec(
    t: &FdTables,
    cageid: u64,
    epfd: u64,
    op: i32,
    virtfd: u64,
) -> Result<(u64, u64), threei::RetVal> {
    if epfd == virtfd {
        Err(threei::EINVAL)
    } else {
        match t.slot(cageid, epfd) {
            None => Err(threei::EBADF),
            Some(ep) => if ep.realfd != EPOLLFD {
                Err(threei::EINVAL)
            } else {
                let realepollfd = t.epolls@[ep.optionalinfo as int].realfd;
                match t.slot(cageid, virtfd) {
                    None => Err(threei::EBADF),
                    Some(ve) => if ve.realfd != NO_REAL_FD {
                        Ok((realepollfd, ve.realfd))
                    } else {
                        let w = watched_map_of(t.epolls@[ep.optionalinfo as int].watched@);
                        if op == EPOLL_CTL_ADD {
                            if w.contains_key(virtfd) {
                                Err(threei::EEXIST)
                            } else {
                                Ok((realepollfd, NO_REAL_FD))
                            }
                        } else if op == EPOLL_CTL_MOD || op == EPOLL_CTL_DEL {
                            if !w.contains_key(virtfd) {
                                Err(threei::ENOENT)
                            } else {
                                Ok((realepollfd, NO_REAL_FD))
                            }
                        } else {
                            Err(threei::EINVAL)
                        }
                    },
                }
            },
        }
    }
}

/// Whether this call reaches the shadow map: the target slot is unreal and
/// the op is a valid shadow operation that succeeds.
pub open spec fn epoll_ctl_touches_shadow(
    t: &FdTables,
    cageid: u64,
    epfd: u64,
    op: i32,
    virtfd: u64,
) -> bool {
    &&& try_epoll_ctl_spec(t, cageid, epfd, op, virtfd) is Ok
    &&& (t.slot(cageid, virtfd) matches Some(ve) && ve.realfd == NO_REAL_FD)
}

/// The shadow map after a successful shadow operation.
pub open spec fn epoll_shadow_after(
    w: Map<u64, epoll_event>,
    op: i32,
    virtfd: u64,
    event: epoll_event,
) -> Map<u64, epoll_event> {
    if op == EPOLL_CTL_ADD || op == EPOLL_CTL_MOD {
        w.insert(virtfd, event)
    } else {
        w.remove(virtfd)
    }
}

/// The watch-list index of `virtfd`, or `None` when it is not watched.
fn find_watch_idx(w: &Vec<(u64, epoll_event)>, virtfd: u64) -> (res: Option<usize>)
    ensures
        match res {
            Some(i) => i < w@.len() && w@[i as int].0 == virtfd,
            None => !seq_has_watch(w@, virtfd),
        },
{
    let n = w.len();
    let mut i: usize = 0;
    while i < n
        invariant
            n == w@.len(),
            i <= n,
            forall|j: int| 0 <= j < i ==> (#[trigger] w@[j]).0 != virtfd,
        decreases n - i,
    {
        if w[i].0 == virtfd {
            return Some(i);
        }
        i = i + 1;
    }
    None
}

/// Allocates a fresh epoll side-table entry recording the host's kernel
/// epollfd, then allocates a slot holding the `EPOLLFD` sentinel whose
/// `optionalinfo` points at it.  Fails with `EMFILE`, leaving the table as
/// it was, exactly when the cage's slots are all occupied.
pub fn epoll_create_helper(t: &mut FdTables, cageid: u64, realfd: u64, should_cloexec: bool) -> (res:
    Result<u64, threei::RetVal>)
    requires
        old(t).wf(),
        old(t).has_cage(cageid),
    ensures
        final(t).wf(),
        final(t).realcounts@ == old(t).realcounts@,
        forall|c: u64| #[trigger] final(t).has_cage(c) == old(t).has_cage(c),
        forall|c: u64|
            c != cageid && old(t).has_cage(c) ==> #[trigger] final(t).slots_of(c) == old(
                t,
            ).slots_of(c),
        forall|k: int|
            0 <= k < old(t).epolls@.len() ==> #[trigger] final(t).epolls@[k] == old(t).epolls@[k],
        match res {
            Ok(epollfd) => {
                &&& epollfd < FD_PER_PROCESS_MAX
                &&& old(t).slot(cageid, epollfd) is None
                &&& (forall|w: u64| w < epollfd ==> #[trigger] old(t).slot(cageid, w) is Some)
                &&& final(t).epolls@.len() == old(t).epolls@.len() + 1
                &&& final(t).epolls@.last().realfd == realfd
                &&& watched_map_of(final(t).epolls@.last().watched@) == Map::<
                    u64,
                    epoll_event,
                >::empty()
                &&& final(t).slots_of(cageid) == old(t).slots_of(cageid).update(
                    epollfd as int,
                    Some(
                        FDTableEntry {
                            realfd: EPOLLFD,
                            should_cloexec,
                            optionalinfo: old(t).epolls@.len() as u64,
                        },
                    ),
                )
            },
            Err(e) => {
                &&& e == threei::EMFILE
                &&& (forall|w: u64|
                    w < FD_PER_PROCESS_MAX ==> #[trigger] old(t).slot(cageid, w) is Some)
                &&& final(t).cages@ == old(t).cages@
                &&& final(t).epolls@ == old(t).epolls@
            },
        },
{
    let ghost t0 = *t;
    let newentrynum = t.epolls.len() as u64;
    t.epolls.push(EpollEntry { realfd, watched: Vec::new() });
    proof {
        assert forall|i: int, vv: int|
            0 <= i < t.cages@.len() && 0 <= vv < t.cages@[i].slots@.len() implies match (
        #[trigger] t.cages@[i].slots@[vv]) {
            Some(en) => en.realfd != crate::commonconstants::INVALID_FD && (en.realfd == EPOLLFD
                ==> en.optionalinfo < t.epolls@.len()),
            None => true,
        } by {
            assert(t.cages@[i].slots@[vv] == t0.cages@[i].slots@[vv]);
        }
        assert(t.cages@ == t0.cages@);
        assert(t.realcounts@ == t0.realcounts@);
        assert forall|r: u64| is_real_fd(r) implies #[trigger] t.stored_count(r) == cages_refs(
            t.cages@,
            r,
        ) by {
            assert(t0.stored_count(r) == cages_refs(t0.cages@, r));
            assert(t.stored_count(r) == t0.stored_count(r));
        }
        assert forall|k: int|
            0 <= k < t.epolls@.len() implies watched_wf((#[trigger] t.epolls@[k]).watched@) by {
            if k < t0.epolls@.len() {
                assert(t.epolls@[k] == t0.epolls@[k]);
            } else {
                assert(t.epolls@[k].watched@.len() == 0);
            }
        }
        assert(t.wf());
    }
    let ghost t1 = *t;
    let res = crate::table::get_unused_virtual_fd(
        t,
        cageid,
        EPOLLFD,
        should_cloexec,
        newentrynum,
    );
    match res {
        Ok(epollfd) => {
            proof {
                assert forall|w: u64| w < epollfd implies #[trigger] t0.slot(cageid, w)
                    is Some by {
                    assert(t1.slot(cageid, w) is Some);
                }
                assert(t.epolls@.last().watched@.len() == 0);
                assert(!seq_has_watch(t.epolls@.last().watched@, 0));
                assert(watched_map_of(t.epolls@.last().watched@) =~= Map::<
                    u64,
                    epoll_event,
                >::empty());
            }
            Ok(epollfd)
        },
        Err(e) => {
            t.epolls.pop();
            proof {
                assert forall|w: u64| w < FD_PER_PROCESS_MAX implies #[trigger] t0.slot(cageid, w)
                    is Some by {
                    assert(t1.slot(cageid, w) is Some);
                }
                assert(t.epolls@ =~= t0.epolls@);
                assert(t.cages@ == t0.cages@);
                assert(t.realcounts@ == t0.realcounts@);
                assert forall|r: u64| is_real_fd(r) implies #[trigger] t.stored_count(r)
                    == cages_refs(t.cages@, r) by {
                    assert(t0.stored_count(r) == cages_refs(t0.cages@, r));
                    assert(t.stored_count(r) == t0.stored_count(r));
                }
                assert forall|k: int|
                    0 <= k < t.epolls@.len() implies watched_wf(
                    (#[trigger] t.epolls@[k]).watched@,
                ) by {
                    assert(t.epolls@[k] == t0.epolls@[k]);
                }
                assert forall|i: int, vv: int|
                    0 <= i < t.cages@.len() && 0 <= vv < t.cages@[i].slots@.len() implies match (
                #[trigger] t.cages@[i].slots@[vv]) {
                    Some(en) => en.realfd != crate::commonconstants::INVALID_FD && (en.realfd
                        == EPOLLFD ==> en.optionalinfo < t.epolls@.len()),
                    None => true,
                } by {
                    assert(t.cages@[i].slots@[vv] == t0.cages@[i].slots@[vv]);
                }
            }
            Err(e)
        },
    }
}

/// Records or removes an unreal descriptor in an aggregator's shadow map,
/// or passes a real descriptor back for the host's own `epoll_ctl`.  The
/// result and the error precedence are exactly [`try_epoll_ctl_spec`];
/// aggregators watching aggregators are not supported and pass through like
/// real descriptors.
pub fn try_epoll_ctl(
    t: &mut FdTables,
    cageid: u64,
    epfd: u64,
    op: i32,
    virtfd: u64,
    event: epoll_event,
) -> (res: Result<(u64, u64), threei::RetVal>)
    requires
        old(t).wf(),
        old(t).has_cage(cageid),
    ensures
        final(t).wf(),
        final(t).cages@ == old(t).cages@,
        final(t).realcounts@ == old(t).realcounts@,
        final(t).epolls@.len() == old(t).epolls@.len(),
        forall|k: int|
            0 <= k < old(t).epolls@.len() ==> #[trigger] final(t).epolls@[k].realfd == old(
                t,
            ).epolls@[k].realfd,
        res == try_epoll_ctl_spec(old(t), cageid, epfd, op, virtfd),
        forall|k: int|
            0 <= k < old(t).epolls@.len() ==> #[trigger] watched_map_of(final(t).epolls@[k].watched@)
                == if epoll_ctl_touches_shadow(old(t), cageid, epfd, op, virtfd) && (old(t).slot(
                cageid,
                epfd,
            ) matches Some(ep) && k == ep.optionalinfo) {
                epoll_shadow_after(
                    watched_map_of(old(t).epolls@[k].watched@),
                    op,
                    virtfd,
                    event,
                )
            } else {
                watched_map_of(old(t).epolls@[k].watched@)
            },
{
    let ghost t0 = *t;
    let idx_opt = crate::table::find_cage_idx(t, cageid);
    let idx = idx_opt.unwrap();
    proof {
        lemma_cage_at(t, idx as int);
    }
    if epfd == virtfd {
        return Err(threei::EINVAL);
    }
    if epfd >= FD_PER_PROCESS_MAX {
        return Err(threei::EBADF);
    }
    let epollentrynum: u64 = match t.cages[idx].slots[epfd as usize] {
        None => {
            return Err(threei::EBADF);
        },
        Some(tableentry) => {
            if tableentry.realfd != EPOLLFD {
                return Err(threei::EINVAL);
            }
            tableentry.optionalinfo
        },
    };
    proof {
        assert(t.slot(cageid, epfd) == t.cages@[idx as int].slots@[epfd as int]);
        assert(match t.cages@[idx as int].slots@[epfd as int] {
            Some(en) => en.realfd != crate::commonconstants::INVALID_FD && (en.realfd == EPOLLFD
                ==> en.optionalinfo < t.epolls@.len()),
            None => true,
        });
        assert(epollentrynum < t.epolls@.len());
    }
    let epolls_len = t.epolls.len();
    proof {
        assert(epollentrynum < epolls_len as u64);
    }
    let realepollfd = t.epolls[epollentrynum as usize].realfd;
    let virtslot = if virtfd < FD_PER_PROCESS_MAX {
        t.cages[idx].slots[virtfd as usize]
    } else {
        None
    };
    proof {
        assert(virtslot == t.slot(cageid, virtfd));
    }
    let ventry = match virtslot {
        None => {
            return Err(threei::EBADF);
        },
        Some(v) => v,
    };
    if ventry.realfd != NO_REAL_FD {
        // Real descriptors (and aggregators, which are not supported as
        // watch targets) are handed back for the host's own epoll_ctl.
        proof {
            assert(t0.slot(cageid, epfd) matches Some(ep2) && ep2.realfd == EPOLLFD
                && ep2.optionalinfo == epollentrynum);
            assert(t0.slot(cageid, virtfd) == Some(ventry));
            assert(realepollfd == t0.epolls@[epollentrynum as int].realfd);
            assert(try_epoll_ctl_spec(&t0, cageid, epfd, op, virtfd) == Ok::<
                (u64, u64),
                threei::RetVal,
            >((realepollfd, ventry.realfd)));
        }
        return Ok((realepollfd, ventry.realfd));
    }
    let eidx = epollentrynum as usize;
    let ghost w0 = t.epolls@[eidx as int].watched@;
    let widx_opt = find_watch_idx(&t.epolls[eidx].watched, virtfd);
    let shadow_res: Result<(u64, u64), threei::RetVal> = if op == EPOLL_CTL_ADD {
        match widx_opt {
            Some(_) => Err(threei::EEXIST),
            None => {
                let ep = &mut t.epolls[eidx];
                ep.watched.push((virtfd, event));
                proof {
                    lemma_watched_push(w0, (virtfd, event));
                }
                Ok((realepollfd, NO_REAL_FD))
            },
        }
    } else if op == EPOLL_CTL_MOD {
        match widx_opt {
            None => Err(threei::ENOENT),
            Some(wi) => {
                proof {
                    lemma_watch_at(w0, wi as int);
                }
                let ep = &mut t.epolls[eidx];
                ep.watched[wi] = (virtfd, event);
                proof {
                    lemma_watched_update(w0, wi as int, (virtfd, event));
                }
                Ok((realepollfd, NO_REAL_FD))
            },
        }
    } else if op == EPOLL_CTL_DEL {
        match widx_opt {
            None => Err(threei::ENOENT),
            Some(wi) => {
                proof {
                    lemma_watch_at(w0, wi as int);
                }
                let ep = &mut t.epolls[eidx];
                ep.watched.remove(wi);
                proof {
                    lemma_watched_remove(w0, wi as int);
                }
                Ok((realepollfd, NO_REAL_FD))
            },
        }
    } else {
        Err(threei::EINVAL)
    };
    proof {
        assert forall|k: int|
            0 <= k < t0.epolls@.len() && k != eidx implies #[trigger] t.epolls@[k]
            == t0.epolls@[k] by {}
        assert forall|k: int|
            0 <= k < t.epolls@.len() implies watched_wf(
            (#[trigger] t.epolls@[k]).watched@,
        ) by {
            if k != eidx {
                assert(t.epolls@[k] == t0.epolls@[k]);
            }
        }
        match widx_opt {
            Some(wi) => {
                lemma_watch_at(w0, wi as int);
            },
            None => {},
        }
        assert(t.cages@ == t0.cages@);
        assert(t.realcounts@ == t0.realcounts@);
        assert(t.epolls@.len() == t0.epolls@.len());
        assert forall|r: u64| is_real_fd(r) implies #[trigger] t.stored_count(r) == cages_refs(
            t.cages@,
            r,
        ) by {
            assert(t0.stored_count(r) == cages_refs(t0.cages@, r));
            assert(t.stored_count(r) == t0.stored_count(r));
        }
        assert forall|i: int, vv: int|
            0 <= i < t.cages@.len() && 0 <= vv < t.cages@[i].slots@.len() implies match (
        #[trigger] t.cages@[i].slots@[vv]) {
            Some(en) => en.realfd != crate::commonconstants::INVALID_FD && (en.realfd == EPOLLFD
                ==> en.optionalinfo < t.epolls@.len()),
            None => true,
        } by {
            assert(t.cages@[i].slots@[vv] == t0.cages@[i].slots@[vv]);
        }
    }
    shadow_res
}

/// Hands back what the host needs before its `epoll_wait`: the kernel
/// epollfd of the aggregator, and a snapshot of its shadow map of watched
/// unreal descriptors.  `EBADF` when the slot is empty, `EINVAL` when it is
/// not an aggregator.
pub fn get_epoll_wait_data(t: &FdTables, cageid: u64, epfd: u64) -> (res: Result<
    (u64, std::collections::HashMap<u64, epoll_event>),
    threei::RetVal,
>)
    requires
        t.wf(),
        t.has_cage(cageid),
    ensures
        match res {
            Ok(data) => t.slot(cageid, epfd) matches Some(ep) && ep.realfd == EPOLLFD && data.0
                == t.epolls@[ep.optionalinfo as int].realfd && (forall|v: u64|
                #[trigger] data.1@.contains_key(v) <==> watched_map_of(
                    t.epolls@[ep.optionalinfo as int].watched@,
                ).contains_key(v)) && (forall|v: u64|
                data.1@.contains_key(v) ==> #[trigger] data.1@[v] == watched_map_of(
                    t.epolls@[ep.optionalinfo as int].watched@,
                )[v]),
            Err(err) => match t.slot(cageid, epfd) {
                None => err == threei::EBADF,
                Some(ep) => ep.realfd != EPOLLFD && err == threei::EINVAL,
            },
        },
{
    let idx_opt = crate::table::find_cage_idx(t, cageid);
    let idx = idx_opt.unwrap();
    proof {
        lemma_cage_at(t, idx as int);
    }
    if epfd >= FD_PER_PROCESS_MAX {
        return Err(threei::EBADF);
    }
    let epollentrynum: u64 = match t.cages[idx].slots[epfd as usize] {
        None => {
            return Err(threei::EBADF);
        },
        Some(tableentry) => {
            if tableentry.realfd != EPOLLFD {
                return Err(threei::EINVAL);
            }
            tableentry.optionalinfo
        },
    };
    proof {
        assert(t.slot(cageid, epfd) == t.cages@[idx as int].slots@[epfd as int]);
        assert(match t.cages@[idx as int].slots@[epfd as int] {
            Some(en) => en.realfd != crate::commonconstants::INVALID_FD && (en.realfd == EPOLLFD
                ==> en.optionalinfo < t.epolls@.len()),
            None => true,
        });
        assert(epollentrynum < t.epolls@.len());
    }
    let epolls_len = t.epolls.len();
    proof {
        assert(epollentrynum < epolls_len as u64);
    }
    let eidx = epollentrynum as usize;
    let realepollfd = t.epolls[eidx].realfd;
    let ghost w = t.epolls@[eidx as int].watched@;
    let mut hm: std::collections::HashMap<u64, epoll_event> = std::collections::HashMap::new();
    let n = t.epolls[eidx].watched.len();
    let mut i: usize = 0;
    while i < n
        invariant
            t.wf(),
            eidx < t.epolls@.len(),
            w == t.epolls@[eidx as int].watched@,
            watched_wf(w),
            n == w.len(),
            i <= n,
            forall|j: int| 0 <= j < i ==> hm@.contains_key(#[trigger] w[j].0) && hm@[w[j].0]
                == w[j].1,
            forall|v: u64|
                #[trigger] hm@.contains_key(v) ==> watched_map_of(w).contains_key(v) && hm@[v]
                    == watched_map_of(w)[v],
        decreases n - i,
    {
        let pair = t.epolls[eidx].watched[i];
        let ghost hm0 = hm@;
        hm.insert(pair.0, pair.1);
        proof {
            lemma_watch_at(w, i as int);
            assert forall|j: int| 0 <= j < i + 1 implies hm@.contains_key(#[trigger] w[j].0)
                && hm@[w[j].0] == w[j].1 by {
                if j < i {
                    assert(w[j].0 != w[i as int].0);
                }
            }
            assert forall|v: u64|
                #[trigger] hm@.contains_key(v) implies watched_map_of(w).contains_key(v) && hm@[v]
                == watched_map_of(w)[v] by {
                if v != pair.0 {
                    assert(hm0.contains_key(v));
                }
            }
        }
        i = i + 1;
    }
    proof {
        assert forall|v: u64| watched_map_of(w).contains_key(v) implies #[trigger] hm@.contains_key(
            v,
        ) by {
            assert(seq_has_watch(w, v));
            let j = crate::table::seq_watch_at(w, v);
            assert(0 <= j < w.len() && w[j].0 == v);
            assert(hm@.contains_key(w[j].0));
        }
    }
    Ok((realepollfd, hm))
}

} // verus!
