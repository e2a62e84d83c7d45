//! The select translator: turns per-cage virtual descriptor bitmasks into
//! real-descriptor bitmasks for the kernel, segregating in-memory
//! descriptors the host must check itself, and turns the kernel's reply
//! back into virtual bitmasks.
//!
//! Masks use the kernel's bit-per-fd layout: bit `i` of word `i / 64`
//! stands for descriptor `i`.  The layout is preserved bit-exactly.

use vstd::prelude::*;

use crate::commonconstants::FD_PER_PROCESS_MAX;
use crate::commonconstants::NO_REAL_FD;
use crate::table::FdTables;
use crate::table::lemma_cage_at;
use crate::threei;

verus! {

broadcast use vstd::std_specs::hash::group_hash_axioms;

/// A descriptor-set bitmask in the kernel's bit-per-fd layout: 1024 bits in
/// sixteen 64-bit words.
#[derive(Clone, Copy, Debug)]
pub struct FdSet {
    /// Word `i / 64` holds bit `i % 64` of descriptor `i`.
    pub words: [u64; 16],
}

/// Whether descriptor `fd`'s bit is set.
pub open spec fn fdset_bit(s: FdSet, fd: u64) -> bool {
    fd < FD_PER_PROCESS_MAX && (s.words@[fd as int / 64] >> (fd % 64)) & 1 == 1
}

/// An empty descriptor set.
pub fn _init_fd_set() -> (s: FdSet)
    ensures
        forall|fd: u64| !fdset_bit(s, fd),
{
    let s = FdSet { words: [0, 0, 0, 0, 0, 0, 0, 0, 0, 0, 0, 0, 0, 0, 0, 0] };
    proof {
        assert forall|fd: u64| !fdset_bit(s, fd) by {
            if fd < FD_PER_PROCESS_MAX {
                let off = fd % 64;
                assert((0u64 >> off) & 1 == 0) by (bit_vector);
            }
        }
    }
    s
}

/// Sets descriptor `fd`'s bit, leaving every other bit as it was.
pub fn _fd_set(fd: u64, thisfdset: &mut FdSet)
    requires
        fd < FD_PER_PROCESS_MAX,
    ensures
        fdset_bit(*final(thisfdset), fd),
        forall|g: u64| g != fd ==> fdset_bit(*final(thisfdset), g) == fdset_bit(*old(thisfdset), g),
{
    let w: usize = (fd / 64) as usize;
    let off: u64 = fd % 64;
    let oldword: u64 = thisfdset.words[w];
    let neww: u64 = oldword | (1u64 << off);
    thisfdset.words[w] = neww;
    proof {
        assert((neww >> (fd % 64)) & 1 == 1) by (bit_vector)
            requires
                neww == oldword | (1u64 << (fd % 64)),
                fd < 1024,
        ;
        assert forall|g: u64|
            g != fd implies fdset_bit(*thisfdset, g) == fdset_bit(*old(thisfdset), g) by {
            if g < FD_PER_PROCESS_MAX {
                if g / 64 == fd / 64 {
                    assert((neww >> (g % 64)) & 1 == (oldword >> (g % 64)) & 1) by (bit_vector)
                        requires
                            neww == oldword | (1u64 << (fd % 64)),
                            g % 64 != fd % 64,
                            g < 1024,
                            fd < 1024,
                            g / 64 == fd / 64,
                    ;
                } else {
                    assert(thisfdset.words@[g as int / 64] == old(thisfdset).words@[g as int
                        / 64]);
                }
            }
        }
    }
}

/// Whether descriptor `fd`'s bit is set.
pub fn _fd_isset(fd: u64, thisfdset: &FdSet) -> (r: bool)
    requires
        fd < FD_PER_PROCESS_MAX,
    ensures
        r == fdset_bit(*thisfdset, fd),
{
    let w: usize = (fd / 64) as usize;
    let off: u64 = fd % 64;
    (thisfdset.words[w] >> off) & 1 == 1
}

/// Some bit of `[0, nfds)` selects an empty slot, which select rejects.
pub open spec fn mask_err(t: &FdTables, cageid: u64, mask: FdSet, nfds: int) -> bool
    decreases nfds,
{
    if nfds <= 0 {
        false
    } else {
        mask_err(t, cageid, mask, nfds - 1) || (fdset_bit(mask, (nfds - 1) as u64) && t.slot(
            cageid,
            (nfds - 1) as u64,
        ) is None)
    }
}

/// The `(virtfd, optionalinfo)` pairs of the selected unreal descriptors
/// below `nfds`, in ascending order.
pub open spec fn mask_unreals(t: &FdTables, cageid: u64, mask: FdSet, nfds: int) -> Seq<(u64, u64)>
    decreases nfds,
{
    if nfds <= 0 {
        Seq::empty()
    } else {
        mask_unreals(t, cageid, mask, nfds - 1) + (if fdset_bit(mask, (nfds - 1) as u64) && (
        t.slot(cageid, (nfds - 1) as u64) matches Some(e) && e.realfd == NO_REAL_FD) {
            seq![
                ((nfds - 1) as u64, t.slot(cageid, (nfds - 1) as u64).unwrap().optionalinfo),
            ]
        } else {
            Seq::empty()
        })
    }
}

/// The reverse mapping accumulated over the selected non-unreal bits below
/// `nfds`, starting from `m0`: each maps its slot's `realfd` back to the
/// virtual descriptor.
pub open spec fn mask_mapping(
    t: &FdTables,
    cageid: u64,
    mask: FdSet,
    nfds: int,
    m0: Map<u64, u64>,
) -> Map<u64, u64>
    decreases nfds,
{
    if nfds <= 0 {
        m0
    } else {
        let m = mask_mapping(t, cageid, mask, nfds - 1, m0);
        if fdset_bit(mask, (nfds - 1) as u64) && (t.slot(cageid, (nfds - 1) as u64) matches Some(e)
            && e.realfd != NO_REAL_FD) {
            m.insert(t.slot(cageid, (nfds - 1) as u64).unwrap().realfd, (nfds - 1) as u64)
        } else {
            m
        }
    }
}

/// One more than the largest real descriptor selected below `nfds`, zero
/// when none is: what the kernel wants as its own `nfds`.
pub open spec fn mask_highest(t: &FdTables, cageid: u64, mask: FdSet, nfds: int) -> int
    decreases nfds,
{
    if nfds <= 0 {
        0
    } else {
        let h = mask_highest(t, cageid, mask, nfds - 1);
        if fdset_bit(mask, (nfds - 1) as u64) && (t.slot(cageid, (nfds - 1) as u64) matches Some(e)
            && e.realfd != NO_REAL_FD) {
            let r1 = t.slot(cageid, (nfds - 1) as u64).unwrap().realfd + 1;
            if r1 > h {
                r1
            } else {
                h
            }
        } else {
            h
        }
    }
}

/// Whether some selected bit below `nfds` sits in a slot holding real
/// descriptor `b`: exactly the bits of the translated mask.
pub open spec fn mask_real_selected(
    t: &FdTables,
    cageid: u64,
    mask: FdSet,
    nfds: int,
    b: u64,
) -> bool {
    exists|v: u64|
        v < nfds && #[trigger] fdset_bit(mask, v) && (t.slot(cageid, v) matches Some(e)
            && e.realfd != NO_REAL_FD && e.realfd == b)
}

/// Every selected non-unreal descriptor below `nfds` fits the kernel's
/// 1024-bit mask; a kernel fd never exceeds it, so this only excludes
/// stored sentinel values.
pub open spec fn mask_fits(t: &FdTables, cageid: u64, mask: FdSet, nfds: int) -> bool {
    forall|v: u64|
        v < nfds && #[trigger] fdset_bit(mask, v) ==> match t.slot(cageid, v) {
            Some(e) => e.realfd == NO_REAL_FD || e.realfd < FD_PER_PROCESS_MAX,
            None => true,
        }
}

/// A rejected bit below a shorter bound is rejected below a longer one.
proof fn lemma_mask_err_mono(t: &FdTables, cageid: u64, mask: FdSet, n1: int, n2: int)
    requires
        0 <= n1 <= n2,
        mask_err(t, cageid, mask, n1),
    ensures
        mask_err(t, cageid, mask, n2),
    decreases n2,
{
    if n2 > n1 {
        lemma_mask_err_mono(t, cageid, mask, n1, n2 - 1);
    }
}

/// Translates one virtual mask: sets the real bits, collects the unreal
/// pairs, extends the reverse mapping, and reports the highest real bit.
fn do_bitmods(
    t: &FdTables,
    cage_idx: usize,
    cageid: u64,
    nfds: u64,
    infdset: &FdSet,
    mappingtable: &mut std::collections::HashMap<u64, u64>,
) -> (res: Result<(u64, FdSet, Vec<(u64, u64)>), threei::RetVal>)
    requires
        t.wf(),
        t.has_cage(cageid),
        cage_idx < t.cages@.len(),
        t.cages@[cage_idx as int].cageid == cageid,
        t.cage_at(cageid) == cage_idx,
        nfds <= FD_PER_PROCESS_MAX,
        mask_fits(t, cageid, *infdset, nfds as int),
    ensures
        match res {
            Ok(out) => {
                &&& !mask_err(t, cageid, *infdset, nfds as int)
                &&& out.0 == mask_highest(t, cageid, *infdset, nfds as int)
                &&& (forall|b: u64|
                    #[trigger] fdset_bit(out.1, b) == mask_real_selected(
                        t,
                        cageid,
                        *infdset,
                        nfds as int,
                        b,
                    ))
                &&& out.2@ == mask_unreals(t, cageid, *infdset, nfds as int)
                &&& final(mappingtable)@ == mask_mapping(
                    t,
                    cageid,
                    *infdset,
                    nfds as int,
                    old(mappingtable)@,
                )
            },
            Err(e) => e == threei::EINVAL && mask_err(t, cageid, *infdset, nfds as int),
        },
{
    let mut unrealvec: Vec<(u64, u64)> = Vec::new();
    let mut retset = _init_fd_set();
    let mut highestpos: u64 = 0;
    let ghost m0 = mappingtable@;
    let mut bit: u64 = 0;
    while bit < nfds
        invariant
            t.wf(),
            t.has_cage(cageid),
            cage_idx < t.cages@.len(),
            t.cages@[cage_idx as int].cageid == cageid,
            t.cage_at(cageid) == cage_idx,
            nfds <= FD_PER_PROCESS_MAX,
            mask_fits(t, cageid, *infdset, nfds as int),
            bit <= nfds,
            !mask_err(t, cageid, *infdset, bit as int),
            highestpos == mask_highest(t, cageid, *infdset, bit as int),
            forall|b: u64|
                #[trigger] fdset_bit(retset, b) == mask_real_selected(
                    t,
                    cageid,
                    *infdset,
                    bit as int,
                    b,
                ),
            unrealvec@ == mask_unreals(t, cageid, *infdset, bit as int),
            mappingtable@ == mask_mapping(t, cageid, *infdset, bit as int, m0),
        decreases nfds - bit,
    {
        let pos = bit;
        if _fd_isset(pos, infdset) {
            let slotval = t.cages[cage_idx].slots[pos as usize];
            proof {
                assert(slotval == t.slot(cageid, pos));
            }
            match slotval {
                Some(entry) => {
                    if entry.realfd == NO_REAL_FD {
                        unrealvec.push((pos, entry.optionalinfo));
                    } else {
                        mappingtable.insert(entry.realfd, pos);
                        _fd_set(entry.realfd, &mut retset);
                        if entry.realfd + 1 > highestpos {
                            highestpos = entry.realfd + 1;
                        }
                        proof {
                            assert forall|b: u64|
                                #[trigger] fdset_bit(retset, b) == mask_real_selected(
                                t,
                                cageid,
                                *infdset,
                                bit + 1,
                                b,
                            ) by {
                                if b == entry.realfd {
                                    assert(fdset_bit(*infdset, pos));
                                    assert(mask_real_selected(t, cageid, *infdset, bit + 1, b));
                                } else {
                                    assert(fdset_bit(retset, b) == mask_real_selected(
                                        t,
                                        cageid,
                                        *infdset,
                                        bit as int,
                                        b,
                                    ));
                                    if mask_real_selected(t, cageid, *infdset, bit + 1, b) {
                                        let v = choose|v: u64|
                                            v < bit + 1 && #[trigger] fdset_bit(*infdset, v) && (
                                            t.slot(cageid, v) matches Some(e) && e.realfd
                                                != NO_REAL_FD && e.realfd == b);
                                        assert(v != pos);
                                        assert(mask_real_selected(
                                            t,
                                            cageid,
                                            *infdset,
                                            bit as int,
                                            b,
                                        ));
                                    }
                                }
                            }
                        }
                    }
                },
                None => {
                    proof {
                        assert(mask_err(t, cageid, *infdset, bit + 1));
                        lemma_mask_err_mono(t, cageid, *infdset, bit + 1, nfds as int);
                    }
                    return Err(threei::EINVAL);
                },
            }
        } else {
            proof {
                assert forall|b: u64|
                    #[trigger] fdset_bit(retset, b) == mask_real_selected(
                    t,
                    cageid,
                    *infdset,
                    bit + 1,
                    b,
                ) by {
                    if mask_real_selected(t, cageid, *infdset, bit + 1, b) {
                        let v = choose|v: u64|
                            v < bit + 1 && #[trigger] fdset_bit(*infdset, v) && (t.slot(cageid, v)
                                matches Some(e) && e.realfd != NO_REAL_FD && e.realfd == b);
                        assert(v != pos);
                        assert(mask_real_selected(t, cageid, *infdset, bit as int, b));
                    }
                    if mask_real_selected(t, cageid, *infdset, bit as int, b) {
                        assert(mask_real_selected(t, cageid, *infdset, bit + 1, b));
                    }
                }
            }
        }
        bit = bit + 1;
    }
    Ok((highestpos, retset, unrealvec))
}

/// Translates up to three virtual select masks into real ones.  Fails with
/// `EINVAL` when `nfds` reaches the per-cage maximum or a selected bit sits
/// in an empty slot.  On success hands back the kernel's `nfds` (the
/// highest selected real descriptor plus one), one translated mask per
/// given input mask, the selected unreal descriptors of each mask, and one
/// reverse mapping covering all three masks for the reply.
pub fn get_real_bitmasks_for_select(
    t: &FdTables,
    cageid: u64,
    nfds: u64,
    readbits: Option<FdSet>,
    writebits: Option<FdSet>,
    exceptbits: Option<FdSet>,
) -> (res: Result<
    (u64, Option<FdSet>, Option<FdSet>, Option<FdSet>, [Vec<(u64, u64)>; 3], std::collections::HashMap<
        u64,
        u64,
    >),
    threei::RetVal,
>)
    requires
        t.wf(),
        t.has_cage(cageid),
        readbits matches Some(m) ==> mask_fits(t, cageid, m, nfds as int),
        writebits matches Some(m) ==> mask_fits(t, cageid, m, nfds as int),
        exceptbits matches Some(m) ==> mask_fits(t, cageid, m, nfds as int),
    ensures
        match res {
            Ok(out) => {
                &&& nfds < FD_PER_PROCESS_MAX
                &&& (readbits matches Some(m) ==> !mask_err(t, cageid, m, nfds as int))
                &&& (writebits matches Some(m) ==> !mask_err(t, cageid, m, nfds as int))
                &&& (exceptbits matches Some(m) ==> !mask_err(t, cageid, m, nfds as int))
                &&& out.1 is Some == readbits is Some
                &&& out.2 is Some == writebits is Some
                &&& out.3 is Some == exceptbits is Some
                &&& (readbits matches Some(m) ==> (forall|b: u64|
                    #[trigger] fdset_bit(out.1.unwrap(), b) == mask_real_selected(
                        t,
                        cageid,
                        m,
                        nfds as int,
                        b,
                    )) && out.4[0]@ == mask_unreals(t, cageid, m, nfds as int))
                &&& (writebits matches Some(m) ==> (forall|b: u64|
                    #[trigger] fdset_bit(out.2.unwrap(), b) == mask_real_selected(
                        t,
                        cageid,
                        m,
                        nfds as int,
                        b,
                    )) && out.4[1]@ == mask_unreals(t, cageid, m, nfds as int))
                &&& (exceptbits matches Some(m) ==> (forall|b: u64|
                    #[trigger] fdset_bit(out.3.unwrap(), b) == mask_real_selected(
                        t,
                        cageid,
                        m,
                        nfds as int,
                        b,
                    )) && out.4[2]@ == mask_unreals(t, cageid, m, nfds as int))
                &&& (readbits is None ==> out.4[0]@ == Seq::<(u64, u64)>::empty())
                &&& (writebits is None ==> out.4[1]@ == Seq::<(u64, u64)>::empty())
                &&& (exceptbits is None ==> out.4[2]@ == Seq::<(u64, u64)>::empty())
                &&& out.0 == select_new_nfds(t, cageid, nfds as int, readbits, writebits, exceptbits)
                &&& out.5@ == select_mapping(t, cageid, nfds as int, readbits, writebits, exceptbits)
            },
            Err(e) => {
                &&& e == threei::EINVAL
                &&& (nfds >= FD_PER_PROCESS_MAX || (readbits matches Some(m) && mask_err(
                    t,
                    cageid,
                    m,
                    nfds as int,
                )) || (writebits matches Some(m) && mask_err(t, cageid, m, nfds as int)) || (
                exceptbits matches Some(m) && mask_err(t, cageid, m, nfds as int)))
            },
        },
{
    if nfds >= FD_PER_PROCESS_MAX {
        return Err(threei::EINVAL);
    }
    let idx_opt = crate::table::find_cage_idx(t, cageid);
    let idx = idx_opt.unwrap();
    proof {
        lemma_cage_at(t, idx as int);
    }
    let mut mappingtable: std::collections::HashMap<u64, u64> = std::collections::HashMap::new();
    let mut newnfds: u64 = 0;
    let empty0: Vec<(u64, u64)> = Vec::new();
    let empty1: Vec<(u64, u64)> = Vec::new();
    let empty2: Vec<(u64, u64)> = Vec::new();
    let mut unrealarray: [Vec<(u64, u64)>; 3] = [empty0, empty1, empty2];
    let retread: Option<FdSet> = match readbits {
        Some(ref inset) => {
            let (thisnfds, retset, unreals) = do_bitmods(
                t,
                idx,
                cageid,
                nfds,
                inset,
                &mut mappingtable,
            )?;
            unrealarray[0] = unreals;
            if thisnfds > newnfds {
                newnfds = thisnfds;
            }
            Some(retset)
        },
        None => None,
    };
    let retwrite: Option<FdSet> = match writebits {
        Some(ref inset) => {
            let (thisnfds, retset, unreals) = do_bitmods(
                t,
                idx,
                cageid,
                nfds,
                inset,
                &mut mappingtable,
            )?;
            unrealarray[1] = unreals;
            if thisnfds > newnfds {
                newnfds = thisnfds;
            }
            Some(retset)
        },
        None => None,
    };
    let retexcept: Option<FdSet> = match exceptbits {
        Some(ref inset) => {
            let (thisnfds, retset, unreals) = do_bitmods(
                t,
                idx,
                cageid,
                nfds,
                inset,
                &mut mappingtable,
            )?;
            unrealarray[2] = unreals;
            if thisnfds > newnfds {
                newnfds = thisnfds;
            }
            Some(retset)
        },
        None => None,
    };
    Ok((newnfds, retread, retwrite, retexcept, unrealarray, mappingtable))
}

/// The kernel `nfds` the translation owes: the maximum of the three masks'
/// highest selected real descriptor plus one.
pub open spec fn select_new_nfds(
    t: &FdTables,
    cageid: u64,
    nfds: int,
    readbits: Option<FdSet>,
    writebits: Option<FdSet>,
    exceptbits: Option<FdSet>,
) -> int {
    let hr = match readbits {
        Some(m) => mask_highest(t, cageid, m, nfds),
        None => 0,
    };
    let hw = match writebits {
        Some(m) => mask_highest(t, cageid, m, nfds),
        None => 0,
    };
    let he = match exceptbits {
        Some(m) => mask_highest(t, cageid, m, nfds),
        None => 0,
    };
    let h1 = if hw > hr {
        hw
    } else {
        hr
    };
    if he > h1 {
        he
    } else {
        h1
    }
}

/// The reverse mapping the translation owes: the read, write and except
/// masks' contributions accumulated in that order.
pub open spec fn select_mapping(
    t: &FdTables,
    cageid: u64,
    nfds: int,
    readbits: Option<FdSet>,
    writebits: Option<FdSet>,
    exceptbits: Option<FdSet>,
) -> Map<u64, u64> {
    let m1 = match readbits {
        Some(m) => mask_mapping(t, cageid, m, nfds, Map::empty()),
        None => Map::empty(),
    };
    let m2 = match writebits {
        Some(m) => mask_mapping(t, cageid, m, nfds, m1),
        None => m1,
    };
    match exceptbits {
        Some(m) => mask_mapping(t, cageid, m, nfds, m2),
        None => m2,
    }
}

/// How many distinct descriptors of `[0, n)` the mask selects.
pub open spec fn popcount(s: FdSet, n: int) -> nat
    decreases n,
{
    if n <= 0 {
        0nat
    } else {
        popcount(s, n - 1) + (if fdset_bit(s, (n - 1) as u64) {
            1nat
        } else {
            0nat
        })
    }
}

/// A mask selects at most `n` descriptors below `n`.
proof fn lemma_popcount_le(s: FdSet, n: int)
    requires
        n >= 0,
    ensures
        popcount(s, n) <= n,
    decreases n,
{
    if n > 0 {
        lemma_popcount_le(s, n - 1);
    }
}

/// A mask with no bit set selects nothing.
proof fn lemma_popcount_zero(s: FdSet, n: int)
    requires
        forall|fd: u64| !fdset_bit(s, fd),
    ensures
        popcount(s, n) == 0,
    decreases n,
{
    if n > 0 {
        lemma_popcount_zero(s, n - 1);
    }
}

/// Setting one clear bit raises the count of every range that covers it by
/// one and leaves the others alone.
proof fn lemma_popcount_set(s1: FdSet, s2: FdSet, g: u64, n: int)
    requires
        0 <= n <= FD_PER_PROCESS_MAX,
        g < FD_PER_PROCESS_MAX,
        !fdset_bit(s1, g),
        fdset_bit(s2, g),
        forall|b: u64| b != g ==> fdset_bit(s2, b) == fdset_bit(s1, b),
    ensures
        popcount(s2, n) == popcount(s1, n) + if g < n {
            1nat
        } else {
            0nat
        },
    decreases n,
{
    if n > 0 {
        lemma_popcount_set(s1, s2, g, n - 1);
        if g == (n - 1) as u64 {
            assert(fdset_bit(s2, g) && !fdset_bit(s1, g));
        } else {
            assert(fdset_bit(s2, (n - 1) as u64) == fdset_bit(s1, (n - 1) as u64));
        }
    }
}

/// Turns the kernel's reply masks back into virtual ones through the
/// reverse mapping, merges in the unreal descriptors the host found ready
/// itself, and counts the distinct ready descriptors of each mask once,
/// even when the host reports a descriptor that is also in the reply.
pub fn get_virtual_bitmasks_from_select_result(
    nfds: u64,
    readbits: FdSet,
    writebits: FdSet,
    exceptbits: FdSet,
    unrealreadset: Vec<u64>,
    unrealwriteset: Vec<u64>,
    unrealexceptset: Vec<u64>,
    mappingtable: &std::collections::HashMap<u64, u64>,
) -> (res: Result<(u64, FdSet, FdSet, FdSet), threei::RetVal>)
    requires
        nfds < FD_PER_PROCESS_MAX,
        forall|b: u64|
            b < nfds && #[trigger] fdset_bit(readbits, b) ==> mappingtable@.contains_key(b)
                && mappingtable@[b] < FD_PER_PROCESS_MAX,
        forall|b: u64|
            b < nfds && #[trigger] fdset_bit(writebits, b) ==> mappingtable@.contains_key(b)
                && mappingtable@[b] < FD_PER_PROCESS_MAX,
        forall|b: u64|
            b < nfds && #[trigger] fdset_bit(exceptbits, b) ==> mappingtable@.contains_key(b)
                && mappingtable@[b] < FD_PER_PROCESS_MAX,
        forall|i: int|
            0 <= i < unrealreadset@.len() ==> #[trigger] unrealreadset@[i] < FD_PER_PROCESS_MAX,
        forall|i: int|
            0 <= i < unrealwriteset@.len() ==> #[trigger] unrealwriteset@[i] < FD_PER_PROCESS_MAX,
        forall|i: int|
            0 <= i < unrealexceptset@.len() ==> #[trigger] unrealexceptset@[i] < FD_PER_PROCESS_MAX,
    ensures
        match res {
            Ok(out) => {
                &&& (forall|g: u64|
                    #[trigger] fdset_bit(out.1, g) == reply_bit(
                        nfds,
                        readbits,
                        unrealreadset@,
                        mappingtable@,
                        g,
                    ))
                &&& (forall|g: u64|
                    #[trigger] fdset_bit(out.2, g) == reply_bit(
                        nfds,
                        writebits,
                        unrealwriteset@,
                        mappingtable@,
                        g,
                    ))
                &&& (forall|g: u64|
                    #[trigger] fdset_bit(out.3, g) == reply_bit(
                        nfds,
                        exceptbits,
                        unrealexceptset@,
                        mappingtable@,
                        g,
                    ))
                &&& out.0 == popcount(out.1, FD_PER_PROCESS_MAX as int) + popcount(
                    out.2,
                    FD_PER_PROCESS_MAX as int,
                ) + popcount(out.3, FD_PER_PROCESS_MAX as int)
            },
            Err(_) => false,
        },
{
    let mut flagsset: u64 = 0;
    let r = one_reply_mask(nfds, &readbits, &unrealreadset, mappingtable, &mut flagsset);
    let w = one_reply_mask(nfds, &writebits, &unrealwriteset, mappingtable, &mut flagsset);
    let e = one_reply_mask(nfds, &exceptbits, &unrealexceptset, mappingtable, &mut flagsset);
    Ok((flagsset, r, w, e))
}

/// Whether the virtual reply mask owes a set bit for descriptor `g`: the
/// kernel reported a real descriptor that maps back to `g`, or the host
/// reported unreal descriptor `g` ready.
pub open spec fn reply_bit(
    nfds: u64,
    inset: FdSet,
    unrealset: Seq<u64>,
    mapping: Map<u64, u64>,
    g: u64,
) -> bool {
    (exists|b: u64|
        b < nfds && #[trigger] fdset_bit(inset, b) && mapping.contains_key(b) && mapping[b] == g)
        || unrealset.contains(g)
}

/// Builds one virtual reply mask and adds its distinct descriptors to the
/// running count.
fn one_reply_mask(
    nfds: u64,
    inset: &FdSet,
    unrealset: &Vec<u64>,
    mappingtable: &std::collections::HashMap<u64, u64>,
    flagsset: &mut u64,
) -> (out: FdSet)
    requires
        nfds < FD_PER_PROCESS_MAX,
        *old(flagsset) <= 2 * FD_PER_PROCESS_MAX,
        forall|b: u64|
            b < nfds && #[trigger] fdset_bit(*inset, b) ==> mappingtable@.contains_key(b)
                && mappingtable@[b] < FD_PER_PROCESS_MAX,
        forall|i: int|
            0 <= i < unrealset@.len() ==> #[trigger] unrealset@[i] < FD_PER_PROCESS_MAX,
    ensures
        forall|g: u64|
            #[trigger] fdset_bit(out, g) == reply_bit(nfds, *inset, unrealset@, mappingtable@, g),
        *final(flagsset) == *old(flagsset) + popcount(out, FD_PER_PROCESS_MAX as int),
        *final(flagsset) <= *old(flagsset) + FD_PER_PROCESS_MAX,
{
    let mut retbits = _init_fd_set();
    proof {
        lemma_popcount_zero(retbits, FD_PER_PROCESS_MAX as int);
    }
    let ghost f0 = *flagsset;
    let mut count: u64 = 0;
    let mut bit: u64 = 0;
    while bit < nfds
        invariant
            nfds < FD_PER_PROCESS_MAX,
            bit <= nfds,
            forall|b: u64|
                b < nfds && #[trigger] fdset_bit(*inset, b) ==> mappingtable@.contains_key(b)
                    && mappingtable@[b] < FD_PER_PROCESS_MAX,
            forall|g: u64|
                #[trigger] fdset_bit(retbits, g) == (exists|b: u64|
                    b < bit && #[trigger] fdset_bit(*inset, b) && mappingtable@.contains_key(b)
                        && mappingtable@[b] == g),
            count == popcount(retbits, FD_PER_PROCESS_MAX as int),
        decreases nfds - bit,
    {
        let pos = bit;
        if _fd_isset(pos, inset) {
            let target = *mappingtable.get(&pos).unwrap();
            if !_fd_isset(target, &retbits) {
                let ghost pre = retbits;
                flags_add_one(&mut count, target, &mut retbits);
                proof {
                    assert forall|g: u64|
                        #[trigger] fdset_bit(retbits, g) == (exists|b: u64|
                        b < bit + 1 && #[trigger] fdset_bit(*inset, b) && mappingtable@.contains_key(
                            b,
                        ) && mappingtable@[b] == g) by {
                        if g == target {
                            assert(fdset_bit(*inset, pos));
                        } else {
                            assert(fdset_bit(retbits, g) == fdset_bit(pre, g));
                            if exists|b: u64|
                                b < bit + 1 && #[trigger] fdset_bit(*inset, b)
                                    && mappingtable@.contains_key(b) && mappingtable@[b] == g {
                                let b = choose|b: u64|
                                    b < bit + 1 && #[trigger] fdset_bit(*inset, b)
                                        && mappingtable@.contains_key(b) && mappingtable@[b] == g;
                                assert(b != pos);
                            }
                        }
                    }
                }
            } else {
                proof {
                    assert forall|g: u64|
                        #[trigger] fdset_bit(retbits, g) == (exists|b: u64|
                        b < bit + 1 && #[trigger] fdset_bit(*inset, b) && mappingtable@.contains_key(
                            b,
                        ) && mappingtable@[b] == g) by {
                        if g == target {
                            assert(fdset_bit(*inset, pos));
                        } else {
                            if exists|b: u64|
                                b < bit + 1 && #[trigger] fdset_bit(*inset, b)
                                    && mappingtable@.contains_key(b) && mappingtable@[b] == g {
                                let b = choose|b: u64|
                                    b < bit + 1 && #[trigger] fdset_bit(*inset, b)
                                        && mappingtable@.contains_key(b) && mappingtable@[b] == g;
                                assert(b != pos);
                            }
                        }
                    }
                }
            }
        } else {
            proof {
                assert forall|g: u64|
                    #[trigger] fdset_bit(retbits, g) == (exists|b: u64|
                    b < bit + 1 && #[trigger] fdset_bit(*inset, b) && mappingtable@.contains_key(b)
                        && mappingtable@[b] == g) by {
                    if exists|b: u64|
                        b < bit + 1 && #[trigger] fdset_bit(*inset, b) && mappingtable@.contains_key(
                            b,
                        ) && mappingtable@[b] == g {
                        let b = choose|b: u64|
                            b < bit + 1 && #[trigger] fdset_bit(*inset, b)
                                && mappingtable@.contains_key(b) && mappingtable@[b] == g;
                        assert(b != pos);
                    }
                }
            }
        }
        bit = bit + 1;
    }
    let n = unrealset.len();
    let mut i: usize = 0;
    while i < n
        invariant
            n == unrealset@.len(),
            i <= n,
            forall|j: int|
                0 <= j < unrealset@.len() ==> #[trigger] unrealset@[j] < FD_PER_PROCESS_MAX,
            forall|g: u64|
                #[trigger] fdset_bit(retbits, g) == ((exists|b: u64|
                    b < nfds && #[trigger] fdset_bit(*inset, b) && mappingtable@.contains_key(b)
                        && mappingtable@[b] == g) || unrealset@.take(i as int).contains(g)),
            count == popcount(retbits, FD_PER_PROCESS_MAX as int),
        decreases n - i,
    {
        let virtfd = unrealset[i];
        proof {
            assert(unrealset@.take(i + 1).drop_last() =~= unrealset@.take(i as int));
            assert(unrealset@.take(i + 1).last() == unrealset@[i as int]);
        }
        if !_fd_isset(virtfd, &retbits) {
            flags_add_one(&mut count, virtfd, &mut retbits);
        }
        proof {
            assert forall|g: u64|
                #[trigger] fdset_bit(retbits, g) == ((exists|b: u64|
                b < nfds && #[trigger] fdset_bit(*inset, b) && mappingtable@.contains_key(b)
                    && mappingtable@[b] == g) || unrealset@.take(i + 1).contains(g)) by {
                if unrealset@.take(i + 1).contains(g) {
                    let j = choose|j: int| 0 <= j < i + 1 && #[trigger] unrealset@.take(i + 1)[j] == g;
                    if j < i {
                        assert(unrealset@.take(i as int)[j] == g);
                        assert(unrealset@.take(i as int).contains(g));
                    }
                    assert(fdset_bit(retbits, g));
                }
                if unrealset@.take(i as int).contains(g) {
                    let j = choose|j: int| 0 <= j < i && #[trigger] unrealset@.take(i as int)[j] == g;
                    assert(unrealset@.take(i + 1)[j] == g);
                    assert(unrealset@.take(i + 1).contains(g));
                }
                if g == unrealset@[i as int] {
                    assert(unrealset@.take(i + 1)[i as int] == g);
                    assert(unrealset@.take(i + 1).contains(g));
                }
            }
        }
        i = i + 1;
    }
    proof {
        assert(unrealset@.take(n as int) =~= unrealset@);
        assert forall|g: u64|
            #[trigger] fdset_bit(retbits, g) == reply_bit(
            nfds,
            *inset,
            unrealset@,
            mappingtable@,
            g,
        ) by {}
    }
    proof {
        lemma_popcount_le(retbits, FD_PER_PROCESS_MAX as int);
    }
    let newflags = *flagsset + count;
    *flagsset = newflags;
    retbits
}

/// Sets a fresh bit and counts it.
fn flags_add_one(count: &mut u64, g: u64, retbits: &mut FdSet)
    requires
        g < FD_PER_PROCESS_MAX,
        !fdset_bit(*old(retbits), g),
        *old(count) == popcount(*old(retbits), FD_PER_PROCESS_MAX as int),
    ensures
        fdset_bit(*final(retbits), g),
        forall|b: u64|
            b != g ==> fdset_bit(*final(retbits), b) == fdset_bit(*old(retbits), b),
        *final(count) == *old(count) + 1,
        *final(count) == popcount(*final(retbits), FD_PER_PROCESS_MAX as int),
{
    let ghost pre = *retbits;
    proof {
        lemma_popcount_le(pre, FD_PER_PROCESS_MAX as int);
    }
    _fd_set(g, retbits);
    *count = *count + 1;
    proof {
        lemma_popcount_set(pre, *retbits, g, FD_PER_PROCESS_MAX as int);
    }
}

} // verus!
