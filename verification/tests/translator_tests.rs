//! The poll, select and epoll translators, driven through the public API.

use fdtables::EPOLLIN;
use fdtables::EPOLLOUT;
use fdtables::EPOLL_CTL_ADD;
use fdtables::EPOLL_CTL_DEL;
use fdtables::EPOLL_CTL_MOD;
use fdtables::INVALID_FD;
use fdtables::NO_REAL_FD;
use fdtables::convert_realfds_back_to_virtual;
use fdtables::convert_virtualfds_to_real;
use fdtables::epoll_create_helper;
use fdtables::epoll_event;
use fdtables::get_epoll_wait_data;
use fdtables::get_real_bitmasks_for_select;
use fdtables::get_specific_virtual_fd;
use fdtables::get_virtual_bitmasks_from_select_result;
use fdtables::refresh;
use fdtables::threei;
use fdtables::try_epoll_ctl;
use fdtables::_fd_isset;
use fdtables::_fd_set;
use fdtables::_init_fd_set;

#[test]
// check some common poll cases...
fn check_poll_helpers() {
    let mut t = refresh();

    let cage_id = threei::TESTING_CAGEID;

    // get_specific_virtual_fd(cage_id, VIRTFD, REALFD, CLOEXEC, OPTINFO)
    get_specific_virtual_fd(&mut t, cage_id, 3, 7, false, 10).unwrap();
    get_specific_virtual_fd(&mut t, cage_id, 5, NO_REAL_FD, false, 123).unwrap();
    get_specific_virtual_fd(&mut t, cage_id, 9, 20, true, 0).unwrap();

    let (mut realfds, unrealfds, invalidfds, mappingtable) =
        convert_virtualfds_to_real(&t, cage_id, vec![1, 3, 5, 9]);

    assert_eq!(realfds.len(), 4);
    assert_eq!(unrealfds.len(), 1);
    assert_eq!(invalidfds.len(), 1);
    assert_eq!(realfds, vec!(INVALID_FD, 7, NO_REAL_FD, 20));
    assert_eq!(invalidfds, vec!(1));
    assert_eq!(unrealfds, vec!((5, 123)));

    // Toss out the unreal and invalid ones...
    realfds.retain(|&realfd| realfd != NO_REAL_FD && realfd != INVALID_FD);

    // poll(...)  // let's pretend that realfd 7 had its event triggered...
    let newrealfds = convert_realfds_back_to_virtual(vec![7], &mappingtable);
    // virtfd 3 should be returned
    assert_eq!(newrealfds, vec!(3));
}

#[test]
// A poll vector of real-only descriptors with distinct real descriptors
// survives the round trip unchanged, order and multiplicity included.
fn poll_round_trip_identity() {
    let mut t = refresh();

    let cage_id = threei::TESTING_CAGEID;
    get_specific_virtual_fd(&mut t, cage_id, 2, 30, false, 0).unwrap();
    get_specific_virtual_fd(&mut t, cage_id, 4, 31, false, 0).unwrap();
    get_specific_virtual_fd(&mut t, cage_id, 6, 32, false, 0).unwrap();

    let virtualfds = vec![4, 2, 6, 2];
    let (realfds, unrealfds, invalidfds, mappingtable) =
        convert_virtualfds_to_real(&t, cage_id, virtualfds.clone());
    assert_eq!(realfds, vec![31, 30, 32, 30]);
    assert!(unrealfds.is_empty());
    assert!(invalidfds.is_empty());

    let back = convert_realfds_back_to_virtual(realfds, &mappingtable);
    assert_eq!(back, virtualfds);
}

#[test]
// check some common epoll cases...
fn check_epoll_helpers() {
    let mut t = refresh();

    let cage_id = threei::TESTING_CAGEID;

    let virtfd1 = 5;
    let virtfd2 = 6;
    let virtfd3 = 10;
    let realfd = 20;
    let epollrealfd = 100;
    // get_specific_virtual_fd(cage_id, VIRTFD, REALFD, CLOEXEC, OPTINFO)
    get_specific_virtual_fd(&mut t, cage_id, virtfd1, NO_REAL_FD, false, 123).unwrap();
    get_specific_virtual_fd(&mut t, cage_id, virtfd2, NO_REAL_FD, false, 456).unwrap();
    get_specific_virtual_fd(&mut t, cage_id, virtfd3, realfd, true, 0).unwrap();

    // get an epollfd...
    let epollfd = epoll_create_helper(&mut t, cage_id, epollrealfd, false).unwrap();

    let myevent1 = epoll_event {
        events: (EPOLLIN + EPOLLOUT) as u32,
        u64: 0,
    };
    let myevent2 = epoll_event {
        events: (EPOLLIN) as u32,
        u64: 0,
    };

    // try to add the realfd, which should fail and return the realfd
    assert_eq!(
        try_epoll_ctl(&mut t, cage_id, epollfd, EPOLL_CTL_ADD, virtfd3, myevent1.clone()).unwrap(),
        (epollrealfd, realfd)
    );
    // Nothing should have been added...
    assert_eq!(get_epoll_wait_data(&t, cage_id, epollfd).unwrap().1.len(), 0);

    // Add in one unrealfd...
    assert_eq!(
        try_epoll_ctl(&mut t, cage_id, epollfd, EPOLL_CTL_ADD, virtfd1, myevent1.clone()).unwrap(),
        (epollrealfd, NO_REAL_FD)
    );

    // Should have one item...
    assert_eq!(get_epoll_wait_data(&t, cage_id, epollfd).unwrap().1.len(), 1);

    // Delete it...
    assert_eq!(
        try_epoll_ctl(&mut t, cage_id, epollfd, EPOLL_CTL_DEL, virtfd1, myevent1.clone()).unwrap(),
        (epollrealfd, NO_REAL_FD)
    );

    // Back to zero...
    assert_eq!(get_epoll_wait_data(&t, cage_id, epollfd).unwrap().1.len(), 0);

    // Add in two unrealfds...
    assert_eq!(
        try_epoll_ctl(&mut t, cage_id, epollfd, EPOLL_CTL_ADD, virtfd1, myevent1.clone()).unwrap(),
        (epollrealfd, NO_REAL_FD)
    );
    assert_eq!(
        try_epoll_ctl(&mut t, cage_id, epollfd, EPOLL_CTL_ADD, virtfd2, myevent2.clone()).unwrap(),
        (epollrealfd, NO_REAL_FD)
    );
    assert_eq!(get_epoll_wait_data(&t, cage_id, epollfd).unwrap().1.len(), 2);

    // Check their event types are correct...
    assert_eq!(
        get_epoll_wait_data(&t, cage_id, epollfd).unwrap().1[&virtfd1].events,
        myevent1.events
    );
    assert_eq!(
        get_epoll_wait_data(&t, cage_id, epollfd).unwrap().1[&virtfd2].events,
        myevent2.events
    );

    // Let's switch one of them...
    assert_eq!(
        try_epoll_ctl(&mut t, cage_id, epollfd, EPOLL_CTL_MOD, virtfd1, myevent2.clone()).unwrap(),
        (epollrealfd, NO_REAL_FD)
    );
    // not anymore!
    assert_ne!(
        get_epoll_wait_data(&t, cage_id, epollfd).unwrap().1[&virtfd1].events,
        myevent1.events
    );
    // correct!
    assert_eq!(
        get_epoll_wait_data(&t, cage_id, epollfd).unwrap().1[&virtfd1].events,
        myevent2.events
    );
}

#[test]
// The epoll error alphabet: self-reference, duplicate adds, and changes
// to unwatched descriptors.
fn epoll_error_cases() {
    let mut t = refresh();

    let cage_id = threei::TESTING_CAGEID;
    get_specific_virtual_fd(&mut t, cage_id, 5, NO_REAL_FD, false, 123).unwrap();
    let epollfd = epoll_create_helper(&mut t, cage_id, 100, false).unwrap();

    let ev = epoll_event { events: EPOLLIN as u32, u64: 0 };

    // Self-reference is rejected.
    assert_eq!(
        try_epoll_ctl(&mut t, cage_id, epollfd, EPOLL_CTL_ADD, epollfd, ev.clone()),
        Err(threei::EINVAL)
    );
    // An empty target slot is rejected.
    assert_eq!(
        try_epoll_ctl(&mut t, cage_id, epollfd, EPOLL_CTL_ADD, 77, ev.clone()),
        Err(threei::EBADF)
    );
    // A non-aggregator epoll slot is rejected.
    assert_eq!(
        try_epoll_ctl(&mut t, cage_id, 5, EPOLL_CTL_ADD, epollfd, ev.clone()),
        Err(threei::EINVAL)
    );
    // Modify and delete of an unwatched descriptor are rejected.
    assert_eq!(
        try_epoll_ctl(&mut t, cage_id, epollfd, EPOLL_CTL_MOD, 5, ev.clone()),
        Err(threei::ENOENT)
    );
    assert_eq!(
        try_epoll_ctl(&mut t, cage_id, epollfd, EPOLL_CTL_DEL, 5, ev.clone()),
        Err(threei::ENOENT)
    );
    // A duplicate add is rejected, a bad op too.
    try_epoll_ctl(&mut t, cage_id, epollfd, EPOLL_CTL_ADD, 5, ev.clone()).unwrap();
    assert_eq!(
        try_epoll_ctl(&mut t, cage_id, epollfd, EPOLL_CTL_ADD, 5, ev.clone()),
        Err(threei::EEXIST)
    );
    assert_eq!(
        try_epoll_ctl(&mut t, cage_id, epollfd, 99, 5, ev.clone()),
        Err(threei::EINVAL)
    );
}

#[test]
// check some common select cases...
fn check_get_real_bitmasks_for_select() {
    let mut t = refresh();

    let cage_id = threei::TESTING_CAGEID;

    get_specific_virtual_fd(&mut t, cage_id, 3, 7, false, 10).unwrap();
    get_specific_virtual_fd(&mut t, cage_id, 5, NO_REAL_FD, false, 123).unwrap();

    let mut bad_fds_to_check = _init_fd_set();
    _fd_set(2, &mut bad_fds_to_check);

    // check all of the positions!
    assert!(
        get_real_bitmasks_for_select(&t, cage_id, 6, Some(bad_fds_to_check), None, None).is_err()
    );
    assert!(
        get_real_bitmasks_for_select(&t, cage_id, 6, None, Some(bad_fds_to_check), None).is_err()
    );
    assert!(
        get_real_bitmasks_for_select(&t, cage_id, 6, None, None, Some(bad_fds_to_check)).is_err()
    );

    // but if I drop the nfds too low, it is okay...
    assert!(
        get_real_bitmasks_for_select(&t, cage_id, 2, None, None, Some(bad_fds_to_check)).is_ok()
    );

    // too high also errors...
    assert!(
        get_real_bitmasks_for_select(&t, cage_id, 1024, None, None, Some(bad_fds_to_check))
            .is_err()
    );

    // recall, we set up some actual virtualfds above...
    let mut actual_fds_to_check = _init_fd_set();
    _fd_set(3, &mut actual_fds_to_check);
    _fd_set(5, &mut actual_fds_to_check);

    assert!(get_real_bitmasks_for_select(
        &t,
        cage_id,
        6,
        Some(actual_fds_to_check),
        Some(actual_fds_to_check),
        None
    )
    .is_ok());

    // let's peek closer at an actual call...
    let (_, realreadbits, realwritebits, realexceptbits, unrealitems, mappingtable) =
        get_real_bitmasks_for_select(&t, cage_id, 6, Some(actual_fds_to_check), None, None)
            .unwrap();
    assert!(realreadbits.is_some());
    assert!(realwritebits.is_none());
    assert!(realexceptbits.is_none());
    assert_eq!(unrealitems[0].len(), 1);
    assert_eq!(mappingtable.len(), 1);
}

#[test]
// The select translation scenario, end to end: bad bit rejected, real
// bits translated, unreal segregated, and the kernel reply mapped back.
fn select_translation_scenario() {
    let mut t = refresh();

    let cage_id = threei::TESTING_CAGEID;
    get_specific_virtual_fd(&mut t, cage_id, 3, 7, false, 10).unwrap();
    get_specific_virtual_fd(&mut t, cage_id, 5, NO_REAL_FD, false, 123).unwrap();
    get_specific_virtual_fd(&mut t, cage_id, 9, 20, true, 0).unwrap();

    // A mask with bit 1 selects an empty slot: EINVAL.
    let mut bad_mask = _init_fd_set();
    _fd_set(1, &mut bad_mask);
    _fd_set(3, &mut bad_mask);
    _fd_set(5, &mut bad_mask);
    _fd_set(9, &mut bad_mask);
    assert_eq!(
        get_real_bitmasks_for_select(&t, cage_id, 10, Some(bad_mask), None, None).unwrap_err(),
        threei::EINVAL
    );

    // A mask of just {3, 5, 9} translates.
    let mut mask = _init_fd_set();
    _fd_set(3, &mut mask);
    _fd_set(5, &mut mask);
    _fd_set(9, &mut mask);
    let (newnfds, readbits, _, _, unreal, mapping) =
        get_real_bitmasks_for_select(&t, cage_id, 10, Some(mask), None, None).unwrap();
    assert_eq!(newnfds, 21);
    let real = readbits.unwrap();
    assert!(_fd_isset(7, &real));
    assert!(_fd_isset(20, &real));
    assert!(!_fd_isset(3, &real));
    assert!(!_fd_isset(9, &real));
    assert_eq!(unreal[0], vec![(5, 123)]);
    assert_eq!(mapping.get(&7), Some(&3));
    assert_eq!(mapping.get(&20), Some(&9));

    // The kernel reply {7} translates back to virtual {3}.
    let mut reply = _init_fd_set();
    _fd_set(7, &mut reply);
    let empty = _init_fd_set();
    let (flags, vread, _, _) = get_virtual_bitmasks_from_select_result(
        newnfds,
        reply,
        empty,
        empty,
        Vec::new(),
        Vec::new(),
        Vec::new(),
        &mapping,
    )
    .unwrap();
    assert_eq!(flags, 1);
    assert!(_fd_isset(3, &vread));
    assert!(!_fd_isset(7, &vread));

    // An unreal descriptor the host found ready is merged in and not
    // double-counted.
    let (flags, vread, _, _) = get_virtual_bitmasks_from_select_result(
        newnfds,
        reply,
        empty,
        empty,
        vec![3, 5],
        Vec::new(),
        Vec::new(),
        &mapping,
    )
    .unwrap();
    assert_eq!(flags, 2);
    assert!(_fd_isset(3, &vread));
    assert!(_fd_isset(5, &vread));
}

#[test]
// With every slot taken, creating an aggregator fails with EMFILE and
// leaves no dangling epoll side-table entry behind.
fn epoll_create_when_full() {
    let mut t = refresh();

    let cage_id = threei::TESTING_CAGEID;
    for _ in 0..fdtables::FD_PER_PROCESS_MAX {
        fdtables::get_unused_virtual_fd(&mut t, cage_id, 10, false, 0).unwrap();
    }
    assert_eq!(
        epoll_create_helper(&mut t, cage_id, 100, false),
        Err(threei::EMFILE)
    );
    assert_eq!(t.epolls.len(), 0);
}
