//! Lifecycle and close-handler behaviour of the table, driven through the
//! public API with the host-side dispatch of owed close calls.

use fdtables::CloseCall;
use fdtables::CloseHandlers;
use fdtables::FDTableEntry;
use fdtables::FdTables;
use fdtables::NULL_FUNC;
use fdtables::NO_REAL_FD;
use fdtables::FD_PER_PROCESS_MAX;
use fdtables::close_virtualfd;
use fdtables::copy_fdtable_for_cage;
use fdtables::dispatch_close_call;
use fdtables::dispatch_close_calls;
use fdtables::empty_fds_for_exec;
use fdtables::get_optionalinfo;
use fdtables::get_specific_virtual_fd;
use fdtables::get_unused_virtual_fd;
use fdtables::init_empty_cage;
use fdtables::refresh;
use fdtables::register_close_handlers;
use fdtables::remove_cage_from_fdtable;
use fdtables::return_fdtable_copy;
use fdtables::set_cloexec;
use fdtables::set_optionalinfo;
use fdtables::threei;
use fdtables::translate_virtual_fd;

fn do_panic(_: u64) {
    panic!("do_panic!");
}

fn myfunc(_: u64) {}

/// Runs one optional owed close call through the handler set, as the host
/// does once an operation has committed.
fn dispatch_one<F: Fn(u64), G: Fn(u64), H: Fn(u64)>(
    handlers: &CloseHandlers<F, G, H>,
    call: Option<CloseCall>,
) {
    if let Some(c) = call {
        dispatch_close_call(handlers, c);
    }
}

/// The stored reference count of a real descriptor, if any.
fn count_of(t: &FdTables, realfd: u64) -> Option<u64> {
    for rc in &t.realcounts {
        if rc.realfd == realfd {
            return Some(rc.count);
        }
    }
    None
}

#[test]
// Basic test to ensure that I can get a virtual fd for a real fd and
// find the value in the table afterwards...
fn get_and_translate_work() {
    let mut t = refresh();

    let realfd_in: u64 = 10;
    let my_virt_fd = get_unused_virtual_fd(&mut t, threei::TESTING_CAGEID, realfd_in, false, 100)
        .unwrap();
    let _ = get_unused_virtual_fd(&mut t, threei::TESTING_CAGEID, realfd_in, false, 100).unwrap();
    let _ = get_unused_virtual_fd(&mut t, threei::TESTING_CAGEID, realfd_in, false, 100).unwrap();
    let _ = get_unused_virtual_fd(&mut t, threei::TESTING_CAGEID, realfd_in, false, 100).unwrap();
    assert_eq!(
        realfd_in,
        translate_virtual_fd(&t, threei::TESTING_CAGEID, my_virt_fd).unwrap()
    );
}

#[test]
// Allocation is first fit from zero: fresh slots come out in order.
fn first_fit_allocation_order() {
    let mut t = refresh();

    assert_eq!(
        get_unused_virtual_fd(&mut t, threei::TESTING_CAGEID, 10, false, 100).unwrap(),
        0
    );
    assert_eq!(
        translate_virtual_fd(&t, threei::TESTING_CAGEID, 0).unwrap(),
        10
    );
    assert_eq!(
        get_unused_virtual_fd(&mut t, threei::TESTING_CAGEID, 10, false, 100).unwrap(),
        1
    );
    assert_eq!(
        get_unused_virtual_fd(&mut t, threei::TESTING_CAGEID, 10, false, 100).unwrap(),
        2
    );
    assert_eq!(
        get_unused_virtual_fd(&mut t, threei::TESTING_CAGEID, 10, false, 100).unwrap(),
        3
    );
}

#[test]
// After a close, the next allocation takes the lowest empty slot again.
fn first_fit_reuses_lowest_slot() {
    let mut t = refresh();

    for expected in 0..4 {
        assert_eq!(
            get_unused_virtual_fd(&mut t, threei::TESTING_CAGEID, 7, false, 0).unwrap(),
            expected
        );
    }
    close_virtualfd(&mut t, threei::TESTING_CAGEID, 1).unwrap();
    assert_eq!(
        get_unused_virtual_fd(&mut t, threei::TESTING_CAGEID, 7, false, 0).unwrap(),
        1
    );
    assert_eq!(
        get_unused_virtual_fd(&mut t, threei::TESTING_CAGEID, 7, false, 0).unwrap(),
        4
    );
}

#[test]
// Let's see if I can change the cloexec flag...
fn try_set_cloexec() {
    let mut t = refresh();

    let realfd_in: u64 = 10;
    let my_virt_fd = get_unused_virtual_fd(&mut t, threei::TESTING_CAGEID, realfd_in, false, 100)
        .unwrap();
    set_cloexec(&mut t, threei::TESTING_CAGEID, my_virt_fd, true).unwrap();
}

#[test]
// Get and set optionalinfo
fn try_get_and_set_optionalinfo() {
    let mut t = refresh();

    let my_virt_fd1 = get_unused_virtual_fd(&mut t, threei::TESTING_CAGEID, 10, false, 150)
        .unwrap();
    let my_virt_fd2 = get_unused_virtual_fd(&mut t, threei::TESTING_CAGEID, 4, true, 250).unwrap();
    assert_eq!(
        150,
        get_optionalinfo(&t, threei::TESTING_CAGEID, my_virt_fd1).unwrap()
    );
    assert_eq!(
        250,
        get_optionalinfo(&t, threei::TESTING_CAGEID, my_virt_fd2).unwrap()
    );
    set_optionalinfo(&mut t, threei::TESTING_CAGEID, my_virt_fd1, 500).unwrap();
    assert_eq!(
        500,
        get_optionalinfo(&t, threei::TESTING_CAGEID, my_virt_fd1).unwrap()
    );
    assert_eq!(
        250,
        get_optionalinfo(&t, threei::TESTING_CAGEID, my_virt_fd2).unwrap()
    );
}

#[test]
fn test_remove_cage_from_fdtable() {
    let mut t = refresh();

    let _my_virt_fd1 = get_unused_virtual_fd(&mut t, threei::TESTING_CAGEID, 10, false, 150)
        .unwrap();

    // let's drop this fdtable...
    remove_cage_from_fdtable(&mut t, threei::TESTING_CAGEID);
}

#[test]
fn test_empty_fds_for_exec() {
    let mut t = refresh();

    let my_virt_fd1 = get_unused_virtual_fd(&mut t, threei::TESTING_CAGEID, 10, false, 150)
        .unwrap();
    let my_virt_fd2 = get_unused_virtual_fd(&mut t, threei::TESTING_CAGEID, 4, true, 250).unwrap();

    empty_fds_for_exec(&mut t, threei::TESTING_CAGEID);

    assert_eq!(
        150,
        get_optionalinfo(&t, threei::TESTING_CAGEID, my_virt_fd1).unwrap()
    );
    // Should be missing...
    assert!(get_optionalinfo(&t, threei::TESTING_CAGEID, my_virt_fd2).is_err());
}

#[test]
fn return_fdtable_copy_test() {
    let mut t = refresh();

    let my_virt_fd1 = get_unused_virtual_fd(&mut t, threei::TESTING_CAGEID, 10, false, 150)
        .unwrap();
    let my_virt_fd2 = get_unused_virtual_fd(&mut t, threei::TESTING_CAGEID, 4, true, 250).unwrap();

    // Copy the fdtable...
    let mut myhm = return_fdtable_copy(&t, threei::TESTING_CAGEID);

    // Check we got what we expected...
    assert_eq!(
        *(myhm.get(&my_virt_fd1).unwrap()),
        FDTableEntry {
            realfd: 10,
            should_cloexec: false,
            optionalinfo: 150
        }
    );
    assert_eq!(
        *(myhm.get(&my_virt_fd2).unwrap()),
        FDTableEntry {
            realfd: 4,
            should_cloexec: true,
            optionalinfo: 250
        }
    );

    myhm.insert(
        my_virt_fd1,
        FDTableEntry {
            realfd: 2,
            should_cloexec: false,
            optionalinfo: 15,
        },
    )
    .unwrap();

    // has my hashmap been updated?
    assert_eq!(
        *(myhm.get(&my_virt_fd1).unwrap()),
        FDTableEntry {
            realfd: 2,
            should_cloexec: false,
            optionalinfo: 15
        }
    );

    // Check to make sure the actual table is still intact...
    assert_eq!(
        150,
        get_optionalinfo(&t, threei::TESTING_CAGEID, my_virt_fd1).unwrap()
    );
    assert_eq!(
        250,
        get_optionalinfo(&t, threei::TESTING_CAGEID, my_virt_fd2).unwrap()
    );
}

#[test]
fn test_copy_fdtable_for_cage() {
    let mut t = refresh();

    let my_virt_fd1 = get_unused_virtual_fd(&mut t, threei::TESTING_CAGEID, 10, false, 150)
        .unwrap();
    let my_virt_fd2 = get_unused_virtual_fd(&mut t, threei::TESTING_CAGEID, 4, true, 250).unwrap();

    assert_eq!(
        150,
        get_optionalinfo(&t, threei::TESTING_CAGEID, my_virt_fd1).unwrap()
    );
    assert_eq!(
        250,
        get_optionalinfo(&t, threei::TESTING_CAGEID, my_virt_fd2).unwrap()
    );

    // Copy the fdtable over to a new cage...
    copy_fdtable_for_cage(&mut t, threei::TESTING_CAGEID, threei::TESTING_CAGEID1).unwrap();

    // Check the elements exist...
    assert_eq!(
        150,
        get_optionalinfo(&t, threei::TESTING_CAGEID1, my_virt_fd1).unwrap()
    );
    assert_eq!(
        250,
        get_optionalinfo(&t, threei::TESTING_CAGEID1, my_virt_fd2).unwrap()
    );
    // ... and are independent...
    set_optionalinfo(&mut t, threei::TESTING_CAGEID, my_virt_fd1, 500).unwrap();
    assert_eq!(
        150,
        get_optionalinfo(&t, threei::TESTING_CAGEID1, my_virt_fd1).unwrap()
    );
    assert_eq!(
        500,
        get_optionalinfo(&t, threei::TESTING_CAGEID, my_virt_fd1).unwrap()
    );
}

#[test]
// Do close_virtualfd(...) testing...
fn test_close_virtualfd() {
    let mut t = refresh();

    let realfd_in: u64 = 57;
    let anotherrealfd: u64 = 101;
    let specificvirtualfd: u64 = 15;

    // None of my closes (until the end) will be the last...
    let handlers = register_close_handlers(NULL_FUNC, do_panic, NULL_FUNC);

    // use the same realfd a few times in different ways...
    let my_virt_fd = get_unused_virtual_fd(&mut t, threei::TESTING_CAGEID, realfd_in, false, 10)
        .unwrap();
    let call = get_specific_virtual_fd(
        &mut t,
        threei::TESTING_CAGEID,
        specificvirtualfd,
        realfd_in,
        false,
        10,
    )
    .unwrap();
    dispatch_one(&handlers, call);
    let cloexecfd = get_unused_virtual_fd(&mut t, threei::TESTING_CAGEID, realfd_in, true, 10)
        .unwrap();
    // and a different realfd
    let _my_virt_fd3 = get_unused_virtual_fd(
        &mut t,
        threei::TESTING_CAGEID,
        anotherrealfd,
        false,
        10,
    )
    .unwrap();

    // let's close one (should have two left...)
    let call = close_virtualfd(&mut t, threei::TESTING_CAGEID, my_virt_fd).unwrap();
    dispatch_one(&handlers, call);

    // Let's fork (to double the count)!
    copy_fdtable_for_cage(&mut t, threei::TESTING_CAGEID, threei::TESTING_CAGEID7).unwrap();

    // let's simulate exec, which should close one of these...
    let calls = empty_fds_for_exec(&mut t, threei::TESTING_CAGEID7);
    dispatch_close_calls(&handlers, &calls);

    // but the copy in the original cage table should remain, so this
    // shouldn't error...
    translate_virtual_fd(&t, threei::TESTING_CAGEID, cloexecfd).unwrap();

    // However, the other should be gone and should error...
    assert!(translate_virtual_fd(&t, threei::TESTING_CAGEID7, cloexecfd).is_err());

    // Let's simulate exit on the initial cage, to close two of them...
    let calls = remove_cage_from_fdtable(&mut t, threei::TESTING_CAGEID);
    dispatch_close_calls(&handlers, &calls);

    // panic if this isn't the last one (from now on)
    let handlers = register_close_handlers(do_panic, NULL_FUNC, NULL_FUNC);

    // Now this is the last one!
    let call = close_virtualfd(&mut t, threei::TESTING_CAGEID7, specificvirtualfd).unwrap();
    dispatch_one(&handlers, call);
}

#[test]
// The reference counts across dup2, close, fork, exec and exit, checked
// against the table's own count entries and the owed close calls.
fn refcount_across_fork_and_exec() {
    let mut t = refresh();

    assert_eq!(
        get_unused_virtual_fd(&mut t, threei::TESTING_CAGEID, 57, false, 10).unwrap(),
        0
    );
    get_specific_virtual_fd(&mut t, threei::TESTING_CAGEID, 15, 57, false, 10).unwrap();
    assert_eq!(
        get_unused_virtual_fd(&mut t, threei::TESTING_CAGEID, 57, true, 10).unwrap(),
        1
    );
    assert_eq!(
        get_unused_virtual_fd(&mut t, threei::TESTING_CAGEID, 101, false, 10).unwrap(),
        2
    );
    assert_eq!(count_of(&t, 57), Some(3));
    assert_eq!(count_of(&t, 101), Some(1));

    // close fires intermediate: references remain.
    assert_eq!(
        close_virtualfd(&mut t, threei::TESTING_CAGEID, 0).unwrap(),
        Some(CloseCall::Intermediate(57))
    );
    assert_eq!(count_of(&t, 57), Some(2));

    // fork doubles every held reference and fires nothing.
    copy_fdtable_for_cage(&mut t, threei::TESTING_CAGEID, threei::TESTING_CAGEID7).unwrap();
    assert_eq!(count_of(&t, 57), Some(4));
    assert_eq!(count_of(&t, 101), Some(2));

    // exec drops only the close-on-exec slot.
    let calls = empty_fds_for_exec(&mut t, threei::TESTING_CAGEID7);
    assert_eq!(calls, vec![CloseCall::Intermediate(57)]);
    assert_eq!(count_of(&t, 57), Some(3));

    // exit drops the original cage's slots in ascending order.
    let calls = remove_cage_from_fdtable(&mut t, threei::TESTING_CAGEID);
    assert_eq!(
        calls,
        vec![
            CloseCall::Intermediate(57),
            CloseCall::Intermediate(101),
            CloseCall::Intermediate(57),
        ]
    );
    assert_eq!(count_of(&t, 57), Some(1));
    assert_eq!(count_of(&t, 101), Some(1));

    // the last close of 57 owes the final handler and drops the entry.
    assert_eq!(
        close_virtualfd(&mut t, threei::TESTING_CAGEID7, 15).unwrap(),
        Some(CloseCall::Last(57))
    );
    assert_eq!(count_of(&t, 57), None);
}

#[test]
// Replacing an occupant that holds the same real descriptor owes the
// intermediate handler, never the last one.
fn dup2_same_realfd_fires_intermediate() {
    let mut t = refresh();

    get_specific_virtual_fd(&mut t, threei::TESTING_CAGEID, 3, 44, false, 0).unwrap();
    let call = get_specific_virtual_fd(&mut t, threei::TESTING_CAGEID, 3, 44, true, 9).unwrap();
    assert_eq!(call, Some(CloseCall::Intermediate(44)));
    assert_eq!(count_of(&t, 44), Some(1));
}

#[test]
#[should_panic]
// Check for duplicate uses of the same realfd...
fn test_dup_close() {
    let mut t = refresh();

    let realfd_in: u64 = 57;

    let handlers = register_close_handlers(NULL_FUNC, NULL_FUNC, NULL_FUNC);
    let my_virt_fd = get_unused_virtual_fd(&mut t, threei::TESTING_CAGEID, realfd_in, false, 10)
        .unwrap();
    let call = close_virtualfd(&mut t, threei::TESTING_CAGEID, my_virt_fd).unwrap();
    dispatch_one(&handlers, call);

    // Panic on this one...
    let handlers = register_close_handlers(NULL_FUNC, do_panic, NULL_FUNC);

    let my_virt_fd = get_unused_virtual_fd(&mut t, threei::TESTING_CAGEID, realfd_in, false, 10)
        .unwrap();
    let call = close_virtualfd(&mut t, threei::TESTING_CAGEID, my_virt_fd).unwrap();
    dispatch_one(&handlers, call);
}

// Helper for the close handler recursion tests: what the host's handler
// does when it re-enters the table after a close has committed.
fn close_handler_recursion_helper(t: &mut FdTables) {
    let realfd_in: u64 = 57;
    let handlers = register_close_handlers(NULL_FUNC, NULL_FUNC, NULL_FUNC);
    let my_virt_fd = get_unused_virtual_fd(t, threei::TESTING_CAGEID, realfd_in, false, 10).unwrap();
    let call = close_virtualfd(t, threei::TESTING_CAGEID, my_virt_fd).unwrap();
    dispatch_one(&handlers, call);
}

#[test]
// check to see what happens if close handlers call other operations...
// The close calls come back with the table borrow released, so the
// handler work can re-enter the table freely.
fn test_close_handler_recursion() {
    let mut t = refresh();

    let realfd_in: u64 = 57;

    let my_virt_fd = get_unused_virtual_fd(&mut t, threei::TESTING_CAGEID, realfd_in, false, 10)
        .unwrap();
    // Close, then run the handler work, which re-enters the table.
    let call = close_virtualfd(&mut t, threei::TESTING_CAGEID, my_virt_fd).unwrap();
    assert_eq!(call, Some(CloseCall::Last(realfd_in)));
    close_handler_recursion_helper(&mut t);
}

#[test]
// get_specific_virtual_fd closehandler recursion...
fn test_gsvfd_handler_recursion() {
    let mut t = refresh();

    let realfd_in: u64 = 57;

    let my_virt_fd = get_unused_virtual_fd(&mut t, threei::TESTING_CAGEID, realfd_in, false, 10)
        .unwrap();
    // Displace the occupant, then run the handler work.
    let call = get_specific_virtual_fd(&mut t, threei::TESTING_CAGEID, my_virt_fd, 123, true, 0)
        .unwrap();
    assert_eq!(call, Some(CloseCall::Last(realfd_in)));
    close_handler_recursion_helper(&mut t);
}

#[test]
// remove_cage_from_fdtable closehandler recursion...
fn test_rcffdt_handler_recursion() {
    let mut t = refresh();

    let realfd_in: u64 = 57;
    // Since I'm removing a cage here, yet doing operations afterwards,
    // I need to have an empty cage first.
    init_empty_cage(&mut t, threei::TESTING_CAGEID5);

    let _my_virt_fd = get_unused_virtual_fd(&mut t, threei::TESTING_CAGEID5, realfd_in, false, 10)
        .unwrap();
    let calls = remove_cage_from_fdtable(&mut t, threei::TESTING_CAGEID5);
    assert_eq!(calls, vec![CloseCall::Last(realfd_in)]);
    close_handler_recursion_helper(&mut t);
}

#[test]
// empty_fds_for_exec closehandler recursion...
fn test_effe_handler_recursion() {
    let mut t = refresh();

    let realfd_in: u64 = NO_REAL_FD;

    let _my_virt_fd = get_unused_virtual_fd(&mut t, threei::TESTING_CAGEID, realfd_in, true, 10)
        .unwrap();
    let calls = empty_fds_for_exec(&mut t, threei::TESTING_CAGEID);
    assert_eq!(calls, vec![CloseCall::Unreal(10)]);
    close_handler_recursion_helper(&mut t);
}

#[test]
// unreal closehandler recursion, for every operation that discards an
// unreal descriptor...
fn test_unreal_handler_recursion() {
    let mut t = refresh();

    // close
    let my_virt_fd = get_unused_virtual_fd(&mut t, threei::TESTING_CAGEID, NO_REAL_FD, true, 10)
        .unwrap();
    let call = close_virtualfd(&mut t, threei::TESTING_CAGEID, my_virt_fd).unwrap();
    assert_eq!(call, Some(CloseCall::Unreal(10)));
    close_handler_recursion_helper(&mut t);

    // exec
    let _my_virt_fd = get_unused_virtual_fd(&mut t, threei::TESTING_CAGEID, NO_REAL_FD, true, 10)
        .unwrap();
    let calls = empty_fds_for_exec(&mut t, threei::TESTING_CAGEID);
    assert_eq!(calls, vec![CloseCall::Unreal(10)]);
    close_handler_recursion_helper(&mut t);

    // remove
    init_empty_cage(&mut t, threei::TESTING_CAGEID5);
    let _my_virt_fd = get_unused_virtual_fd(&mut t, threei::TESTING_CAGEID5, NO_REAL_FD, false, 10)
        .unwrap();
    let calls = remove_cage_from_fdtable(&mut t, threei::TESTING_CAGEID5);
    assert_eq!(calls, vec![CloseCall::Unreal(10)]);
    close_handler_recursion_helper(&mut t);

    // dup2
    let my_virt_fd = get_unused_virtual_fd(&mut t, threei::TESTING_CAGEID, NO_REAL_FD, false, 10)
        .unwrap();
    let call = get_specific_virtual_fd(
        &mut t,
        threei::TESTING_CAGEID,
        my_virt_fd,
        NO_REAL_FD,
        true,
        0,
    )
    .unwrap();
    assert_eq!(call, Some(CloseCall::Unreal(10)));
    close_handler_recursion_helper(&mut t);
}

#[test]
// Let's test to see our functions error gracefully with badfds...
fn get_specific_virtual_fd_tests() {
    let mut t = refresh();

    let my_virt_fd = get_unused_virtual_fd(&mut t, threei::TESTING_CAGEID, 10, false, 150)
        .unwrap();

    // Choose an unused new_fd
    let my_new_fd: u64;
    if my_virt_fd == 0 {
        my_new_fd = 100;
    } else {
        my_new_fd = 0;
    }
    get_specific_virtual_fd(&mut t, threei::TESTING_CAGEID, my_new_fd, 1, true, 5).unwrap();
    assert_eq!(
        get_optionalinfo(&t, threei::TESTING_CAGEID, my_new_fd).unwrap(),
        5
    );
    assert_eq!(
        translate_virtual_fd(&t, threei::TESTING_CAGEID, my_new_fd).unwrap(),
        1
    );

    // Check if I get an error going out of range...
    assert!(get_specific_virtual_fd(
        &mut t,
        threei::TESTING_CAGEID,
        FD_PER_PROCESS_MAX + 1,
        1,
        true,
        5
    )
    .is_err());
}

#[test]
// Let's test to see our functions error gracefully with badfds...
fn badfd_test() {
    let mut t = refresh();

    // some made up number...
    let my_virt_fd = 135;
    assert!(translate_virtual_fd(&t, threei::TESTING_CAGEID, my_virt_fd).is_err());
    assert!(set_cloexec(&mut t, threei::TESTING_CAGEID, my_virt_fd, true).is_err());
    assert!(get_optionalinfo(&t, threei::TESTING_CAGEID, my_virt_fd).is_err());
    assert!(set_optionalinfo(&mut t, threei::TESTING_CAGEID, my_virt_fd, 37).is_err());
}

// Let's use up all the fds and verify we get an error...
#[test]
fn use_all_fds_test() {
    let mut t = refresh();

    let realfd_in: u64 = 10;
    for _current in 0..FD_PER_PROCESS_MAX {
        let _ = get_unused_virtual_fd(&mut t, threei::TESTING_CAGEID, realfd_in, false, 100).unwrap();
    }
    // If the test is failing by not triggering here, we're not stopping
    // at the limit...
    if !get_unused_virtual_fd(&mut t, threei::TESTING_CAGEID, realfd_in, false, 100).is_err() {
        panic!("Should have raised an error...");
    }
}

#[test]
// Do we close a virtualfd when we select it?  (Do nothing, but see the
// next test.)
fn check_get_specific_virtual_fd_close_ok_test() {
    let mut t = refresh();

    copy_fdtable_for_cage(&mut t, threei::TESTING_CAGEID, threei::TESTING_CAGEID10).unwrap();

    let virtfd = get_unused_virtual_fd(&mut t, threei::TESTING_CAGEID10, 10, false, 100).unwrap();
    // Do nothing.  See next test...
    get_specific_virtual_fd(&mut t, threei::TESTING_CAGEID10, virtfd, 10, false, 100).unwrap();
}

#[test]
#[should_panic]
// Do we close a virtualfd when we call get_specific on it?
fn check_get_specific_virtual_fd_close_panic_test() {
    let mut t = refresh();

    copy_fdtable_for_cage(&mut t, threei::TESTING_CAGEID, threei::TESTING_CAGEID11).unwrap();
    // panic in a moment!
    let handlers = register_close_handlers(do_panic, do_panic, NULL_FUNC);
    let virtfd = get_unused_virtual_fd(&mut t, threei::TESTING_CAGEID11, 234, false, 100).unwrap();
    // panic!!!
    let call = get_specific_virtual_fd(&mut t, threei::TESTING_CAGEID11, virtfd, 10, false, 100)
        .unwrap();
    dispatch_one(&handlers, call);
}

#[test]
#[should_panic]
// Let's check to make sure we panic with an invalid cageid
fn translate_panics_on_bad_cageid_test() {
    let t = refresh();
    let _ = translate_virtual_fd(&t, threei::INVALID_CAGEID, 10);
}

#[test]
#[should_panic]
// Let's check to make sure we panic with an invalid cageid
fn get_unused_virtual_fd_panics_on_bad_cageid_test() {
    let mut t = refresh();
    let _ = get_unused_virtual_fd(&mut t, threei::INVALID_CAGEID, 10, false, 100);
}

#[test]
#[should_panic]
// Let's check to make sure we panic with an invalid cageid
fn set_cloexec_panics_on_bad_cageid_test() {
    let mut t = refresh();
    let _ = set_cloexec(&mut t, threei::INVALID_CAGEID, 10, true);
}

#[test]
#[should_panic]
// Let's check that our callback for close is working correctly by having
// it panic
fn test_intermediate_handler() {
    let mut t = refresh();

    let realfd_in: u64 = 132;
    let fd1 = get_unused_virtual_fd(&mut t, threei::TESTING_CAGEID, realfd_in, false, 100)
        .unwrap_or(1);
    let _fd2 = get_unused_virtual_fd(&mut t, threei::TESTING_CAGEID, realfd_in, false, 100)
        .unwrap_or(1);

    let handlers = register_close_handlers(do_panic, NULL_FUNC, NULL_FUNC);

    // should panic here...
    let call = close_virtualfd(&mut t, threei::TESTING_CAGEID, fd1).unwrap();
    dispatch_one(&handlers, call);
}

#[test]
#[should_panic]
// Check final_handler
fn test_final_handler() {
    let mut t = refresh();

    let realfd_in: u64 = 109;
    let fd1 = get_unused_virtual_fd(&mut t, threei::TESTING_CAGEID, realfd_in, false, 100)
        .unwrap_or(1);

    let handlers = register_close_handlers(NULL_FUNC, do_panic, NULL_FUNC);

    // should panic here...
    let call = close_virtualfd(&mut t, threei::TESTING_CAGEID, fd1).unwrap();
    dispatch_one(&handlers, call);
}

#[test]
#[should_panic]
// Let's check that our callback for close is working correctly by having
// it panic
fn test_unreal_handler() {
    let mut t = refresh();

    let fd1 = get_unused_virtual_fd(&mut t, threei::TESTING_CAGEID, NO_REAL_FD, false, 100)
        .unwrap_or(1);

    let handlers = register_close_handlers(NULL_FUNC, NULL_FUNC, do_panic);

    // should panic here...
    let call = close_virtualfd(&mut t, threei::TESTING_CAGEID, fd1).unwrap();
    dispatch_one(&handlers, call);
}

#[test]
// No panics.  Just call a function...
fn test_close_handlers() {
    let mut t = refresh();

    let fd1 = get_unused_virtual_fd(&mut t, threei::TESTING_CAGEID, NO_REAL_FD, false, 100)
        .unwrap_or(1);

    let handlers = register_close_handlers(myfunc, myfunc, myfunc);

    let call = close_virtualfd(&mut t, threei::TESTING_CAGEID, fd1).unwrap();
    dispatch_one(&handlers, call);
}
