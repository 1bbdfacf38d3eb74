//! Waiting one's turn.

use clt::lock::{
    is_transient, Action, Event, FsError, Holder, Lock, Retry, ATTEMPTS, NAME, POLL_MS,
    STALE_AFTER_MS, WAIT_LIMIT_MS,
};

#[test]
fn a_lock_left_by_a_dead_process_is_reclaimed() {
    // The scenario: someone killed clt mid-write. Nothing will ever remove
    // this file, so it has to be taken over or the tool is wedged permanently.
    assert_eq!(
        Lock::acquire(Event::Seen(Holder::Aged(0)), false, 0),
        Action::Clear,
        "a lock past its threshold must be reclaimed"
    );
    assert_eq!(
        Lock::acquire(Event::Removed(true), false, 0),
        Action::Create,
        "reclaiming means removing it"
    );
}

#[test]
fn a_lock_that_is_merely_busy_is_left_alone() {
    // The inverse, and the one that matters: a freshly-taken lock belongs to
    // a live process. Expiring it would put us straight back to two writers
    // in the same critical section.
    assert_eq!(
        Lock::acquire(Event::Seen(Holder::Aged(3)), false, STALE_AFTER_MS),
        Action::Wait,
        "a lock held right now must never be stolen"
    );
}

#[test]
fn a_second_acquire_fails_while_the_first_is_held() {
    assert_eq!(Lock::acquire(Event::Exists, false, STALE_AFTER_MS), Action::Look);
    assert_eq!(
        Lock::acquire(Event::Seen(Holder::Aged(1)), true, STALE_AFTER_MS),
        Action::TimeOut
    );
}

#[test]
fn dropping_the_lock_lets_the_next_writer_in() {
    assert_eq!(
        Lock::acquire(Event::Seen(Holder::Gone), false, STALE_AFTER_MS),
        Action::Create
    );
    assert_eq!(Lock::acquire(Event::Created, false, STALE_AFTER_MS), Action::Hold);
}

#[test]
fn what_clears_up_is_waited_for_and_the_rest_is_not() {
    for e in [FsError::PermissionDenied, FsError::Interrupted, FsError::WouldBlock] {
        assert!(is_transient(e));
        assert_eq!(Lock::acquire(Event::Failed(e), false, STALE_AFTER_MS), Action::Wait);
        assert_eq!(Lock::acquire(Event::Failed(e), true, STALE_AFTER_MS), Action::Fail);
    }
    assert!(!is_transient(FsError::Other));
    assert_eq!(Lock::acquire(Event::Failed(FsError::Other), false, STALE_AFTER_MS), Action::Fail);
}

#[test]
fn a_lock_of_unknown_age_is_not_stale() {
    assert_eq!(
        Lock::acquire(Event::Seen(Holder::AgeUnknown), false, STALE_AFTER_MS),
        Action::Wait
    );
    assert_eq!(Lock::acquire(Event::Removed(false), false, STALE_AFTER_MS), Action::Wait);
}

#[test]
fn the_messages_name_the_file() {
    let lock = Lock { path: format!("/r/.clt/{NAME}") };
    assert_eq!(
        lock.timed_out(),
        "timed out waiting for another clt process to finish writing\n\
         (lock: /r/.clt/lock) — if no other clt is running, delete that file"
    );
    assert!(lock.clearing().contains("(/r/.clt/lock)"));
    assert!(POLL_MS < WAIT_LIMIT_MS && WAIT_LIMIT_MS < STALE_AFTER_MS);
}

#[test]
fn a_replacement_is_retried_with_growing_pauses() {
    let mut retry = Retry::first();
    let mut pauses = vec![retry.delay_ms];
    while let Some(next) = retry.again(FsError::PermissionDenied) {
        retry = next;
        pauses.push(retry.delay_ms);
    }
    assert_eq!(pauses.len() as u32, ATTEMPTS);
    assert_eq!(&pauses[..7], &[2, 4, 8, 16, 32, 50, 50]);
    assert!(Retry::first().again(FsError::Other).is_none());
}
