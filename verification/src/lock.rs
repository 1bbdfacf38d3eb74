//! Waiting one's turn to write.
//!
//! Something other than you writes to your list, so two writers at once are the
//! normal case, and a task edit is a read-modify-write cycle: two of those
//! interleaved silently lose whichever landed first. So writers hold a lock from
//! load until save. It is a file whose creation fails where it exists; a process
//! killed mid-write leaves it behind, so stale locks expire by age.
//!
//! Here is what to do next, given what the file system answered; doing it is up
//! to the caller.

use vstd::prelude::*;

verus! {

/// How long to wait for a competing writer before giving up, in milliseconds.
///
/// Generous, because the usual wait is for another critical section of a few
/// milliseconds. Anything approaching this bound means a real problem.
pub const WAIT_LIMIT_MS: u64 = 10_000;

/// A lock older than this, in milliseconds, is assumed to belong to a process
/// that died holding it. No legitimate critical section is longer than a file
/// write.
pub const STALE_AFTER_MS: u64 = 60_000;

/// How long to sleep before looking again, in milliseconds.
pub const POLL_MS: u64 = 5;

/// The name of the lock file.
pub const NAME: &'static str = "lock";

/// What kind of thing went wrong in the file system.
#[derive(Debug, Clone, Copy, PartialEq, Eq, Structural)]
pub enum FsError {
    PermissionDenied,
    Interrupted,
    WouldBlock,
    Other,
}

pub open spec fn clears_up(e: FsError) -> bool {
    e != FsError::Other
}

/// Whether a filesystem error is the kind that clears if you wait a moment.
///
/// An operation on a file another process has open, or has just deleted, can
/// fail on Windows with a sharing violation that surfaces as a denied
/// permission. A genuine permission problem persists, and still surfaces once
/// the attempts run out.
pub fn is_transient(e: FsError) -> (r: bool)
    ensures
        r == clears_up(e),
{
    match e {
        FsError::PermissionDenied => true,
        FsError::Interrupted => true,
        FsError::WouldBlock => true,
        FsError::Other => false,
    }
}

/// What was found out about a lock file in the way.
#[derive(Debug, Clone, Copy, PartialEq, Eq, Structural)]
pub enum Holder {
    /// It vanished: the holder just released it.
    Gone,
    /// There is no telling how old it is, or it is dated in the future.
    AgeUnknown,
    /// It is this many milliseconds old.
    Aged(u64),
}

/// What happened last.
#[derive(Debug, Clone, Copy, PartialEq, Eq, Structural)]
pub enum Event {
    /// The lock file was created.
    Created,
    /// The lock file exists.
    Exists,
    /// It could not be created for another reason.
    Failed(FsError),
    /// The file in the way was looked at.
    Seen(Holder),
    /// A stale file was to be removed, and was or was not.
    Removed(bool),
}

/// What to do next.
#[derive(Debug, Clone, Copy, PartialEq, Eq, Structural)]
pub enum Action {
    /// The lock is ours.
    Hold,
    /// Try to create the file.
    Create,
    /// Find out about the file in the way.
    Look,
    /// Say that the lock is stale, and remove the file.
    Clear,
    /// Sleep for [`POLL_MS`], then try to create the file.
    Wait,
    /// Give up: somebody else has it.
    TimeOut,
    /// Give up: the file system refuses.
    Fail,
}

/// Wait for the holder, unless it has been too long.
pub open spec fn queue(past_deadline: bool) -> Action {
    if past_deadline {
        Action::TimeOut
    } else {
        Action::Wait
    }
}

/// What to do after `event`. The lock is ours when its file was created and
/// only then, and a file in the way is removed only once it is stale.
pub open spec fn after(event: Event, past_deadline: bool, stale_after_ms: u64) -> Action {
    match event {
        Event::Created => Action::Hold,
        Event::Exists => Action::Look,
        Event::Failed(e) => if clears_up(e) && !past_deadline {
            Action::Wait
        } else {
            Action::Fail
        },
        Event::Seen(Holder::Gone) => Action::Create,
        Event::Seen(Holder::AgeUnknown) => queue(past_deadline),
        Event::Seen(Holder::Aged(ms)) => if ms < stale_after_ms {
            queue(past_deadline)
        } else {
            Action::Clear
        },
        Event::Removed(true) => Action::Create,
        Event::Removed(false) => queue(past_deadline),
    }
}

/// The lock over one task list.
#[derive(Debug)]
pub struct Lock {
    /// Where its file is.
    pub path: String,
}

impl Lock {
    /// The next move in taking the lock.
    ///
    /// It polls rather than backing off: the expected wait is one file write.
    pub fn acquire(event: Event, past_deadline: bool, stale_after_ms: u64) -> (r: Action)
        ensures
            r == after(event, past_deadline, stale_after_ms),
    {
        match event {
            Event::Created => Action::Hold,
            Event::Exists => Action::Look,
            Event::Failed(e) => if is_transient(e) && !past_deadline {
                Action::Wait
            } else {
                Action::Fail
            },
            Event::Seen(holder) => match holder {
                Holder::Gone => Action::Create,
                Holder::AgeUnknown => Lock::queue_up(past_deadline),
                Holder::Aged(ms) => if ms < stale_after_ms {
                    Lock::queue_up(past_deadline)
                } else {
                    Action::Clear
                },
            },
            Event::Removed(done) => if done {
                Action::Create
            } else {
                Lock::queue_up(past_deadline)
            },
        }
    }

    fn queue_up(past_deadline: bool) -> (r: Action)
        ensures
            r == queue(past_deadline),
    {
        if past_deadline {
            Action::TimeOut
        } else {
            Action::Wait
        }
    }

    /// What to say when the wait was too long.
    pub fn timed_out(&self) -> (r: String)
        ensures
            r@ == "timed out waiting for another clt process to finish writing\n(lock: "@
                + self.path@ + ") — if no other clt is running, delete that file"@,
    {
        let mut out =
            "timed out waiting for another clt process to finish writing\n(lock: ".to_owned();
        out.append(self.path.as_str());
        out.append(") — if no other clt is running, delete that file");
        out
    }

    /// What to say before a stale lock is removed.
    pub fn clearing(&self) -> (r: String)
        ensures
            r@ == "clearing a stale lock left by a process that died ("@ + self.path@ + ")"@,
    {
        let mut out = "clearing a stale lock left by a process that died (".to_owned();
        out.append(self.path.as_str());
        out.append(")");
        out
    }
}

/// A lock that is merely busy is never stolen, whatever the file system
/// answers: only a lock past its age is removed.
pub proof fn law_only_stale_locks_are_cleared(event: Event, past_deadline: bool, stale_after_ms: u64)
    ensures
        after(event, past_deadline, stale_after_ms) == Action::Clear <==> (event matches Event::Seen(
            Holder::Aged(ms),
        ) && ms >= stale_after_ms),
        after(event, past_deadline, stale_after_ms) == Action::Hold <==> event == Event::Created,
        past_deadline ==> after(event, past_deadline, stale_after_ms) != Action::Wait,
{
}

// ---------------------------------------------------------------------------
// Replacing the file
// ---------------------------------------------------------------------------

/// How often a replacement of the task file is tried.
pub const ATTEMPTS: u32 = 12;

/// How far along a replacement is.
///
/// The lock keeps other writers out, but readers take no lock, and on Windows
/// replacing a file that another process has open can fail. That clears in
/// milliseconds; a persistent failure still surfaces.
#[derive(Debug, Clone, Copy, PartialEq, Eq, Structural)]
pub struct Retry {
    /// Which attempt is being made, counted from one.
    pub attempt: u32,
    /// How long to sleep after it, in milliseconds.
    pub delay_ms: u64,
}

/// The pause after an attempt: twice the one before, and no more than fifty
/// milliseconds.
pub open spec fn pause_after(attempt: int) -> int
    decreases attempt,
{
    if attempt <= 1 {
        2
    } else if pause_after(attempt - 1) * 2 > 50 {
        50
    } else {
        pause_after(attempt - 1) * 2
    }
}

impl Retry {
    pub open spec fn wf(self) -> bool {
        1 <= self.attempt <= ATTEMPTS && self.delay_ms == pause_after(self.attempt as int)
            && self.delay_ms <= 50
    }

    pub fn first() -> (r: Retry)
        ensures
            r.wf(),
            r.attempt == 1,
    {
        Retry { attempt: 1, delay_ms: 2 }
    }

    /// After a failed attempt: the next one, to be made after the pause of this
    /// one; or nothing, where the failure stands.
    pub fn again(self, e: FsError) -> (r: Option<Retry>)
        requires
            self.wf(),
        ensures
            match r {
                Some(next) => self.attempt < ATTEMPTS && clears_up(e) && next.wf() && next.attempt
                    == self.attempt + 1,
                None => self.attempt == ATTEMPTS || !clears_up(e),
            },
    {
        if self.attempt == ATTEMPTS || !is_transient(e) {
            None
        } else {
            let double: u64 = self.delay_ms * 2;
            let delay_ms: u64 = if double > 50 {
                50
            } else {
                double
            };
            Some(Retry { attempt: self.attempt + 1, delay_ms })
        }
    }
}

/// What follows on each answer of the file system. A lock that is there is looked
/// at before anything else; one whose holder is gone can be taken; one that is
/// merely busy is waited for until the deadline; and one that went stale is
/// removed. An error is waited out only where it may clear up.
pub proof fn law_what_follows_on_each_answer(past_deadline: bool, ms: u64, stale_after_ms: u64)
    ensures
        after(Event::Exists, past_deadline, stale_after_ms) == Action::Look,
        after(Event::Seen(Holder::Gone), past_deadline, stale_after_ms) == Action::Create,
        after(Event::Removed(true), past_deadline, stale_after_ms) == Action::Create,
        forall|event: Event|
            #![trigger after(event, past_deadline, stale_after_ms)]
            event == Event::Seen(Holder::AgeUnknown) || event == Event::Removed(false) || (event
                == Event::Seen(Holder::Aged(ms)) && ms < stale_after_ms) ==> {
                &&& past_deadline ==> after(event, past_deadline, stale_after_ms) == Action::TimeOut
                &&& !past_deadline ==> after(event, past_deadline, stale_after_ms) == Action::Wait
            },
        after(Event::Failed(FsError::Other), past_deadline, stale_after_ms) == Action::Fail,
        forall|e: FsError|
            e == FsError::PermissionDenied || e == FsError::Interrupted || e == FsError::WouldBlock
                ==> #[trigger] after(Event::Failed(e), past_deadline, stale_after_ms) == (
            if past_deadline {
                Action::Fail
            } else {
                Action::Wait
            }),
{
}

/// Each pause is twice the one before, up to fifty milliseconds, and never
/// shorter.
pub proof fn law_pauses_grow(attempt: int)
    requires
        attempt >= 1,
    ensures
        pause_after(1) == 2,
        pause_after(attempt) <= pause_after(attempt + 1) <= 50,
        pause_after(attempt + 1) == 50 || pause_after(attempt + 1) == 2 * pause_after(attempt),
        2 * pause_after(attempt) <= 50 ==> pause_after(attempt + 1) == 2 * pause_after(attempt),
    decreases attempt,
{
    if attempt > 1 {
        law_pauses_grow(attempt - 1);
    }
}

/// A writer waits ten seconds for another, and a lock is stale after a minute:
/// nobody waits for a lock to go stale.
pub proof fn law_how_long_to_wait()
    ensures
        WAIT_LIMIT_MS == 10 * 1000,
        STALE_AFTER_MS == 60 * 1000,
        POLL_MS < WAIT_LIMIT_MS < STALE_AFTER_MS,
{
}

} // verus!
