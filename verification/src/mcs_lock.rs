//! The queue lock with a node per acquisition.
//!
//! Every waiter brings a [`Record`] of its own, hangs it behind the last one
//! in line with one atomic swap of the lock's tail, and then spins on the
//! flag in that record alone. A release hands the lock to the record that
//! follows, and waits for that record to appear if its owner has swapped the
//! tail but not linked itself yet.
//!
//! The protocol itself, and what is proved of it, is in [`crate::queue`].
//! Here are the record, the executable lock [`MSCLockInner`], which makes a
//! new record for every acquisition and never uses one twice, and
//! [`MSCLock`], which adds the protected value and the guards.
use vstd::prelude::*;
use crate::lock_guard::Windows;
use crate::queue::{Phase, QueueInner, QueueState};

verus! {

/// The node of one waiter: the flag it spins on and the link to the waiter
/// behind it.
#[derive(Clone, Copy, Debug)]
pub struct Record {
    /// True while the owner of this record has to wait.
    pub locked: bool,
    /// The record that queued up behind this one, once it has linked itself.
    pub next: Option<usize>,
}

impl Record {
    /// A record that waits for nothing and has nobody behind it.
    pub open spec fn clean() -> Record {
        Record { locked: false, next: None }
    }

    /// A clean record.
    pub fn new() -> (record: Record)
        ensures
            record == Record::clean(),
    {
        Record { locked: false, next: None }
    }

    /// Wipes the record for its next use.
    pub fn reset(&mut self)
        ensures
            *final(self) == Record::clean(),
    {
        self.locked = false;
        self.next = None;
    }

    /// Raises the flag: the owner is about to wait.
    pub fn lock(&mut self)
        ensures
            final(self).locked,
            final(self).next == old(self).next,
    {
        self.locked = true;
    }
}

/// The executable queue lock without the value it protects. Every
/// acquisition gets a record that no acquisition has used before; a record
/// that has served stays behind, idle and out of reach.
pub struct MSCLockInner {
    line: QueueInner,
}

impl View for MSCLockInner {
    type V = QueueState;

    closed spec fn view(&self) -> QueueState {
        self.line@
    }
}

impl MSCLockInner {
    /// Whether the lock is in a state that it can reach: the queue is in
    /// order and every acquisition so far came with a record of its own.
    pub open spec fn wf(&self) -> bool {
        &&& self@.inv()
        &&& self@.one_record_each()
    }

    /// A lock that nobody has used.
    pub fn new() -> (inner: MSCLockInner)
        ensures
            inner@ == QueueState::new(),
            inner.wf(),
    {
        MSCLockInner { line: QueueInner::new() }
    }

    /// The number of records that the lock has made so far, which is the
    /// number of acquisitions that were started.
    pub fn len(&self) -> (n: usize)
        ensures
            n == self@.phases.len(),
    {
        self.line.len()
    }

    /// The phase of the acquisition on `record`.
    pub fn phase(&self, record: usize) -> (phase: Phase)
        requires
            self@.owns(record),
        ensures
            phase == self@.phase(record),
    {
        self.line.phase(record)
    }

    /// What `record` holds.
    pub fn record(&self, record: usize) -> (node: Record)
        requires
            record < self@.records.len(),
        ensures
            node == self@.record(record),
    {
        self.line.record(record)
    }

    /// Whether the acquisition on `record` is in the critical section.
    pub fn holds(&self, record: usize) -> (held: bool)
        ensures
            held == self@.holds(record),
    {
        self.line.holds(record)
    }

    /// Starts an acquisition: makes a new record for it, swaps the tail for
    /// the record, and returns the record's number, which no acquisition
    /// had before. With nobody at the tail the acquisition is in the
    /// critical section at once; otherwise it stands behind the record that
    /// it found there.
    pub fn lock(&mut self) -> (record: usize)
        requires
            old(self).wf(),
        ensures
            record == old(self)@.phases.len(),
            final(self)@ == old(self)@.grow().lock(record),
            final(self).wf(),
    {
        let record = self.line.len();
        proof {
            self@.lemma_lock_with_new_record(record);
        }
        self.line.grow();
        self.line.enqueue(record);
        record
    }

    /// Lets the acquisition on `record` go one action further on its way
    /// into the critical section, and says whether it is in it now.
    pub fn wait(&mut self, record: usize) -> (held: bool)
        requires
            old(self).wf(),
        ensures
            final(self)@ == old(self)@.wait(record),
            old(self)@.owns(record) ==> final(self)@.record(record) == if old(self)@.phase(record) is MarkLocked {
                Record { locked: true, next: old(self)@.record(record).next }
            } else {
                old(self)@.record(record)
            },
            held == final(self)@.holds(record),
            final(self).wf(),
    {
        proof {
            self@.lemma_one_record_each_kept(record);
        }
        self.line.wait(record)
    }

    /// Lets the acquisition on `record` go one action further on its way
    /// out of the critical section, and says whether the release is
    /// complete, that is, whether the record is idle and out of reach. The
    /// record itself is never written: it keeps its link and its flag.
    pub fn unlock(&mut self, record: usize) -> (done: bool)
        requires
            old(self).wf(),
        ensures
            final(self)@ == old(self)@.release(record),
            old(self)@.owns(record) ==> final(self)@.record(record) == old(self)@.record(record),
            done == (final(self)@.owns(record) && final(self)@.phase(record) is Idle),
            final(self).wf(),
    {
        proof {
            self@.lemma_one_record_each_kept(record);
        }
        self.line.unlock(record)
    }
}

/// The handle of one acquisition of an [`MSCLock`]: it names the record
/// that the acquisition queued up with. It cannot be copied, and only the
/// lock makes one.
pub struct MSCLockGuard {
    record: usize,
    lock: Ghost<int>,
}

impl View for MSCLockGuard {
    type V = usize;

    closed spec fn view(&self) -> usize {
        self.record
    }
}

impl MSCLockGuard {
    fn new(record: usize, lock: Ghost<int>) -> (guard: MSCLockGuard)
        ensures
            guard@ == record,
            guard.lock_id() == lock@,
    {
        MSCLockGuard { record, lock }
    }

    /// The number of the record that the acquisition queued up with.
    pub fn record(&self) -> (record: usize)
        ensures
            record == self@,
    {
        self.record
    }

    /// The identity of the lock that made the guard.
    pub closed spec fn lock_id(&self) -> int {
        self.lock@
    }

    /// The protected value, for the holder to read.
    pub fn deref<'a, T>(&self, lock: &'a MSCLock<T>) -> (value: &'a T)
        requires
            lock.made(self),
            lock@.holds(self@),
        ensures
            *value == lock.value(),
    {
        &lock.data
    }

    /// The protected value, for the holder to change. Nothing else of the
    /// lock changes.
    pub fn deref_mut<'a, T>(&self, lock: &'a mut MSCLock<T>) -> (value: &'a mut T)
        requires
            old(lock).made(self),
            old(lock)@.holds(self@),
        ensures
            *value == old(lock).value(),
            final(lock).value() == *final(value),
            final(lock)@ == old(lock)@,
            final(lock).windows() == old(lock).windows(),
            final(lock).id() == old(lock).id(),
            old(lock).wf() ==> final(lock).wf(),
    {
        proof {
            if lock.wf() {
                lock@.lemma_windows();
            }
        }
        &mut lock.data
    }
}

/// A queue lock around a value of `T`, as a model that a caller steps
/// through: every call performs at most one atomic action of one
/// acquisition.
pub struct MSCLock<T> {
    inner: MSCLockInner,
    data: T,
    windows: Ghost<Windows<T>>,
    id: Ghost<int>,
}

impl<T> View for MSCLock<T> {
    type V = QueueState;

    closed spec fn view(&self) -> QueueState {
        self.inner@
    }
}

impl<T> MSCLock<T> {
    /// The protected value.
    pub closed spec fn value(&self) -> T {
        self.data
    }

    /// The identity of the lock. Nothing is disclosed of it, not even by
    /// `new`, so that no proof can take one lock for another. (Ghost code
    /// cannot make a value that is new in earnest; what keeps two locks
    /// apart is that no contract says what their identities are.)
    pub closed spec fn id(&self) -> int {
        self.id@
    }

    /// Whether `guard` was made by this lock.
    pub open spec fn made(&self, guard: &MSCLockGuard) -> bool {
        guard.lock_id() == self.id()
    }

    /// What every holder found in the protected value and what it left.
    pub closed spec fn windows(&self) -> Windows<T> {
        self.windows@
    }

    /// Whether the lock is in a state that it can reach, and has lost
    /// nothing of what its holders wrote.
    pub open spec fn wf(&self) -> bool {
        &&& self@.inv()
        &&& self@.one_record_each()
        &&& self.windows().keeps(self@.ledger, self.value())
    }

    /// No update is lost: every holder found in the protected value what
    /// the holder before it left there, the first one what the lock was
    /// made with; and while nobody holds the lock the value is what the
    /// last holder left.
    pub proof fn lemma_no_lost_update(&self)
        requires
            self.wf(),
        ensures
            self.windows().chained(),
            self.windows().found.len() == self@.ledger.entered.len(),
            self.windows().left.len() == self@.ledger.exited.len(),
            !self@.ledger.held() ==> self.value() == self.windows().current(),
    {
    }

    /// A lock around `value` that nobody has used.
    pub fn new(value: T) -> (lock: MSCLock<T>)
        ensures
            lock@ == QueueState::new(),
            lock.value() == value,
            lock.windows() == Windows::new(value),
            lock.wf(),
    {
        let ghost initial = value;
        MSCLock {
            inner: MSCLockInner::new(),
            data: value,
            windows: Ghost(Windows::new(initial)),
            id: Ghost(0),
        }
    }

    /// Starts an acquisition: makes a new record for it, which gets a
    /// number that no record had before, and swaps the tail for it. If
    /// nobody was at the tail the guard holds the lock at once; otherwise it
    /// has to [`wait`](Self::wait).
    pub fn lock(&mut self) -> (guard: MSCLockGuard)
        requires
            old(self).wf(),
        ensures
            guard@ == old(self)@.phases.len(),
            final(self).made(&guard),
            final(self)@ == old(self)@.grow().lock(guard@),
            final(self).value() == old(self).value(),
            final(self).id() == old(self).id(),
            final(self).windows() == old(self).windows().follow(
                old(self)@.ledger,
                final(self)@.ledger,
                old(self).value(),
            ),
            final(self).wf(),
    {
        let ghost before = self@;
        let record = self.inner.lock();
        proof {
            self.windows@.lemma_follow(before.ledger, self.inner@.ledger, self.data);
        }
        self.windows = Ghost(self.windows@.follow(before.ledger, self.inner@.ledger, self.data));
        MSCLockGuard::new(record, Ghost(self.id@))
    }

    /// Lets the acquisition of `guard` perform its next action on its way
    /// into the critical section, and says whether it is in it now.
    pub fn wait(&mut self, guard: &MSCLockGuard) -> (held: bool)
        requires
            old(self).wf(),
            old(self).made(guard),
        ensures
            final(self)@ == old(self)@.wait(guard@),
            old(self)@.owns(guard@) ==> final(self)@.record(guard@) == if old(self)@.phase(guard@) is MarkLocked {
                Record { locked: true, next: old(self)@.record(guard@).next }
            } else {
                old(self)@.record(guard@)
            },
            held == final(self)@.holds(guard@),
            final(self).value() == old(self).value(),
            final(self).id() == old(self).id(),
            final(self).windows() == old(self).windows().follow(
                old(self)@.ledger,
                final(self)@.ledger,
                old(self).value(),
            ),
            final(self).wf(),
    {
        let ghost before = self@;
        let held = self.inner.wait(guard.record);
        proof {
            self.windows@.lemma_follow(before.ledger, self.inner@.ledger, self.data);
        }
        self.windows = Ghost(self.windows@.follow(before.ledger, self.inner@.ledger, self.data));
        held
    }

    /// Whether `guard` holds the lock.
    pub fn holds(&self, guard: &MSCLockGuard) -> (held: bool)
        requires
            self.made(guard),
        ensures
            held == self@.holds(guard@),
    {
        self.inner.holds(guard.record)
    }

    /// Lets the acquisition of `guard` perform its next action on its way
    /// out of the critical section. The guard comes back as long as the
    /// release is not complete: the call is then to be made again.
    pub fn unlock(&mut self, guard: MSCLockGuard) -> (rest: Option<MSCLockGuard>)
        requires
            old(self).wf(),
            old(self).made(&guard),
        ensures
            final(self)@ == old(self)@.release(guard@),
            old(self)@.owns(guard@) ==> final(self)@.record(guard@) == old(self)@.record(guard@),
            final(self).value() == old(self).value(),
            final(self).id() == old(self).id(),
            final(self).windows() == old(self).windows().follow(
                old(self)@.ledger,
                final(self)@.ledger,
                old(self).value(),
            ),
            final(self).wf(),
            rest is None <==> final(self)@.owns(guard@) && final(self)@.phase(guard@) is Idle,
            rest matches Some(same) ==> same@ == guard@ && final(self).made(&same),
    {
        let ghost before = self@;
        let done = self.inner.unlock(guard.record);
        proof {
            before.lemma_windows();
            self.windows@.lemma_follow(before.ledger, self.inner@.ledger, self.data);
        }
        self.windows = Ghost(self.windows@.follow(before.ledger, self.inner@.ledger, self.data));
        if done {
            None
        } else {
            Some(guard)
        }
    }
}

} // verus!
