//! The queue lock with one node per thread.
//!
//! The protocol is that of [`MSCLock`](crate::mcs_lock::MSCLock). What
//! differs is where the record comes from: a thread brings the one record
//! that it owns, made when the thread is, and wiped before every use, so
//! that no acquisition allocates.
//!
//! The records of the threads are kept in [`ThreadRecords`], apart from the
//! locks, and serve all of them. A thread has one record, so it can stand in
//! one line at a time: while it holds, waits for, or is releasing one lock,
//! every lock of this kind refuses it. A release leaves the record of the
//! thread as it is; the next acquisition of the thread wipes it.
use vstd::prelude::*;
use crate::lock_guard::{Ledger, Windows};
use crate::mcs_lock::Record;
use crate::queue::{Phase, QueueInner, QueueState};

verus! {

/// The records of the threads as a mathematical value: for every thread its
/// record, the phase of the acquisition that it has in flight, and the
/// number of the lock in whose line its record stands or stood last.
pub struct RecordsState {
    /// The record of every thread, by the thread's number.
    pub records: Seq<Record>,
    /// The phase of the acquisition of every thread; `Idle` if it has none.
    pub phases: Seq<Phase>,
    /// The lock that every thread asked last.
    pub lines: Seq<usize>,
    /// The number of locks that use these records.
    pub locks: nat,
}

impl RecordsState {
    /// No thread and no lock.
    pub open spec fn new() -> RecordsState {
        RecordsState { records: Seq::empty(), phases: Seq::empty(), lines: Seq::empty(), locks: 0 }
    }

    /// Whether `thread` has a record.
    pub open spec fn knows(self, thread: usize) -> bool {
        thread < self.phases.len()
    }

    /// Whether `thread` has an acquisition in flight, at whatever lock, so
    /// that its record cannot be used for another.
    pub open spec fn busy(self, thread: usize) -> bool {
        self.knows(thread) && !(self.phases[thread as int] is Idle)
    }

    /// Whether the record of `thread` stands in the line of `lock`.
    pub open spec fn engaged(self, thread: usize, lock: usize) -> bool {
        self.busy(thread) && self.lines[thread as int] == lock
    }

    /// There is a record, a phase and a line for every thread, and a thread
    /// with an acquisition in flight has it at a lock that exists.
    pub open spec fn wf(self) -> bool {
        &&& self.records.len() == self.phases.len()
        &&& self.lines.len() == self.phases.len()
        &&& forall|t: int|
            0 <= t < self.phases.len() && !(#[trigger] self.phases[t] is Idle) ==> self.lines[t]
                < self.locks
    }

    /// What `lock` sees of the acquisition of thread `t`: its phase while
    /// the record stands in the lock's line, and none otherwise.
    pub open spec fn phase_for(self, t: int, lock: usize) -> Phase {
        if self.lines[t] == lock {
            self.phases[t]
        } else {
            Phase::Idle
        }
    }

    /// The lock with the number `lock`, with this tail, line and ledger, as
    /// it stands among these records. The records are what they are; the
    /// threads that stand in other lines are idle to it.
    pub open spec fn line(
        self,
        lock: usize,
        tail: Option<usize>,
        queue: Seq<usize>,
        ledger: Ledger<usize>,
    ) -> QueueState {
        QueueState {
            tail,
            records: self.records,
            phases: Seq::new(self.phases.len(), |t: int| self.phase_for(t, lock)),
            queue,
            ledger,
        }
    }

    /// The records after a new thread has got its record.
    pub open spec fn spawned(self) -> RecordsState {
        RecordsState {
            records: self.records.push(Record::clean()),
            phases: self.phases.push(Phase::Idle),
            lines: self.lines.push(0),
            ..self
        }
    }

    /// The records after one more lock has come to use them.
    pub open spec fn with_lock(self) -> RecordsState {
        RecordsState { locks: self.locks + 1, ..self }
    }

    /// Whether thread `t` is as it was in `before`, or is one that a step
    /// of `lock` for `thread` may have changed: `thread` itself, if it was
    /// free or in the line of `lock`, or a thread that stood in that line;
    /// and it is idle or in that line now.
    pub open spec fn left_to(
        self,
        before: RecordsState,
        t: int,
        lock: usize,
        thread: usize,
    ) -> bool {
        ||| (self.records[t] == before.records[t] && self.phases[t] == before.phases[t]
            && self.lines[t] == before.lines[t])
        ||| ((before.phases[t] is Idle ==> t == thread) && (!(before.phases[t] is Idle)
            ==> before.lines[t] == lock) && (self.phases[t] is Idle || self.lines[t] == lock))
    }

    /// Whether these records are what a step of `lock` for `thread` can
    /// make of `before`: the same threads and locks, and no thread changed
    /// but `thread` and those in the line of `lock`, each of which is idle
    /// or in that line afterwards.
    pub open spec fn follows(self, before: RecordsState, lock: usize, thread: usize) -> bool {
        &&& self.locks == before.locks
        &&& self.phases.len() == before.phases.len()
        &&& forall|t: int|
            #![trigger self.phases[t]]
            0 <= t < before.phases.len() ==> self.left_to(before, t, lock, thread)
    }

    /// A step of one lock changes nothing for another but what records
    /// hold that are idle to it: the other lock stands among the records as
    /// it stood before, with every thread of its line as it was.
    pub proof fn lemma_other_lines_kept(
        self,
        before: RecordsState,
        by: usize,
        thread: usize,
        other: usize,
        tail: Option<usize>,
        queue: Seq<usize>,
        ledger: Ledger<usize>,
    )
        requires
            before.wf(),
            self.wf(),
            self.follows(before, by, thread),
            other != by,
        ensures
            before.line(other, tail, queue, ledger).agrees(self.line(other, tail, queue, ledger)),
    {
        let a = self.line(other, tail, queue, ledger);
        let b = before.line(other, tail, queue, ledger);
        assert forall|t: int| 0 <= t < before.phases.len() implies a.phases[t] == b.phases[t]
            && (!(b.phases[t] is Idle) ==> a.records[t] == b.records[t]) by {
            assert(self.left_to(before, t, by, thread));
        }
        assert(a.phases =~= b.phases);
        assert forall|id: usize| b.owns(id) && !(b.phase(id) is Idle) implies #[trigger] b.record(
            id,
        ) == a.record(id) by {
            assert(a.phases[id as int] == b.phases[id as int]);
        }
    }

    /// A new thread changes nothing for a lock but that there is one more
    /// idle record.
    pub proof fn lemma_spawned(
        self,
        lock: usize,
        tail: Option<usize>,
        queue: Seq<usize>,
        ledger: Ledger<usize>,
    )
        requires
            self.wf(),
        ensures
            self.spawned().wf(),
            self.spawned().line(lock, tail, queue, ledger) == self.line(
                lock,
                tail,
                queue,
                ledger,
            ).grow(),
    {
        let a = self.spawned().line(lock, tail, queue, ledger);
        let b = self.line(lock, tail, queue, ledger).grow();
        assert(a.phases =~= b.phases);
    }

    /// One acquisition per thread, whatever the lock: a thread whose record
    /// stands in the line of one lock is busy, and idle to every other
    /// lock.
    pub proof fn lemma_one_line_per_thread(
        self,
        thread: usize,
        lock: usize,
        other: usize,
        tail: Option<usize>,
        queue: Seq<usize>,
        ledger: Ledger<usize>,
    )
        requires
            self.wf(),
            self.engaged(thread, lock),
            other != lock,
        ensures
            self.busy(thread),
            !self.engaged(thread, other),
            self.line(other, tail, queue, ledger).owns(thread),
            self.line(other, tail, queue, ledger).phase(thread) is Idle,
    {
    }
}

/// A lock that the threads with these records can use and none has used.
pub open spec fn unused(records: Seq<Record>) -> QueueState {
    QueueState {
        tail: None,
        records,
        phases: Seq::new(records.len(), |t: int| Phase::Idle),
        queue: Seq::empty(),
        ledger: Ledger::new(),
    }
}

/// A lock that nobody has used is in order, whatever the records of the
/// threads hold.
pub proof fn lemma_unused(records: Seq<Record>)
    ensures
        unused(records).inv(),
{
    Ledger::<usize>::lemma_new();
    let s = unused(records);
    assert forall|id: usize| s.owns(id) implies ((#[trigger] s.phase(id)) is Idle
        <==> !s.queue.contains(id)) by {
    }
}

/// Reuse is safe. An acquisition that takes the idle record of its thread
/// leaves the lock in order, whatever the record was used for before: the
/// thread stands last in line, in the critical section if the lock was free
/// and behind the former tail if not, and nobody else is moved. And a
/// thread that has the lock to itself goes through a whole cycle in three
/// actions (swap the tail, read its link, empty the tail) and leaves the
/// lock as free as it found it, with one more window in the ledger, opened
/// and closed by that thread.
pub proof fn lemma_reuse(state: QueueState, thread: usize)
    requires
        state.inv(),
        state.owns(thread),
        state.phase(thread) is Idle,
    ensures
        ({
            let after = state.lock(thread);
            &&& after.inv()
            &&& after.tail == Some(thread)
            &&& after.queue == state.queue.push(thread)
            &&& after.phase(thread) == match state.tail {
                None => Phase::Holding,
                Some(pred) => Phase::MarkLocked { pred },
            }
            &&& forall|other: usize|
                state.owns(other) && other != thread ==> after.phase(other) == state.phase(other)
        }),
        state.queue.len() == 0 ==> ({
            let held = state.lock(thread);
            let left = held.release(thread);
            let done = left.release(thread);
            &&& held.holds(thread)
            &&& left.phase(thread) is CloseTail
            &&& done.inv()
            &&& done.phase(thread) is Idle
            &&& done.queue.len() == 0
            &&& done.tail is None
            &&& done.ledger == state.ledger.request(thread).enter(thread).exit(thread)
        }),
{
    state.lemma_lock(thread);
    if state.queue.len() == 0 {
        let held = state.lock(thread);
        assert(held.queue =~= seq![thread]);
        held.lemma_unlock(thread);
        let left = held.release(thread);
        assert(left.queue =~= seq![thread]);
        left.lemma_step(thread);
        let done = left.release(thread);
        assert(done.queue =~= Seq::<usize>::empty());
    }
}

/// The records of the threads: one per thread, for all the locks that are
/// made with them.
pub struct ThreadRecords {
    records: Vec<Record>,
    phases: Vec<Phase>,
    lines: Vec<usize>,
    locks: usize,
}

impl View for ThreadRecords {
    type V = RecordsState;

    closed spec fn view(&self) -> RecordsState {
        RecordsState {
            records: self.records@,
            phases: self.phases@,
            lines: self.lines@,
            locks: self.locks as nat,
        }
    }
}

impl ThreadRecords {
    /// Whether the records are in a state that they can reach.
    pub open spec fn wf(&self) -> bool {
        self@.wf()
    }

    /// Records for no thread yet, and no lock.
    pub fn new() -> (records: ThreadRecords)
        ensures
            records@ == RecordsState::new(),
            records.wf(),
    {
        let records = ThreadRecords {
            records: Vec::new(),
            phases: Vec::new(),
            lines: Vec::new(),
            locks: 0,
        };
        assert(records@ =~= RecordsState::new());
        records
    }

    /// Makes the record of a new thread, and returns the thread's number.
    /// The record is clean and stands in no line.
    pub fn spawn(&mut self) -> (thread: usize)
        requires
            old(self).wf(),
        ensures
            thread == old(self)@.phases.len(),
            final(self)@ == old(self)@.spawned(),
            final(self).wf(),
    {
        let thread = self.phases.len();
        self.records.push(Record::new());
        self.phases.push(Phase::Idle);
        self.lines.push(0);
        assert(self@ =~= old(self)@.spawned());
        thread
    }

    /// The number of threads that have a record.
    pub fn threads(&self) -> (n: usize)
        ensures
            n == self@.phases.len(),
    {
        self.phases.len()
    }

    /// What the record of `thread` holds.
    pub fn record(&self, thread: usize) -> (node: Record)
        requires
            self.wf(),
            self@.knows(thread),
        ensures
            node == self@.records[thread as int],
    {
        self.records[thread]
    }

    /// Whether `thread` has an acquisition in flight at any lock.
    pub fn busy(&self, thread: usize) -> (busy: bool)
        ensures
            busy == self@.busy(thread),
    {
        thread < self.phases.len() && !self.phases[thread].is_idle()
    }
}

/// The executable lock without the value it protects: its number among the
/// locks that share the records, and the tail.
pub struct ThreadLocalMscLockInner {
    number: usize,
    tail: Option<usize>,
    queue: Ghost<Seq<usize>>,
    ledger: Ghost<Ledger<usize>>,
}

impl ThreadLocalMscLockInner {
    /// The number of the lock among those that share the records.
    pub closed spec fn number(&self) -> usize {
        self.number
    }

    /// The record that queued up last, if the lock is in use.
    pub closed spec fn tail(&self) -> Option<usize> {
        self.tail
    }

    /// The threads in line, the owner or the next owner first.
    pub closed spec fn queue(&self) -> Seq<usize> {
        self.queue@
    }

    /// Requests, entries and exits so far.
    pub closed spec fn ledger(&self) -> Ledger<usize> {
        self.ledger@
    }

    /// The lock as it stands among `records`: of every thread it sees the
    /// record and the phase while the thread stands in its line, and an
    /// idle thread with a clean record otherwise.
    pub open spec fn view_in(&self, records: RecordsState) -> QueueState {
        records.line(self.number(), self.tail(), self.queue(), self.ledger())
    }

    /// Whether the lock is one of those that use `records`, and is in a
    /// state that it can reach.
    pub open spec fn wf_in(&self, records: RecordsState) -> bool {
        &&& records.wf()
        &&& self.number() < records.locks
        &&& self.view_in(records).inv()
    }

    /// A step of another lock leaves this one as it was, but for what
    /// records hold that are idle to this lock.
    pub proof fn lemma_untouched(
        &self,
        before: RecordsState,
        after: RecordsState,
        by: usize,
        thread: usize,
    )
        requires
            self.wf_in(before),
            after.wf(),
            after.follows(before, by, thread),
            by != self.number(),
        ensures
            self.view_in(before).agrees(self.view_in(after)),
            self.wf_in(after),
    {
        after.lemma_other_lines_kept(
            before,
            by,
            thread,
            self.number,
            self.tail,
            self.queue@,
            self.ledger@,
        );
        self.view_in(before).lemma_idle_records_immaterial(self.view_in(after));
    }

    /// A new thread leaves this lock as it was, but for one more idle
    /// record.
    pub proof fn lemma_thread_spawned(&self, before: RecordsState)
        requires
            self.wf_in(before),
        ensures
            self.view_in(before.spawned()) == self.view_in(before).grow(),
            self.wf_in(before.spawned()),
    {
        before.lemma_spawned(self.number, self.tail, self.queue@, self.ledger@);
        self.view_in(before).lemma_grow();
    }

    /// A new lock leaves this one as it was.
    pub proof fn lemma_lock_made(&self, before: RecordsState)
        requires
            self.wf_in(before),
        ensures
            self.view_in(before.with_lock()) == self.view_in(before),
            self.wf_in(before.with_lock()),
    {
        let a = self.view_in(before.with_lock());
        let b = self.view_in(before);
        assert(a.phases =~= b.phases);
    }

    /// A lock on `records` that no thread has used.
    pub fn new(records: &mut ThreadRecords) -> (inner: ThreadLocalMscLockInner)
        requires
            old(records).wf(),
            old(records)@.locks < usize::MAX,
        ensures
            inner.number() == old(records)@.locks,
            final(records)@ == old(records)@.with_lock(),
            inner.view_in(final(records)@) == unused(old(records)@.records),
            inner.wf_in(final(records)@),
    {
        let number = records.locks;
        records.locks = number + 1;
        let inner = ThreadLocalMscLockInner {
            number,
            tail: None,
            queue: Ghost(Seq::empty()),
            ledger: Ghost(Ledger::new()),
        };
        proof {
            lemma_unused(old(records)@.records);
            let a = inner.view_in(records@);
            let b = unused(old(records)@.records);
            assert(a.records =~= b.records);
            assert(a.phases =~= b.phases);
            assert(records@ =~= old(records)@.with_lock());
        }
        inner
    }

    /// Whether `thread` is in the critical section of this lock.
    pub fn holds(&self, records: &ThreadRecords, thread: usize) -> (held: bool)
        requires
            records.wf(),
        ensures
            held == self.view_in(records@).holds(thread),
    {
        thread < records.phases.len() && records.lines[thread] == self.number
            && records.phases[thread].is_holding()
    }

    /// Lets the acquisition of `thread`, which stands in the line of this
    /// lock, perform its next action.
    fn step(&mut self, records: &mut ThreadRecords, thread: usize)
        requires
            old(self).wf_in(old(records)@),
            old(records)@.engaged(thread, old(self).number()),
        ensures
            final(self).view_in(final(records)@) == old(self).view_in(old(records)@).step(thread),
            final(records)@.follows(old(records)@, old(self).number(), thread),
            final(self).number() == old(self).number(),
            final(self).wf_in(final(records)@),
    {
        let ghost store = records@;
        let ghost before = self.view_in(store);
        proof {
            before.lemma_step(thread);
            before.lemma_admits(thread);
            before.lemma_touches_line(thread);
        }
        let phase = records.phases[thread];
        let seen = QueueInner::perform_on(&mut self.tail, &mut records.records, phase.action(thread));
        records.phases.set(thread, phase.after(seen));
        self.queue = Ghost(before.step(thread).queue);
        self.ledger = Ghost(before.step(thread).ledger);
        proof {
            let after = self.view_in(records@);
            assert(after.records =~= before.step(thread).records);
            assert(after.phases =~= before.step(thread).phases);
            assert forall|t: int| #![trigger records@.phases[t]] 0 <= t < store.phases.len() implies records@.left_to(store, t, self.number, thread) by {
                assert(before.phases[t] == store.phase_for(t, self.number));
            }
        }
    }

    /// Starts an acquisition by `thread` with the thread's own record, and
    /// says whether it did. A thread that has no record, or has an
    /// acquisition in flight at this lock or another, is refused and
    /// nothing changes. Otherwise the record is wiped and swapped into the
    /// tail.
    pub fn lock(&mut self, records: &mut ThreadRecords, thread: usize) -> (started: bool)
        requires
            old(self).wf_in(old(records)@),
        ensures
            started == (old(records)@.knows(thread) && !old(records)@.busy(thread)),
            final(self).view_in(final(records)@) == if started {
                old(self).view_in(old(records)@).lock(thread)
            } else {
                old(self).view_in(old(records)@)
            },
            !started ==> final(records)@ == old(records)@,
            final(records)@.follows(old(records)@, old(self).number(), thread),
            final(self).number() == old(self).number(),
            final(self).wf_in(final(records)@),
    {
        let ghost store = records@;
        let ghost before = self.view_in(store);
        if thread >= records.phases.len() || !records.phases[thread].is_idle() {
            proof {
                assert forall|t: int| #![trigger store.phases[t]] 0 <= t < store.phases.len() implies store.left_to(store, t, self.number, thread) by {
                }
            }
            return false;
        }
        proof {
            assert(before.phases[thread as int] == store.phase_for(thread as int, self.number));
            before.lemma_lock(thread);
        }
        records.records.set(thread, Record::new());
        records.lines.set(thread, self.number);
        let phase = Phase::Enqueue;
        let seen = QueueInner::perform_on(&mut self.tail, &mut records.records, phase.action(thread));
        records.phases.set(thread, phase.after(seen));
        self.queue = Ghost(before.lock(thread).queue);
        self.ledger = Ghost(before.lock(thread).ledger);
        proof {
            let after = self.view_in(records@);
            assert(after.records =~= before.lock(thread).records);
            assert(after.phases =~= before.lock(thread).phases);
            assert forall|t: int| #![trigger records@.phases[t]] 0 <= t < store.phases.len() implies records@.left_to(store, t, self.number, thread) by {
            }
        }
        true
    }

    /// Lets the acquisition of `thread` go one action further on its way
    /// into the critical section of this lock, and says whether it is in it
    /// now. Nothing happens to a thread that stands in another line.
    pub fn wait(&mut self, records: &mut ThreadRecords, thread: usize) -> (held: bool)
        requires
            old(self).wf_in(old(records)@),
        ensures
            final(self).view_in(final(records)@) == old(self).view_in(old(records)@).wait(thread),
            old(records)@.knows(thread) ==> final(records)@.records[thread as int] == if old(self).view_in(old(records)@).phase(thread) is MarkLocked {
                Record { locked: true, next: old(records)@.records[thread as int].next }
            } else {
                old(records)@.records[thread as int]
            },
            held == final(self).view_in(final(records)@).holds(thread),
            final(records)@.follows(old(records)@, old(self).number(), thread),
            final(self).number() == old(self).number(),
            final(self).wf_in(final(records)@),
    {
        let ghost store = records@;
        proof {
            if store.knows(thread) {
                self.view_in(store).lemma_own_record_kept(thread);
            }
        }
        let mut stepped = false;
        if thread < records.phases.len() && records.lines[thread] == self.number {
            match records.phases[thread] {
                Phase::Enqueue | Phase::MarkLocked { .. } | Phase::Link { .. } | Phase::Spin => {
                    self.step(records, thread);
                    stepped = true;
                },
                _ => {},
            }
        }
        proof {
            if !stepped {
                assert forall|t: int| #![trigger store.phases[t]] 0 <= t < store.phases.len() implies store.left_to(store, t, self.number, thread) by {
                }
            }
        }
        self.holds(records, thread)
    }

    /// Lets the acquisition of `thread` go one action further on its way
    /// out of the critical section of this lock, and says whether the
    /// thread is idle to this lock: whether the release is complete.
    /// Nothing happens to a thread that stands in another line or still
    /// waits.
    pub fn unlock(&mut self, records: &mut ThreadRecords, thread: usize) -> (done: bool)
        requires
            old(self).wf_in(old(records)@),
        ensures
            final(self).view_in(final(records)@) == old(self).view_in(old(records)@).release(
                thread,
            ),
            old(records)@.knows(thread) ==> final(records)@.records[thread as int]
                == old(records)@.records[thread as int],
            done == (final(self).view_in(final(records)@).owns(thread) && final(self).view_in(
                final(records)@,
            ).phase(thread) is Idle),
            final(records)@.follows(old(records)@, old(self).number(), thread),
            final(self).number() == old(self).number(),
            final(self).wf_in(final(records)@),
    {
        let ghost store = records@;
        let ghost before = self.view_in(store);
        proof {
            assert forall|t: int| #![trigger store.phases[t]] 0 <= t < store.phases.len() implies store.left_to(store, t, self.number, thread) by {
            }
            if store.knows(thread) {
                before.lemma_own_record_kept(thread);
            }
        }
        if thread >= records.phases.len() {
            return false;
        }
        if records.lines[thread] != self.number {
            return true;
        }
        match records.phases[thread] {
            Phase::Holding => {
                proof {
                    before.lemma_unlock(thread);
                }
                let phase = Phase::ReadNext;
                let seen = QueueInner::perform_on(
                    &mut self.tail,
                    &mut records.records,
                    phase.action(thread),
                );
                records.phases.set(thread, phase.after(seen));
                self.queue = Ghost(before.unlock(thread).queue);
                self.ledger = Ghost(before.unlock(thread).ledger);
                proof {
                    let after = self.view_in(records@);
                    assert(after.records =~= before.unlock(thread).records);
                    assert(after.phases =~= before.unlock(thread).phases);
                    assert forall|t: int| #![trigger records@.phases[t]] 0 <= t < store.phases.len() implies records@.left_to(store, t, self.number, thread) by {
                    }
                }
            },
            Phase::ReadNext | Phase::CloseTail | Phase::AwaitLink | Phase::HandOff { .. } => {
                self.step(records, thread);
            },
            _ => {},
        }
        proof {
            let after = self.view_in(records@);
            assert(records@.left_to(store, thread as int, self.number, thread));
            assert(after.phases[thread as int] == records@.phase_for(thread as int, self.number));
        }
        records.phases[thread].is_idle()
    }
}

/// The handle of the acquisition that a thread has in flight on a
/// [`ThreadLocalMscLock`]. It cannot be copied, and only the lock makes one.
pub struct ThreadLocalMscLockGuard {
    thread: usize,
    lock: Ghost<int>,
}

impl View for ThreadLocalMscLockGuard {
    type V = usize;

    closed spec fn view(&self) -> usize {
        self.thread
    }
}

impl ThreadLocalMscLockGuard {
    fn new(thread: usize, lock: Ghost<int>) -> (guard: ThreadLocalMscLockGuard)
        ensures
            guard@ == thread,
            guard.lock_id() == lock@,
    {
        ThreadLocalMscLockGuard { thread, lock }
    }

    /// The thread whose acquisition this is.
    pub fn thread(&self) -> (thread: usize)
        ensures
            thread == self@,
    {
        self.thread
    }

    /// The identity of the lock that made the guard.
    pub closed spec fn lock_id(&self) -> int {
        self.lock@
    }

    /// The protected value, for the holder to read.
    pub fn deref<'a, T>(&self, lock: &'a ThreadLocalMscLock<T>, records: &ThreadRecords) -> (value:
        &'a T)
        requires
            lock.made(self),
            lock.view_in(records@).holds(self@),
        ensures
            *value == lock.value(),
    {
        &lock.data
    }

    /// The protected value, for the holder to change. Nothing else of the
    /// lock changes.
    pub fn deref_mut<'a, T>(
        &self,
        lock: &'a mut ThreadLocalMscLock<T>,
        records: &ThreadRecords,
    ) -> (value: &'a mut T)
        requires
            old(lock).made(self),
            old(lock).view_in(records@).holds(self@),
        ensures
            *value == old(lock).value(),
            final(lock).value() == *final(value),
            final(lock).view_in(records@) == old(lock).view_in(records@),
            final(lock).number() == old(lock).number(),
            final(lock).windows() == old(lock).windows(),
            final(lock).id() == old(lock).id(),
            old(lock).wf_in(records@) ==> final(lock).wf_in(records@),
    {
        proof {
            if lock.wf_in(records@) {
                lock.view_in(records@).lemma_windows();
            }
        }
        &mut lock.data
    }
}

/// A queue lock around a value of `T` in which every thread queues up with
/// the one record that it owns.
pub struct ThreadLocalMscLock<T> {
    inner: ThreadLocalMscLockInner,
    data: T,
    windows: Ghost<Windows<T>>,
    id: Ghost<int>,
}

impl<T> ThreadLocalMscLock<T> {
    /// The lock without the value it protects.
    pub closed spec fn inner(&self) -> ThreadLocalMscLockInner {
        self.inner
    }

    /// The lock as it stands among `records`.
    pub open spec fn view_in(&self, records: RecordsState) -> QueueState {
        self.inner().view_in(records)
    }

    /// The number of the lock among those that share the records.
    pub open spec fn number(&self) -> usize {
        self.inner().number()
    }

    /// The protected value.
    pub closed spec fn value(&self) -> T {
        self.data
    }

    /// The identity of the lock. Nothing is disclosed of it, not even by
    /// `new`, so that no proof can take one lock for another. (Ghost code
    /// cannot make a value that is new in earnest; what keeps two locks
    /// apart is that no contract says what their identities are.)
    pub closed spec fn id(&self) -> int {
        self.id@
    }

    /// Whether `guard` was made by this lock.
    pub open spec fn made(&self, guard: &ThreadLocalMscLockGuard) -> bool {
        guard.lock_id() == self.id()
    }

    /// What every holder found in the protected value and what it left.
    pub closed spec fn windows(&self) -> Windows<T> {
        self.windows@
    }

    /// Whether the lock is one of those that use `records`, is in a state
    /// that it can reach, and has lost nothing of what its holders wrote.
    pub open spec fn wf_in(&self, records: RecordsState) -> bool {
        &&& records.wf()
        &&& self.number() < records.locks
        &&& self.view_in(records).inv()
        &&& self.windows().keeps(self.view_in(records).ledger, self.value())
    }

    /// No update is lost: every holder found in the protected value what
    /// the holder before it left there, the first one what the lock was
    /// made with; and while nobody holds the lock the value is what the
    /// last holder left.
    pub proof fn lemma_no_lost_update(&self, records: RecordsState)
        requires
            self.wf_in(records),
        ensures
            self.windows().chained(),
            self.windows().found.len() == self.view_in(records).ledger.entered.len(),
            self.windows().left.len() == self.view_in(records).ledger.exited.len(),
            !self.view_in(records).ledger.held() ==> self.value() == self.windows().current(),
    {
    }

    /// What another lock does to the records leaves this lock as it was,
    /// but for what records hold that are idle to this lock.
    pub proof fn lemma_untouched(
        &self,
        before: RecordsState,
        after: RecordsState,
        by: usize,
        thread: usize,
    )
        requires
            self.wf_in(before),
            after.wf(),
            after.follows(before, by, thread),
            by != self.number(),
        ensures
            self.view_in(before).agrees(self.view_in(after)),
            self.wf_in(after),
    {
        self.inner.lemma_untouched(before, after, by, thread);
    }

    /// A new thread leaves this lock as it was, but for one more idle
    /// record.
    pub proof fn lemma_thread_spawned(&self, before: RecordsState)
        requires
            self.wf_in(before),
        ensures
            self.view_in(before.spawned()) == self.view_in(before).grow(),
            self.wf_in(before.spawned()),
    {
        self.inner.lemma_thread_spawned(before);
    }

    /// A new lock on the same records leaves this lock as it was.
    pub proof fn lemma_lock_made(&self, before: RecordsState)
        requires
            self.wf_in(before),
        ensures
            self.view_in(before.with_lock()) == self.view_in(before),
            self.wf_in(before.with_lock()),
    {
        self.inner.lemma_lock_made(before);
    }

    /// A lock around `value`, on `records`, that no thread has used.
    pub fn new(value: T, records: &mut ThreadRecords) -> (lock: ThreadLocalMscLock<T>)
        requires
            old(records).wf(),
            old(records)@.locks < usize::MAX,
        ensures
            lock.number() == old(records)@.locks,
            final(records)@ == old(records)@.with_lock(),
            lock.view_in(final(records)@) == unused(old(records)@.records),
            lock.value() == value,
            lock.windows() == Windows::new(value),
            lock.wf_in(final(records)@),
    {
        let ghost initial = value;
        ThreadLocalMscLock {
            inner: ThreadLocalMscLockInner::new(records),
            data: value,
            windows: Ghost(Windows::new(initial)),
            id: Ghost(0),
        }
    }

    /// Starts an acquisition by `thread`, with the record that the thread
    /// owns. A thread that has no record, or has an acquisition in flight
    /// at this lock or at another one, gets no guard and changes nothing.
    /// If nobody was at the tail the guard holds the lock at once;
    /// otherwise it has to [`wait`](Self::wait).
    pub fn lock(&mut self, records: &mut ThreadRecords, thread: usize) -> (guard: Option<
        ThreadLocalMscLockGuard,
    >)
        requires
            old(self).wf_in(old(records)@),
        ensures
            guard is Some <==> old(records)@.knows(thread) && !old(records)@.busy(thread),
            guard matches Some(own) ==> own@ == thread && final(self).made(&own),
            final(self).view_in(final(records)@) == if guard is Some {
                old(self).view_in(old(records)@).lock(thread)
            } else {
                old(self).view_in(old(records)@)
            },
            guard is None ==> final(records)@ == old(records)@,
            final(records)@.follows(old(records)@, old(self).number(), thread),
            final(self).number() == old(self).number(),
            final(self).value() == old(self).value(),
            final(self).id() == old(self).id(),
            final(self).windows() == old(self).windows().follow(
                old(self).view_in(old(records)@).ledger,
                final(self).view_in(final(records)@).ledger,
                old(self).value(),
            ),
            final(self).wf_in(final(records)@),
    {
        let ghost before = self.view_in(records@);
        let started = self.inner.lock(records, thread);
        let ghost after = self.view_in(records@);
        proof {
            self.windows@.lemma_follow(before.ledger, after.ledger, self.data);
        }
        self.windows = Ghost(self.windows@.follow(before.ledger, after.ledger, self.data));
        if started {
            Some(ThreadLocalMscLockGuard::new(thread, Ghost(self.id@)))
        } else {
            None
        }
    }

    /// Lets the acquisition of `guard` perform its next action on its way
    /// into the critical section, and says whether it is in it now.
    pub fn wait(&mut self, records: &mut ThreadRecords, guard: &ThreadLocalMscLockGuard) -> (held:
        bool)
        requires
            old(self).wf_in(old(records)@),
            old(self).made(guard),
        ensures
            final(self).view_in(final(records)@) == old(self).view_in(old(records)@).wait(guard@),
            old(records)@.knows(guard@) ==> final(records)@.records[guard@ as int] == if old(self).view_in(old(records)@).phase(guard@) is MarkLocked {
                Record { locked: true, next: old(records)@.records[guard@ as int].next }
            } else {
                old(records)@.records[guard@ as int]
            },
            held == final(self).view_in(final(records)@).holds(guard@),
            final(records)@.follows(old(records)@, old(self).number(), guard@),
            final(self).number() == old(self).number(),
            final(self).value() == old(self).value(),
            final(self).id() == old(self).id(),
            final(self).windows() == old(self).windows().follow(
                old(self).view_in(old(records)@).ledger,
                final(self).view_in(final(records)@).ledger,
                old(self).value(),
            ),
            final(self).wf_in(final(records)@),
    {
        let ghost before = self.view_in(records@);
        let held = self.inner.wait(records, guard.thread);
        let ghost after = self.view_in(records@);
        proof {
            self.windows@.lemma_follow(before.ledger, after.ledger, self.data);
        }
        self.windows = Ghost(self.windows@.follow(before.ledger, after.ledger, self.data));
        held
    }

    /// Whether `guard` holds the lock.
    pub fn holds(&self, records: &ThreadRecords, guard: &ThreadLocalMscLockGuard) -> (held: bool)
        requires
            records.wf(),
            self.made(guard),
        ensures
            held == self.view_in(records@).holds(guard@),
    {
        self.inner.holds(records, guard.thread)
    }

    /// Lets the acquisition of `guard` perform its next action on its way
    /// out of the critical section. The guard comes back as long as the
    /// release is not complete: the call is then to be made again.
    pub fn unlock(&mut self, records: &mut ThreadRecords, guard: ThreadLocalMscLockGuard) -> (rest:
        Option<ThreadLocalMscLockGuard>)
        requires
            old(self).wf_in(old(records)@),
            old(self).made(&guard),
        ensures
            final(self).view_in(final(records)@) == old(self).view_in(old(records)@).release(guard@),
            old(records)@.knows(guard@) ==> final(records)@.records[guard@ as int]
                == old(records)@.records[guard@ as int],
            final(records)@.follows(old(records)@, old(self).number(), guard@),
            final(self).number() == old(self).number(),
            final(self).value() == old(self).value(),
            final(self).id() == old(self).id(),
            final(self).windows() == old(self).windows().follow(
                old(self).view_in(old(records)@).ledger,
                final(self).view_in(final(records)@).ledger,
                old(self).value(),
            ),
            final(self).wf_in(final(records)@),
            rest is None <==> final(self).view_in(final(records)@).owns(guard@)
                && final(self).view_in(final(records)@).phase(guard@) is Idle,
            rest matches Some(same) ==> same@ == guard@ && final(self).made(&same),
    {
        let ghost before = self.view_in(records@);
        let done = self.inner.unlock(records, guard.thread);
        let ghost after = self.view_in(records@);
        proof {
            before.lemma_windows();
            self.windows@.lemma_follow(before.ledger, after.ledger, self.data);
        }
        self.windows = Ghost(self.windows@.follow(before.ledger, after.ledger, self.data));
        if done {
            None
        } else {
            Some(guard)
        }
    }
}

} // verus!
