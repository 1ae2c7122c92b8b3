//! The protocol of the queue locks, and the proof that it is right.
//!
//! The protocol is written once, as the program [`Phase`]: where an
//! acquisition stands, which [`Action`] on the shared words comes next, and
//! where it goes on what the action has [`Seen`]. Whoever performs the
//! actions, on whatever the words are made of, runs the protocol.
//!
//! [`QueueState`] is a lock under contention as a mathematical value: the
//! words, the phase of every acquisition, and the ghost line of those that
//! have asked. Its invariant holds of a new lock and is kept by every step
//! of every acquisition, in any order; mutual exclusion, service in the
//! order of arrival and the safe hand-over of the lock follow from it.
//!
//! [`QueueInner`] is the executable counterpart: it performs the actions on
//! words of its own.
use vstd::prelude::*;
use crate::lock_guard::Ledger;
use crate::mcs_lock::Record;

verus! {

/// Where one acquisition stands in the protocol.
///
/// An acquisition starts at `Enqueue` and is in the critical section at
/// `Holding`; its release starts at `ReadNext` and is complete at `Idle`.
#[derive(Clone, Copy, Debug)]
pub enum Phase {
    /// The record is not in use.
    Idle,
    /// About to swap the tail for its own record.
    Enqueue,
    /// Found `pred` at the tail; about to raise its own flag.
    MarkLocked { pred: usize },
    /// About to write its own record into the link of `pred`.
    Link { pred: usize },
    /// Linked; reading its own flag until it is lowered.
    Spin,
    /// In the critical section.
    Holding,
    /// Left the critical section; about to read its own link.
    ReadNext,
    /// Saw nobody behind it; about to swing the tail back to empty.
    CloseTail,
    /// Somebody swapped the tail in between; reading its own link until the
    /// newcomer has written it.
    AwaitLink,
    /// About to lower the flag of `next`.
    HandOff { next: usize },
}

/// One atomic operation on the words that the waiters share.
#[derive(Clone, Copy, Debug)]
pub enum Action {
    /// Nothing: the acquisition rests until its owner calls again.
    Rest,
    /// Swap the tail for `new` and report what it was.
    SwapTail { new: usize },
    /// Raise the flag of `record`.
    SetLocked { record: usize },
    /// Write `next` into the link of `record`.
    SetNext { record: usize, next: usize },
    /// Read the flag of `record`.
    LoadLocked { record: usize },
    /// Read the link of `record`.
    LoadNext { record: usize },
    /// Empty the tail if it still is `current`, and report whether it was.
    ClearTail { current: usize },
    /// Lower the flag of `record`.
    ClearLocked { record: usize },
}

/// What an action brought back.
#[derive(Clone, Copy, Debug)]
pub enum Seen {
    /// The action reads nothing.
    Nothing,
    /// The flag that was read.
    Locked(bool),
    /// The link, or the former tail, that was read.
    Node(Option<usize>),
    /// Whether the tail was emptied.
    Cleared(bool),
}

impl Phase {
    /// The action that an acquisition in this phase performs next, `me`
    /// being its own record.
    pub open spec fn action_of(self, me: usize) -> Action {
        match self {
            Phase::Idle => Action::Rest,
            Phase::Enqueue => Action::SwapTail { new: me },
            Phase::MarkLocked { pred } => Action::SetLocked { record: me },
            Phase::Link { pred } => Action::SetNext { record: pred, next: me },
            Phase::Spin => Action::LoadLocked { record: me },
            Phase::Holding => Action::Rest,
            Phase::ReadNext => Action::LoadNext { record: me },
            Phase::CloseTail => Action::ClearTail { current: me },
            Phase::AwaitLink => Action::LoadNext { record: me },
            Phase::HandOff { next } => Action::ClearLocked { record: next },
        }
    }

    /// The phase that follows this one when its action has brought back
    /// `seen`. An answer of the wrong kind changes nothing.
    pub open spec fn after_seen(self, seen: Seen) -> Phase {
        match (self, seen) {
            (Phase::Enqueue, Seen::Node(None)) => Phase::Holding,
            (Phase::Enqueue, Seen::Node(Some(pred))) => Phase::MarkLocked { pred },
            (Phase::MarkLocked { pred }, Seen::Nothing) => Phase::Link { pred },
            (Phase::Link { pred }, Seen::Nothing) => Phase::Spin,
            (Phase::Spin, Seen::Locked(false)) => Phase::Holding,
            (Phase::ReadNext, Seen::Node(None)) => Phase::CloseTail,
            (Phase::ReadNext, Seen::Node(Some(next))) => Phase::HandOff { next },
            (Phase::CloseTail, Seen::Cleared(true)) => Phase::Idle,
            (Phase::CloseTail, Seen::Cleared(false)) => Phase::AwaitLink,
            (Phase::AwaitLink, Seen::Node(Some(next))) => Phase::HandOff { next },
            (Phase::HandOff { next }, Seen::Nothing) => Phase::Idle,
            _ => self,
        }
    }

    /// Whether the acquisition is on its way into the critical section.
    pub open spec fn acquiring(self) -> bool {
        self is Enqueue || self is MarkLocked || self is Link || self is Spin
    }

    /// Whether the acquisition has left the critical section and is handing
    /// the lock on.
    pub open spec fn releasing(self) -> bool {
        self is ReadNext || self is CloseTail || self is AwaitLink || self is HandOff
    }

    /// How far the acquisition is from leaving its record idle: an upper
    /// bound on the number of times that it can still go to another phase.
    pub open spec fn rank(self) -> nat {
        match self {
            Phase::Idle => 0,
            Phase::HandOff { next } => 1,
            Phase::AwaitLink => 2,
            Phase::CloseTail => 3,
            Phase::ReadNext => 4,
            Phase::Holding => 5,
            Phase::Spin => 6,
            Phase::Link { pred } => 7,
            Phase::MarkLocked { pred } => 8,
            Phase::Enqueue => 9,
        }
    }

    /// The action to perform next on the shared words.
    pub fn action(&self, me: usize) -> (action: Action)
        ensures
            action == self.action_of(me),
    {
        match *self {
            Phase::Idle => Action::Rest,
            Phase::Enqueue => Action::SwapTail { new: me },
            Phase::MarkLocked { pred: _ } => Action::SetLocked { record: me },
            Phase::Link { pred } => Action::SetNext { record: pred, next: me },
            Phase::Spin => Action::LoadLocked { record: me },
            Phase::Holding => Action::Rest,
            Phase::ReadNext => Action::LoadNext { record: me },
            Phase::CloseTail => Action::ClearTail { current: me },
            Phase::AwaitLink => Action::LoadNext { record: me },
            Phase::HandOff { next } => Action::ClearLocked { record: next },
        }
    }

    /// The phase to go to on what the action has seen.
    pub fn after(&self, seen: Seen) -> (phase: Phase)
        ensures
            phase == self.after_seen(seen),
    {
        match (*self, seen) {
            (Phase::Enqueue, Seen::Node(None)) => Phase::Holding,
            (Phase::Enqueue, Seen::Node(Some(pred))) => Phase::MarkLocked { pred },
            (Phase::MarkLocked { pred }, Seen::Nothing) => Phase::Link { pred },
            (Phase::Link { pred: _ }, Seen::Nothing) => Phase::Spin,
            (Phase::Spin, Seen::Locked(false)) => Phase::Holding,
            (Phase::ReadNext, Seen::Node(None)) => Phase::CloseTail,
            (Phase::ReadNext, Seen::Node(Some(next))) => Phase::HandOff { next },
            (Phase::CloseTail, Seen::Cleared(true)) => Phase::Idle,
            (Phase::CloseTail, Seen::Cleared(false)) => Phase::AwaitLink,
            (Phase::AwaitLink, Seen::Node(Some(next))) => Phase::HandOff { next },
            (Phase::HandOff { next: _ }, Seen::Nothing) => Phase::Idle,
            (phase, _) => phase,
        }
    }

    /// Whether the acquisition is in the critical section.
    pub fn is_holding(&self) -> (holding: bool)
        ensures
            holding == (*self is Holding),
    {
        match *self {
            Phase::Holding => true,
            _ => false,
        }
    }

    /// Whether the record is free for a new acquisition.
    pub fn is_idle(&self) -> (idle: bool)
        ensures
            idle == (*self is Idle),
    {
        match *self {
            Phase::Idle => true,
            _ => false,
        }
    }
}

/// A queue lock under contention: the shared words, the phase of every
/// record, and the ghost line of those that have swapped the tail and not
/// finished their release.
pub struct QueueState {
    /// The record that queued up last, if the lock is in use.
    pub tail: Option<usize>,
    /// The records, by number.
    pub records: Seq<Record>,
    /// The phase of the acquisition that uses each record.
    pub phases: Seq<Phase>,
    /// The records in line, the owner or the next owner first.
    pub queue: Seq<usize>,
    /// Requests, entries and exits so far.
    pub ledger: Ledger<usize>,
}

impl QueueState {
    /// A lock without records that nobody has used.
    pub open spec fn new() -> QueueState {
        QueueState {
            tail: None,
            records: Seq::empty(),
            phases: Seq::empty(),
            queue: Seq::empty(),
            ledger: Ledger::new(),
        }
    }

    /// Whether `id` numbers a record of this lock.
    pub open spec fn owns(self, id: usize) -> bool {
        id < self.phases.len()
    }

    /// The phase of record `id`.
    pub open spec fn phase(self, id: usize) -> Phase {
        self.phases[id as int]
    }

    /// The record `id`.
    pub open spec fn record(self, id: usize) -> Record {
        self.records[id as int]
    }

    /// Whether the acquisition on record `id` is in the critical section.
    pub open spec fn holds(self, id: usize) -> bool {
        self.owns(id) && self.phase(id) is Holding
    }

    /// Whether every record that `action` touches is one of this lock.
    pub open spec fn admits(self, action: Action) -> bool {
        match action {
            Action::Rest => true,
            Action::SwapTail { new } => true,
            Action::SetLocked { record } => record < self.records.len(),
            Action::SetNext { record, next } => record < self.records.len(),
            Action::LoadLocked { record } => record < self.records.len(),
            Action::LoadNext { record } => record < self.records.len(),
            Action::ClearTail { current } => true,
            Action::ClearLocked { record } => record < self.records.len(),
        }
    }

    /// The shared words after `action`.
    pub open spec fn perform(self, action: Action) -> QueueState {
        match action {
            Action::SwapTail { new } => QueueState { tail: Some(new), ..self },
            Action::SetLocked { record } => QueueState {
                records: self.records.update(
                    record as int,
                    Record { locked: true, next: self.record(record).next },
                ),
                ..self
            },
            Action::SetNext { record, next } => QueueState {
                records: self.records.update(
                    record as int,
                    Record { locked: self.record(record).locked, next: Some(next) },
                ),
                ..self
            },
            Action::ClearTail { current } => if self.tail == Some(current) {
                QueueState { tail: None, ..self }
            } else {
                self
            },
            Action::ClearLocked { record } => QueueState {
                records: self.records.update(
                    record as int,
                    Record { locked: false, next: self.record(record).next },
                ),
                ..self
            },
            _ => self,
        }
    }

    /// What `action` brings back.
    pub open spec fn observe(self, action: Action) -> Seen {
        match action {
            Action::SwapTail { new } => Seen::Node(self.tail),
            Action::LoadLocked { record } => Seen::Locked(self.record(record).locked),
            Action::LoadNext { record } => Seen::Node(self.record(record).next),
            Action::ClearTail { current } => Seen::Cleared(self.tail == Some(current)),
            _ => Seen::Nothing,
        }
    }

    /// The lock after the acquisition on record `id` has performed its next
    /// action, which is one read or one write of one shared word. The swap
    /// of the tail is the request, the step into `Holding` the entry, and
    /// the step back to `Idle` takes the record out of the line. A release
    /// writes the tail or the flag of the record behind, never the record of
    /// the acquisition that releases: that one keeps what it held.
    pub open spec fn step(self, id: usize) -> QueueState {
        let phase = self.phase(id);
        let action = phase.action_of(id);
        let next = phase.after_seen(self.observe(action));
        let words = self.perform(action);
        let asked = if phase is Enqueue {
            self.ledger.request(id)
        } else {
            self.ledger
        };
        QueueState {
            phases: self.phases.update(id as int, next),
            queue: if phase is Enqueue {
                self.queue.push(id)
            } else if next is Idle && !(phase is Idle) {
                self.queue.drop_first()
            } else {
                self.queue
            },
            ledger: if next is Holding && !(phase is Holding) {
                asked.enter(id)
            } else {
                asked
            },
            ..words
        }
    }

    /// The lock after a new acquisition has taken the idle record `id`,
    /// wiped it and swapped the tail. The record is out of reach while it is
    /// wiped, so that the swap is the one action that others can see.
    pub open spec fn lock(self, id: usize) -> QueueState {
        QueueState {
            records: self.records.update(id as int, Record::clean()),
            phases: self.phases.update(id as int, Phase::Enqueue),
            ..self
        }.step(id)
    }

    /// The lock after the holder `id` has left the critical section and read
    /// its link.
    pub open spec fn unlock(self, id: usize) -> QueueState {
        QueueState {
            phases: self.phases.update(id as int, Phase::ReadNext),
            ledger: self.ledger.exit(id),
            ..self
        }.step(id)
    }

    /// The lock with one more record, clean and idle.
    pub open spec fn grow(self) -> QueueState {
        QueueState {
            records: self.records.push(Record::clean()),
            phases: self.phases.push(Phase::Idle),
            ..self
        }
    }

    /// The record at place `i > 0` of the line waits behind the one before
    /// it: it knows its predecessor, and from the moment it is about to link
    /// itself its flag is up.
    pub open spec fn follower_ok(self, i: int) -> bool {
        let me = self.queue[i];
        let pred = self.queue[i - 1];
        match self.phase(me) {
            Phase::MarkLocked { pred: p } => p == pred,
            Phase::Link { pred: p } => p == pred && self.record(me).locked,
            Phase::Spin => self.record(me).locked,
            _ => false,
        }
    }

    /// The first in line owns the lock or has been handed it: it holds, it
    /// releases, or its flag is down and it is about to see that.
    pub open spec fn leader_ok(self) -> bool {
        let me = self.queue[0];
        match self.phase(me) {
            Phase::Spin => !self.record(me).locked,
            Phase::Holding => true,
            Phase::CloseTail => true,
            Phase::AwaitLink => self.queue.len() >= 2,
            Phase::HandOff { next } => self.record(me).next == Some(next),
            _ => false,
        }
    }

    /// The link of the record at place `i` of the line names the record
    /// behind it, once that one has linked itself, and nothing before that.
    pub open spec fn link_ok(self, i: int) -> bool {
        let linked = i + 1 < self.queue.len() && self.phase(self.queue[i + 1]) is Spin;
        match self.record(self.queue[i]).next {
            Some(next) => linked && next == self.queue[i + 1],
            None => !linked,
        }
    }

    /// Whether the first in line has entered the critical section.
    pub open spec fn granted(self) -> bool {
        self.queue.len() > 0 && !(self.phase(self.queue[0]) is Spin)
    }

    /// The ledger agrees with the line: the line is the end of the requests,
    /// everybody before it has come and gone, and a window is open exactly
    /// when the first in line holds.
    pub open spec fn ledger_ok(self) -> bool {
        let came = self.ledger.requested.len() - self.queue.len();
        &&& self.ledger.exclusive()
        &&& self.ledger.fair()
        &&& came >= 0
        &&& self.queue =~= self.ledger.requested.skip(came)
        &&& self.ledger.entered.len() == came + if self.granted() { 1int } else { 0int }
        &&& self.ledger.held() <==> self.queue.len() > 0 && self.phase(self.queue[0]) is Holding
    }

    /// What holds of a queue lock in every state that it can reach. The
    /// line holds the records in use, each once; the tail names the last of
    /// them; the first owns the lock or is about to, and every other waits
    /// behind the one before it; the links follow the line; and the ledger
    /// agrees with all that. No record rests at `Enqueue` or `ReadNext`: the
    /// calls that start an acquisition or a release perform the first action
    /// at once.
    pub open spec fn inv(self) -> bool {
        &&& self.records.len() == self.phases.len()
        &&& self.queue.no_duplicates()
        &&& forall|i: int| 0 <= i < self.queue.len() ==> self.owns(#[trigger] self.queue[i])
        &&& forall|id: usize|
            self.owns(id) ==> ((#[trigger] self.phase(id)) is Idle <==> !self.queue.contains(id))
        &&& match self.tail {
            Some(last) => self.queue.len() > 0 && last == self.queue.last(),
            None => self.queue.len() == 0,
        }
        &&& self.queue.len() > 0 ==> self.leader_ok()
        &&& forall|i: int| 0 < i < self.queue.len() ==> #[trigger] self.follower_ok(i)
        &&& forall|i: int| 0 <= i < self.queue.len() ==> #[trigger] self.link_ok(i)
        &&& self.ledger_ok()
    }

    /// A lock that nobody has used is in order.
    pub proof fn lemma_new()
        ensures
            QueueState::new().inv(),
    {
        Ledger::<usize>::lemma_new();
    }

    /// One more idle record changes nothing for the others.
    pub proof fn lemma_grow(self)
        requires
            self.inv(),
        ensures
            self.grow().inv(),
    {
        let t = self.grow();
        assert forall|id: usize| t.owns(id) implies ((#[trigger] t.phase(id)) is Idle
            <==> !t.queue.contains(id)) by {
            if self.owns(id) {
                assert(t.phase(id) == self.phase(id));
            } else {
                if t.queue.contains(id) {
                    let k = choose|k: int| 0 <= k < self.queue.len() && self.queue[k] == id;
                    assert(self.owns(self.queue[k]));
                }
            }
        }
        assert forall|i: int| 0 < i < t.queue.len() implies #[trigger] t.follower_ok(i) by {
            assert(self.follower_ok(i));
            assert(self.owns(self.queue[i]));
        }
        assert forall|i: int| 0 <= i < t.queue.len() implies #[trigger] t.link_ok(i) by {
            assert(self.link_ok(i));
            assert(self.owns(self.queue[i]));
            if i + 1 < self.queue.len() {
                assert(self.owns(self.queue[i + 1]));
            }
        }
        if t.queue.len() > 0 {
            assert(self.owns(self.queue[0]));
        }
    }

    /// The place of record `id` in the line.
    pub open spec fn place(self, id: usize) -> int {
        self.queue.index_of(id)
    }

    /// A record in use stands in the line, once, and a record that holds or
    /// releases stands first.
    pub proof fn lemma_place(self, id: usize)
        requires
            self.inv(),
            self.owns(id),
            !(self.phase(id) is Idle),
        ensures
            0 <= self.place(id) < self.queue.len(),
            self.queue[self.place(id)] == id,
            self.place(id) > 0 ==> self.follower_ok(self.place(id)),
            self.place(id) == 0 ==> self.leader_ok(),
            self.link_ok(self.place(id)),
            self.phase(id) is Holding || self.phase(id).releasing() ==> self.place(id) == 0,
            !(self.phase(id) is Enqueue),
            !(self.phase(id) is ReadNext),
    {
        assert(self.queue.contains(id));
        let i = self.place(id);
        assert(0 <= i < self.queue.len() && self.queue[i] == id);
        if i > 0 {
            assert(self.follower_ok(i));
        }
    }

    /// The records in line other than `id` are in use and are not `id`.
    proof fn lemma_others(self, id: usize, i: int)
        requires
            self.inv(),
            0 <= i < self.queue.len(),
            i != self.place(id) || !self.queue.contains(id),
        ensures
            self.queue[i] != id,
            self.owns(self.queue[i]),
            !(self.phase(self.queue[i]) is Idle),
    {
        assert(self.queue.contains(self.queue[i]));
        if self.queue.contains(id) {
            let k = self.place(id);
            assert(0 <= k < self.queue.len() && self.queue[k] == id);
        }
    }

    /// A step that moves one record in use to another phase in use, and
    /// leaves the line as it is, keeps the line the list of records in use.
    proof fn lemma_same_line(self, t: QueueState, id: usize)
        requires
            self.inv(),
            self.owns(id),
            !(self.phase(id) is Idle),
            t.queue == self.queue,
            t.phases =~= self.phases.update(id as int, t.phase(id)),
            !(t.phase(id) is Idle),
        ensures
            forall|x: usize|
                t.owns(x) ==> ((#[trigger] t.phase(x)) is Idle <==> !t.queue.contains(x)),
    {
        assert forall|x: usize| t.owns(x) implies ((#[trigger] t.phase(x)) is Idle
            <==> !t.queue.contains(x)) by {
            if x != id {
                assert(t.phase(x) == self.phase(x));
            } else {
                assert(!(self.phase(x) is Idle));
            }
        }
    }

    /// The window that is open belongs to the first in line.
    proof fn lemma_holder(self)
        requires
            self.inv(),
            self.granted(),
        ensures
            self.ledger.entered.len() > 0,
            self.ledger.entered.last() == self.queue[0],
    {
        let came = self.ledger.requested.len() - self.queue.len();
        assert(self.queue[0] == self.ledger.requested.skip(came)[0]);
        assert(self.ledger.entered.last() == self.ledger.requested.subrange(
            0,
            self.ledger.entered.len() as int,
        )[came]);
    }

    /// A new acquisition on an idle record keeps the lock in order.
    pub proof fn lemma_lock(self, id: usize)
        requires
            self.inv(),
            self.owns(id),
            self.phase(id) is Idle,
        ensures
            self.lock(id).inv(),
    {
        let t = self.lock(id);
        let n = self.queue.len() as int;
        assert(!self.queue.contains(id));
        assert(t.queue =~= self.queue.push(id));
        assert forall|i: int| 0 <= i < n implies self.queue[i] != id && self.owns(self.queue[i])
            && t.phase(self.queue[i]) == self.phase(#[trigger] self.queue[i]) && t.record(
            self.queue[i],
        ) == self.record(self.queue[i]) by {
            self.lemma_others(id, i);
        }
        assert(t.queue.no_duplicates());
        assert forall|x: usize| t.owns(x) implies ((#[trigger] t.phase(x)) is Idle
            <==> !t.queue.contains(x)) by {
            if x == id {
                assert(t.queue[n] == id);
            } else {
                assert(t.phase(x) == self.phase(x));
                if self.queue.contains(x) {
                    let k = choose|k: int| 0 <= k < n && self.queue[k] == x;
                    assert(t.queue[k] == x);
                }
                if t.queue.contains(x) {
                    let k = choose|k: int| 0 <= k < n + 1 && t.queue[k] == x;
                    assert(self.queue[k] == x);
                }
            }
        }
        assert forall|i: int| 0 < i < t.queue.len() implies #[trigger] t.follower_ok(i) by {
            if i < n {
                assert(self.follower_ok(i));
            }
        }
        assert forall|i: int| 0 <= i < t.queue.len() implies #[trigger] t.link_ok(i) by {
            if i < n {
                assert(self.link_ok(i));
            }
        }
        self.ledger.lemma_request(id);
        if n == 0 {
            self.ledger.request(id).lemma_enter(id);
            self.ledger.request(id).lemma_enter_in_turn(id);
        } else {
            assert(self.leader_ok());
        }
        assert(t.ledger_ok());
    }

    /// The holder's first step out of the critical section keeps the lock in
    /// order.
    pub proof fn lemma_unlock(self, id: usize)
        requires
            self.inv(),
            self.holds(id),
        ensures
            self.unlock(id).inv(),
    {
        let t = self.unlock(id);
        self.lemma_place(id);
        self.lemma_holder();
        self.ledger.lemma_exit(id);
        assert(t.queue == self.queue);
        self.lemma_same_line(t, id);
        assert forall|i: int| 0 < i < t.queue.len() implies #[trigger] t.follower_ok(i) by {
            assert(self.follower_ok(i));
            self.lemma_others(id, i);
        }
        assert forall|i: int| 0 <= i < t.queue.len() implies #[trigger] t.link_ok(i) by {
            assert(self.link_ok(i));
            if i + 1 < self.queue.len() {
                self.lemma_others(id, i + 1);
            }
        }
        assert(t.ledger_ok());
    }

    /// A step that changes no word and leaves the line as it is keeps the
    /// followers and the links in order.
    proof fn lemma_frame(self, t: QueueState, id: usize)
        requires
            self.inv(),
            self.owns(id),
            !(self.phase(id) is Idle),
            t.queue == self.queue,
            t.ledger == self.ledger,
            t.tail == self.tail,
            t.phases =~= self.phases.update(id as int, t.phase(id)),
            t.records.len() == self.records.len(),
            !(t.phase(id) is Idle),
            t.phase(id) is Spin <==> self.phase(id) is Spin,
            forall|i: int|
                0 <= i < self.queue.len() && i != self.place(id) ==> t.record(
                    #[trigger] self.queue[i],
                ) == self.record(self.queue[i]),
            t.record(id).next == self.record(id).next,
            self.place(id) > 0 ==> t.follower_ok(self.place(id)),
            self.place(id) == 0 ==> t.leader_ok(),
            t.granted() == self.granted(),
            t.phase(id) is Holding <==> self.phase(id) is Holding,
        ensures
            t.inv(),
    {
        self.lemma_place(id);
        self.lemma_same_line(t, id);
        let p = self.place(id);
        assert forall|i: int| 0 <= i < self.queue.len() && i != p implies t.phase(
            #[trigger] self.queue[i],
        ) == self.phase(self.queue[i]) by {
            self.lemma_others(id, i);
        }
        assert forall|i: int| 0 < i < t.queue.len() implies #[trigger] t.follower_ok(i) by {
            assert(self.follower_ok(i));
        }
        assert forall|i: int| 0 <= i < t.queue.len() implies #[trigger] t.link_ok(i) by {
            assert(self.link_ok(i));
        }
        if p != 0 {
            assert(self.leader_ok());
        }
        assert(t.ledger_ok());
    }

    /// Every step of every acquisition keeps the lock in order.
    pub proof fn lemma_step(self, id: usize)
        requires
            self.inv(),
            self.owns(id),
        ensures
            self.step(id).inv(),
    {
        let t = self.step(id);
        match self.phase(id) {
            Phase::Idle => {
                assert(t.phases =~= self.phases);
                assert(t == self);
            },
            Phase::Holding => {
                assert(t.phases =~= self.phases);
                assert(t == self);
            },
            Phase::Enqueue => {
                self.lemma_place(id);
            },
            Phase::ReadNext => {
                self.lemma_place(id);
            },
            Phase::MarkLocked { pred } => {
                self.lemma_place(id);
                self.lemma_frame(t, id);
            },
            Phase::Link { pred } => {
                self.lemma_step_link(id);
            },
            Phase::Spin => {
                self.lemma_step_spin(id);
            },
            Phase::CloseTail => {
                self.lemma_step_close(id);
            },
            Phase::AwaitLink => {
                self.lemma_place(id);
                if self.record(id).next is None {
                    assert(t.phases =~= self.phases);
                    assert(t == self);
                } else {
                    self.lemma_frame(t, id);
                }
            },
            Phase::HandOff { next } => {
                self.lemma_step_hand_off(id);
            },
        }
    }

    /// The step that links a record behind its predecessor keeps the lock in
    /// order.
    proof fn lemma_step_link(self, id: usize)
        requires
            self.inv(),
            self.owns(id),
            self.phase(id) is Link,
        ensures
            self.step(id).inv(),
    {
        let t = self.step(id);
        self.lemma_place(id);
        let p = self.place(id);
        let pred = self.queue[p - 1];
        assert(self.follower_ok(p));
        self.lemma_same_line(t, id);
        self.lemma_others(id, p - 1);
        assert(self.link_ok(p - 1));
        assert forall|i: int| 0 <= i < self.queue.len() && i != p implies t.phase(
            #[trigger] self.queue[i],
        ) == self.phase(self.queue[i]) by {
            self.lemma_others(id, i);
        }
        assert forall|i: int| 0 <= i < self.queue.len() && i != p - 1 implies t.record(
            #[trigger] self.queue[i],
        ) == self.record(self.queue[i]) by {
        }
        assert forall|i: int| 0 < i < t.queue.len() implies #[trigger] t.follower_ok(i) by {
            assert(self.follower_ok(i));
        }
        assert forall|i: int| 0 <= i < t.queue.len() implies #[trigger] t.link_ok(i) by {
            assert(self.link_ok(i));
        }
        assert(self.leader_ok());
        assert(self.link_ok(0));
        assert(t.leader_ok());
        assert(t.ledger_ok());
    }

    /// A look at its own flag keeps the lock in order: who sees it down is
    /// first in line and enters.
    proof fn lemma_step_spin(self, id: usize)
        requires
            self.inv(),
            self.owns(id),
            self.phase(id) is Spin,
        ensures
            self.step(id).inv(),
    {
        let t = self.step(id);
        self.lemma_place(id);
        let p = self.place(id);
        if self.record(id).locked {
            assert(t.phases =~= self.phases);
            assert(t == self);
        } else {
            assert(p == 0);
            let came = self.ledger.requested.len() - self.queue.len();
            assert(self.ledger.waiting() =~= self.queue);
            self.ledger.lemma_enter(id);
            self.ledger.lemma_enter_in_turn(id);
            self.lemma_same_line(t, id);
            assert forall|i: int| 0 <= i < self.queue.len() && i != p implies t.phase(
                #[trigger] self.queue[i],
            ) == self.phase(self.queue[i]) by {
                self.lemma_others(id, i);
            }
            assert forall|i: int| 0 < i < t.queue.len() implies #[trigger] t.follower_ok(i) by {
                assert(self.follower_ok(i));
            }
            assert forall|i: int| 0 <= i < t.queue.len() implies #[trigger] t.link_ok(i) by {
                assert(self.link_ok(i));
            }
            assert(t.ledger_ok());
        }
    }

    /// The attempt to empty the tail keeps the lock in order: it succeeds
    /// exactly when nobody is behind.
    proof fn lemma_step_close(self, id: usize)
        requires
            self.inv(),
            self.owns(id),
            self.phase(id) is CloseTail,
        ensures
            self.step(id).inv(),
    {
        let t = self.step(id);
        self.lemma_place(id);
        let n = self.queue.len() as int;
        if self.tail == Some(id) {
            assert(self.queue[n - 1] == id);
            assert(n == 1);
            assert(t.queue =~= Seq::<usize>::empty());
            assert forall|x: usize| t.owns(x) implies ((#[trigger] t.phase(x)) is Idle
                <==> !t.queue.contains(x)) by {
                if x != id {
                    assert(t.phase(x) == self.phase(x));
                    if self.queue.contains(x) {
                        let k = choose|k: int| 0 <= k < n && self.queue[k] == x;
                    }
                }
            }
            assert(t.ledger_ok());
        } else {
            assert(n >= 2);
            self.lemma_frame(t, id);
        }
    }

    /// The hand-over keeps the lock in order: the record behind becomes the
    /// first in line with its flag down.
    proof fn lemma_step_hand_off(self, id: usize)
        requires
            self.inv(),
            self.owns(id),
            self.phase(id) is HandOff,
        ensures
            self.step(id).inv(),
    {
        let t = self.step(id);
        self.lemma_place(id);
        let n = self.queue.len() as int;
        let next = self.phase(id)->next;
        assert(self.link_ok(0));
        assert(n >= 2 && self.queue[1] == next);
        assert(self.follower_ok(1));
        assert(t.queue =~= self.queue.drop_first());
        assert forall|i: int| 0 <= i < n - 1 implies t.queue[i] == self.queue[i + 1] && t.phase(
            #[trigger] t.queue[i],
        ) == self.phase(t.queue[i]) && t.record(t.queue[i]).next == self.record(
            t.queue[i],
        ).next && (i > 0 ==> t.record(t.queue[i]) == self.record(t.queue[i])) by {
            self.lemma_others(id, i + 1);
        }
        assert(t.queue.no_duplicates());
        assert forall|x: usize| t.owns(x) implies ((#[trigger] t.phase(x)) is Idle
            <==> !t.queue.contains(x)) by {
            if x == id {
                if t.queue.contains(x) {
                    let k = choose|k: int| 0 <= k < n - 1 && t.queue[k] == x;
                    assert(self.queue[k + 1] == id);
                }
            } else {
                assert(t.phase(x) == self.phase(x));
                if self.queue.contains(x) {
                    let k = choose|k: int| 0 <= k < n && self.queue[k] == x;
                    assert(t.queue[k - 1] == x);
                }
                if t.queue.contains(x) {
                    let k = choose|k: int| 0 <= k < n - 1 && t.queue[k] == x;
                    assert(self.queue[k + 1] == x);
                }
            }
        }
        assert forall|i: int| 0 < i < t.queue.len() implies #[trigger] t.follower_ok(i) by {
            assert(self.follower_ok(i + 1));
            assert(t.queue[i - 1] == self.queue[i]);
        }
        assert forall|i: int| 0 <= i < t.queue.len() implies #[trigger] t.link_ok(i) by {
            assert(self.link_ok(i + 1));
            if i + 1 < t.queue.len() {
                assert(t.queue[i + 1] == self.queue[i + 2]);
            }
        }
        assert(t.leader_ok());
        assert(t.ledger_ok());
    }

    /// In a lock that is in order, the records that the next action of an
    /// acquisition touches are records of the lock.
    pub proof fn lemma_admits(self, id: usize)
        requires
            self.inv(),
            self.owns(id),
        ensures
            self.admits(self.phase(id).action_of(id)),
    {
        if !(self.phase(id) is Idle) {
            self.lemma_place(id);
            let p = self.place(id);
            if p > 0 {
                assert(self.owns(self.queue[p - 1]));
            } else if self.phase(id) is HandOff {
                assert(self.link_ok(0));
                assert(self.owns(self.queue[1]));
            }
        }
    }

    /// Whether `other` is this lock but possibly for what its idle records
    /// hold.
    pub open spec fn agrees(self, other: QueueState) -> bool {
        &&& self.tail == other.tail
        &&& self.phases == other.phases
        &&& self.queue == other.queue
        &&& self.ledger == other.ledger
        &&& self.records.len() == other.records.len()
        &&& forall|id: usize|
            self.owns(id) && !(self.phase(id) is Idle) ==> #[trigger] self.record(id)
                == other.record(id)
    }

    /// What an idle record holds is immaterial: a lock that is in order
    /// stays so whatever is written into the records that are not in line.
    pub proof fn lemma_idle_records_immaterial(self, other: QueueState)
        requires
            self.inv(),
            self.agrees(other),
        ensures
            other.inv(),
    {
        assert forall|id: usize| other.owns(id) implies ((#[trigger] other.phase(id)) is Idle
            <==> !other.queue.contains(id)) by {
            assert(self.phase(id) == other.phase(id));
        }
        assert forall|i: int| 0 <= i < self.queue.len() implies other.record(
            #[trigger] self.queue[i],
        ) == self.record(self.queue[i]) by {
            assert(self.queue.contains(self.queue[i]));
            assert(self.owns(self.queue[i]));
        }
        assert forall|i: int| 0 < i < other.queue.len() implies #[trigger] other.follower_ok(
            i,
        ) by {
            assert(self.follower_ok(i));
        }
        assert forall|i: int| 0 <= i < other.queue.len() implies #[trigger] other.link_ok(i) by {
            assert(self.link_ok(i));
        }
        if self.queue.len() > 0 {
            assert(self.leader_ok());
        }
    }

    /// A release never writes the record of the acquisition that releases,
    /// and no action on the way in writes it but the one that raises its
    /// own flag.
    pub proof fn lemma_own_record_kept(self, id: usize)
        requires
            self.inv(),
            self.owns(id),
        ensures
            self.release(id).record(id) == self.record(id),
            self.wait(id).record(id) == if self.phase(id) is MarkLocked {
                Record { locked: true, next: self.record(id).next }
            } else {
                self.record(id)
            },
    {
        if !(self.phase(id) is Idle) {
            self.lemma_place(id);
            let p = self.place(id);
            if p > 0 {
                self.lemma_others(id, p - 1);
            } else if self.phase(id) is HandOff {
                assert(self.link_ok(0));
                self.lemma_others(id, 1);
            }
        }
    }

    /// The record that `action` reads or writes, if it is not the tail
    /// alone.
    pub open spec fn touched(action: Action) -> Option<usize> {
        match action {
            Action::SetLocked { record } => Some(record),
            Action::SetNext { record, next } => Some(record),
            Action::LoadLocked { record } => Some(record),
            Action::LoadNext { record } => Some(record),
            Action::ClearLocked { record } => Some(record),
            _ => None,
        }
    }

    /// An acquisition touches no record but those in line: its own, the one
    /// in front of it, and the one behind it.
    pub proof fn lemma_touches_line(self, id: usize)
        requires
            self.inv(),
            self.owns(id),
            !(self.phase(id) is Idle),
        ensures
            QueueState::touched(self.phase(id).action_of(id)) matches Some(record) ==> self.owns(
                record,
            ) && !(self.phase(record) is Idle),
    {
        self.lemma_place(id);
        let p = self.place(id);
        if p > 0 {
            self.lemma_others(id, p - 1);
        } else if self.phase(id) is HandOff {
            assert(self.link_ok(0));
            self.lemma_others(id, 1);
        }
    }

    /// The words alone, as a lock without acquisitions: what an action does
    /// to the words does not depend on anything else.
    pub open spec fn words(tail: Option<usize>, records: Seq<Record>) -> QueueState {
        QueueState {
            tail,
            records,
            phases: Seq::empty(),
            queue: Seq::empty(),
            ledger: Ledger::new(),
        }
    }

    /// The lock after the acquisition on record `id` has gone one action
    /// further on its way in; nothing happens unless it is on its way in.
    pub open spec fn wait(self, id: usize) -> QueueState {
        if self.owns(id) && self.phase(id).acquiring() {
            self.step(id)
        } else {
            self
        }
    }

    /// The lock after the acquisition on record `id` has gone one action
    /// further on its way out: the holder leaves the critical section, and
    /// who has left it goes on handing the lock over. Nothing happens to an
    /// acquisition that was never let in.
    pub open spec fn release(self, id: usize) -> QueueState {
        if self.holds(id) {
            self.unlock(id)
        } else if self.owns(id) && self.phase(id).releasing() {
            self.step(id)
        } else {
            self
        }
    }

    /// Every acquisition so far came with a record of its own: there are as
    /// many records as requests, and the request with number `k` was made
    /// with the record with number `k`.
    pub open spec fn one_record_each(self) -> bool {
        &&& self.ledger.requested.len() == self.phases.len()
        &&& forall|k: int|
            0 <= k < self.ledger.requested.len() ==> #[trigger] self.ledger.requested[k] == k
    }

    /// An acquisition that comes with a new record, which gets the number
    /// `record`, keeps the lock in order, and keeps it true that every
    /// acquisition had a record of its own. The newcomer stands last in
    /// line, in the critical section if the lock was free and behind the
    /// former tail if not, and moves nobody else.
    pub proof fn lemma_lock_with_new_record(self, record: usize)
        requires
            self.inv(),
            record == self.phases.len(),
        ensures
            ({
                let after = self.grow().lock(record);
                &&& after.inv()
                &&& self.one_record_each() ==> after.one_record_each()
                &&& after.phases.len() == self.phases.len() + 1
                &&& after.tail == Some(record)
                &&& after.queue == self.queue.push(record)
                &&& after.ledger.requested == self.ledger.requested.push(record)
                &&& after.phase(record) == match self.tail {
                    None => Phase::Holding,
                    Some(pred) => Phase::MarkLocked { pred },
                }
                &&& forall|other: usize|
                    self.owns(other) ==> after.phase(other) == self.phase(other)
            }),
    {
        self.lemma_grow();
        self.grow().lemma_lock(record);
    }

    /// No step on the way in or out asks for the lock anew: what was true
    /// of the records and the requests stays true.
    pub proof fn lemma_one_record_each_kept(self, id: usize)
        requires
            self.inv(),
            self.one_record_each(),
        ensures
            self.wait(id).one_record_each(),
            self.release(id).one_record_each(),
    {
        if self.owns(id) && !(self.phase(id) is Idle) {
            self.lemma_place(id);
        }
    }

    /// A record that has served is never used again: where every
    /// acquisition comes with a new record, an idle record stays idle
    /// whatever happens, so that a guard whose release is complete can
    /// never hold the lock again.
    pub proof fn lemma_served_is_over(self, id: usize, other: usize, record: usize)
        requires
            self.inv(),
            self.owns(id),
            self.phase(id) is Idle,
            record == self.phases.len(),
        ensures
            self.grow().lock(record).phase(id) is Idle,
            self.wait(other).phase(id) is Idle,
            self.release(other).phase(id) is Idle,
    {
        self.lemma_lock_with_new_record(record);
        if self.owns(other) {
            self.lemma_moves_forward(other, id);
            if self.holds(other) {
                assert(self.unlock(other).phase(id) == self.phase(id));
            }
        }
    }

    /// No record is used twice: two requests that were made with one record
    /// are one request.
    pub proof fn lemma_no_record_twice(self, j: int, k: int)
        requires
            self.one_record_each(),
            0 <= j < self.ledger.requested.len(),
            0 <= k < self.ledger.requested.len(),
            self.ledger.requested[j] == self.ledger.requested[k],
        ensures
            j == k,
    {
    }

    /// Mutual exclusion: in a lock that is in order, two acquisitions that
    /// are both in the critical section are one and the same, and it stands
    /// first in line.
    pub proof fn lemma_mutual_exclusion(self, a: usize, b: usize)
        requires
            self.inv(),
            self.holds(a),
            self.holds(b),
        ensures
            a == b,
            self.queue.len() > 0,
            a == self.queue[0],
    {
        self.lemma_place(a);
        self.lemma_place(b);
    }

    /// Ownership windows never overlap, and each is closed once, by the
    /// acquisition that opened it: the exits recorded are the entries
    /// recorded, in their order, but for the one window that may be open;
    /// and a window is open exactly when some acquisition is in the critical
    /// section, which is then the one that entered last.
    pub proof fn lemma_windows(self)
        requires
            self.inv(),
        ensures
            self.ledger.exclusive(),
            self.ledger.held() <==> exists|id: usize| self.holds(id),
            forall|id: usize| self.holds(id) ==> self.ledger.holder() == id,
    {
        if self.ledger.held() {
            assert(self.holds(self.queue[0]));
        }
        assert forall|id: usize| self.holds(id) implies self.ledger.holder() == id
            && self.ledger.held() by {
            self.lemma_place(id);
            self.lemma_holder();
        }
    }

    /// First come, first served: the lock is granted in the order in which
    /// the acquisitions swapped the tail. The entries recorded are the
    /// requests recorded, in their order, up to those still in line; whoever
    /// is in the critical section is the one that has been in line longest;
    /// and those behind it are the requests that were not let in yet, in the
    /// order in which they came.
    pub proof fn lemma_first_come_first_served(self)
        requires
            self.inv(),
        ensures
            self.ledger.fair(),
            self.granted() ==> self.ledger.waiting() == self.queue.drop_first(),
            !self.granted() ==> self.ledger.waiting() == self.queue,
    {
        if self.granted() {
            assert(self.ledger.waiting() =~= self.queue.drop_first());
        } else {
            assert(self.ledger.waiting() =~= self.queue);
        }
    }

    /// Whether the next action of the acquisition on record `id` takes it to
    /// another phase, rather than leaving it to spin where it is.
    pub open spec fn moves(self, id: usize) -> bool {
        self.owns(id) && self.step(id).phase(id) != self.phase(id)
    }

    /// No wake-up is lost: while anybody is in line, the first in line holds
    /// the lock, is handing it on, or has had its flag lowered and will see
    /// that at its next look. A release that found no successor and could
    /// not empty the tail does not end there: it waits for the newcomer,
    /// which is in line behind it and is on its way to link itself.
    pub proof fn lemma_no_lost_wake_up(self)
        requires
            self.inv(),
            self.queue.len() > 0,
        ensures
            ({
                let first = self.queue[0];
                ||| self.holds(first)
                ||| self.phase(first).releasing()
                ||| (self.phase(first) is Spin && !self.record(first).locked)
            }),
            self.phase(self.queue[0]) is AwaitLink ==> self.queue.len() >= 2 && (self.moves(
                self.queue[0],
            ) || self.moves(self.queue[1])),
            forall|i: int|
                0 < i < self.queue.len() ==> (#[trigger] self.phase(self.queue[i])).acquiring()
                    && !self.step(self.queue[i]).holds(self.queue[i]),
    {
        assert(self.leader_ok());
        assert(self.owns(self.queue[0]));
        if self.phase(self.queue[0]) is AwaitLink {
            assert(self.link_ok(0));
            assert(self.follower_ok(1));
            assert(self.owns(self.queue[1]));
        }
        assert forall|i: int| 0 < i < self.queue.len() implies (#[trigger] self.phase(
            self.queue[i],
        )).acquiring() && !self.step(self.queue[i]).holds(self.queue[i]) by {
            assert(self.follower_ok(i));
            assert(self.owns(self.queue[i]));
        }
    }

    /// An idle record is out of reach: the tail does not name it, no record
    /// in use links to it, and no acquisition remembers it as the one
    /// before or behind it. So a record whose release is complete may be
    /// given back, or used again, and nobody will notice.
    pub proof fn lemma_idle_out_of_reach(self, idle: usize, id: usize)
        requires
            self.inv(),
            self.owns(idle),
            self.phase(idle) is Idle,
            self.owns(id),
            !(self.phase(id) is Idle),
        ensures
            self.tail != Some(idle),
            self.record(id).next != Some(idle),
            self.phase(id) matches Phase::MarkLocked { pred } ==> pred != idle,
            self.phase(id) matches Phase::Link { pred } ==> pred != idle,
            self.phase(id) matches Phase::HandOff { next } ==> next != idle,
    {
        self.lemma_place(id);
        let p = self.place(id);
        let n = self.queue.len() as int;
        assert(self.queue.contains(self.queue[n - 1]));
        if p + 1 < n {
            assert(self.queue.contains(self.queue[p + 1]));
        }
        if p > 0 {
            assert(self.queue.contains(self.queue[p - 1]));
        }
    }

    /// Progress is never undone: a step of an acquisition either takes it
    /// nearer to the end of its release, or is a look at a word that has
    /// not changed yet and leaves the whole lock as it was. It moves no
    /// other acquisition, and the line changes only in that its first
    /// record leaves it. The holder's step out of the critical section
    /// takes it nearer to the end as well.
    pub proof fn lemma_moves_forward(self, id: usize, other: usize)
        requires
            self.inv(),
            self.owns(id),
            self.owns(other),
        ensures
            self.moves(id) ==> self.step(id).phase(id).rank() < self.phase(id).rank(),
            !self.moves(id) ==> self.step(id) == self,
            other != id ==> self.step(id).phase(other) == self.phase(other),
            self.step(id).queue == self.queue || self.step(id).queue == self.queue.drop_first(),
            self.holds(id) ==> self.unlock(id).phase(id).rank() < self.phase(id).rank(),
            self.holds(id) ==> self.unlock(id).queue == self.queue,
    {
        if !(self.phase(id) is Idle) {
            self.lemma_place(id);
        }
        if !self.moves(id) {
            assert(self.step(id).phases =~= self.phases);
        }
    }

    /// The moves that the records at the first `n` places of the line have
    /// before them at most, taken together, until they are idle again.
    pub open spec fn work(self, n: int) -> int
        decreases n,
    {
        if n <= 0 {
            0
        } else {
            self.work(n - 1) + self.phase(self.queue[n - 1]).rank()
        }
    }

    /// The moves that the acquisition on record `id` and those in front of
    /// it have before them at most, until they are idle again. While `id`
    /// waits this is more than five, the rank of a holder.
    pub open spec fn ahead(self, id: usize) -> int {
        self.work(self.place(id) + 1)
    }

    /// The place of a record in a line without duplicates is where it
    /// stands.
    proof fn lemma_place_is(self, id: usize, i: int)
        requires
            self.queue.no_duplicates(),
            0 <= i < self.queue.len(),
            self.queue[i] == id,
        ensures
            self.place(id) == i,
    {
        let j = self.place(id);
        assert(0 <= j < self.queue.len() && self.queue[j] == id);
    }

    /// Two lines that agree on `n` places, the second from its start and
    /// the first from `shift` places in, have the same work there.
    proof fn lemma_work_agree(self, t: QueueState, n: int, shift: int)
        requires
            0 <= n <= t.queue.len(),
            0 <= shift,
            n + shift <= self.queue.len(),
            forall|i: int|
                0 <= i < n ==> #[trigger] t.queue[i] == self.queue[i + shift] && t.phase(
                    t.queue[i],
                ) == self.phase(self.queue[i + shift]),
        ensures
            t.work(n) == self.work(n + shift) - self.work(shift),
        decreases n,
    {
        if n > 0 {
            self.lemma_work_agree(t, n - 1, shift);
            assert(t.queue[n - 1] == self.queue[n - 1 + shift]);
        }
    }

    /// Two states with the same line that differ in the phase of the record
    /// at place `k` alone differ in their work by what that record gained.
    proof fn lemma_work_update(self, t: QueueState, n: int, k: int)
        requires
            t.queue == self.queue,
            0 <= k < n <= self.queue.len(),
            forall|i: int|
                0 <= i < n && i != k ==> t.phase(#[trigger] self.queue[i]) == self.phase(
                    self.queue[i],
                ),
        ensures
            t.work(n) == self.work(n) - self.phase(self.queue[k]).rank() + t.phase(
                self.queue[k],
            ).rank(),
        decreases n,
    {
        if n - 1 == k {
            assert forall|i: int| 0 <= i < n - 1 implies #[trigger] t.queue[i] == self.queue[i
                + 0] && t.phase(t.queue[i]) == self.phase(self.queue[i + 0]) by {
                assert(t.phase(self.queue[i]) == self.phase(self.queue[i]));
            }
            self.lemma_work_agree(t, n - 1, 0);
        } else {
            self.lemma_work_update(t, n - 1, k);
        }
    }

    /// The wait is bounded by those in front. For an acquisition `id` that
    /// waits in line, count the moves that it and the acquisitions in front
    /// of it have before them at most ([`ahead`](Self::ahead)). No step of
    /// anybody raises that count; every step that takes `id` or one in
    /// front of it to another phase lowers it; and a newcomer, which queues
    /// up behind, leaves it as it is. After every step `id` still waits or
    /// has got in.
    pub proof fn lemma_wait_is_bounded(self, id: usize, mover: usize)
        requires
            self.inv(),
            self.owns(id),
            self.phase(id).acquiring(),
            self.owns(mover),
        ensures
            self.ahead(id) > Phase::Holding.rank(),
            ({
                let t = self.step(mover);
                &&& t.phase(id).acquiring() || t.holds(id)
                &&& t.ahead(id) <= self.ahead(id)
                &&& self.moves(mover) && self.place(mover) <= self.place(id) ==> t.ahead(id)
                    < self.ahead(id)
            }),
            self.holds(mover) ==> ({
                let t = self.unlock(mover);
                t.phase(id) == self.phase(id) && t.ahead(id) < self.ahead(id)
            }),
            self.phase(mover) is Idle ==> ({
                let t = self.lock(mover);
                t.phase(id) == self.phase(id) && t.ahead(id) == self.ahead(id)
            }),
    {
        self.lemma_place(id);
        let p = self.place(id);
        let n = self.queue.len() as int;
        assert(self.work(p + 1) == self.work(p) + self.phase(id).rank());
        self.lemma_work_floor(p);
        self.lemma_moves_forward(mover, id);
        let t = self.step(mover);
        self.lemma_step(mover);
        if self.moves(mover) {
            self.lemma_place(mover);
            let m = self.place(mover);
            if t.queue == self.queue {
                if m <= p {
                    assert forall|i: int| 0 <= i < p + 1 && i != m implies t.phase(
                        #[trigger] self.queue[i],
                    ) == self.phase(self.queue[i]) by {
                        self.lemma_others(mover, i);
                    }
                    self.lemma_work_update(t, p + 1, m);
                } else {
                    assert forall|i: int| 0 <= i < p + 1 implies #[trigger] t.queue[i]
                        == self.queue[i + 0] && t.phase(t.queue[i]) == self.phase(
                        self.queue[i + 0],
                    ) by {
                        self.lemma_others(mover, i);
                    }
                    self.lemma_work_agree(t, p + 1, 0);
                }
            } else {
                assert(m == 0 && p > 0);
                assert(t.queue =~= self.queue.drop_first());
                assert forall|i: int| 0 <= i < p implies #[trigger] t.queue[i] == self.queue[i
                    + 1] && t.phase(t.queue[i]) == self.phase(self.queue[i + 1]) by {
                    self.lemma_others(mover, i + 1);
                }
                self.lemma_work_agree(t, p, 1);
                t.lemma_place_is(id, p - 1);
                assert(self.work(1) == self.work(0) + self.phase(mover).rank());
            }
        }
        if self.holds(mover) {
            let u = self.unlock(mover);
            self.lemma_place(mover);
            assert(u.queue == self.queue);
            assert forall|i: int| 0 <= i < p + 1 && i != 0 implies u.phase(
                #[trigger] self.queue[i],
            ) == self.phase(self.queue[i]) by {
                self.lemma_others(mover, i);
            }
            self.lemma_work_update(u, p + 1, 0);
        }
        if self.phase(mover) is Idle {
            let u = self.lock(mover);
            self.lemma_lock(mover);
            assert(u.queue =~= self.queue.push(mover));
            assert forall|i: int| 0 <= i < p + 1 implies #[trigger] u.queue[i] == self.queue[i
                + 0] && u.phase(u.queue[i]) == self.phase(self.queue[i + 0]) by {
                assert(self.owns(self.queue[i]));
                assert(self.queue.contains(self.queue[i]));
            }
            self.lemma_work_agree(u, p + 1, 0);
            u.lemma_place_is(id, p);
        }
    }

    /// Work is never negative.
    proof fn lemma_work_floor(self, n: int)
        ensures
            self.work(n) >= 0,
        decreases n,
    {
        if n > 0 {
            self.lemma_work_floor(n - 1);
        }
    }

    /// Nobody is stuck: while anybody is in line and nobody is in the
    /// critical section, the first in line or the one behind it can perform
    /// an action that takes it to another phase.
    pub proof fn lemma_somebody_moves(self)
        requires
            self.inv(),
            self.queue.len() > 0,
            !self.holds(self.queue[0]),
        ensures
            self.moves(self.queue[0]) || (self.queue.len() >= 2 && self.moves(self.queue[1])),
            self.phase(self.queue[0]).acquiring() ==> self.moves(self.queue[0]),
    {
        self.lemma_no_lost_wake_up();
        assert(self.leader_ok());
        assert(self.owns(self.queue[0]));
    }
}

/// The executable queue without the value that the lock protects: the tail,
/// the records and the phase of the acquisition on each. Both queue locks
/// are built on it; they differ in where the record of a new acquisition
/// comes from.
pub struct QueueInner {
    tail: Option<usize>,
    records: Vec<Record>,
    phases: Vec<Phase>,
    queue: Ghost<Seq<usize>>,
    ledger: Ghost<Ledger<usize>>,
}

impl View for QueueInner {
    type V = QueueState;

    closed spec fn view(&self) -> QueueState {
        QueueState {
            tail: self.tail,
            records: self.records@,
            phases: self.phases@,
            queue: self.queue@,
            ledger: self.ledger@,
        }
    }
}

impl QueueInner {
    /// Whether the queue is in a state that it can reach.
    pub open spec fn wf(&self) -> bool {
        self@.inv()
    }

    /// A queue without records that nobody has used.
    pub fn new() -> (inner: QueueInner)
        ensures
            inner@ == QueueState::new(),
            inner.wf(),
    {
        proof {
            QueueState::lemma_new();
        }
        let inner = QueueInner {
            tail: None,
            records: Vec::new(),
            phases: Vec::new(),
            queue: Ghost(Seq::empty()),
            ledger: Ghost(Ledger::new()),
        };
        assert(inner@ =~= QueueState::new());
        inner
    }

    /// The number of records that there are.
    pub fn len(&self) -> (n: usize)
        ensures
            n == self@.phases.len(),
    {
        self.phases.len()
    }

    /// The phase of the acquisition on `record`.
    pub fn phase(&self, record: usize) -> (phase: Phase)
        requires
            self@.owns(record),
        ensures
            phase == self@.phase(record),
    {
        self.phases[record]
    }

    /// What `record` holds.
    pub fn record(&self, record: usize) -> (node: Record)
        requires
            record < self@.records.len(),
        ensures
            node == self@.record(record),
    {
        self.records[record]
    }

    /// Whether the acquisition on `record` is in the critical section.
    pub fn holds(&self, record: usize) -> (held: bool)
        ensures
            held == self@.holds(record),
    {
        record < self.phases.len() && self.phases[record].is_holding()
    }

    /// Performs `action` on the words `tail` and `records` as one
    /// indivisible step, and says what it saw.
    pub fn perform_on(tail: &mut Option<usize>, records: &mut Vec<Record>, action: Action) -> (seen:
        Seen)
        requires
            QueueState::words(*old(tail), old(records)@).admits(action),
        ensures
            *final(tail) == QueueState::words(*old(tail), old(records)@).perform(action).tail,
            final(records)@ == QueueState::words(*old(tail), old(records)@).perform(
                action,
            ).records,
            seen == QueueState::words(*old(tail), old(records)@).observe(action),
    {
        let seen = match action {
            Action::Rest => Seen::Nothing,
            Action::SwapTail { new } => {
                let last = *tail;
                *tail = Some(new);
                Seen::Node(last)
            },
            Action::SetLocked { record } => {
                let mut node = records[record];
                node.lock();
                records.set(record, node);
                Seen::Nothing
            },
            Action::SetNext { record, next } => {
                let node = records[record];
                records.set(record, Record { locked: node.locked, next: Some(next) });
                Seen::Nothing
            },
            Action::LoadLocked { record } => Seen::Locked(records[record].locked),
            Action::LoadNext { record } => Seen::Node(records[record].next),
            Action::ClearTail { current } => {
                let emptied = match *tail {
                    Some(last) => last == current,
                    None => false,
                };
                if emptied {
                    *tail = None;
                }
                Seen::Cleared(emptied)
            },
            Action::ClearLocked { record } => {
                let node = records[record];
                records.set(record, Record { locked: false, next: node.next });
                Seen::Nothing
            },
        };
        assert(records@ =~= QueueState::words(*old(tail), old(records)@).perform(action).records);
        seen
    }

    /// Performs `action` on the words of this queue as one indivisible
    /// step, and says what it saw.
    pub fn perform(&mut self, action: Action) -> (seen: Seen)
        requires
            old(self)@.admits(action),
        ensures
            final(self)@ == old(self)@.perform(action),
            seen == old(self)@.observe(action),
    {
        let seen = Self::perform_on(&mut self.tail, &mut self.records, action);
        assert(self@ =~= old(self)@.perform(action));
        seen
    }

    /// Lets the acquisition on `record` perform its next action.
    pub fn step(&mut self, record: usize)
        requires
            old(self).wf(),
            old(self)@.owns(record),
        ensures
            final(self)@ == old(self)@.step(record),
            final(self).wf(),
    {
        let ghost before = self@;
        proof {
            before.lemma_admits(record);
            before.lemma_step(record);
        }
        let phase = self.phases[record];
        let seen = self.perform(phase.action(record));
        self.phases.set(record, phase.after(seen));
        self.queue = Ghost(before.step(record).queue);
        self.ledger = Ghost(before.step(record).ledger);
        assert(self@ =~= before.step(record));
    }

    /// Adds a clean record that no acquisition uses.
    pub fn grow(&mut self)
        requires
            old(self).wf(),
        ensures
            final(self)@ == old(self)@.grow(),
            final(self).wf(),
    {
        proof {
            self@.lemma_grow();
        }
        self.records.push(Record::new());
        self.phases.push(Phase::Idle);
        assert(self@ =~= old(self)@.grow());
    }

    /// Starts an acquisition on the idle record `record`: wipes the record
    /// and swaps the tail for it. With nobody at the tail the acquisition is
    /// in the critical section at once; otherwise it stands behind the
    /// record that it found there.
    pub fn enqueue(&mut self, record: usize)
        requires
            old(self).wf(),
            old(self)@.owns(record),
            old(self)@.phase(record) is Idle,
        ensures
            final(self)@ == old(self)@.lock(record),
            final(self).wf(),
    {
        let ghost before = self@;
        proof {
            before.lemma_lock(record);
        }
        let mut node = self.records[record];
        node.reset();
        self.records.set(record, node);
        self.phases.set(record, Phase::Enqueue);
        let phase = Phase::Enqueue;
        let seen = self.perform(phase.action(record));
        self.phases.set(record, phase.after(seen));
        self.queue = Ghost(before.lock(record).queue);
        self.ledger = Ghost(before.lock(record).ledger);
        assert(self@ =~= before.lock(record));
    }

    /// Lets the acquisition on `record` go one action further on its way
    /// into the critical section, and says whether it is in it now.
    pub fn wait(&mut self, record: usize) -> (held: bool)
        requires
            old(self).wf(),
        ensures
            final(self)@ == old(self)@.wait(record),
            old(self)@.owns(record) ==> final(self)@.record(record) == if old(self)@.phase(record) is MarkLocked {
                Record { locked: true, next: old(self)@.record(record).next }
            } else {
                old(self)@.record(record)
            },
            held == final(self)@.holds(record),
            final(self).wf(),
    {
        proof {
            if self@.owns(record) {
                self@.lemma_own_record_kept(record);
            }
        }
        if record < self.phases.len() {
            match self.phases[record] {
                Phase::Enqueue | Phase::MarkLocked { .. } | Phase::Link { .. } | Phase::Spin => {
                    self.step(record);
                },
                _ => {},
            }
        }
        self.holds(record)
    }

    /// Lets the acquisition on `record` go one action further on its way
    /// out of the critical section, and says whether the release is
    /// complete, that is, whether the record is idle again. The record
    /// itself is never written: it keeps its link and its flag.
    pub fn unlock(&mut self, record: usize) -> (done: bool)
        requires
            old(self).wf(),
        ensures
            final(self)@ == old(self)@.release(record),
            old(self)@.owns(record) ==> final(self)@.record(record) == old(self)@.record(record),
            done == (final(self)@.owns(record) && final(self)@.phase(record) is Idle),
            final(self).wf(),
    {
        proof {
            if self@.owns(record) {
                self@.lemma_own_record_kept(record);
            }
        }
        if record >= self.phases.len() {
            return false;
        }
        match self.phases[record] {
            Phase::Holding => {
                let ghost before = self@;
                proof {
                    before.lemma_unlock(record);
                    let left = QueueState {
                        phases: before.phases.update(record as int, Phase::ReadNext),
                        ledger: before.ledger.exit(record),
                        ..before
                    };
                    assert(left.admits(Phase::ReadNext.action_of(record)));
                }
                let phase = Phase::ReadNext;
                self.phases.set(record, phase);
                let seen = self.perform(phase.action(record));
                self.phases.set(record, phase.after(seen));
                self.queue = Ghost(before.unlock(record).queue);
                self.ledger = Ghost(before.unlock(record).ledger);
                assert(self@ =~= before.unlock(record));
            },
            Phase::ReadNext | Phase::CloseTail | Phase::AwaitLink | Phase::HandOff { .. } => {
                self.step(record);
            },
            _ => {},
        }
        self.phases[record].is_idle()
    }
}

} // verus!
