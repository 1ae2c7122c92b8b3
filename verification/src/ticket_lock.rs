//! The ticket lock: a contender draws the next ticket from `tail` and waits
//! until `head` shows it; a release adds one to `head`. The lock is granted
//! in the order in which the tickets were drawn.
//!
//! Both counters wrap round. That does no harm as long as fewer than
//! 2^32 tickets are in flight at a time, and that many are never let in.
use vstd::prelude::*;
use crate::lock_guard::{Ledger, Windows};

verus! {

/// The ticket that the acquisition with number `serial` draws, counting
/// from zero and wrapping round.
pub open spec fn ticket_of(serial: nat) -> i32 {
    let low = serial % 0x1_0000_0000;
    if low > i32::MAX {
        (low - 0x1_0000_0000) as i32
    } else {
        low as i32
    }
}

/// Drawing a ticket is adding one, wrapping round.
pub proof fn lemma_next_ticket(serial: nat)
    ensures
        ticket_of(serial + 1) == ticket_of(serial).wrapping_add(1),
{
}

/// Fewer than 2^32 tickets in a row are all different.
pub proof fn lemma_tickets_differ(first: nat, second: nat)
    requires
        first < second,
        second - first <= u32::MAX,
    ensures
        ticket_of(first) != ticket_of(second),
{
}

/// A ticket lock under contention: the two counters, and the ledger of
/// requests, entries and exits. An acquisition is named by its number in
/// the order of the draws.
pub struct TicketState {
    /// The ticket that is being served.
    pub head: i32,
    /// The ticket that the next contender draws.
    pub tail: i32,
    /// Requests, entries and exits so far.
    pub ledger: Ledger<nat>,
}

impl TicketState {
    /// A lock that nobody has used.
    pub open spec fn new() -> TicketState {
        TicketState { head: 0, tail: 0, ledger: Ledger::new() }
    }

    /// The number of tickets drawn and not yet handed back.
    pub open spec fn in_flight(self) -> int {
        self.ledger.requested.len() - self.ledger.exited.len()
    }

    /// Whether the acquisition with `ticket` owns the lock: a ticket is in
    /// flight and `head` shows this one.
    pub open spec fn holds(self, ticket: i32) -> bool {
        self.in_flight() > 0 && ticket == self.head
    }

    /// The lock after a contender has drawn a ticket. If no ticket was in
    /// flight the new one is served at once.
    pub open spec fn lock(self) -> TicketState {
        let serial = self.ledger.requested.len();
        let asked = self.ledger.request(serial);
        TicketState {
            tail: self.tail.wrapping_add(1),
            ledger: if self.in_flight() == 0 {
                asked.enter(serial)
            } else {
                asked
            },
            ..self
        }
    }

    /// The lock after the owner has added one to `head`: its window is
    /// closed, and the next ticket in flight, if there is one, is served.
    pub open spec fn unlock(self) -> TicketState {
        let serial = self.ledger.exited.len();
        let left = self.ledger.exit(serial);
        TicketState {
            head: self.head.wrapping_add(1),
            ledger: if self.in_flight() > 1 {
                left.enter(serial + 1)
            } else {
                left
            },
            ..self
        }
    }

    /// The lock after the acquisition with `ticket` has asked to release:
    /// nothing happens unless it owns the lock.
    pub open spec fn release(self, ticket: i32) -> TicketState {
        if self.holds(ticket) {
            self.unlock()
        } else {
            self
        }
    }

    /// What holds of a ticket lock in every state that it can reach: the
    /// requests are numbered as they came, the windows do not overlap and
    /// follow the order of the requests, the oldest ticket in flight owns
    /// the lock, the counters show the number of draws and of releases, and
    /// the tickets in flight are few enough to be all different.
    pub open spec fn inv(self) -> bool {
        &&& self.ledger.exclusive()
        &&& self.ledger.fair()
        &&& forall|k: int| 0 <= k < self.ledger.requested.len() ==> self.ledger.requested[k] == k
        &&& 0 <= self.in_flight() <= u32::MAX
        &&& self.ledger.held() <==> self.in_flight() > 0
        &&& self.head == ticket_of(self.ledger.exited.len())
        &&& self.tail == ticket_of(self.ledger.requested.len())
    }

    /// A lock that nobody has used is in order.
    pub proof fn lemma_new()
        ensures
            TicketState::new().inv(),
    {
    }

    /// A draw keeps the lock in order, unless the line is full.
    pub proof fn lemma_lock(self)
        requires
            self.inv(),
            self.in_flight() < u32::MAX,
        ensures
            self.lock().inv(),
    {
        let serial = self.ledger.requested.len();
        lemma_next_ticket(serial);
        self.ledger.lemma_request(serial);
        if self.in_flight() == 0 {
            assert(self.ledger.request(serial).waiting() =~= seq![serial]);
            self.ledger.request(serial).lemma_enter(serial);
            self.ledger.request(serial).lemma_enter_in_turn(serial);
        }
    }

    /// The owner's release keeps the lock in order.
    pub proof fn lemma_unlock(self)
        requires
            self.inv(),
            self.in_flight() > 0,
        ensures
            self.unlock().inv(),
    {
        let serial = self.ledger.exited.len();
        lemma_next_ticket(serial);
        assert(self.ledger.entered.len() == serial + 1);
        assert(self.ledger.holder() == self.ledger.requested.subrange(0, serial as int + 1)[
            serial as int
        ]);
        self.ledger.lemma_exit(serial);
        if self.in_flight() > 1 {
            let left = self.ledger.exit(serial);
            assert(left.waiting()[0] == self.ledger.requested[serial as int + 1]);
            left.lemma_enter(serial + 1);
            left.lemma_enter_in_turn(serial + 1);
        }
    }

    /// Mutual exclusion: of the tickets in flight exactly one owns the lock,
    /// the oldest.
    pub proof fn lemma_mutual_exclusion(self, serial: nat)
        requires
            self.inv(),
            self.ledger.exited.len() <= serial < self.ledger.requested.len(),
        ensures
            self.holds(ticket_of(serial)) <==> serial == self.ledger.exited.len(),
            self.ledger.held(),
            self.ledger.holder() == self.ledger.exited.len(),
    {
        let oldest = self.ledger.exited.len();
        if serial > oldest {
            lemma_tickets_differ(oldest, serial);
        }
        assert(self.ledger.holder() == self.ledger.requested.subrange(0, oldest as int + 1)[
            oldest as int
        ]);
    }

    /// Ownership windows never overlap, and each is closed once, by the
    /// acquisition that opened it: the exits recorded are the entries
    /// recorded, in their order, but for the one window that is open while
    /// a ticket is in flight.
    pub proof fn lemma_windows(self)
        requires
            self.inv(),
        ensures
            self.ledger.exclusive(),
            self.ledger.entered.len() == self.ledger.exited.len() + if self.in_flight() > 0 {
                1int
            } else {
                0int
            },
    {
    }

    /// First come, first served: the lock is granted in the order of the
    /// draws. The entries recorded are the requests recorded, in their
    /// order; the acquisition with number `k` draws the ticket
    /// `ticket_of(k)` and is the `k`-th to enter.
    pub proof fn lemma_first_come_first_served(self)
        requires
            self.inv(),
        ensures
            self.ledger.fair(),
            forall|k: int| 0 <= k < self.ledger.entered.len() ==> self.ledger.entered[k] == k,
            self.lock().ledger.requested.last() == self.ledger.requested.len(),
            self.in_flight() < u32::MAX ==> self.lock().holds(self.tail) == (self.in_flight()
                == 0),
    {
        assert forall|k: int| 0 <= k < self.ledger.entered.len() implies self.ledger.entered[k]
            == k by {
            assert(self.ledger.entered[k] == self.ledger.requested.subrange(
                0,
                self.ledger.entered.len() as int,
            )[k]);
        }
        if 0 < self.in_flight() < u32::MAX {
            lemma_tickets_differ(self.ledger.exited.len(), self.ledger.requested.len());
        }
    }
}

/// The executable ticket lock without the value it protects.
pub struct TicketLockInner {
    head: i32,
    tail: i32,
    ledger: Ghost<Ledger<nat>>,
}

impl View for TicketLockInner {
    type V = TicketState;

    closed spec fn view(&self) -> TicketState {
        TicketState { head: self.head, tail: self.tail, ledger: self.ledger@ }
    }
}

impl TicketLockInner {
    /// Whether the lock is in a state that it can reach.
    pub open spec fn wf(&self) -> bool {
        self@.inv()
    }

    /// A lock that nobody has used: both counters at zero.
    pub fn new() -> (inner: TicketLockInner)
        ensures
            inner@ == TicketState::new(),
            inner.wf(),
    {
        proof {
            TicketState::lemma_new();
        }
        TicketLockInner { head: 0, tail: 0, ledger: Ghost(Ledger::new()) }
    }

    /// Whether a contender with `ticket` that reads `head` is served.
    pub fn served(ticket: i32, head: i32) -> (up: bool)
        ensures
            up == (ticket == head),
    {
        ticket == head
    }

    /// The number of tickets drawn and not yet handed back.
    pub fn in_flight(&self) -> (n: u32)
        requires
            self.wf(),
        ensures
            n == self@.in_flight(),
    {
        let ahead: i64 = self.tail as i64 - self.head as i64;
        if ahead < 0 {
            (ahead + 0x1_0000_0000) as u32
        } else {
            ahead as u32
        }
    }

    /// Whether the acquisition with `ticket` owns the lock.
    pub fn holds(&self, ticket: i32) -> (held: bool)
        requires
            self.wf(),
        ensures
            held == self@.holds(ticket),
    {
        self.in_flight() > 0 && Self::served(ticket, self.head)
    }

    /// Draws a ticket: adds one to `tail` and returns what it was. The
    /// ticket is served when `head` shows it.
    pub fn lock(&mut self) -> (ticket: i32)
        requires
            old(self).wf(),
            old(self)@.in_flight() < u32::MAX,
        ensures
            ticket == old(self)@.tail,
            final(self)@ == old(self)@.lock(),
            final(self).wf(),
    {
        proof {
            self@.lemma_lock();
        }
        let ghost before = self@;
        let ticket = self.tail;
        self.tail = ticket.wrapping_add(1);
        self.ledger = Ghost(before.lock().ledger);
        ticket
    }

    /// Adds one to `head`: the owner lets go and the next ticket is served.
    pub fn unlock(&mut self)
        requires
            old(self).wf(),
            old(self)@.in_flight() > 0,
        ensures
            final(self)@ == old(self)@.unlock(),
            final(self).wf(),
    {
        proof {
            self@.lemma_unlock();
        }
        let ghost before = self@;
        self.head = self.head.wrapping_add(1);
        self.ledger = Ghost(before.unlock().ledger);
    }
}

/// The handle of one acquisition of a [`TicketLock`]: it carries the ticket
/// that was drawn. It cannot be copied, and only the lock makes one.
pub struct TicketLockGuard {
    ticket: i32,
    lock: Ghost<int>,
}

impl View for TicketLockGuard {
    type V = i32;

    closed spec fn view(&self) -> i32 {
        self.ticket
    }
}

impl TicketLockGuard {
    fn new(ticket: i32, lock: Ghost<int>) -> (guard: TicketLockGuard)
        ensures
            guard@ == ticket,
            guard.lock_id() == lock@,
    {
        TicketLockGuard { ticket, lock }
    }

    /// The ticket that was drawn.
    pub fn ticket(&self) -> (ticket: i32)
        ensures
            ticket == self@,
    {
        self.ticket
    }

    /// The identity of the lock that made the guard.
    pub closed spec fn lock_id(&self) -> int {
        self.lock@
    }

    /// The protected value, for the holder to read.
    pub fn deref<'a, T>(&self, lock: &'a TicketLock<T>) -> (value: &'a T)
        requires
            lock.made(self),
            lock@.holds(self@),
        ensures
            *value == lock.value(),
    {
        &lock.data
    }

    /// The protected value, for the holder to change. Nothing else of the
    /// lock changes.
    pub fn deref_mut<'a, T>(&self, lock: &'a mut TicketLock<T>) -> (value: &'a mut T)
        requires
            old(lock).made(self),
            old(lock)@.holds(self@),
        ensures
            *value == old(lock).value(),
            final(lock).value() == *final(value),
            final(lock)@ == old(lock)@,
            final(lock).windows() == old(lock).windows(),
            final(lock).id() == old(lock).id(),
            old(lock).wf() ==> final(lock).wf(),
    {
        &mut lock.data
    }
}

/// A ticket lock around a value of `T`, as a model that a caller steps
/// through: every call is one atomic action of one acquisition.
pub struct TicketLock<T> {
    inner: TicketLockInner,
    data: T,
    windows: Ghost<Windows<T>>,
    id: Ghost<int>,
}

impl<T> View for TicketLock<T> {
    type V = TicketState;

    closed spec fn view(&self) -> TicketState {
        self.inner@
    }
}

impl<T> TicketLock<T> {
    /// The protected value.
    pub closed spec fn value(&self) -> T {
        self.data
    }

    /// The identity of the lock. Nothing is disclosed of it, not even by
    /// `new`, so that no proof can take one lock for another. (Ghost code
    /// cannot make a value that is new in earnest; what keeps two locks
    /// apart is that no contract says what their identities are.)
    pub closed spec fn id(&self) -> int {
        self.id@
    }

    /// Whether `guard` was made by this lock.
    pub open spec fn made(&self, guard: &TicketLockGuard) -> bool {
        guard.lock_id() == self.id()
    }

    /// What every holder found in the protected value and what it left.
    pub closed spec fn windows(&self) -> Windows<T> {
        self.windows@
    }

    /// Whether the lock is in a state that it can reach, and has lost
    /// nothing of what its holders wrote.
    pub open spec fn wf(&self) -> bool {
        &&& self@.inv()
        &&& self.windows().keeps(self@.ledger, self.value())
    }

    /// No update is lost: every holder found in the protected value what
    /// the holder before it left there, the first one what the lock was
    /// made with; and while nobody holds the lock the value is what the
    /// last holder left.
    pub proof fn lemma_no_lost_update(&self)
        requires
            self.wf(),
        ensures
            self.windows().chained(),
            self.windows().found.len() == self@.ledger.entered.len(),
            self.windows().left.len() == self@.ledger.exited.len(),
            !self@.ledger.held() ==> self.value() == self.windows().current(),
    {
    }

    /// A lock around `value` that nobody has used.
    pub fn new(value: T) -> (lock: TicketLock<T>)
        ensures
            lock@ == TicketState::new(),
            lock.value() == value,
            lock.windows() == Windows::new(value),
            lock.wf(),
    {
        let ghost initial = value;
        TicketLock {
            inner: TicketLockInner::new(),
            data: value,
            windows: Ghost(Windows::new(initial)),
            id: Ghost(0),
        }
    }

    /// The number of acquisitions that have drawn a ticket and not released
    /// the lock yet.
    pub fn in_flight(&self) -> (n: u32)
        requires
            self.wf(),
        ensures
            n == self@.in_flight(),
    {
        self.inner.in_flight()
    }

    /// Starts an acquisition: draws a ticket. If no ticket was in flight
    /// the guard holds the lock at once; otherwise it has to
    /// [`wait`](Self::wait) for its turn.
    pub fn lock(&mut self) -> (guard: TicketLockGuard)
        requires
            old(self).wf(),
            old(self)@.in_flight() < u32::MAX,
        ensures
            guard@ == old(self)@.tail,
            final(self).made(&guard),
            final(self)@ == old(self)@.lock(),
            final(self).value() == old(self).value(),
            final(self).id() == old(self).id(),
            final(self).windows() == old(self).windows().follow(
                old(self)@.ledger,
                final(self)@.ledger,
                old(self).value(),
            ),
            final(self).wf(),
    {
        let ghost before = self@;
        let ticket = self.inner.lock();
        proof {
            self.windows@.lemma_follow(before.ledger, self.inner@.ledger, self.data);
        }
        self.windows = Ghost(self.windows@.follow(before.ledger, self.inner@.ledger, self.data));
        TicketLockGuard::new(ticket, Ghost(self.id@))
    }

    /// One look at `head`: says whether the ticket of `guard` is served, and
    /// changes nothing.
    pub fn wait(&self, guard: &TicketLockGuard) -> (held: bool)
        requires
            self.wf(),
            self.made(guard),
        ensures
            held == self@.holds(guard@),
    {
        self.holds(guard)
    }

    /// Whether `guard` holds the lock.
    pub fn holds(&self, guard: &TicketLockGuard) -> (held: bool)
        requires
            self.wf(),
            self.made(guard),
        ensures
            held == self@.holds(guard@),
    {
        self.inner.holds(guard.ticket)
    }

    /// Releases the lock: adds one to `head`. A guard that does not hold
    /// the lock comes back, and nothing changes.
    pub fn unlock(&mut self, guard: TicketLockGuard) -> (rest: Option<TicketLockGuard>)
        requires
            old(self).wf(),
            old(self).made(&guard),
        ensures
            final(self)@ == old(self)@.release(guard@),
            final(self).value() == old(self).value(),
            final(self).id() == old(self).id(),
            final(self).windows() == old(self).windows().follow(
                old(self)@.ledger,
                final(self)@.ledger,
                old(self).value(),
            ),
            final(self).wf(),
            rest is None <==> old(self)@.holds(guard@),
            rest matches Some(same) ==> same@ == guard@ && final(self).made(&same),
    {
        if self.inner.holds(guard.ticket) {
            let ghost before = self@;
            self.inner.unlock();
            proof {
                self.windows@.lemma_follow(before.ledger, self.inner@.ledger, self.data);
            }
            self.windows = Ghost(self.windows@.follow(before.ledger, self.inner@.ledger, self.data));
            None
        } else {
            Some(guard)
        }
    }
}

} // verus!
