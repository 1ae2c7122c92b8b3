//! The plain spin lock: one flag, taken by whoever swaps it from false to
//! true first. Nothing orders the contenders; a thread may lose every round.
use vstd::prelude::*;
use crate::lock_guard::{Ledger, Windows};

verus! {

/// A spin lock under contention: the flag, and the ledger of the windows
/// that it has opened and closed. A window is named by its number. The
/// ledger holds no requests: a contender leaves no trace until it wins.
pub struct SpinState {
    /// True while the lock is held.
    pub locked: bool,
    /// Entries and exits so far.
    pub ledger: Ledger<nat>,
}

impl SpinState {
    /// A lock that nobody has used.
    pub open spec fn new() -> SpinState {
        SpinState { locked: false, ledger: Ledger::new() }
    }

    /// What a compare-and-swap from `current` brings back: the flag as it
    /// was, as success if it was `current`.
    pub open spec fn seen(self, current: bool) -> Result<bool, bool> {
        if self.locked == current {
            Ok(self.locked)
        } else {
            Err(self.locked)
        }
    }

    /// The flag after a compare-and-swap from `current` to `new`.
    pub open spec fn swapped(self, current: bool, new: bool) -> bool {
        if self.locked == current {
            new
        } else {
            self.locked
        }
    }

    /// The lock after one round of a contender: it takes a free lock and
    /// leaves a held one as it is.
    pub open spec fn lock(self) -> SpinState {
        if self.locked {
            self
        } else {
            SpinState { locked: true, ledger: self.ledger.enter(self.ledger.entered.len()) }
        }
    }

    /// The lock after its holder has let go; a free lock stays as it is.
    pub open spec fn unlock(self) -> SpinState {
        if self.locked {
            SpinState { locked: false, ledger: self.ledger.exit(self.ledger.holder()) }
        } else {
            self
        }
    }

    /// What holds of a spin lock in every state that it can reach: the
    /// windows do not overlap, one is open exactly while the flag is up, and
    /// the window with number `k` is the one that was opened after `k`
    /// others.
    pub open spec fn inv(self) -> bool {
        &&& self.ledger.exclusive()
        &&& self.locked <==> self.ledger.held()
        &&& self.ledger.requested.len() == 0
        &&& forall|k: int| 0 <= k < self.ledger.entered.len() ==> self.ledger.entered[k] == k
    }

    /// A lock that nobody has used is in order.
    pub proof fn lemma_new()
        ensures
            SpinState::new().inv(),
    {
    }

    /// A round of a contender keeps the lock in order.
    pub proof fn lemma_lock(self)
        requires
            self.inv(),
        ensures
            self.lock().inv(),
    {
        if !self.locked {
            self.ledger.lemma_enter(self.ledger.entered.len());
        }
    }

    /// A release keeps the lock in order.
    pub proof fn lemma_unlock(self)
        requires
            self.inv(),
        ensures
            self.unlock().inv(),
    {
        if self.locked {
            self.ledger.lemma_exit(self.ledger.holder());
        }
    }

    /// Mutual exclusion: while the lock is held no round of any contender
    /// changes anything, so nobody else gets in; a free lock goes to the
    /// first contender that tries, and only to that one.
    pub proof fn lemma_mutual_exclusion(self)
        requires
            self.inv(),
        ensures
            self.locked ==> self.lock() == self,
            self.lock().locked,
            self.lock().lock() == self.lock(),
            self.lock().ledger.entered.len() <= self.ledger.entered.len() + 1,
    {
    }

    /// Ownership windows never overlap, and each is closed once, by the
    /// holder that opened it: the exits recorded are the entries recorded,
    /// in their order, but for the one window that is open while the flag is
    /// up.
    pub proof fn lemma_windows(self)
        requires
            self.inv(),
        ensures
            self.ledger.exclusive(),
            self.ledger.entered.len() == self.ledger.exited.len() + if self.locked {
                1int
            } else {
                0int
            },
    {
    }
}

/// The executable spin lock without the value it protects.
pub struct SpinLockInner {
    lock: bool,
    ledger: Ghost<Ledger<nat>>,
}

impl View for SpinLockInner {
    type V = SpinState;

    closed spec fn view(&self) -> SpinState {
        SpinState { locked: self.lock, ledger: self.ledger@ }
    }
}

impl SpinLockInner {
    /// Whether the lock is in a state that it can reach.
    pub open spec fn wf(&self) -> bool {
        self@.inv()
    }

    /// A lock that nobody holds.
    pub fn new() -> (inner: SpinLockInner)
        ensures
            inner@ == SpinState::new(),
            inner.wf(),
    {
        proof {
            SpinState::lemma_new();
        }
        SpinLockInner { lock: false, ledger: Ghost(Ledger::new()) }
    }

    /// Whether the lock is held.
    pub fn is_locked(&self) -> (locked: bool)
        ensures
            locked == self@.locked,
    {
        self.lock
    }

    /// Whether a compare-and-swap that brought back `seen` has done its
    /// swap.
    pub fn acquired(seen: Result<bool, bool>) -> (won: bool)
        ensures
            won == seen is Ok,
    {
        match seen {
            Ok(_) => true,
            Err(_) => false,
        }
    }

    /// Swaps the flag from `current` to `new` as one indivisible step, if it
    /// is `current`, and brings back what it was.
    fn compare_exchange(&mut self, current: bool, new: bool) -> (seen: Result<bool, bool>)
        ensures
            seen == old(self)@.seen(current),
            final(self)@.locked == old(self)@.swapped(current, new),
            final(self)@.ledger == old(self)@.ledger,
    {
        let flag = self.lock;
        if flag == current {
            self.lock = new;
            Ok(flag)
        } else {
            Err(flag)
        }
    }

    /// One round of a contender: tries to swap the flag from false to true,
    /// and says whether it did. Who did not has to try again.
    pub fn lock(&mut self) -> (acquired: bool)
        requires
            old(self).wf(),
        ensures
            acquired == !old(self)@.locked,
            final(self)@ == old(self)@.lock(),
            final(self).wf(),
    {
        proof {
            self@.lemma_lock();
        }
        let ghost before = self@;
        let acquired = Self::acquired(self.compare_exchange(false, true));
        self.ledger = Ghost(before.lock().ledger);
        acquired
    }

    /// Swaps the flag back from true to false.
    pub fn unlock(&mut self)
        requires
            old(self).wf(),
            old(self)@.locked,
        ensures
            final(self)@ == old(self)@.unlock(),
            final(self).wf(),
    {
        proof {
            self@.lemma_unlock();
        }
        let ghost before = self@;
        let seen = self.compare_exchange(true, false);
        assert(seen is Ok);
        self.ledger = Ghost(before.unlock().ledger);
    }
}

/// The token of the holder of a [`SpinLock`]. It cannot be copied, and only
/// a round that won makes one.
pub struct SpinLockGuard {
    lock: Ghost<int>,
}

impl SpinLockGuard {
    fn new(lock: Ghost<int>) -> (guard: SpinLockGuard)
        ensures
            guard.lock_id() == lock@,
    {
        SpinLockGuard { lock }
    }

    /// The identity of the lock that made the guard.
    pub closed spec fn lock_id(&self) -> int {
        self.lock@
    }

    /// The protected value, for the holder to read.
    pub fn deref<'a, T>(&self, lock: &'a SpinLock<T>) -> (value: &'a T)
        requires
            lock.made(self),
            lock@.locked,
        ensures
            *value == lock.value(),
    {
        &lock.data
    }

    /// The protected value, for the holder to change. Nothing else of the
    /// lock changes.
    pub fn deref_mut<'a, T>(&self, lock: &'a mut SpinLock<T>) -> (value: &'a mut T)
        requires
            old(lock).made(self),
            old(lock)@.locked,
        ensures
            *value == old(lock).value(),
            final(lock).value() == *final(value),
            final(lock)@ == old(lock)@,
            final(lock).windows() == old(lock).windows(),
            final(lock).id() == old(lock).id(),
            old(lock).wf() ==> final(lock).wf(),
    {
        &mut lock.data
    }
}

/// A spin lock around a value of `T`, as a model that a caller steps
/// through: every call is one round of one contender, or the release.
pub struct SpinLock<T> {
    inner: SpinLockInner,
    data: T,
    windows: Ghost<Windows<T>>,
    id: Ghost<int>,
}

impl<T> View for SpinLock<T> {
    type V = SpinState;

    closed spec fn view(&self) -> SpinState {
        self.inner@
    }
}

impl<T> SpinLock<T> {
    /// The protected value.
    pub closed spec fn value(&self) -> T {
        self.data
    }

    /// The identity of the lock. Nothing is disclosed of it, not even by
    /// `new`, so that no proof can take one lock for another. (Ghost code
    /// cannot make a value that is new in earnest; what keeps two locks
    /// apart is that no contract says what their identities are.)
    pub closed spec fn id(&self) -> int {
        self.id@
    }

    /// Whether `guard` was made by this lock.
    pub open spec fn made(&self, guard: &SpinLockGuard) -> bool {
        guard.lock_id() == self.id()
    }

    /// What every holder found in the protected value and what it left.
    pub closed spec fn windows(&self) -> Windows<T> {
        self.windows@
    }

    /// Whether the lock is in a state that it can reach, and has lost
    /// nothing of what its holders wrote.
    pub open spec fn wf(&self) -> bool {
        &&& self@.inv()
        &&& self.windows().keeps(self@.ledger, self.value())
    }

    /// No update is lost: every holder found in the protected value what
    /// the holder before it left there, the first one what the lock was
    /// made with; and while nobody holds the lock the value is what the
    /// last holder left.
    pub proof fn lemma_no_lost_update(&self)
        requires
            self.wf(),
        ensures
            self.windows().chained(),
            self.windows().found.len() == self@.ledger.entered.len(),
            self.windows().left.len() == self@.ledger.exited.len(),
            !self@.ledger.held() ==> self.value() == self.windows().current(),
    {
    }

    /// A lock around `data` that nobody holds.
    pub fn new(data: T) -> (lock: SpinLock<T>)
        ensures
            lock@ == SpinState::new(),
            lock.value() == data,
            lock.windows() == Windows::new(data),
            lock.wf(),
    {
        let ghost initial = data;
        SpinLock {
            inner: SpinLockInner::new(),
            data,
            windows: Ghost(Windows::new(initial)),
            id: Ghost(0),
        }
    }

    /// One round of a contender. A free lock is taken and its guard
    /// returned; a held lock is left as it is and the contender has to try
    /// again.
    pub fn lock(&mut self) -> (guard: Option<SpinLockGuard>)
        requires
            old(self).wf(),
        ensures
            guard is Some <==> !old(self)@.locked,
            guard matches Some(own) ==> final(self).made(&own),
            final(self)@ == old(self)@.lock(),
            final(self).value() == old(self).value(),
            final(self).id() == old(self).id(),
            final(self).windows() == old(self).windows().follow(
                old(self)@.ledger,
                final(self)@.ledger,
                old(self).value(),
            ),
            final(self).wf(),
    {
        let ghost before = self@;
        let won = self.inner.lock();
        proof {
            self.windows@.lemma_follow(before.ledger, self.inner@.ledger, self.data);
        }
        self.windows = Ghost(self.windows@.follow(before.ledger, self.inner@.ledger, self.data));
        if won {
            Some(SpinLockGuard::new(Ghost(self.id@)))
        } else {
            None
        }
    }

    /// Whether the guard holds the lock. The guards of one lock are not
    /// told apart, and need not be: a lock makes one only while none is
    /// out, so a guard of this lock holds it exactly while it is held.
    pub fn holds(&self, guard: &SpinLockGuard) -> (held: bool)
        requires
            self.made(guard),
        ensures
            held == self@.locked,
    {
        self.inner.is_locked()
    }

    /// Releases the lock. A guard that is handed to a lock that is free
    /// comes back, and nothing changes.
    pub fn unlock(&mut self, guard: SpinLockGuard) -> (rest: Option<SpinLockGuard>)
        requires
            old(self).wf(),
            old(self).made(&guard),
        ensures
            final(self)@ == old(self)@.unlock(),
            final(self).value() == old(self).value(),
            final(self).id() == old(self).id(),
            final(self).windows() == old(self).windows().follow(
                old(self)@.ledger,
                final(self)@.ledger,
                old(self).value(),
            ),
            final(self).wf(),
            rest is None <==> old(self)@.locked,
            rest matches Some(same) ==> final(self).made(&same),
            !final(self)@.locked,
    {
        if self.inner.is_locked() {
            let ghost before = self@;
            self.inner.unlock();
            proof {
                self.windows@.lemma_follow(before.ledger, self.inner@.ledger, self.data);
            }
            self.windows = Ghost(self.windows@.follow(before.ledger, self.inner@.ledger, self.data));
            None
        } else {
            Some(guard)
        }
    }
}

} // verus!
