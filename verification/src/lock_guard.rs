//! What every lock records of its guards: in the [`Ledger`], which
//! acquisitions asked for the lock, which were let into the critical section
//! and which have left it again, each in the order in which it happened; and
//! in the [`Windows`], what each holder found in the protected value and what
//! it left there.
use vstd::prelude::*;

verus! {

/// Ghost record of the requests made to one lock and of the ownership
/// windows it has opened and closed.
///
/// An acquisition is named by a value of `A` that its lock chooses (a ticket
/// number, a queue node, a serial number).
pub struct Ledger<A> {
    /// Acquisitions in the order in which they took their place in line.
    pub requested: Seq<A>,
    /// Acquisitions in the order in which they entered the critical section.
    pub entered: Seq<A>,
    /// Acquisitions in the order in which they left the critical section.
    pub exited: Seq<A>,
}

impl<A> Ledger<A> {
    /// The ledger of a lock that nobody has used yet.
    pub open spec fn new() -> Ledger<A> {
        Ledger { requested: Seq::empty(), entered: Seq::empty(), exited: Seq::empty() }
    }

    /// The ledger after `id` has taken its place in line.
    pub open spec fn request(self, id: A) -> Ledger<A> {
        Ledger { requested: self.requested.push(id), ..self }
    }

    /// The ledger after `id` has entered the critical section.
    pub open spec fn enter(self, id: A) -> Ledger<A> {
        Ledger { entered: self.entered.push(id), ..self }
    }

    /// The ledger after `id` has left the critical section.
    pub open spec fn exit(self, id: A) -> Ledger<A> {
        Ledger { exited: self.exited.push(id), ..self }
    }

    /// Whether an ownership window is open.
    pub open spec fn held(self) -> bool {
        self.entered.len() == self.exited.len() + 1
    }

    /// The acquisition whose window was opened last.
    pub open spec fn holder(self) -> A
        recommends
            self.entered.len() > 0,
    {
        self.entered.last()
    }

    /// Ownership windows never overlap and each is closed by the acquisition
    /// that opened it: the exits are the entries, in the same order, with at
    /// most the last entry still open.
    pub open spec fn exclusive(self) -> bool {
        &&& self.exited.is_prefix_of(self.entered)
        &&& self.entered.len() <= self.exited.len() + 1
    }

    /// The lock is granted in the order of the requests: the entries are the
    /// requests, in the same order, up to those still waiting.
    pub open spec fn fair(self) -> bool {
        self.entered.is_prefix_of(self.requested)
    }

    /// The acquisitions that have asked and were not let in yet, first come
    /// first.
    pub open spec fn waiting(self) -> Seq<A>
        recommends
            self.fair(),
    {
        self.requested.skip(self.entered.len() as int)
    }

    /// In a fair ledger the acquisition that was the `k`-th to ask is the
    /// `k`-th to enter: of two that both got in, the one that asked first
    /// entered first.
    pub proof fn lemma_in_order(self, k: int)
        requires
            self.fair(),
            0 <= k < self.entered.len(),
        ensures
            k < self.requested.len(),
            self.entered[k] == self.requested[k],
    {
        assert(self.entered[k] == self.requested.subrange(0, self.entered.len() as int)[k]);
    }

    /// In an exclusive ledger the `k`-th window is closed by the acquisition
    /// that opened it, and it is closed before the next one is opened: at
    /// any time all windows but the last have an exit.
    pub proof fn lemma_one_at_a_time(self, k: int)
        requires
            self.exclusive(),
            0 <= k < self.exited.len(),
        ensures
            k < self.entered.len(),
            self.exited[k] == self.entered[k],
            self.entered.len() - self.exited.len() <= 1,
    {
        assert(self.exited[k] == self.entered.subrange(0, self.exited.len() as int)[k]);
    }

    /// A fresh ledger has no window open and owes nobody the lock.
    pub proof fn lemma_new()
        ensures
            Ledger::<A>::new().exclusive(),
            Ledger::<A>::new().fair(),
            !Ledger::<A>::new().held(),
            Ledger::<A>::new().waiting().len() == 0,
    {
    }

    /// A request changes no window and keeps the order of those in line.
    pub proof fn lemma_request(self, id: A)
        requires
            self.fair(),
        ensures
            self.request(id).exclusive() == self.exclusive(),
            self.request(id).fair(),
            self.request(id).held() == self.held(),
            self.request(id).waiting() == self.waiting().push(id),
    {
        assert(self.request(id).waiting() =~= self.waiting().push(id));
    }

    /// An entry while no window is open opens the one window, for the
    /// acquisition that entered.
    pub proof fn lemma_enter(self, id: A)
        requires
            self.exclusive(),
            !self.held(),
        ensures
            self.enter(id).exclusive(),
            self.enter(id).held(),
            self.enter(id).holder() == id,
    {
    }

    /// An entry of the first in line keeps the order of the others.
    pub proof fn lemma_enter_in_turn(self, id: A)
        requires
            self.fair(),
            self.waiting().len() > 0,
            self.waiting().first() == id,
        ensures
            self.enter(id).fair(),
            self.enter(id).waiting() == self.waiting().drop_first(),
    {
        assert(self.enter(id).waiting() =~= self.waiting().drop_first());
    }

    /// When the holder leaves, its window is closed and none is open.
    pub proof fn lemma_exit(self, id: A)
        requires
            self.exclusive(),
            self.held(),
            self.holder() == id,
        ensures
            self.exit(id).exclusive(),
            !self.exit(id).held(),
            self.exit(id).fair() == self.fair(),
            self.exit(id).waiting() == self.waiting(),
    {
    }
}

/// Ghost record of the protected value at the two ends of every ownership
/// window.
pub struct Windows<T> {
    /// The value that the lock was made with.
    pub initial: T,
    /// What each holder found when it entered, in the order of the entries.
    pub found: Seq<T>,
    /// What each holder left when it went, in the order of the exits.
    pub left: Seq<T>,
}

impl<T> Windows<T> {
    /// The record of a lock that was made with `initial` and never held.
    pub open spec fn new(initial: T) -> Windows<T> {
        Windows { initial, found: Seq::empty(), left: Seq::empty() }
    }

    /// The record after a holder has entered and found `value`.
    pub open spec fn open(self, value: T) -> Windows<T> {
        Windows { found: self.found.push(value), ..self }
    }

    /// The record after the holder has gone and left `value`.
    pub open spec fn close(self, value: T) -> Windows<T> {
        Windows { left: self.left.push(value), ..self }
    }

    /// What the last holder left, or the initial value if there was none.
    pub open spec fn current(self) -> T {
        if self.left.len() == 0 {
            self.initial
        } else {
            self.left.last()
        }
    }

    /// Nothing is lost between two windows: every holder found what the
    /// holder before it left, and the first one found the initial value.
    pub open spec fn chained(self) -> bool {
        &&& self.left.len() <= self.found.len() <= self.left.len() + 1
        &&& forall|k: int|
            0 <= k < self.found.len() ==> #[trigger] self.found[k] == if k == 0 {
                self.initial
            } else {
                self.left[k - 1]
            }
    }

    /// The record is that of a lock with this `ledger` and this protected
    /// `value`: it has a window for every entry and an end for every exit,
    /// nothing was lost between the windows, and while no window is open the
    /// value is what the last holder left.
    pub open spec fn keeps<A>(self, ledger: Ledger<A>, value: T) -> bool {
        &&& self.chained()
        &&& self.found.len() == ledger.entered.len()
        &&& self.left.len() == ledger.exited.len()
        &&& !ledger.held() ==> value == self.current()
    }

    /// The record after a step that took the ledger from `before` to
    /// `after` while the protected value was `value`: an exit closes a
    /// window with that value, an entry opens one with it.
    pub open spec fn follow<A>(self, before: Ledger<A>, after: Ledger<A>, value: T) -> Windows<
        T,
    > {
        let closed = if after.exited.len() > before.exited.len() {
            self.close(value)
        } else {
            self
        };
        if after.entered.len() > before.entered.len() {
            closed.open(value)
        } else {
            closed
        }
    }

    /// A step of a lock that does not touch the protected value, opens at
    /// most one window and closes at most the one that is open, loses
    /// nothing.
    pub proof fn lemma_follow<A>(self, before: Ledger<A>, after: Ledger<A>, value: T)
        requires
            self.keeps(before, value),
            before.exclusive(),
            after.exclusive(),
            before.entered.len() <= after.entered.len() <= before.entered.len() + 1,
            before.exited.len() <= after.exited.len() <= before.exited.len() + 1,
            after.exited.len() > before.exited.len() ==> before.held(),
        ensures
            self.follow(before, after, value).keeps(after, value),
    {
    }
}

/// Increments made under the lock add up: if nothing was lost between the
/// windows and every holder left a value that counts one more than the one
/// it found, then after all the windows the value counts what the initial
/// one counts plus the number of windows. So `n` threads that each go
/// through `m` windows leave the initial count plus `n * m`.
pub proof fn lemma_increments_add_up<T>(windows: Windows<T>, count: spec_fn(T) -> int)
    requires
        windows.chained(),
        windows.found.len() == windows.left.len(),
        forall|k: int|
            0 <= k < windows.left.len() ==> count(#[trigger] windows.left[k]) == count(
                windows.found[k],
            ) + 1,
    ensures
        count(windows.current()) == count(windows.initial) + windows.left.len(),
    decreases windows.left.len(),
{
    let n = windows.left.len() as int;
    if n > 0 {
        let shorter = Windows {
            found: windows.found.drop_last(),
            left: windows.left.drop_last(),
            ..windows
        };
        assert forall|k: int| 0 <= k < shorter.found.len() implies #[trigger] shorter.found[k]
            == if k == 0 {
            shorter.initial
        } else {
            shorter.left[k - 1]
        } by {
            assert(shorter.found[k] == windows.found[k]);
        }
        assert forall|k: int| 0 <= k < shorter.left.len() implies count(
            #[trigger] shorter.left[k],
        ) == count(shorter.found[k]) + 1 by {
            assert(shorter.left[k] == windows.left[k]);
            assert(shorter.found[k] == windows.found[k]);
        }
        lemma_increments_add_up(shorter, count);
        assert(count(windows.left[n - 1]) == count(windows.found[n - 1]) + 1);
        assert(windows.found[n - 1] == if n - 1 == 0 {
            windows.initial
        } else {
            windows.left[n - 2]
        });
    }
}

} // verus!
