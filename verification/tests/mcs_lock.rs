use spin_locks::mcs_lock::{MSCLockGuard, MSCLockInner, Record};
use spin_locks::queue::{Action, Phase, QueueInner, Seen};
use spin_locks::MSCLock;

struct McsWorker {
    left: u32,
    guard: Option<MSCLockGuard>,
    read: Option<i32>,
    leaving: bool,
}

/// One action of one simulated thread: the swap of the tail, one action on
/// the way in, a critical section that takes one off and adds two, split in
/// a read and a write, or one action on the way out.
fn mcs_worker_step(lock: &mut MSCLock<i32>, worker: &mut McsWorker) {
    match (worker.guard.take(), worker.read.take()) {
        (None, _) => {
            if worker.left > 0 {
                worker.guard = Some(lock.lock());
            }
        }
        (Some(guard), None) => {
            if worker.leaving {
                assert!(!lock.holds(&guard));
                worker.guard = lock.unlock(guard);
                if worker.guard.is_none() {
                    worker.leaving = false;
                    worker.left -= 1;
                }
            } else {
                if lock.wait(&guard) {
                    worker.read = Some(*guard.deref(lock));
                }
                worker.guard = Some(guard);
            }
        }
        (Some(guard), Some(seen)) => {
            assert!(lock.holds(&guard));
            let value = guard.deref_mut(lock);
            *value = seen - 1;
            *value += 1;
            *value += 1;
            worker.guard = Some(lock.unlock(guard).expect("a release takes two actions or more"));
            worker.leaving = true;
        }
    }
}

fn mcs_contend(threads: usize, rounds: u32) -> i32 {
    let mut lock = MSCLock::new(0);
    let mut workers: Vec<McsWorker> = Vec::new();
    for _ in 0..threads {
        workers.push(McsWorker { left: rounds, guard: None, read: None, leaving: false });
    }
    let mut busy = true;
    while busy {
        busy = false;
        for worker in workers.iter_mut() {
            mcs_worker_step(&mut lock, worker);
            if worker.left > 0 {
                busy = true;
            }
        }
    }
    let guard = lock.lock();
    assert!(lock.holds(&guard));
    *guard.deref(&lock)
}

#[test]
fn mcs_lock_happy_path() {
    let n = 1000000;
    let thread_n = 8;
    assert_eq!(mcs_contend(thread_n, n), (n as i32) * (thread_n as i32));
}

#[test]
fn mcs_lock_counts_every_increment() {
    assert_eq!(mcs_contend(1, 1), 1);
    assert_eq!(mcs_contend(3, 5), 15);
    assert_eq!(mcs_contend(8, 1000), 8000);
}

#[test]
fn mcs_lock_grants_a_free_lock_at_once() {
    let mut lock = MSCLock::new(0u64);
    let guard = lock.lock();
    assert_eq!(guard.record(), 0);
    assert!(lock.holds(&guard));
    assert!(lock.wait(&guard));
    *guard.deref_mut(&mut lock) += 1;
    assert_eq!(*guard.deref(&lock), 1);
    let rest = lock.unlock(guard).expect("the tail is still to be emptied");
    assert!(!lock.holds(&rest));
    assert!(!lock.wait(&rest));
    assert!(lock.unlock(rest).is_none());
}

#[test]
fn mcs_lock_serves_in_the_order_of_the_swaps() {
    let mut lock = MSCLock::new(Vec::new());
    let a = lock.lock();
    let b = lock.lock();
    let c = lock.lock();
    assert_eq!((a.record(), b.record(), c.record()), (0, 1, 2));
    assert!(lock.holds(&a));
    // c is quick and b is slow: c links itself and spins before b has done
    // anything but swap the tail.
    for _ in 0..5 {
        assert!(!lock.wait(&c));
    }
    a.deref_mut(&mut lock).push('a');
    // a reads its link: nobody has linked itself behind it yet.
    let a = lock.unlock(a).expect("a has read its link");
    // a cannot empty the tail, c is there.
    let a = lock.unlock(a).expect("a has failed to empty the tail");
    // a waits for b, which has not moved.
    let a = lock.unlock(a).expect("a waits for the link");
    let a = lock.unlock(a).expect("a waits for the link");
    assert!(!lock.wait(&c));
    // b raises its flag, links itself, and spins.
    assert!(!lock.wait(&b));
    assert!(!lock.wait(&b));
    assert!(!lock.wait(&b));
    // a sees b and lowers its flag.
    let a = lock.unlock(a).expect("a has seen the link");
    assert!(!lock.wait(&c));
    assert!(lock.unlock(a).is_none());
    assert!(!lock.wait(&c));
    assert!(lock.wait(&b));
    b.deref_mut(&mut lock).push('b');
    let b = lock.unlock(b).expect("b has read its link");
    assert!(!lock.wait(&c));
    assert!(lock.unlock(b).is_none());
    assert!(lock.wait(&c));
    c.deref_mut(&mut lock).push('c');
    assert_eq!(*c.deref(&lock), vec!['a', 'b', 'c']);
    let c = lock.unlock(c).expect("c has read its link");
    assert!(lock.unlock(c).is_none());
}

#[test]
fn mcs_lock_release_waits_for_a_successor_that_has_not_linked_itself() {
    let mut inner = MSCLockInner::new();
    let first = inner.lock();
    assert!(inner.holds(first));
    // The holder reads its link before anybody is behind it.
    assert!(!inner.unlock(first));
    assert!(matches!(inner.phase(first), Phase::CloseTail));
    // A newcomer swaps the tail, and does no more for now.
    let second = inner.lock();
    assert!(matches!(inner.phase(second), Phase::MarkLocked { pred } if pred == first));
    // The release cannot empty the tail and must not end here.
    assert!(!inner.unlock(first));
    assert!(matches!(inner.phase(first), Phase::AwaitLink));
    for _ in 0..10 {
        assert!(!inner.unlock(first));
        assert!(matches!(inner.phase(first), Phase::AwaitLink));
    }
    assert!(!inner.wait(second));
    assert!(matches!(inner.phase(second), Phase::Link { pred } if pred == first));
    assert!(!inner.unlock(first));
    assert!(matches!(inner.phase(first), Phase::AwaitLink));
    assert!(!inner.wait(second));
    assert!(matches!(inner.phase(second), Phase::Spin));
    assert!(!inner.wait(second));
    assert!(!inner.unlock(first));
    assert!(matches!(inner.phase(first), Phase::HandOff { next } if next == second));
    assert!(!inner.wait(second));
    assert!(inner.unlock(first));
    assert!(matches!(inner.phase(first), Phase::Idle));
    assert!(inner.wait(second));
    assert!(inner.holds(second));
    assert!(!inner.holds(first));
}

#[test]
fn mcs_lock_makes_a_new_record_for_every_acquisition() {
    let mut inner = MSCLockInner::new();
    assert_eq!(inner.len(), 0);
    let a = inner.lock();
    let b = inner.lock();
    let c = inner.lock();
    assert_eq!((a, b, c), (0, 1, 2));
    assert_eq!(inner.len(), 3);
    while !inner.wait(b) {
        inner.wait(c);
        inner.unlock(a);
    }
    while !inner.unlock(a) {}
    assert!(matches!(inner.phase(a), Phase::Idle));
    // The record of a is idle, and stays so: the newcomer gets its own.
    let d = inner.lock();
    assert_eq!(d, 3);
    assert_eq!(inner.len(), 4);
    assert!(matches!(inner.phase(a), Phase::Idle));
    assert!(matches!(inner.phase(d), Phase::MarkLocked { pred: 2 }));
}

#[test]
fn mcs_lock_gives_a_new_record_after_a_complete_release() {
    let mut lock = MSCLock::new(0u8);
    let first = lock.lock();
    assert_eq!(first.record(), 0);
    let first = lock.unlock(first).expect("the tail is still to be emptied");
    assert!(lock.unlock(first).is_none());
    let second = lock.lock();
    assert_eq!(second.record(), 1);
    assert!(lock.holds(&second));
    let second = lock.unlock(second).expect("the tail is still to be emptied");
    assert!(lock.unlock(second).is_none());
    assert_eq!(lock.lock().record(), 2);
}

#[test]
fn mcs_lock_ignores_steps_out_of_turn() {
    let mut lock = MSCLock::new(5u8);
    let a = lock.lock();
    let b = lock.lock();
    // Who waits cannot release.
    let b = lock.unlock(b).expect("b was never let in");
    let b = lock.unlock(b).expect("b was never let in");
    assert!(!lock.holds(&b));
    assert!(lock.holds(&a));
    // Who holds has nothing to wait for.
    assert!(lock.wait(&a));
    assert!(lock.wait(&a));
    assert!(!lock.holds(&b));
    assert_eq!(*a.deref(&lock), 5);
}

#[test]
fn mcs_lock_exactly_one_release_for_each_acquisition() {
    let mut inner = MSCLockInner::new();
    let record = inner.lock();
    assert!(!inner.unlock(record));
    assert!(inner.unlock(record));
    // The release is over: further calls change nothing, and the record is
    // never used again.
    assert!(inner.unlock(record));
    assert!(inner.unlock(record));
    assert!(!inner.wait(record));
    assert!(matches!(inner.phase(record), Phase::Idle));
    let next = inner.lock();
    assert_eq!(next, record + 1);
    assert!(inner.holds(next));
    assert!(!inner.holds(record));
    assert!(matches!(inner.phase(record), Phase::Idle));
}

#[test]
fn mcs_record_is_clean_when_new_and_after_reset() {
    let mut record = Record::new();
    assert!(!record.locked);
    assert_eq!(record.next, None);
    record.lock();
    assert!(record.locked);
    assert_eq!(record.next, None);
    record.next = Some(3);
    record.lock();
    assert!(record.locked);
    assert_eq!(record.next, Some(3));
    record.reset();
    assert!(!record.locked);
    assert_eq!(record.next, None);
}

#[test]
fn mcs_phase_names_the_next_action() {
    let me = 4;
    assert!(matches!(Phase::Idle.action(me), Action::Rest));
    assert!(matches!(Phase::Holding.action(me), Action::Rest));
    assert!(matches!(Phase::Enqueue.action(me), Action::SwapTail { new: 4 }));
    assert!(matches!(Phase::MarkLocked { pred: 2 }.action(me), Action::SetLocked { record: 4 }));
    assert!(matches!(Phase::Link { pred: 2 }.action(me), Action::SetNext { record: 2, next: 4 }));
    assert!(matches!(Phase::Spin.action(me), Action::LoadLocked { record: 4 }));
    assert!(matches!(Phase::ReadNext.action(me), Action::LoadNext { record: 4 }));
    assert!(matches!(Phase::CloseTail.action(me), Action::ClearTail { current: 4 }));
    assert!(matches!(Phase::AwaitLink.action(me), Action::LoadNext { record: 4 }));
    assert!(matches!(Phase::HandOff { next: 7 }.action(me), Action::ClearLocked { record: 7 }));
}

#[test]
fn mcs_phase_follows_what_was_seen() {
    assert!(matches!(Phase::Enqueue.after(Seen::Node(None)), Phase::Holding));
    assert!(matches!(Phase::Enqueue.after(Seen::Node(Some(3))), Phase::MarkLocked { pred: 3 }));
    assert!(matches!(Phase::MarkLocked { pred: 3 }.after(Seen::Nothing), Phase::Link { pred: 3 }));
    assert!(matches!(Phase::Link { pred: 3 }.after(Seen::Nothing), Phase::Spin));
    assert!(matches!(Phase::Spin.after(Seen::Locked(true)), Phase::Spin));
    assert!(matches!(Phase::Spin.after(Seen::Locked(false)), Phase::Holding));
    assert!(matches!(Phase::ReadNext.after(Seen::Node(None)), Phase::CloseTail));
    assert!(matches!(Phase::ReadNext.after(Seen::Node(Some(9))), Phase::HandOff { next: 9 }));
    assert!(matches!(Phase::CloseTail.after(Seen::Cleared(true)), Phase::Idle));
    assert!(matches!(Phase::CloseTail.after(Seen::Cleared(false)), Phase::AwaitLink));
    assert!(matches!(Phase::AwaitLink.after(Seen::Node(None)), Phase::AwaitLink));
    assert!(matches!(Phase::AwaitLink.after(Seen::Node(Some(9))), Phase::HandOff { next: 9 }));
    assert!(matches!(Phase::HandOff { next: 9 }.after(Seen::Nothing), Phase::Idle));
    // An answer of the wrong kind changes nothing.
    assert!(matches!(Phase::Spin.after(Seen::Node(None)), Phase::Spin));
    assert!(matches!(Phase::Enqueue.after(Seen::Locked(false)), Phase::Enqueue));
    assert!(matches!(Phase::Holding.after(Seen::Locked(false)), Phase::Holding));
    assert!(matches!(Phase::Idle.after(Seen::Nothing), Phase::Idle));
    assert!(Phase::Holding.is_holding());
    assert!(!Phase::Spin.is_holding());
    assert!(Phase::Idle.is_idle());
    assert!(!Phase::Holding.is_idle());
}

#[test]
fn mcs_queue_performs_actions_on_the_shared_words() {
    let mut inner = QueueInner::new();
    inner.grow();
    inner.grow();
    assert_eq!(inner.len(), 2);
    assert!(matches!(inner.perform(Action::Rest), Seen::Nothing));
    assert!(matches!(inner.perform(Action::SwapTail { new: 0 }), Seen::Node(None)));
    assert!(matches!(inner.perform(Action::SwapTail { new: 1 }), Seen::Node(Some(0))));
    assert!(matches!(inner.perform(Action::ClearTail { current: 0 }), Seen::Cleared(false)));
    assert!(matches!(inner.perform(Action::LoadLocked { record: 1 }), Seen::Locked(false)));
    assert!(matches!(inner.perform(Action::SetLocked { record: 1 }), Seen::Nothing));
    assert!(matches!(inner.perform(Action::LoadLocked { record: 1 }), Seen::Locked(true)));
    assert!(matches!(inner.perform(Action::LoadLocked { record: 0 }), Seen::Locked(false)));
    assert!(matches!(inner.perform(Action::LoadNext { record: 0 }), Seen::Node(None)));
    assert!(matches!(inner.perform(Action::SetNext { record: 0, next: 1 }), Seen::Nothing));
    assert!(matches!(inner.perform(Action::LoadNext { record: 0 }), Seen::Node(Some(1))));
    assert!(matches!(inner.perform(Action::LoadNext { record: 1 }), Seen::Node(None)));
    assert!(matches!(inner.perform(Action::ClearLocked { record: 1 }), Seen::Nothing));
    assert!(matches!(inner.perform(Action::LoadLocked { record: 1 }), Seen::Locked(false)));
    assert!(matches!(inner.perform(Action::ClearTail { current: 1 }), Seen::Cleared(true)));
    assert!(matches!(inner.perform(Action::ClearTail { current: 1 }), Seen::Cleared(false)));
    assert!(matches!(inner.perform(Action::SwapTail { new: 0 }), Seen::Node(None)));
}

/// A fixed sequence of numbers below `bound` that looks like chance.
fn mcs_pick(seed: &mut u64, bound: usize) -> usize {
    *seed = seed.wrapping_mul(6364136223846793005).wrapping_add(1442695040888963407);
    ((*seed >> 33) as usize) % bound
}

#[test]
fn mcs_lock_windows_never_overlap() {
    let mut lock = MSCLock::new(0);
    let mut workers: Vec<McsWorker> = Vec::new();
    for _ in 0..5 {
        workers.push(McsWorker { left: 200, guard: None, read: None, leaving: false });
    }
    let mut seed = 13;
    let mut line = Vec::new();
    let mut entered = Vec::new();
    while workers.iter().any(|worker| worker.left > 0) {
        let turn = mcs_pick(&mut seed, workers.len());
        let asking = workers[turn].guard.is_none() && workers[turn].left > 0;
        let held_before =
            workers[turn].guard.as_ref().map(|guard| lock.holds(guard)).unwrap_or(false);
        mcs_worker_step(&mut lock, &mut workers[turn]);
        if asking {
            line.push(turn);
        }
        let held_after =
            workers[turn].guard.as_ref().map(|guard| lock.holds(guard)).unwrap_or(false);
        if held_after && !held_before {
            entered.push(turn);
        }
        let mut holders = 0;
        for worker in workers.iter() {
            if let Some(guard) = &worker.guard {
                if lock.holds(guard) {
                    holders += 1;
                }
            }
        }
        assert!(holders <= 1);
    }
    // Every acquisition was let in once, in the order of the swaps.
    assert_eq!(entered.len(), 5 * 200);
    assert_eq!(entered, line);
    let guard = lock.lock();
    assert_eq!(*guard.deref(&lock), 5 * 200);
}

#[test]
fn mcs_lock_release_leaves_its_own_record_as_it_is() {
    let mut inner = MSCLockInner::new();
    let a = inner.lock();
    let b = inner.lock();
    // b raises its flag, links itself behind a, and spins.
    assert!(!inner.wait(b));
    assert!(inner.record(b).locked);
    assert_eq!(inner.record(a).next, None);
    assert!(!inner.wait(b));
    assert_eq!(inner.record(a).next, Some(b));
    assert!(!inner.wait(b));
    // a reads its link and lowers the flag of b: two actions, neither of
    // which writes the record of a.
    assert!(!inner.unlock(a));
    assert!(inner.record(b).locked);
    assert!(inner.unlock(a));
    assert!(!inner.record(b).locked);
    assert_eq!(inner.record(a).next, Some(b));
    assert!(!inner.record(a).locked);
    assert_eq!(inner.record(b).next, None);
    assert!(inner.wait(b));
    // b has nobody behind it: it empties the tail and keeps its record too.
    assert!(!inner.unlock(b));
    assert!(inner.unlock(b));
    assert_eq!(inner.record(a).next, Some(b));
    assert_eq!(inner.record(b).next, None);
    assert!(!inner.record(b).locked);
    // The next acquisition finds the tail empty and holds at once.
    let c = inner.lock();
    assert!(inner.holds(c));
    assert_eq!(inner.record(a).next, Some(b));
}
