use spin_locks::thread_local_msc_lock::{
    ThreadLocalMscLockGuard, ThreadLocalMscLockInner, ThreadRecords,
};
use spin_locks::ThreadLocalMscLock;

fn local_records(threads: usize) -> ThreadRecords {
    let mut records = ThreadRecords::new();
    for thread in 0..threads {
        assert_eq!(records.spawn(), thread);
    }
    assert_eq!(records.threads(), threads);
    records
}

struct LocalWorker {
    left: u32,
    guard: Option<ThreadLocalMscLockGuard>,
    read: Option<i32>,
    leaving: bool,
}

/// One action of the simulated thread `thread`.
fn local_worker_step(
    lock: &mut ThreadLocalMscLock<i32>,
    records: &mut ThreadRecords,
    thread: usize,
    worker: &mut LocalWorker,
) {
    match (worker.guard.take(), worker.read.take()) {
        (None, _) => {
            if worker.left > 0 {
                worker.guard =
                    Some(lock.lock(records, thread).expect("the thread has nothing in flight"));
            }
        }
        (Some(guard), None) => {
            if worker.leaving {
                worker.guard = lock.unlock(records, guard);
                if worker.guard.is_none() {
                    worker.leaving = false;
                    worker.left -= 1;
                }
            } else {
                if lock.wait(records, &guard) {
                    worker.read = Some(*guard.deref(lock, records));
                }
                worker.guard = Some(guard);
            }
        }
        (Some(guard), Some(seen)) => {
            assert!(lock.holds(records, &guard));
            *guard.deref_mut(lock, records) = seen + 1;
            worker.guard =
                Some(lock.unlock(records, guard).expect("a release takes two actions or more"));
            worker.leaving = true;
        }
    }
}

fn local_contend(threads: usize, rounds: u32) -> i32 {
    let mut records = local_records(threads);
    let mut lock = ThreadLocalMscLock::new(0, &mut records);
    let mut workers: Vec<LocalWorker> = Vec::new();
    for _ in 0..threads {
        workers.push(LocalWorker { left: rounds, guard: None, read: None, leaving: false });
    }
    let mut busy = true;
    while busy {
        busy = false;
        for (thread, worker) in workers.iter_mut().enumerate() {
            local_worker_step(&mut lock, &mut records, thread, worker);
            if worker.left > 0 {
                busy = true;
            }
        }
    }
    assert_eq!(records.threads(), threads);
    let guard = lock.lock(&mut records, 0).expect("every thread has released");
    assert!(lock.holds(&records, &guard));
    *guard.deref(&lock, &records)
}

#[test]
fn thread_local_msc_lock_happy_path() {
    let n = 100000;
    let thread_n = 8;
    assert_eq!(local_contend(thread_n, n), (n as i32) * (thread_n as i32));
}

#[test]
fn thread_local_msc_lock_counts_every_increment() {
    assert_eq!(local_contend(1, 1), 1);
    assert_eq!(local_contend(3, 5), 15);
    assert_eq!(local_contend(8, 1000), 8000);
}

#[test]
fn thread_local_msc_lock_reuses_the_record_of_a_thread() {
    let mut records = local_records(4);
    let mut lock = ThreadLocalMscLock::new(0u32, &mut records);
    for round in 0..1000 {
        assert!(!records.busy(3));
        let guard = lock.lock(&mut records, 3).expect("the cycle before is over");
        assert!(records.busy(3));
        assert_eq!(guard.thread(), 3);
        assert!(lock.holds(&records, &guard));
        assert_eq!(*guard.deref(&lock, &records), round);
        *guard.deref_mut(&mut lock, &records) += 1;
        let guard = lock.unlock(&mut records, guard).expect("the tail is still to be emptied");
        assert!(lock.unlock(&mut records, guard).is_none());
    }
    assert_eq!(records.threads(), 4);
    let guard = lock.lock(&mut records, 0).expect("thread 0 has nothing in flight");
    assert!(lock.holds(&records, &guard));
    assert_eq!(*guard.deref(&lock, &records), 1000);
}

#[test]
fn thread_local_msc_lock_reuses_a_record_that_was_handed_over() {
    let mut records = local_records(2);
    let mut inner = ThreadLocalMscLockInner::new(&mut records);
    for _ in 0..50 {
        // 0 holds, 1 queues up behind it, 0 hands over and comes back behind 1.
        assert!(inner.lock(&mut records, 0));
        assert!(inner.holds(&records, 0));
        assert!(inner.lock(&mut records, 1));
        while !inner.unlock(&mut records, 0) {
            inner.wait(&mut records, 1);
        }
        assert!(inner.wait(&mut records, 1));
        assert!(inner.lock(&mut records, 0));
        assert!(!inner.holds(&records, 0));
        while !inner.unlock(&mut records, 1) {
            inner.wait(&mut records, 0);
        }
        assert!(inner.wait(&mut records, 0));
        assert!(!inner.unlock(&mut records, 0));
        assert!(inner.unlock(&mut records, 0));
    }
    assert!(!records.busy(0));
    assert!(!records.busy(1));
}

#[test]
fn thread_local_msc_lock_refuses_a_second_acquisition_of_a_thread() {
    let mut records = local_records(6);
    let mut lock = ThreadLocalMscLock::new('x', &mut records);
    let held = lock.lock(&mut records, 2).expect("thread 2 has nothing in flight");
    assert!(lock.lock(&mut records, 2).is_none());
    let waiting = lock.lock(&mut records, 5).expect("thread 5 has nothing in flight");
    assert!(lock.lock(&mut records, 5).is_none());
    assert!(lock.lock(&mut records, 2).is_none());
    assert!(lock.holds(&records, &held));
    assert!(!lock.holds(&records, &waiting));
    // The release is in flight too, until it is complete.
    let held = lock.unlock(&mut records, held).expect("thread 2 has read its link");
    assert!(lock.lock(&mut records, 2).is_none());
    assert!(!lock.wait(&mut records, &waiting));
    assert!(!lock.wait(&mut records, &waiting));
    assert!(!lock.wait(&mut records, &waiting));
    let held = lock.unlock(&mut records, held).expect("thread 2 cannot empty the tail");
    let held = lock.unlock(&mut records, held).expect("thread 2 has seen the link");
    assert!(lock.lock(&mut records, 2).is_none());
    assert!(lock.unlock(&mut records, held).is_none());
    assert!(lock.wait(&mut records, &waiting));
    let again = lock.lock(&mut records, 2).expect("the release is complete");
    assert!(!lock.holds(&records, &again));
    assert_eq!(*waiting.deref(&lock, &records), 'x');
}

#[test]
fn thread_local_msc_lock_refuses_a_thread_that_stands_in_another_line() {
    let mut records = local_records(3);
    let mut first = ThreadLocalMscLock::new(1u8, &mut records);
    let mut second = ThreadLocalMscLock::new(2u8, &mut records);
    // Thread 0 holds the first lock: its one record is in use.
    let held = first.lock(&mut records, 0).expect("thread 0 has nothing in flight");
    assert!(first.holds(&records, &held));
    assert!(records.busy(0));
    assert!(second.lock(&mut records, 0).is_none());
    // Thread 1 waits for the first lock: its record is in use as well.
    let waiting = first.lock(&mut records, 1).expect("thread 1 has nothing in flight");
    assert!(!first.holds(&records, &waiting));
    assert!(second.lock(&mut records, 1).is_none());
    // Thread 2 is free, and the second lock is free for it.
    let other = second.lock(&mut records, 2).expect("thread 2 has nothing in flight");
    assert!(second.holds(&records, &other));
    assert!(first.lock(&mut records, 2).is_none());
    // What happens at one lock does not move the other.
    assert!(first.holds(&records, &held));
    let other = second.unlock(&mut records, other).expect("the tail is still to be emptied");
    assert!(second.unlock(&mut records, other).is_none());
    assert!(first.holds(&records, &held));
    assert!(!first.wait(&mut records, &waiting));
    // Thread 0 is refused until its release is complete.
    let mut held = first.unlock(&mut records, held).expect("thread 0 has read its link");
    assert!(second.lock(&mut records, 0).is_none());
    loop {
        first.wait(&mut records, &waiting);
        match first.unlock(&mut records, held) {
            Some(rest) => held = rest,
            None => break,
        }
        assert!(second.lock(&mut records, 0).is_none());
    }
    let moved = second.lock(&mut records, 0).expect("thread 0 has released the first lock");
    assert!(second.holds(&records, &moved));
    assert_eq!(*moved.deref(&second, &records), 2);
    assert!(first.wait(&mut records, &waiting));
    assert_eq!(*waiting.deref(&first, &records), 1);
}

#[test]
fn thread_local_msc_lock_refuses_a_thread_without_a_record() {
    let mut records = ThreadRecords::new();
    let mut lock = ThreadLocalMscLock::new(0u8, &mut records);
    assert!(!records.busy(0));
    assert!(lock.lock(&mut records, 0).is_none());
    assert_eq!(records.spawn(), 0);
    assert!(lock.lock(&mut records, 1).is_none());
    let guard = lock.lock(&mut records, 0).expect("thread 0 has a record now");
    assert!(lock.holds(&records, &guard));
    // A thread that comes later queues up behind.
    assert_eq!(records.spawn(), 1);
    assert!(lock.holds(&records, &guard));
    let late = lock.lock(&mut records, 1).expect("thread 1 has a record now");
    assert!(!lock.holds(&records, &late));
}

#[test]
fn thread_local_msc_lock_serves_in_the_order_of_the_swaps() {
    let mut records = local_records(8);
    let mut lock = ThreadLocalMscLock::new(Vec::new(), &mut records);
    let c = lock.lock(&mut records, 7).expect("free");
    let a = lock.lock(&mut records, 0).expect("free");
    let b = lock.lock(&mut records, 4).expect("free");
    let mut line = vec![c, a, b];
    let mut leaving = false;
    while !line.is_empty() {
        for guard in line.iter().skip(1) {
            assert!(!lock.wait(&mut records, guard));
        }
        let first = line.remove(0);
        if leaving {
            match lock.unlock(&mut records, first) {
                Some(first) => line.insert(0, first),
                None => leaving = false,
            }
        } else if lock.wait(&mut records, &first) {
            let thread = first.thread();
            first.deref_mut(&mut lock, &records).push(thread);
            line.insert(
                0,
                lock.unlock(&mut records, first).expect("a release takes two actions or more"),
            );
            leaving = true;
        } else {
            line.insert(0, first);
        }
    }
    let guard = lock.lock(&mut records, 1).expect("free");
    assert_eq!(*guard.deref(&lock, &records), vec![7, 0, 4]);
}

#[test]
fn thread_local_msc_lock_exactly_one_release_for_each_acquisition() {
    let mut records = local_records(10);
    let mut inner = ThreadLocalMscLockInner::new(&mut records);
    assert!(!inner.holds(&records, 9));
    assert!(inner.unlock(&mut records, 9));
    assert!(!inner.unlock(&mut records, 10));
    assert!(inner.lock(&mut records, 9));
    assert!(inner.holds(&records, 9));
    assert!(!inner.unlock(&mut records, 9));
    assert!(inner.unlock(&mut records, 9));
    assert!(inner.unlock(&mut records, 9));
    assert!(!inner.holds(&records, 9));
    assert!(inner.unlock(&mut records, 4));
    assert!(!inner.wait(&mut records, 4));
    assert!(inner.lock(&mut records, 9));
    assert!(inner.holds(&records, 9));
}

/// A fixed sequence of numbers below `bound` that looks like chance.
fn local_pick(seed: &mut u64, bound: usize) -> usize {
    *seed = seed.wrapping_mul(6364136223846793005).wrapping_add(1442695040888963407);
    ((*seed >> 33) as usize) % bound
}

#[test]
fn thread_local_msc_lock_windows_never_overlap() {
    let mut records = local_records(5);
    let mut lock = ThreadLocalMscLock::new(0, &mut records);
    let mut workers: Vec<LocalWorker> = Vec::new();
    for _ in 0..5 {
        workers.push(LocalWorker { left: 200, guard: None, read: None, leaving: false });
    }
    let mut seed = 17;
    let mut line = Vec::new();
    let mut entered = Vec::new();
    while workers.iter().any(|worker| worker.left > 0) {
        let turn = local_pick(&mut seed, workers.len());
        let asking = workers[turn].guard.is_none() && workers[turn].left > 0;
        let held_before = workers[turn]
            .guard
            .as_ref()
            .map(|guard| lock.holds(&records, guard))
            .unwrap_or(false);
        local_worker_step(&mut lock, &mut records, turn, &mut workers[turn]);
        if asking {
            line.push(turn);
        }
        let held_after = workers[turn]
            .guard
            .as_ref()
            .map(|guard| lock.holds(&records, guard))
            .unwrap_or(false);
        if held_after && !held_before {
            entered.push(turn);
        }
        let mut holders = 0;
        for worker in workers.iter() {
            if let Some(guard) = &worker.guard {
                if lock.holds(&records, guard) {
                    holders += 1;
                }
            }
        }
        assert!(holders <= 1);
    }
    // Every acquisition was let in once, in the order of the swaps.
    assert_eq!(entered.len(), 5 * 200);
    assert_eq!(entered, line);
    let guard = lock.lock(&mut records, 0).expect("every thread has released");
    assert_eq!(*guard.deref(&lock, &records), 5 * 200);
}

#[test]
fn thread_local_msc_lock_two_locks_share_the_records_of_the_threads() {
    let mut records = local_records(4);
    let mut first = ThreadLocalMscLock::new(0i32, &mut records);
    let mut second = ThreadLocalMscLock::new(0i32, &mut records);
    // Threads 0 and 1 work on the first lock, 2 and 3 on the second, turn by
    // turn; every thread then changes over to the other lock.
    for half in 0..2 {
        let mut workers: Vec<LocalWorker> = Vec::new();
        for _ in 0..4 {
            workers.push(LocalWorker { left: 50, guard: None, read: None, leaving: false });
        }
        let mut seed = 23 + half as u64;
        while workers.iter().any(|worker| worker.left > 0) {
            let turn = local_pick(&mut seed, 4);
            let lock = if (turn < 2) == (half == 0) { &mut first } else { &mut second };
            local_worker_step(lock, &mut records, turn, &mut workers[turn]);
        }
    }
    let one = first.lock(&mut records, 0).expect("every thread has released");
    assert_eq!(*one.deref(&first, &records), 200);
    let two = second.lock(&mut records, 1).expect("every thread has released");
    assert_eq!(*two.deref(&second, &records), 200);
}

#[test]
fn thread_local_msc_lock_release_leaves_its_own_record_as_it_is() {
    let mut records = local_records(2);
    let mut inner = ThreadLocalMscLockInner::new(&mut records);
    assert!(inner.lock(&mut records, 0));
    assert!(inner.lock(&mut records, 1));
    // 1 raises its flag, links itself behind 0, and spins.
    assert!(!inner.wait(&mut records, 1));
    assert!(records.record(1).locked);
    assert_eq!(records.record(0).next, None);
    assert!(!inner.wait(&mut records, 1));
    assert_eq!(records.record(0).next, Some(1));
    // 0 reads its link and lowers the flag of 1; its own record stays.
    assert!(!inner.unlock(&mut records, 0));
    assert!(records.record(1).locked);
    assert!(inner.unlock(&mut records, 0));
    assert!(!records.record(1).locked);
    assert_eq!(records.record(0).next, Some(1));
    assert!(!records.record(0).locked);
    assert!(!records.busy(0));
    // What is left in the record is wiped when 0 asks again.
    assert!(inner.lock(&mut records, 0));
    assert_eq!(records.record(0).next, None);
    assert!(!records.record(0).locked);
    assert!(!inner.wait(&mut records, 0));
    assert!(records.record(0).locked);
    assert!(!inner.wait(&mut records, 0));
    assert_eq!(records.record(1).next, Some(0));
}
