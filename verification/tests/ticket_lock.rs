use spin_locks::ticket_lock::{TicketLockGuard, TicketLockInner};
use spin_locks::TicketLock;

struct TicketWorker {
    left: u32,
    guard: Option<TicketLockGuard>,
    read: Option<i32>,
}

/// One action of one simulated thread: the draw of a ticket, a look at the
/// counter that is served, or a critical section that takes one off and adds
/// two, split in a read and a write, with the release at its end.
fn ticket_worker_step(lock: &mut TicketLock<i32>, worker: &mut TicketWorker) {
    match (worker.guard.take(), worker.read.take()) {
        (None, _) => {
            if worker.left > 0 {
                assert!(lock.in_flight() < u32::MAX);
                worker.guard = Some(lock.lock());
            }
        }
        (Some(guard), None) => {
            if lock.wait(&guard) {
                worker.read = Some(*guard.deref(lock));
            }
            worker.guard = Some(guard);
        }
        (Some(guard), Some(seen)) => {
            assert!(lock.holds(&guard));
            let value = guard.deref_mut(lock);
            *value = seen - 1;
            *value += 1;
            *value += 1;
            assert!(lock.unlock(guard).is_none());
            worker.left -= 1;
        }
    }
}

fn ticket_contend(threads: usize, rounds: u32) -> i32 {
    let mut lock = TicketLock::new(0);
    let mut workers: Vec<TicketWorker> = Vec::new();
    for _ in 0..threads {
        workers.push(TicketWorker { left: rounds, guard: None, read: None });
    }
    let mut busy = true;
    while busy {
        busy = false;
        for worker in workers.iter_mut() {
            ticket_worker_step(&mut lock, worker);
            if worker.left > 0 {
                busy = true;
            }
        }
    }
    assert_eq!(lock.in_flight(), 0);
    let guard = lock.lock();
    assert!(lock.wait(&guard));
    let value = *guard.deref(&lock);
    assert!(lock.unlock(guard).is_none());
    value
}

#[test]
fn ticket_lock_happy_path() {
    let n = 1000000;
    let thread_n = 8;
    assert_eq!(ticket_contend(thread_n, n), (n as i32) * (thread_n as i32));
}

#[test]
fn ticket_lock_counts_every_increment() {
    assert_eq!(ticket_contend(1, 1), 1);
    assert_eq!(ticket_contend(3, 5), 15);
    assert_eq!(ticket_contend(8, 1000), 8000);
}

#[test]
fn ticket_lock_starts_at_ticket_zero() {
    let mut lock = TicketLock::new("value");
    assert_eq!(lock.in_flight(), 0);
    let guard = lock.lock();
    assert_eq!(guard.ticket(), 0);
    assert_eq!(lock.in_flight(), 1);
    assert!(lock.holds(&guard));
    assert_eq!(*guard.deref(&lock), "value");
    assert!(lock.unlock(guard).is_none());
    assert_eq!(lock.in_flight(), 0);
    assert_eq!(lock.lock().ticket(), 1);
}

#[test]
fn ticket_lock_serves_in_the_order_of_the_draws() {
    let mut lock = TicketLock::new(Vec::new());
    let a = lock.lock();
    let b = lock.lock();
    let c = lock.lock();
    assert_eq!((a.ticket(), b.ticket(), c.ticket()), (0, 1, 2));
    assert_eq!(lock.in_flight(), 3);
    assert!(lock.wait(&a));
    assert!(!lock.wait(&b));
    assert!(!lock.wait(&c));
    a.deref_mut(&mut lock).push('a');
    // Who waits cannot release, however often it looks.
    let c = lock.unlock(c).expect("not served yet");
    let b = lock.unlock(b).expect("not served yet");
    assert!(lock.wait(&a));
    assert!(lock.unlock(a).is_none());
    assert!(!lock.wait(&c));
    assert!(lock.wait(&b));
    b.deref_mut(&mut lock).push('b');
    let d = lock.lock();
    assert_eq!(d.ticket(), 3);
    assert!(lock.unlock(b).is_none());
    assert!(!lock.wait(&d));
    assert!(lock.wait(&c));
    c.deref_mut(&mut lock).push('c');
    assert!(lock.unlock(c).is_none());
    assert!(lock.wait(&d));
    d.deref_mut(&mut lock).push('d');
    assert_eq!(*d.deref(&lock), vec!['a', 'b', 'c', 'd']);
    assert!(lock.unlock(d).is_none());
    assert_eq!(lock.in_flight(), 0);
}

#[test]
fn ticket_lock_inner_counts_draws_and_releases() {
    let mut inner = TicketLockInner::new();
    assert_eq!(inner.in_flight(), 0);
    assert!(!inner.holds(0));
    assert_eq!(inner.lock(), 0);
    assert_eq!(inner.lock(), 1);
    assert_eq!(inner.in_flight(), 2);
    assert!(inner.holds(0));
    assert!(!inner.holds(1));
    inner.unlock();
    assert!(!inner.holds(0));
    assert!(inner.holds(1));
    inner.unlock();
    assert!(!inner.holds(1));
    assert!(!inner.holds(2));
    assert_eq!(inner.in_flight(), 0);
    assert_eq!(inner.lock(), 2);
    assert!(inner.holds(2));
}

#[test]
fn ticket_lock_is_served_when_the_counter_shows_the_ticket() {
    assert!(TicketLockInner::served(5, 5));
    assert!(!TicketLockInner::served(5, 4));
    assert!(TicketLockInner::served(i32::MIN, i32::MIN));
    assert!(!TicketLockInner::served(i32::MIN, i32::MAX));
}

#[test]
fn ticket_lock_exactly_one_release_for_each_acquisition() {
    let mut lock = TicketLock::new(0u32);
    let first = lock.lock();
    let second = lock.lock();
    assert!(lock.unlock(first).is_none());
    assert_eq!(lock.in_flight(), 1);
    assert!(lock.holds(&second));
    assert!(lock.unlock(second).is_none());
    assert_eq!(lock.in_flight(), 0);
    let third = lock.lock();
    assert_eq!(third.ticket(), 2);
    assert!(lock.holds(&third));
}

/// A fixed sequence of numbers below `bound` that looks like chance.
fn ticket_pick(seed: &mut u64, bound: usize) -> usize {
    *seed = seed.wrapping_mul(6364136223846793005).wrapping_add(1442695040888963407);
    ((*seed >> 33) as usize) % bound
}

#[test]
fn ticket_lock_windows_never_overlap() {
    let mut lock = TicketLock::new(0);
    let mut workers: Vec<TicketWorker> = Vec::new();
    for _ in 0..5 {
        workers.push(TicketWorker { left: 200, guard: None, read: None });
    }
    let mut seed = 11;
    let mut served = Vec::new();
    while workers.iter().any(|worker| worker.left > 0) {
        let turn = ticket_pick(&mut seed, workers.len());
        let mut before = Vec::new();
        for worker in workers.iter() {
            if let Some(guard) = &worker.guard {
                if lock.holds(guard) {
                    before.push(guard.ticket());
                }
            }
        }
        ticket_worker_step(&mut lock, &mut workers[turn]);
        let mut holders = Vec::new();
        for worker in workers.iter() {
            if let Some(guard) = &worker.guard {
                if lock.holds(guard) {
                    holders.push(guard.ticket());
                }
            }
        }
        assert!(holders.len() <= 1);
        if holders != before {
            served.extend(holders);
        }
    }
    // Every ticket was served once, in the order of the draws.
    let drawn: Vec<i32> = (0..5 * 200).collect();
    assert_eq!(served, drawn);
    assert_eq!(lock.in_flight(), 0);
    let guard = lock.lock();
    assert_eq!(*guard.deref(&lock), 5 * 200);
}
