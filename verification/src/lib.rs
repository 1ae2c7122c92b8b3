//! Four busy-waiting locks, each written as a small transition system whose
//! every atomic action is one call, so that mutual exclusion, fairness and
//! hand-off are proved over all interleavings.
//!
//! A lock here is a model of the words that the contending threads share,
//! together with the position of every acquisition in its protocol. A caller
//! plays the scheduler: it decides which acquisition performs its next atomic
//! action. No call blocks; where a thread would spin, the call reports that
//! nothing was gained and may be made again. Every action is taken to be
//! indivisible and to be seen by all threads in one order.
//!
//! - [`SpinLock`]: one flag, no order among the contenders.
//! - [`TicketLock`]: two counters, first come first served.
//! - [`MSCLock`]: a queue of nodes, a new one for every acquisition, each
//!   waiter spinning on its own node; first come first served.
//! - [`ThreadLocalMscLock`]: the same queue with one node per thread, kept
//!   in [`ThreadRecords`] for all the locks of this kind; a thread stands in
//!   one line at a time.
//!
//! The two queue locks share their protocol, which is written down and
//! proved in [`queue`].
//!
//! A guard belongs to the lock that made it, and only that lock takes it.
//!
//! Each lock keeps a ghost [`Ledger`] of requests, entries and exits and a
//! ghost record of the [`Windows`] in which it was held. What is proved of a
//! lock is stated over these: ownership windows never overlap, each is
//! closed once by the acquisition that opened it, every holder finds the
//! protected value as the holder before it left it, and the fair locks let
//! the acquisitions in as they came.
//!
//! Unwinding is ignored throughout: a critical section that fails half-way
//! leaves the protected value as it wrote it, and the guard is released as
//! usual.
pub mod lock_guard;
pub mod mcs_lock;
pub mod queue;
pub mod spin_lock;
pub mod thread_local_msc_lock;
pub mod ticket_lock;

pub use lock_guard::{Ledger, Windows};
pub use mcs_lock::MSCLock;
pub use spin_lock::SpinLock;
pub use thread_local_msc_lock::{ThreadLocalMscLock, ThreadRecords};
pub use ticket_lock::TicketLock;
