//! NT synchronization objects in userspace: semaphores, recursive mutexes that
//! can be abandoned, and auto- and manual-reset events, with waits for any or all
//! of several objects.
//!
//! Objects live in a region that processes share. Every operation is one
//! transaction on the region: the caller holds the region's lock around it, hands
//! in what only the operating system knows (the time, which processes are gone),
//! and afterwards does what only the operating system can do (wake futex words,
//! sleep).
//!
//! - `word`, `object`: packed object states, and acquiring an object.
//! - `region`, `pool`: the object table, the waiter lists and the node pool.
//! - `objects`, `signal`: creating, closing, reading and signaling objects.
//! - `satisfy`, `wait`: waiting for any or all of several objects.
//! - `sweep`: reclaiming what processes that are gone left behind.
//! - `init`: finding, opening and locking the region; settings.
//! - `ffi`: the operations as C callers see them.
//! - `reclaim`, `wakeup`, `laws`, `history`, `sleepers`: what holds of the operations
//!   together. The modules under `laws` say of each operation what it does, in terms of
//!   the tables alone.
pub mod caller;
pub mod errno;
pub mod error;
pub mod ffi;
pub mod history;
pub mod init;
pub mod laws;
pub mod object;
pub mod objects;
pub mod pool;
pub mod reclaim;
pub mod region;
pub mod satisfy;
pub mod signal;
pub mod sleepers;
pub mod stats;
pub mod sweep;
pub mod wait;
pub mod wakeup;
pub mod word;

pub use error::{Error, WaitOutcome};
pub use satisfy::MAX_WAIT_COUNT;
