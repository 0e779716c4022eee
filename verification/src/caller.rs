//! What a calling thread brings to an operation, and what it takes away.
use crate::stats;
use crate::stats::Stats;
use vstd::prelude::*;

verus! {

/// Context of the calling thread. Everything that only the operating system
/// can tell is filled in before the call: the clock, and which of the
/// processes that own objects or waits are gone. Everything that only it can
/// do is left behind by the call: the futex words to wake, and how many objects an
/// automatic sweep has freed, for the log.
pub struct Caller {
    /// The calling process.
    pub pid: u32,
    /// Signal operations made so far by this thread.
    pub calls: u64,
    /// Nanoseconds between automatic sweeps; 0 turns them off.
    pub interval: u64,
    /// Monotonic clock in nanoseconds.
    pub now: u64,
    /// Whether diagnostics are on.
    pub debug: bool,
    /// Processes known to be gone.
    pub dead: Vec<u32>,
    /// Waiter nodes whose futex word is to be woken, in order.
    pub wakes: Vec<u32>,
    /// How many objects the last check for an automatic sweep freed.
    pub reclaimed: u32,
    /// Instrumentation.
    pub stats: Stats,
}

/// A caller context as plain mathematical values.
#[verifier::ext_equal]
pub struct CallerView {
    pub pid: u32,
    pub calls: u64,
    pub interval: u64,
    pub now: u64,
    pub debug: bool,
    pub dead: Seq<u32>,
    pub wakes: Seq<u32>,
    pub reclaimed: u32,
    pub stats: Seq<u64>,
}

impl View for Caller {
    type V = CallerView;

    open spec fn view(&self) -> CallerView {
        CallerView {
            pid: self.pid,
            calls: self.calls,
            interval: self.interval,
            now: self.now,
            debug: self.debug,
            dead: self.dead@,
            wakes: self.wakes@,
            reclaimed: self.reclaimed,
            stats: self.stats@,
        }
    }
}

impl CallerView {
    /// After counter `i` was bumped.
    pub open spec fn bumped(self, i: usize) -> CallerView {
        self.counted(i, 1)
    }

    /// After counter `i` grew by `n`.
    pub open spec fn counted(self, i: usize, n: u64) -> CallerView {
        CallerView { stats: stats::grown(self.stats, i as int, n), ..self }
    }

    /// After `words` were added to the futex words to wake.
    pub open spec fn woke(self, words: Seq<u32>) -> CallerView {
        CallerView { wakes: self.wakes + words, ..self }
    }

    /// The time that diagnostics stamp on a wake.
    pub open spec fn stamp(self) -> Option<u64> {
        if self.debug {
            Some(self.now)
        } else {
            None
        }
    }

    /// After one more signal operation.
    pub open spec fn ticked(self) -> CallerView {
        CallerView { calls: ((self.calls + 1) % 0x1_0000_0000_0000_0000) as u64, ..self }
    }

    /// Whether process `pid` is gone. No process has pid 0.
    pub open spec fn gone(self, pid: u32) -> bool {
        pid == 0 || self.dead.contains(pid)
    }
}

impl Caller {
    /// A context for process `pid`, with nothing known yet and diagnostics off.
    pub fn new(pid: u32, interval: u64) -> (c: Caller)
        ensures
            c@ == (CallerView {
                pid,
                calls: 0,
                interval,
                now: 0,
                debug: false,
                dead: Seq::empty(),
                wakes: Seq::empty(),
                reclaimed: 0,
                stats: Seq::new(13, |i: int| 0u64),
            }),
    {
        Caller {
            pid,
            calls: 0,
            interval,
            now: 0,
            debug: false,
            dead: Vec::new(),
            wakes: Vec::new(),
            reclaimed: 0,
            stats: Stats::new(),
        }
    }

    /// Whether process `pid` is gone.
    pub fn is_gone(&self, pid: u32) -> (r: bool)
        ensures
            r == self@.gone(pid),
    {
        if pid == 0 {
            return true;
        }
        contains(&self.dead, pid)
    }
}

/// Whether `pid` occurs in `pids`.
pub fn contains(pids: &Vec<u32>, pid: u32) -> (r: bool)
    ensures
        r == pids@.contains(pid),
{
    let mut i: usize = 0;
    while i < pids.len()
        invariant
            i <= pids.len(),
            forall|k: int| 0 <= k < i ==> pids@[k] != pid,
        decreases pids.len() - i,
    {
        if pids[i] == pid {
            return true;
        }
        i = i + 1;
    }
    false
}

} // verus!
