//! Per-process instrumentation counters.
use vstd::prelude::*;

verus! {

/// Number of counters.
pub const STAT_COUNT: usize = 13;

/// Total `wait_any` / `wait_all` calls.
pub const WAIT_CALLS: usize = 0;

/// Waits satisfied at once, without sleeping.
pub const WAIT_FAST_OK: usize = 1;

/// Passes of a wait that ended in a sleep.
pub const WAIT_BLOCKED: usize = 2;

/// Futex sleeps.
pub const FUTEX_SLEEPS: usize = 3;

/// Region lock acquisitions.
pub const LOCK_ACQ: usize = 4;

/// Region lock acquisitions that did not succeed at once.
pub const LOCK_CONTENDED: usize = 5;

/// Retries of a state change on an object word. There are none as long as every
/// operation is made under the region lock.
pub const CAS_RETRIES: usize = 6;

/// Release, set, unlock and similar calls.
pub const SIGNAL_OPS: usize = 7;

/// Signal operations that found waiters to wake.
pub const WAKE_WALKS: usize = 8;

/// Waiter-node registrations.
pub const NODES_REGISTERED: usize = 9;

/// Wakes with a latency sample.
pub const WAKE_LAT_CNT: usize = 10;

/// Total wake latency in microseconds.
pub const WAKE_LAT_US_SUM: usize = 11;

/// Worst wake latency in microseconds.
pub const WAKE_LAT_US_MAX: usize = 12;

/// The counters.
pub struct Stats {
    pub counters: [u64; 13],
}

impl View for Stats {
    type V = Seq<u64>;

    open spec fn view(&self) -> Seq<u64> {
        self.counters@
    }
}

/// Counters after counter `i` has grown by `n`, modulo 2^64.
pub open spec fn grown(c: Seq<u64>, i: int, n: u64) -> Seq<u64> {
    c.update(i, ((c[i] + n) % 0x1_0000_0000_0000_0000) as u64)
}

/// Counters after a wake latency of `us` microseconds was recorded.
pub open spec fn sampled(c: Seq<u64>, us: u64) -> Seq<u64> {
    let d = grown(grown(c, WAKE_LAT_CNT as int, 1), WAKE_LAT_US_SUM as int, us);
    d.update(
        WAKE_LAT_US_MAX as int,
        if d[WAKE_LAT_US_MAX as int] < us {
            us
        } else {
            d[WAKE_LAT_US_MAX as int]
        },
    )
}

/// The name under which counter `i` is reported.
pub open spec fn name_of(i: int) -> Seq<char> {
    if i == 0 {
        "wait_calls"@
    } else if i == 1 {
        "wait_fast_ok"@
    } else if i == 2 {
        "wait_blocked"@
    } else if i == 3 {
        "futex_sleeps"@
    } else if i == 4 {
        "lock_acq"@
    } else if i == 5 {
        "lock_contended"@
    } else if i == 6 {
        "cas_retries"@
    } else if i == 7 {
        "signal_ops"@
    } else if i == 8 {
        "wake_walks"@
    } else if i == 9 {
        "nodes_registered"@
    } else if i == 10 {
        "wake_lat_cnt"@
    } else if i == 11 {
        "wake_lat_us_sum"@
    } else {
        "wake_lat_us_max"@
    }
}

impl Stats {
    /// All counters zero.
    pub fn new() -> (s: Stats)
        ensures
            s@ == Seq::new(13, |i: int| 0u64),
    {
        let s = Stats { counters: [0, 0, 0, 0, 0, 0, 0, 0, 0, 0, 0, 0, 0] };
        assert(s@ =~= Seq::new(13, |i: int| 0u64));
        s
    }

    /// The name under which counter `i` is reported.
    pub fn name(i: usize) -> (s: &'static str)
        requires
            i < STAT_COUNT,
        ensures
            s@ == name_of(i as int),
    {
        match i {
            0 => "wait_calls",
            1 => "wait_fast_ok",
            2 => "wait_blocked",
            3 => "futex_sleeps",
            4 => "lock_acq",
            5 => "lock_contended",
            6 => "cas_retries",
            7 => "signal_ops",
            8 => "wake_walks",
            9 => "nodes_registered",
            10 => "wake_lat_cnt",
            11 => "wake_lat_us_sum",
            _ => "wake_lat_us_max",
        }
    }
}

/// Adds one to counter `i`.
pub fn bump(stats: &mut Stats, i: usize)
    requires
        i < STAT_COUNT,
    ensures
        final(stats)@ == grown(old(stats)@, i as int, 1),
{
    self::add(stats, i, 1);
}

/// Adds `n` to counter `i`.
pub fn add(stats: &mut Stats, i: usize, n: u64)
    requires
        i < STAT_COUNT,
    ensures
        final(stats)@ == grown(old(stats)@, i as int, n),
{
    let v = stats.counters[i];
    stats.counters[i] = v.wrapping_add(n);
    assert(stats@ =~= grown(old(stats)@, i as int, n));
}

/// Records a wake latency sample, given the times of the wake and of now in
/// nanoseconds.
pub fn record_wake_latency(stats: &mut Stats, woken_at: u64, now: u64)
    ensures
        final(stats)@ == sampled(
            old(stats)@,
            if now >= woken_at {
                ((now - woken_at) / 1000) as u64
            } else {
                0
            },
        ),
{
    let us = now.saturating_sub(woken_at) / 1000;
    bump(stats, WAKE_LAT_CNT);
    self::add(stats, WAKE_LAT_US_SUM, us);
    if stats.counters[WAKE_LAT_US_MAX] < us {
        stats.counters[WAKE_LAT_US_MAX] = us;
    }
    assert(stats@ =~= sampled(old(stats)@, us));
}

} // verus!
