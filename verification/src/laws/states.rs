//! What state words, handles, times and counters mean.
use crate::caller::CallerView;
use crate::error::Error;
use crate::ffi;
use crate::history::Call;
use crate::laws::calls::number;
use crate::laws::effects::gotten;
use crate::laws::reaping;
use crate::object;
use crate::object::{Object, SlotView};
use crate::region;
use crate::region::{Region, RegionView};
use crate::stats;
use crate::sweep;
use crate::wait;
use crate::wait::{StuckObject, WaiterView};
use crate::word;
use vstd::prelude::*;

verus! {

/// A handle is an index and a generation, and nothing else.
pub proof fn law_handle_holds_index_and_generation(handle: u32, generation: u32, index: u32)
    requires
        index < 16384,
    ensures
        word::index_of(handle) == handle % 16384,
        word::generation_of(handle) == handle / 16384,
        generation < 0x4_0000 ==> word::handle_for(generation, index) == generation * 16384 + index,
        generation < 0x4_0000 ==> word::index_of(word::handle_for(generation, index)) == index,
        generation < 0x4_0000 ==> word::generation_of(word::handle_for(generation, index))
            == generation,
{
    word::lemma_handle_fields(generation, index);
}

/// Packed words hold the states that they were packed from.
pub proof fn law_words_hold_states(a: u32, b: u32, flag: bool)
    requires
        b <= 0x7fff_ffff,
    ensures
        object::object_of(1, word::join(a, b)) == (Object::Semaphore { count: b, max: a }),
        object::object_of(2, word::join(word::mutex_hi(b, flag), a)) == (Object::Mutex {
            owner: a,
            count: b,
            abandoned: flag,
        }),
        object::object_of(3, word::join(a, b)) == (Object::Event {
            manual: a > 0,
            signaled: b > 0,
        }),
        object::object_of(4, word::join(a, b)) == Object::Reserved,
{
    word::lemma_join_halves(a, b);
    word::lemma_join_halves(word::mutex_hi(b, flag), a);
    word::lemma_mutex_hi_fields(b, flag);
}

/// What is ready to be acquired: a semaphore that is not used up; a mutex that is free,
/// or the acquirer's own below the limit; an event that is signaled, or was pulsed since.
pub proof fn law_what_can_be_acquired(s: SlotView, owner: u32, entry_seq: u64)
    ensures
        s.object matches Object::Semaphore { count, .. } ==> (s.acquirable(owner, entry_seq)
            <==> count >= 1),
        s.object matches Object::Mutex { owner: holder, count, .. } ==> (s.acquirable(
            owner,
            entry_seq,
        ) <==> count < 0x7fff_ffff && (holder == 0 || holder == owner)),
        s.object matches Object::Event { signaled, .. } ==> (s.acquirable(owner, entry_seq)
            <==> signaled || s.pulses != entry_seq),
        s.object is Reserved ==> !s.acquirable(owner, entry_seq),
{
}

/// Acquiring changes the state word as it changes the object: for every word that an
/// operation can leave behind, and every owner.
pub proof fn law_acquired_word_holds_acquired_object(kind: u32, w: u64, owner: u32, pulses: u64)
    requires
        1 <= kind <= 3,
        object::word_valid(kind, w),
        (SlotView {
            used: true,
            generation: 0,
            pid: 0,
            object: object::object_of(kind, w),
            pulses,
        }).acquirable(owner, pulses),
    ensures
        object::object_of(kind, object::acquired_word(kind, w, owner)) == gotten(
            object::object_of(kind, w),
            owner,
        ),
{
    word::lemma_halves_join(w);
    match object::object_of(kind, w) {
        Object::Semaphore { count, max } => {
            word::lemma_join_halves(max, (count - 1) as u32);
        },
        Object::Mutex { owner: holder, count, abandoned } => {
            let left = abandoned && holder != 0;
            word::lemma_join_halves(word::mutex_hi((count + 1) as u32, left), owner);
            word::lemma_mutex_hi_fields((count + 1) as u32, left);
        },
        Object::Event { manual, signaled } => {
            word::lemma_join_halves(word::hi_of(w), 0);
        },
        Object::Reserved => {},
    }
}

/// In a new region nothing exists but the reserved slot, every node is free, and no
/// sweep was made.
pub proof fn law_new_region_is_empty()
    ensures
        ({
            let v = region::empty_region();
            &&& v.slots.len() == 16384
            &&& forall|j: int|
                0 <= j < 16384 ==> (#[trigger] v.slots[j]).used == (j == 0) && v.slots[j].generation
                    == 0
            &&& v.slots[0].object is Reserved
            &&& v.waiters.len() == 16384
            &&& forall|o: int| 0 <= o < 16384 ==> (#[trigger] v.waiters[o]).len() == 0
            &&& v.nodes.len() == 8192
            &&& forall|x: int| 0 <= x < 8192 ==> (#[trigger] v.nodes[x]).on is None
            &&& v.free.len() == 0
            &&& v.fresh == 0
            &&& v.next_scan == 0
            &&& v.sweep_ns == 0
        }),
{
}

/// The time that has passed since a wait has started.
pub open spec fn passed(w: WaiterView, c: CallerView) -> int {
    if c.now > w.start {
        c.now - w.start
    } else {
        0
    }
}

/// A wait has left what its time exceeds the time that has passed, and may sleep no
/// longer; with diagnostics on no sleep lasts longer than five seconds.
pub proof fn law_sleep_ends_in_time(w: WaiterView, c: CallerView)
    ensures
        w.timeout is None && !c.debug ==> wait::sliced(w, c) is None,
        w.timeout is None && c.debug ==> wait::sliced(w, c) == Some(5_000_000_000u128),
        w.timeout matches Some(t) ==> {
            &&& wait::sliced(w, c) is Some
            &&& passed(w, c) >= t ==> wait::sliced(w, c) == Some(0u128)
            &&& passed(w, c) < t && (!c.debug || t - passed(w, c) <= 5_000_000_000)
                ==> wait::sliced(w, c)->0 == t - passed(w, c)
            &&& passed(w, c) < t && c.debug && t - passed(w, c) > 5_000_000_000 ==> wait::sliced(
                w,
                c,
            )->0 == 5_000_000_000
        },
{
}

/// A sleep that ran out of time sweeps if that is due, and reports a wait that diagnostics
/// find stuck for five seconds since the last report. Any other end of a sleep does
/// neither; one by a signal is a latency sample, with diagnostics on.
pub proof fn law_end_of_sleep(
    v: RegionView,
    c: CallerView,
    w: WaiterView,
    ret: i32,
    next: WaiterView,
    stuck: bool,
    v2: RegionView,
    c2: CallerView,
)
    requires
        v.inv(),
        c.stats.len() == 13,
        (Call::Wakeup { w, ret, next, stuck }).made(v, c, v2, c2),
    ensures
        stuck <==> ret == -110 && c.debug && !(w.timeout is Some && w.start + w.timeout->0 <= c.now)
            && c.now >= w.last_dump + 5_000_000_000,
        next == (WaiterView {
            last_dump: if stuck {
                c.now
            } else {
                w.last_dump
            },
            ..w
        }),
        ret != -110 ==> v2 == v && c2 == (CallerView { stats: c2.stats, ..c }),
        ret == -110 ==> (v2, c2) == sweep::auto_swept(v, c),
        ret != 0 || !c.debug || v.nodes[w.nodes[0] as int].wake_ts == 0 ==> c2.stats == c.stats,
        ret == 0 && c.debug && v.nodes[w.nodes[0] as int].wake_ts != 0 ==> {
            let ts = v.nodes[w.nodes[0] as int].wake_ts;
            let us = if c.now >= ts {
                (c.now - ts) / 1000
            } else {
                0
            };
            &&& c2.stats.len() == 13
            &&& forall|k: int|
                0 <= k < 13 ==> #[trigger] c2.stats[k] == if k == 10 {
                    (c.stats[k] + 1) % 0x1_0000_0000_0000_0000
                } else if k == 11 {
                    (c.stats[k] + us) % 0x1_0000_0000_0000_0000
                } else if k == 12 && c.stats[k] < us {
                    us
                } else {
                    c.stats[k] as int
                }
        },
{
    reaping::law_sweep_when_due(v, c);
}

/// A report says of each object whether it exists, whether anybody waits on it, and
/// whether it could be acquired right now.
pub proof fn law_report_tells_signaled_from_not(r: Region, handle: u32, owner: u32)
    ensures
        ({
            let j = handle as int % 16384;
            let v = r@;
            if v.slots[j].used && v.slots[j].generation == handle as int / 16384 {
                wait::reported(r, handle, owner) == (StuckObject::Open {
                    handle,
                    slot: r.slots@[j],
                    waiters: v.waiters[j].len() != 0,
                    signaled: v.slots[j].acquirable(owner, v.slots[j].pulses),
                })
            } else {
                wait::reported(r, handle, owner) == (StuckObject::Closed { handle })
            }
        }),
{
}

/// A report covers every object of the wait in order, and then the alert if there is one.
pub proof fn law_report_covers_all(r: Region, w: WaiterView)
    ensures
        wait::report_on(r, w).len() == w.demand.handles.len() + if w.alert != 0 {
            1int
        } else {
            0
        },
        forall|i: int|
            0 <= i < w.demand.handles.len() ==> #[trigger] wait::report_on(r, w)[i]
                == wait::reported(r, w.demand.handles[i], w.demand.owner),
        w.alert != 0 ==> wait::report_on(r, w).last() == wait::reported(
            r,
            w.alert,
            w.demand.owner,
        ),
{
}

/// The processes to be probed are those that a sweep could find gone: who has created an
/// object that exists, or has a node on a list.
pub proof fn law_probed_are_those_who_matter(v: RegionView, pid: u32)
    ensures
        forall|j: int|
            0 <= j < 16384 && (#[trigger] v.slots[j]).used && v.slots[j].pid == pid ==> v.involves(
                pid,
            ),
        forall|x: int|
            0 <= x < 8192 && (#[trigger] v.nodes[x]).on is Some && v.nodes[x].pid == pid
                ==> v.involves(pid),
        (forall|j: int| 0 <= j < 16384 && (#[trigger] v.slots[j]).used ==> v.slots[j].pid != pid)
            && (forall|x: int|
            0 <= x < 8192 && (#[trigger] v.nodes[x]).on is Some ==> v.nodes[x].pid != pid)
            ==> !v.involves(pid),
{
}

/// The numbers of errors.
pub proof fn law_error_numbers(e: Error, q: Result<(), Error>)
    ensures
        ffi::errno_of(e) == number(Err(e)),
        ffi::status(q) == match q {
            Ok(_) => 0,
            Err(e) => number(Err(e)),
        },
{
}

/// Sweeps are 30 seconds apart if nothing else was asked for.
pub proof fn law_interval_is_in_seconds(secs: Option<u64>)
    ensures
        secs is None ==> sweep::interval_of(secs) == 30_000_000_000,
        secs matches Some(s) ==> sweep::interval_of(secs) == s * 1_000_000_000,
{
}

/// A process is gone only if a probe fails because there is no such process; one that may
/// not be probed exists.
pub proof fn law_probe_fails_on_the_gone_only(ret: i32, errno: i32)
    ensures
        ret == 0 ==> !sweep::found_gone(ret, errno),
        ret != 0 && errno == 3 ==> sweep::found_gone(ret, errno),
        ret != 0 && errno != 3 ==> !sweep::found_gone(ret, errno),
{
}

/// The lowest flag chooses the realtime clock, and no other flag matters.
pub proof fn law_lowest_flag_chooses_clock(flags: u32)
    ensures
        flags % 2 == 1 ==> ffi::clock_of(flags) == 0,
        flags % 2 == 0 ==> ffi::clock_of(flags) == 1,
{
}

/// A counter grows by what is counted, and no other does; they wrap.
pub proof fn law_counters_count(c: Seq<u64>, i: int, n: u64, us: u64, k: int)
    requires
        c.len() == 13,
        0 <= i < 13,
        0 <= k < 13,
    ensures
        stats::grown(c, i, n).len() == 13,
        k != i ==> stats::grown(c, i, n)[k] == c[k],
        c[i] + n <= u64::MAX ==> stats::grown(c, i, n)[i] == c[i] + n,
        c[i] + n > u64::MAX ==> stats::grown(c, i, n)[i] == c[i] + n - 0x1_0000_0000_0000_0000,
        stats::sampled(c, us).len() == 13,
        k < 10 ==> stats::sampled(c, us)[k] == c[k],
        stats::sampled(c, us)[12] >= us,
        stats::sampled(c, us)[12] >= c[12],
        stats::sampled(c, us)[12] == us || stats::sampled(c, us)[12] == c[12],
{
}

} // verus!
