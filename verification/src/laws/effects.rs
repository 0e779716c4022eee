//! What each call does to each object, and what it answers, in terms of the tables
//! alone.
use crate::caller::CallerView;
use crate::error::{Error, WaitOutcome};
use crate::history;
use crate::history::Call;
use crate::laws::plain::{alive, due, place, remains, stays};
use crate::laws::reaping;
use crate::laws::signals;
use crate::laws::table;
use crate::object::{Object, SlotView};
use crate::reclaim;
use crate::region::{RegionView, NODE_COUNT};
use crate::satisfy;
use crate::satisfy::Demand;
use crate::stats::{SIGNAL_OPS, WAIT_CALLS};
use crate::sweep;
use crate::wait;
use crate::wait::{StepView, WaiterView};
use crate::wakeup;
use crate::word;
use vstd::prelude::*;

verus! {

/// The answer to a release of `n` on the slot `s`, if the handle leads there (`there`).
pub open spec fn release_answer(there: bool, s: SlotView, n: u32) -> Result<u32, Error> {
    match s.object {
        Object::Semaphore { count, max } => if !there {
            Err(Error::Invalid)
        } else if count + n > max {
            Err(Error::Overflow)
        } else {
            Ok(count)
        },
        _ => Err(Error::Invalid),
    }
}

/// The answer to setting, resetting or pulsing the event in slot `s`.
pub open spec fn event_answer(there: bool, s: SlotView) -> Result<u32, Error> {
    match s.object {
        Object::Event { signaled, .. } => if !there {
            Err(Error::Invalid)
        } else if signaled {
            Ok(1)
        } else {
            Ok(0)
        },
        _ => Err(Error::Invalid),
    }
}

/// The answer to an unlock by `owner` of the mutex in slot `s`.
pub open spec fn unlock_answer(there: bool, s: SlotView, owner: u32) -> Result<u32, Error> {
    match s.object {
        Object::Mutex { owner: holder, count, .. } => if !there || owner == 0 {
            Err(Error::Invalid)
        } else if holder == owner {
            Ok(count)
        } else {
            Err(Error::Perm)
        },
        _ => Err(Error::Invalid),
    }
}

/// Every signal operation answers by the state of the object that its handle was given
/// for, as it is after the sweep that may be due, and touches no other slot.
pub proof fn law_signal_calls_answer(
    call: Call,
    v: RegionView,
    c: CallerView,
    v2: RegionView,
    c2: CallerView,
)
    requires
        v.inv(),
        c.stats.len() == 13,
        call.made(v, c, v2, c2),
    ensures
        match call {
            Call::SemRelease { handle, n, res } => {
                &&& res == release_answer(stays(v, c, handle), v.slots[place(handle)], n)
                &&& forall|j: int|
                    0 <= j < 16384 && j != place(handle) ==> #[trigger] v2.slots[j] == remains(
                        v,
                        c,
                        j,
                    )
            },
            Call::EventSet { handle, res } => {
                &&& res == event_answer(stays(v, c, handle), v.slots[place(handle)])
                &&& forall|j: int|
                    0 <= j < 16384 && j != place(handle) ==> #[trigger] v2.slots[j] == remains(
                        v,
                        c,
                        j,
                    )
            },
            Call::EventReset { handle, res } => {
                &&& res == event_answer(stays(v, c, handle), v.slots[place(handle)])
                &&& forall|j: int|
                    0 <= j < 16384 && j != place(handle) ==> #[trigger] v2.slots[j] == remains(
                        v,
                        c,
                        j,
                    )
            },
            Call::EventPulse { handle, res } => {
                &&& res == event_answer(stays(v, c, handle), v.slots[place(handle)])
                &&& forall|j: int|
                    0 <= j < 16384 && j != place(handle) ==> #[trigger] v2.slots[j] == remains(
                        v,
                        c,
                        j,
                    )
            },
            Call::MutexUnlock { handle, owner, res } => {
                &&& res == unlock_answer(stays(v, c, handle), v.slots[place(handle)], owner)
                &&& owner == 0 ==> v2 == v
                &&& owner != 0 ==> forall|j: int|
                    0 <= j < 16384 && j != place(handle) ==> #[trigger] v2.slots[j] == remains(
                        v,
                        c,
                        j,
                    )
            },
            Call::MutexKill { handle, owner, done } => {
                &&& done is Ok <==> unlock_answer(
                    alive(v, handle),
                    v.slots[place(handle)],
                    owner,
                ) is Ok
                &&& done is Err ==> unlock_answer(alive(v, handle), v.slots[place(handle)], owner)
                    == Err::<u32, Error>(done->Err_0)
                &&& forall|j: int|
                    0 <= j < 16384 && j != place(handle) ==> #[trigger] v2.slots[j] == v.slots[j]
            },
            _ => true,
        },
{
    let c1 = c.bumped(SIGNAL_OPS);
    match call {
        Call::SemRelease { handle, n, res } => {
            reaping::law_sweep_when_due(v, c);
            reclaim::law_auto_sweep(v, c);
            let (m, mc) = sweep::auto_swept(v, c);
            assert(m.slots[place(handle)] == remains(v, c, place(handle)));
            signals::law_release_adds(m, mc, handle, n, v2, c2, res);
        },
        Call::EventSet { handle, res } => {
            reaping::law_sweep_when_due(v, c1);
            reclaim::law_auto_sweep(v, c1);
            let (m, mc) = sweep::auto_swept(v, c1);
            assert(m.slots[place(handle)] == remains(v, c1, place(handle)));
            lemma_same_due(v, c, c1);
            signals::law_set_signals(m, mc, handle, v2, c2, res);
        },
        Call::EventReset { handle, res } => {
            reaping::law_sweep_when_due(v, c1);
            reclaim::law_auto_sweep(v, c1);
            let (m, mc) = sweep::auto_swept(v, c1);
            assert(m.slots[place(handle)] == remains(v, c1, place(handle)));
            lemma_same_due(v, c, c1);
            signals::law_reset_unsignals(m, mc, handle, v2, res);
        },
        Call::EventPulse { handle, res } => {
            reaping::law_sweep_when_due(v, c);
            reclaim::law_auto_sweep(v, c);
            let (m, mc) = sweep::auto_swept(v, c);
            assert(m.slots[place(handle)] == remains(v, c, place(handle)));
            signals::law_pulse_wakes_and_unsignals(m, mc, handle, v2, c2, res);
        },
        Call::MutexUnlock { handle, owner, res } => {
            if owner != 0 {
                reaping::law_sweep_when_due(v, c1);
                reclaim::law_auto_sweep(v, c1);
                let (m, mc) = sweep::auto_swept(v, c1);
                assert(m.slots[place(handle)] == remains(v, c1, place(handle)));
                lemma_same_due(v, c, c1);
                signals::law_unlock_drops_one_level(m, mc, handle, owner, v2, c2, res);
            }
        },
        Call::MutexKill { handle, owner, done } => {
            if owner != 0 {
                signals::law_kill_frees_and_marks(v, c1, handle, owner, v2, c2, done);
            }
        },
        _ => {},
    }
}

/// Every signal operation is counted, but for a pulse and a release of what is no
/// semaphore. All but the abandoning of a mutex, and the unlocking for nobody, count as
/// calls that look for a sweep, and free what is due. Of the caller's context nothing
/// else changes but whom to wake.
pub proof fn law_signal_calls_count(
    call: Call,
    v: RegionView,
    c: CallerView,
    v2: RegionView,
    c2: CallerView,
)
    requires
        v.inv(),
        c.stats.len() == 13,
        call.made(v, c, v2, c2),
        call is SemRelease || call is EventSet || call is EventReset || call is EventPulse || call
            is MutexUnlock || call is MutexKill,
    ensures
        ({
            let looks = !(call is MutexKill || call is MutexUnlock && call->MutexUnlock_owner == 0);
            let counts = if call is SemRelease {
                call->SemRelease_res != Err::<u32, Error>(Error::Invalid)
            } else {
                !(call is EventPulse)
            };
            &&& c2 == (CallerView {
                wakes: c2.wakes,
                calls: c2.calls,
                reclaimed: c2.reclaimed,
                stats: c2.stats,
                ..c
            })
            &&& c2.stats.len() == 13
            &&& c2.stats[7] == if counts {
                (c.stats[7] + 1) % 0x1_0000_0000_0000_0000
            } else {
                c.stats[7] as int
            }
            &&& forall|k: int| 0 <= k < 13 && k != 7 && k != 8 ==> #[trigger] c2.stats[k]
                == c.stats[k]
            &&& c2.calls == if !looks {
                c.calls as int
            } else if c.calls == u64::MAX {
                0
            } else {
                c.calls + 1
            }
            &&& c2.reclaimed == if !looks {
                c.reclaimed as int
            } else if due(v, c) {
                reaping::lost_count(v.slots, c.dead, 16384) as int
            } else {
                0
            }
            &&& v2.sweep_ns == if looks && due(v, c) {
                c.now
            } else {
                v.sweep_ns
            }
        }),
{
    let c1 = c.bumped(SIGNAL_OPS);
    reaping::law_sweep_when_due(v, c);
    reaping::law_sweep_when_due(v, c1);
    reclaim::law_auto_sweep(v, c);
    reclaim::law_auto_sweep(v, c1);
    lemma_same_due(v, c, c1);
    match call {
        Call::SemRelease { handle, n, res } => {
            let (m, mc) = sweep::auto_swept(v, c);
            signals::law_release_adds(m, mc, handle, n, v2, c2, res);
        },
        Call::EventSet { handle, res } => {
            let (m, mc) = sweep::auto_swept(v, c1);
            signals::law_set_signals(m, mc, handle, v2, c2, res);
        },
        Call::EventReset { handle, res } => {
            let (m, mc) = sweep::auto_swept(v, c1);
            signals::law_reset_unsignals(m, mc, handle, v2, res);
        },
        Call::EventPulse { handle, res } => {
            let (m, mc) = sweep::auto_swept(v, c);
            signals::law_pulse_wakes_and_unsignals(m, mc, handle, v2, c2, res);
        },
        Call::MutexUnlock { handle, owner, res } => {
            if owner != 0 {
                let (m, mc) = sweep::auto_swept(v, c1);
                signals::law_unlock_drops_one_level(m, mc, handle, owner, v2, c2, res);
            }
        },
        Call::MutexKill { handle, owner, done } => {
            if owner != 0 {
                signals::law_kill_frees_and_marks(v, c1, handle, owner, v2, c2, done);
            }
        },
        _ => {},
    }
}

/// Whether a sweep is due, and what it leaves, does not depend on the counters.
proof fn lemma_same_due(v: RegionView, c: CallerView, c1: CallerView)
    requires
        c1 == c.bumped(SIGNAL_OPS),
    ensures
        due(v, c1) == due(v, c),
        forall|h: u32| #[trigger] stays(v, c1, h) == stays(v, c, h),
        forall|j: int| #[trigger] remains(v, c1, j) == remains(v, c, j),
{
    assert(c1.dead == c.dead);
}

/// Whether a wait on `handles` that ended in `step` got the object that `handle` was
/// given for.
pub open spec fn got(handles: Seq<u32>, all: bool, step: StepView, handle: u32) -> bool {
    match step {
        StepView::Done(WaitOutcome::Signaled { index, .. }) => {
            &&& index < handles.len()
            &&& if all {
                exists|k: int| 0 <= k < handles.len() && #[trigger] handles[k] == handle
            } else {
                handles[index as int] == handle
            }
        },
        _ => false,
    }
}

/// An object after `owner` got it from a wait: a semaphore has one less, a mutex is
/// `owner`'s, one level deeper, and an auto-reset event is unsignaled.
pub open spec fn gotten(o: Object, owner: u32) -> Object {
    match o {
        Object::Semaphore { count, max } => Object::Semaphore { count: (count - 1) as u32, max },
        Object::Mutex { count, .. } => Object::Mutex {
            owner,
            count: (count + 1) as u32,
            abandoned: false,
        },
        Object::Event { manual, signaled } => Object::Event {
            manual,
            signaled: if manual {
                signaled
            } else {
                false
            },
        },
        Object::Reserved => Object::Reserved,
    }
}

/// What becomes of the object `o` that `handle` was given for.
pub open spec fn becomes(call: Call, handle: u32, o: Object) -> Object {
    match (call, o) {
        (Call::SemRelease { handle: h, n, res }, Object::Semaphore { count, max }) => if h == handle
            && res is Ok {
            Object::Semaphore { count: (count + n) as u32, max }
        } else {
            o
        },
        (Call::EventSet { handle: h, .. }, Object::Event { manual, .. }) => if h == handle {
            Object::Event { manual, signaled: true }
        } else {
            o
        },
        (Call::EventReset { handle: h, .. }, Object::Event { manual, .. }) => if h == handle {
            Object::Event { manual, signaled: false }
        } else {
            o
        },
        (Call::EventPulse { handle: h, .. }, Object::Event { manual, .. }) => if h == handle {
            Object::Event { manual, signaled: false }
        } else {
            o
        },
        (
            Call::MutexUnlock { handle: h, owner, res },
            Object::Mutex { owner: holder, count, .. },
        ) => if h == handle && res is Ok {
            Object::Mutex {
                owner: if count > 1 {
                    owner
                } else {
                    0
                },
                count: (count - 1) as u32,
                abandoned: false,
            }
        } else {
            o
        },
        (Call::MutexKill { handle: h, done, .. }, Object::Mutex { .. }) => if h == handle
            && done is Ok {
            Object::Mutex { owner: 0, count: 0, abandoned: true }
        } else {
            o
        },
        (Call::Wait { handles, owner, all, step, .. }, _) => if got(handles, all, step, handle) {
            gotten(o, owner)
        } else {
            o
        },
        (Call::Resume { w, step }, _) => if got(
            w.demand.handles,
            w.demand.all,
            step,
            handle,
        ) {
            gotten(o, w.demand.owner)
        } else {
            o
        },
        _ => o,
    }
}

/// What an attempt to meet a demand does to a slot.
proof fn lemma_attempt_slot(d: Demand, v: RegionView, handle: u32)
    requires
        v.inv(),
        d.handles.len() <= 64,
        v.all_waitable(d.handles),
        alive(v, handle),
    ensures
        ({
            let (m, res) = d.attempt(v);
            let j = place(handle);
            &&& m.slots[j] == if res is Some && got(
                d.handles,
                d.all,
                StepView::Done(res->0),
                handle,
            ) {
                SlotView { object: gotten(v.slots[j].object, d.owner), ..v.slots[j] }
            } else {
                v.slots[j]
            }
        }),
{
    satisfy::lemma_first(d, v, true);
    satisfy::lemma_first(d, v, false);
    let (m, res) = d.attempt(v);
    let j = place(handle);
    if d.all {
        if d.first(v, false) is None {
            let here = exists|k: int| 0 <= k < d.handles.len() && #[trigger] d.handles[k] == handle;
            assert(satisfy::names(d.handles, j) <==> here) by {
                if satisfy::names(d.handles, j) {
                    let i = choose|i: int|
                        0 <= i < d.handles.len() && word::index_of(#[trigger] d.handles[i]) == j;
                    assert(v.waitable(d.handles[i]));
                    satisfy::lemma_same_slot(v, d.handles[i], handle);
                }
                if here {
                    let i = choose|k: int|
                        0 <= k < d.handles.len() && #[trigger] d.handles[k] == handle;
                    assert(word::index_of(d.handles[i]) == j);
                }
            }
        }
    } else {
        if let Some(i) = d.first(v, true) {
            let one = seq![d.handles[i]];
            assert(one[0] == d.handles[i]);
            assert(v.waitable(d.handles[i]));
            assert(satisfy::names(one, j) <==> d.handles[i] == handle) by {
                if satisfy::names(one, j) {
                    assert(word::index_of(one[0]) == j);
                    satisfy::lemma_same_slot(v, d.handles[i], handle);
                }
            }
        }
    }
}

/// What a pass of a wait does to a slot.
pub proof fn lemma_pass_slot(w: WaiterView, v: RegionView, c: CallerView, handle: u32)
    requires
        v.inv(),
        w.wf(),
        alive(v, handle),
    ensures
        ({
            let (v2, _, step) = w.pass(v, c);
            let j = place(handle);
            v2.slots[j] == if got(w.demand.handles, w.demand.all, step, handle) {
                SlotView { object: gotten(v.slots[j].object, w.demand.owner), ..v.slots[j] }
            } else {
                v.slots[j]
            }
        }),
{
    history::lemma_pass_slots(w, v, c);
    let d = w.demand_at(v);
    satisfy::law_attempt_succeeds_iff_satisfiable(d, v);
    if w.valid(v) {
        assert(v.all_waitable(d.handles));
        lemma_attempt_slot(d, v, handle);
    }
}

/// Every call does to every object that it leaves in existence what is its purpose, and
/// nothing else: it keeps the object's kind, an event's reset mode, a semaphore's
/// maximum, the creator, and, but for a pulse, the number of pulses.
pub proof fn law_call_does_its_work_only(
    call: Call,
    v: RegionView,
    c: CallerView,
    v2: RegionView,
    c2: CallerView,
    handle: u32,
)
    requires
        v.inv(),
        c.stats.len() == 13,
        call.made(v, c, v2, c2),
        alive(v, handle),
        alive(v2, handle),
    ensures
        ({
            let s = v.slots[place(handle)];
            let t = v2.slots[place(handle)];
            &&& t.object == becomes(call, handle, s.object)
            &&& t.pid == s.pid
            &&& t.pulses == if call is EventPulse && call->EventPulse_handle == handle
                && s.object is Event {
                if s.pulses == u64::MAX {
                    0
                } else {
                    s.pulses + 1
                }
            } else {
                s.pulses as int
            }
        }),
{
    let j = place(handle);
    history::law_call_never_lowers_generation(call, v, c, v2, c2, j);
    law_signal_calls_answer(call, v, c, v2, c2);
    reaping::law_sweep_when_due(v, c);
    reclaim::law_auto_sweep(v, c);
    let c1 = c.bumped(SIGNAL_OPS);
    reaping::law_sweep_when_due(v, c1);
    reclaim::law_auto_sweep(v, c1);
    lemma_same_due(v, c, c1);
    match call {
        Call::Create { object, res } => {
            table::law_create_takes_first_free_slot(v, c, object, v2, c2, res);
            if res is Ok && place(res->Ok_0) != j {
                assert(v2.slots[j] == table::cleared(v, c, j));
            }
            if !table::refused(object) && res is Ok {
                assert(table::cleared(v, c, j).generation != v.slots[j].generation
                    || table::cleared(v, c, j) == v.slots[j]);
            }
        },
        Call::Close { handle: h, ok } => {
            table::law_close_frees_one_slot(v, c, h, v2, c2, ok);
        },
        Call::SemRelease { handle: h, n, res } => {
            let (m, mc) = sweep::auto_swept(v, c);
            assert(m.slots[j] == remains(v, c, j));
            signals::law_release_adds(m, mc, h, n, v2, c2, res);
        },
        Call::EventSet { handle: h, res } => {
            let (m, mc) = sweep::auto_swept(v, c1);
            assert(m.slots[j] == remains(v, c1, j));
            signals::law_set_signals(m, mc, h, v2, c2, res);
        },
        Call::EventReset { handle: h, res } => {
            let (m, mc) = sweep::auto_swept(v, c1);
            assert(m.slots[j] == remains(v, c1, j));
            signals::law_reset_unsignals(m, mc, h, v2, res);
        },
        Call::EventPulse { handle: h, res } => {
            let (m, mc) = sweep::auto_swept(v, c);
            assert(m.slots[j] == remains(v, c, j));
            signals::law_pulse_wakes_and_unsignals(m, mc, h, v2, c2, res);
        },
        Call::MutexUnlock { handle: h, owner, res } => {
            if owner != 0 {
                let (m, mc) = sweep::auto_swept(v, c1);
                assert(m.slots[j] == remains(v, c1, j));
                signals::law_unlock_drops_one_level(m, mc, h, owner, v2, c2, res);
            }
        },
        Call::MutexKill { handle: h, owner, done } => {
            if owner != 0 {
                signals::law_kill_frees_and_marks(v, c1, h, owner, v2, c2, done);
            }
        },
        Call::Wait { handles, owner, timeout, all, alert, step } => {
            if wait::well_asked(handles, owner) {
                let w = wait::asked(handles, owner, timeout, all, alert, c.now);
                lemma_pass_slot(w, v, c.bumped(WAIT_CALLS), handle);
            }
        },
        Call::Wakeup { w, ret, .. } => {
            let mc = wait::latency_noted(v, c, w, ret);
            reaping::law_sweep_when_due(v, mc);
            if ret == -crate::errno::ETIMEDOUT {
                assert(v2.slots[j] == remains(v, mc, j));
            }
        },
        Call::Resume { w, step } => {
            let d = v.detached_all(w.nodes);
            history::lemma_detached_slots(v, w.nodes);
            assert forall|i: int| 0 <= i < w.nodes.len() implies #[trigger] w.nodes[i]
                < NODE_COUNT by {
                assert(v.allocated(w.nodes[i]));
            }
            wakeup::lemma_detached_inv(v, w.nodes);
            lemma_pass_slot(w, d, c, handle);
        },
        Call::Abandon { w } => {
            history::lemma_detached_slots(v, w.nodes);
        },
        Call::Sweep { freed } => {
            reaping::law_sweep_frees_what_the_dead_left(v, c);
        },
        Call::Read { .. } => {},
    }
}

/// No call changes whether an event is manual-reset.
pub proof fn law_event_keeps_its_mode(
    call: Call,
    v: RegionView,
    c: CallerView,
    v2: RegionView,
    c2: CallerView,
    handle: u32,
    manual: bool,
    signaled: bool,
)
    requires
        v.inv(),
        c.stats.len() == 13,
        call.made(v, c, v2, c2),
        alive(v, handle),
        alive(v2, handle),
        v.slots[place(handle)].object == (Object::Event { manual, signaled }),
    ensures
        v2.slots[place(handle)].object matches Object::Event { manual: m2, .. } && m2 == manual,
{
    law_call_does_its_work_only(call, v, c, v2, c2, handle);
}

} // verus!
