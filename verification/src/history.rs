//! What holds over any sequence of calls, by any number of processes.
use crate::caller::CallerView;
use crate::errno::ETIMEDOUT;
use crate::error::{Error, WaitOutcome};
use crate::laws;
use crate::object::{Object, SlotView};
use crate::objects;
use crate::reclaim;
use crate::region;
use crate::region::{RegionView, NODE_COUNT};
use crate::satisfy;
use crate::satisfy::Demand;
use crate::signal;
use crate::stats::{SIGNAL_OPS, WAIT_CALLS, WAKE_WALKS};
use crate::sweep;
use crate::wait;
use crate::wait::{StepView, WaiterView};
use crate::wakeup;
use crate::word;
use crate::word::SLOT_COUNT;
use vstd::prelude::*;

verus! {

/// A call of the library, and what it gave back.
pub enum Call {
    Create { object: Object, res: Result<u32, Error> },
    Close { handle: u32, ok: bool },
    Read { handle: u32 },
    SemRelease { handle: u32, n: u32, res: Result<u32, Error> },
    EventSet { handle: u32, res: Result<u32, Error> },
    EventReset { handle: u32, res: Result<u32, Error> },
    EventPulse { handle: u32, res: Result<u32, Error> },
    MutexUnlock { handle: u32, owner: u32, res: Result<u32, Error> },
    MutexKill { handle: u32, owner: u32, done: Result<(), Error> },
    Wait {
        handles: Seq<u32>,
        owner: u32,
        timeout: Option<u128>,
        all: bool,
        alert: u32,
        step: StepView,
    },
    Wakeup { w: WaiterView, ret: i32, next: WaiterView, stuck: bool },
    Resume { w: WaiterView, step: StepView },
    Abandon { w: WaiterView },
    Sweep { freed: nat },
}

impl Call {
    /// Whether the call, made by a caller `c`, leads from the region `v` to `v2` and
    /// leaves the caller as `c2`: what the contract of the function called says.
    pub open spec fn made(
        self,
        v: RegionView,
        c: CallerView,
        v2: RegionView,
        c2: CallerView,
    ) -> bool {
        match self {
            Call::Create { object, res } => if objects::creatable(object) {
                objects::creates(v, c, object, v2, c2, res)
            } else {
                res == Err::<u32, Error>(Error::Invalid) && v2 == v && c2 == c
            },
            Call::Close { handle, ok } => {
                &&& ok == (word::index_of(handle) != 0 && v.lookup(handle) is Some)
                &&& ok ==> (v2, c2) == sweep::closed(v, c, word::index_of(handle))
                &&& !ok ==> v2 == v && c2 == c
            },
            Call::Read { .. } => v2 == v && c2 == c,
            Call::SemRelease { handle, n, res } => {
                let (m, mc) = sweep::auto_swept(v, c);
                signal::sem_releases(m, mc, handle, n, v2, c2, res)
            },
            Call::EventSet { handle, res } => {
                let (m, mc) = sweep::auto_swept(v, c.bumped(SIGNAL_OPS));
                signal::event_sets(m, mc, handle, v2, c2, res)
            },
            Call::EventReset { handle, res } => {
                let (m, mc) = sweep::auto_swept(v, c.bumped(SIGNAL_OPS));
                signal::event_resets(m, handle, v2, res) && c2 == mc
            },
            Call::EventPulse { handle, res } => {
                let (m, mc) = sweep::auto_swept(v, c);
                signal::event_pulses(m, mc, handle, v2, c2, res)
            },
            Call::MutexUnlock { handle, owner, res } => if owner == 0 {
                &&& res == Err::<u32, Error>(Error::Invalid)
                &&& v2 == v
                &&& c2 == c.bumped(SIGNAL_OPS)
            } else {
                let (m, mc) = sweep::auto_swept(v, c.bumped(SIGNAL_OPS));
                signal::mutex_unlocks(m, mc, handle, owner, v2, c2, res)
            },
            Call::MutexKill { handle, owner, done } => if owner == 0 {
                &&& done == Err::<(), Error>(Error::Invalid)
                &&& v2 == v
                &&& c2 == c.bumped(SIGNAL_OPS)
            } else {
                signal::mutex_kills(v, c.bumped(SIGNAL_OPS), handle, owner, v2, c2, done)
            },
            Call::Wait { handles, owner, timeout, all, alert, step } => (v2, c2, step)
                == wait::started(v, c, handles, owner, timeout, all, alert),
            Call::Wakeup { w, ret, next, stuck } => {
                let mc = wait::latency_noted(v, c, w, ret);
                &&& w.slept(v)
                &&& stuck == (ret == -ETIMEDOUT && w.stuck(c))
                &&& next == if stuck {
                    WaiterView { last_dump: c.now, ..w }
                } else {
                    w
                }
                &&& (v2, c2) == if ret == -ETIMEDOUT {
                    sweep::auto_swept(v, mc)
                } else {
                    (v, mc)
                }
            },
            Call::Resume { w, step } => w.slept(v) && (v2, c2, step) == w.resumed(v, c),
            Call::Abandon { w } => {
                &&& w.slept(v)
                &&& v2 == v.detached_all(w.nodes).released(w.nodes)
                &&& c2 == c
            },
            Call::Sweep { freed } => (v2, c2, freed) == sweep::swept(v, c),
        }
    }

    /// How much the call gave to the semaphore that `handle` names.
    pub open spec fn released(self, handle: u32) -> nat {
        match self {
            Call::SemRelease { handle: h, n, res } => if h == handle && res is Ok {
                n as nat
            } else {
                0
            },
            _ => 0,
        }
    }

    /// How often the call acquired the object that `handle` names: once, or not at
    /// all.
    pub open spec fn acquired(self, handle: u32) -> nat {
        let taken = match self {
            Call::Wait { handles, all, step, .. } => takes(handles, all, step, handle),
            Call::Resume { w, step } => takes(w.demand.handles, w.demand.all, step, handle),
            _ => false,
        };
        if taken {
            1
        } else {
            0
        }
    }
}

/// Whether a wait on `handles` that ended in `step` has acquired the object that
/// `handle` names.
pub open spec fn takes(handles: Seq<u32>, all: bool, step: StepView, handle: u32) -> bool {
    &&& step matches StepView::Done(WaitOutcome::Signaled { index, .. })
    &&& index < handles.len()
    &&& if all {
        handles.contains(handle)
    } else {
        handles[index as int] == handle
    }
}

/// What a single call may do to a slot: its generation stays, and an object in it
/// stays; or an object in it ceases to exist, and its generation is raised by one.
pub open spec fn slot_step(s: SlotView, t: SlotView) -> bool {
    ||| t.generation == s.generation && (s.used ==> t.used)
    ||| t.generation == (s.generation + 1) % 0x1_0000_0000 && s.used
}

proof fn lemma_enrolled_slots(v: RegionView, t: Seq<u32>, s: Seq<u32>, k: nat)
    ensures
        v.enrolled(t, s, k).slots == v.slots,
    decreases k,
{
    if k > 0 {
        lemma_enrolled_slots(v, t, s, (k - 1) as nat);
    }
}

/// Taking nodes off their lists does not touch the table.
pub proof fn lemma_detached_slots(v: RegionView, s: Seq<u32>)
    ensures
        v.detached_all(s).slots == v.slots,
    decreases s.len(),
{
    if s.len() > 0 {
        lemma_detached_slots(v, s.drop_last());
    }
}

/// What a pass of a wait does to the table: what an attempt to meet its demand does,
/// or nothing.
pub proof fn lemma_pass_slots(w: WaiterView, v: RegionView, c: CallerView)
    ensures
        ({
            let (m, res) = w.demand_at(v).attempt(v);
            let (v2, _, step) = w.pass(v, c);
            if w.valid(v) && !v.alerted(w.alert) && res is Some {
                v2.slots == m.slots && step == StepView::Done(res->0)
            } else {
                &&& v2.slots == v.slots
                &&& step matches StepView::Done(WaitOutcome::Signaled { index, .. }) ==> index
                    == w.demand.handles.len() as u32
            }
        }),
{
    let d = w.demand_at(v);
    let (m, res) = d.attempt(v);
    if w.valid(v) && !v.alerted(w.alert) && res is None && !w.expired(c.now) {
        let u = WaiterView { demand: d, ..w };
        let n = u.targets().len();
        if u.nodes.len() == 0 {
            lemma_enrolled_slots(m.handed_out(c.pid, n), u.targets(), m.given(n), n);
        } else {
            lemma_enrolled_slots(m, u.targets(), u.nodes, n);
        }
    }
}

/// A signal operation keeps which object is in which slot.
proof fn lemma_signal_slot(
    m: RegionView,
    mc: CallerView,
    handle: u32,
    v2: RegionView,
    c2: CallerView,
    j: int,
)
    requires
        m.inv(),
        laws::signal_on(m, mc, handle, v2, c2),
        0 <= j < SLOT_COUNT,
    ensures
        v2.slots[j].used == m.slots[j].used,
        v2.slots[j].generation == m.slots[j].generation,
        j != word::index_of(handle) ==> v2.slots[j] == m.slots[j],
{
    laws::law_signal_touches_one_object(m, mc, handle, v2, c2);
    if j != word::index_of(handle) {
        assert(v2.slots[j] == m.slots[j]);
    }
}

/// No call lowers the generation of a slot, or lets an object cease to exist without
/// raising it; closing an object raises it by one.
pub proof fn law_call_never_lowers_generation(
    call: Call,
    v: RegionView,
    c: CallerView,
    v2: RegionView,
    c2: CallerView,
    j: int,
)
    requires
        v.inv(),
        call.made(v, c, v2, c2),
        0 <= j < SLOT_COUNT,
    ensures
        slot_step(v.slots[j], v2.slots[j]),
        call matches Call::Close { handle, ok } ==> (ok && j == word::index_of(handle)
            ==> v2.slots[j].generation == (v.slots[j].generation + 1) % 0x1_0000_0000
            && !v2.slots[j].used),
{
    match call {
        Call::Create { object, res } => {
            if res != Err::<u32, Error>(Error::Invalid) {
                reclaim::law_sweep_frees_orphans(v, c);
                let m = objects::room(v, c).0;
                region::law_search_finds_free_slot(m);
                assert(m.slots[j] == if v.free_slot() is None && v.orphaned(c, j) {
                    v.slots[j].freed()
                } else {
                    v.slots[j]
                });
            }
        },
        Call::Close { handle, ok } => {
            if ok {
                reclaim::lemma_closed_inv(v, c, word::index_of(handle));
            }
        },
        Call::Read { .. } => {},
        Call::SemRelease { handle, n, res } => {
            reclaim::law_auto_sweep(v, c);
            let (m, mc) = sweep::auto_swept(v, c);
            lemma_signal_slot(m, mc, handle, v2, c2, j);
            assert(slot_step(v.slots[j], m.slots[j]));
        },
        Call::EventSet { handle, res } => {
            let c1 = c.bumped(SIGNAL_OPS);
            reclaim::law_auto_sweep(v, c1);
            let (m, mc) = sweep::auto_swept(v, c1);
            lemma_signal_slot(m, mc, handle, v2, c2, j);
            assert(slot_step(v.slots[j], m.slots[j]));
        },
        Call::EventReset { handle, res } => {
            let c1 = c.bumped(SIGNAL_OPS);
            reclaim::law_auto_sweep(v, c1);
            let (m, mc) = sweep::auto_swept(v, c1);
            lemma_signal_slot(m, mc, handle, v2, c2, j);
            assert(slot_step(v.slots[j], m.slots[j]));
        },
        Call::EventPulse { handle, res } => {
            reclaim::law_auto_sweep(v, c);
            let (m, mc) = sweep::auto_swept(v, c);
            lemma_signal_slot(m, mc, handle, v2, c2, j);
            assert(slot_step(v.slots[j], m.slots[j]));
        },
        Call::MutexUnlock { handle, owner, res } => {
            if owner != 0 {
                let c1 = c.bumped(SIGNAL_OPS);
                reclaim::law_auto_sweep(v, c1);
                let (m, mc) = sweep::auto_swept(v, c1);
                lemma_signal_slot(m, mc, handle, v2, c2, j);
                assert(slot_step(v.slots[j], m.slots[j]));
            }
        },
        Call::MutexKill { handle, owner, .. } => {
            if owner != 0 {
                lemma_signal_slot(v, c.bumped(SIGNAL_OPS), handle, v2, c2, j);
            }
        },
        Call::Wait { handles, owner, timeout, all, alert, step } => {
            if wait::well_asked(handles, owner) {
                let w = wait::asked(handles, owner, timeout, all, alert, c.now);
                lemma_pass_slots(w, v, c.bumped(WAIT_CALLS));
                wait::lemma_attempt_keeps(v, w.demand_at(v));
                let m = w.demand_at(v).attempt(v).0;
                assert(m.slots[j].used == v.slots[j].used);
            }
        },
        Call::Wakeup { w, ret, .. } => {
            reclaim::law_auto_sweep(v, wait::latency_noted(v, c, w, ret));
            assert(slot_step(v.slots[j], v2.slots[j]));
        },
        Call::Resume { w, step } => {
            let d = v.detached_all(w.nodes);
            lemma_detached_slots(v, w.nodes);
            lemma_pass_slots(w, d, c);
            wait::lemma_attempt_keeps(d, w.demand_at(d));
            let m = w.demand_at(d).attempt(d).0;
            assert(m.slots[j].used == d.slots[j].used);
        },
        Call::Abandon { w } => {
            lemma_detached_slots(v, w.nodes);
        },
        Call::Sweep { freed } => {
            reclaim::law_sweep_frees_orphans(v, c);
            assert(slot_step(v.slots[j], v2.slots[j]));
        },
    }
}

/// A sequence of calls on one region, one at a time, each by some caller.
pub struct History {
    /// The region before each call, and after the last.
    pub regions: Seq<RegionView>,
    /// The calls.
    pub calls: Seq<Call>,
    /// The caller before each call.
    pub before: Seq<CallerView>,
    /// The caller after each call.
    pub after: Seq<CallerView>,
}

impl History {
    /// Whether each call does what its contract says.
    pub open spec fn valid(self) -> bool {
        &&& self.regions.len() == self.calls.len() + 1
        &&& self.before.len() == self.calls.len()
        &&& self.after.len() == self.calls.len()
        &&& forall|i: int| 0 <= i < self.regions.len() ==> (#[trigger] self.regions[i]).inv()
        &&& forall|i: int|
            0 <= i < self.calls.len() ==> (#[trigger] self.calls[i]).made(
                self.regions[i],
                self.before[i],
                self.regions[i + 1],
                self.after[i],
            )
    }

    /// Whether call `i` ended the existence of the object in slot `j`.
    pub open spec fn frees_at(self, j: int, i: int) -> bool {
        self.regions[i + 1].slots[j].generation != self.regions[i].slots[j].generation
    }

    /// How many of the first `n` calls ended the existence of an object in slot `j`.
    pub open spec fn frees(self, j: int, n: nat) -> nat
        decreases n,
    {
        if n == 0 {
            0
        } else {
            self.frees(j, (n - 1) as nat) + if self.frees_at(j, n - 1) {
                1nat
            } else {
                0
            }
        }
    }

    /// How much the first `n` calls gave to the semaphore that `handle` names.
    pub open spec fn released(self, handle: u32, n: nat) -> nat
        decreases n,
    {
        if n == 0 {
            0
        } else {
            self.released(handle, (n - 1) as nat) + self.calls[n - 1].released(handle)
        }
    }

    /// How many of the first `n` calls acquired the object that `handle` names.
    pub open spec fn acquired(self, handle: u32, n: nat) -> nat
        decreases n,
    {
        if n == 0 {
            0
        } else {
            self.acquired(handle, (n - 1) as nat) + self.calls[n - 1].acquired(handle)
        }
    }
}

/// The generation of a slot counts how many objects in it have ceased to exist, and
/// never falls until it wraps.
pub proof fn law_generation_counts_frees(h: History, j: int, a: nat, b: nat)
    requires
        h.valid(),
        0 <= j < SLOT_COUNT,
        a <= b <= h.calls.len(),
    ensures
        h.frees(j, a) <= h.frees(j, b) <= h.frees(j, a) + (b - a),
        h.regions[b as int].slots[j].generation == (h.regions[a as int].slots[j].generation
            + h.frees(j, b) - h.frees(j, a)) % 0x1_0000_0000,
    decreases b - a,
{
    if a < b {
        let i = b - 1;
        law_generation_counts_frees(h, j, a, i as nat);
        assert(h.regions[i].inv());
        assert(h.calls[i].made(h.regions[i], h.before[i], h.regions[i + 1], h.after[i]));
        law_call_never_lowers_generation(
            h.calls[i],
            h.regions[i],
            h.before[i],
            h.regions[i + 1],
            h.after[i],
            j,
        );
    }
}

/// Once the object that a handle names has been closed or swept, the handle names
/// nothing any more, whatever is called afterwards and by whom, as long as there are
/// fewer calls than generations.
pub proof fn law_dead_handle_stays_dead(h: History, handle: u32, a: nat, b: nat)
    requires
        h.valid(),
        a < b <= h.calls.len(),
        b - a < 0x1_0000_0000,
        h.regions[a as int].lookup(handle) is Some,
        h.regions[(a + 1) as int].lookup(handle) is None,
    ensures
        h.regions[b as int].lookup(handle) is None,
{
    let j = word::index_of(handle);
    let i = a as int;
    assert(h.regions[i].inv());
    assert(h.calls[i].made(h.regions[i], h.before[i], h.regions[i + 1], h.after[i]));
    law_call_never_lowers_generation(
        h.calls[i],
        h.regions[i],
        h.before[i],
        h.regions[i + 1],
        h.after[i],
        j,
    );
    assert(h.frees_at(j, i));
    assert(h.frees(j, a + 1) == h.frees(j, a) + 1);
    law_generation_counts_frees(h, j, a, b);
    law_generation_counts_frees(h, j, a + 1, b);
}

/// An object that is never closed or swept keeps its handle: a handle that names an
/// object before and after a call names the same one.
pub proof fn law_living_handle_names_same_object(
    call: Call,
    v: RegionView,
    c: CallerView,
    v2: RegionView,
    c2: CallerView,
    handle: u32,
)
    requires
        v.inv(),
        call.made(v, c, v2, c2),
        v.lookup(handle) is Some,
    ensures
        v2.lookup(handle) is Some <==> v2.slot_at(handle).generation == v.slot_at(
            handle,
        ).generation,
        call == (Call::Close { handle, ok: true }) ==> v2.lookup(handle) is None,
{
    law_call_never_lowers_generation(call, v, c, v2, c2, word::index_of(handle));
}

/// A sweep brings no handle back to life.
proof fn lemma_sweep_revives_nothing(v: RegionView, c: CallerView, handle: u32)
    requires
        v.inv(),
        v.lookup(handle) is None,
    ensures
        sweep::auto_swept(v, c).0.lookup(handle) is None,
{
    reclaim::law_auto_sweep(v, c);
    let j = word::index_of(handle);
    let m = sweep::auto_swept(v, c).0;
    assert(m.slots[j] == if sweep::sweep_due(v, c) && v.orphaned(c, j) {
        v.slots[j].freed()
    } else {
        v.slots[j]
    });
}

/// Whoever uses a handle that names nothing is refused.
pub proof fn law_dead_handle_is_refused(
    call: Call,
    v: RegionView,
    c: CallerView,
    v2: RegionView,
    c2: CallerView,
    handle: u32,
)
    requires
        v.inv(),
        call.made(v, c, v2, c2),
        v.lookup(handle) is None,
    ensures
        v.object_at(handle) is None,
        match call {
            Call::Close { handle: h, ok } => h == handle ==> !ok,
            Call::SemRelease { handle: h, res, .. } => h == handle ==> res == Err::<u32, Error>(
                Error::Invalid,
            ),
            Call::EventSet { handle: h, res } => h == handle ==> res == Err::<u32, Error>(
                Error::Invalid,
            ),
            Call::EventReset { handle: h, res } => h == handle ==> res == Err::<u32, Error>(
                Error::Invalid,
            ),
            Call::EventPulse { handle: h, res } => h == handle ==> res == Err::<u32, Error>(
                Error::Invalid,
            ),
            Call::MutexUnlock { handle: h, res, .. } => h == handle ==> res == Err::<u32, Error>(
                Error::Invalid,
            ),
            Call::MutexKill { handle: h, done, .. } => h == handle ==> done == Err::<(), Error>(
                Error::Invalid,
            ),
            Call::Wait { handles, alert, step, .. } => handles.contains(handle) || (alert == handle
                && alert != 0) ==> step == StepView::Done(WaitOutcome::Invalid),
            Call::Resume { w, step } => w.targets().contains(handle) ==> step == StepView::Done(
                WaitOutcome::Invalid,
            ),
            _ => true,
        },
{
    lemma_sweep_revives_nothing(v, c, handle);
    lemma_sweep_revives_nothing(v, c.bumped(SIGNAL_OPS), handle);
    match call {
        Call::Wait { handles, owner, timeout, all, alert, step } => {
            if handles.contains(handle) {
                let k = handles.index_of(handle);
                assert(!v.waitable(handles[k]));
            }
        },
        Call::Resume { w, step } => {
            if w.targets().contains(handle) {
                let d = v.detached_all(w.nodes);
                lemma_detached_slots(v, w.nodes);
                let k = w.targets().index_of(handle);
                let hs = w.demand.handles;
                if k < hs.len() {
                    assert(!d.waitable(hs[k]));
                }
            }
        },
        _ => {},
    }
}

/// What an attempt to meet a demand does to a semaphore that keeps existing.
proof fn lemma_attempt_semaphore(d: Demand, v: RegionView, handle: u32, count: u32, max: u32)
    requires
        v.inv(),
        d.handles.len() <= satisfy::MAX_WAIT_COUNT,
        v.all_waitable(d.handles),
        v.object_at(handle) == Some(Object::Semaphore { count, max }),
    ensures
        ({
            let (m, res) = d.attempt(v);
            let taken = res is Some && takes(d.handles, d.all, StepView::Done(res->0), handle);
            &&& taken ==> count > 0
            &&& m.slot_at(handle).object == (Object::Semaphore {
                count: if taken {
                    (count - 1) as u32
                } else {
                    count
                },
                max,
            })
        }),
{
    satisfy::lemma_first(d, v, true);
    satisfy::lemma_first(d, v, false);
    let (m, res) = d.attempt(v);
    let j = word::index_of(handle);
    if d.all {
        if d.first(v, false) is None {
            assert(satisfy::names(d.handles, j) <==> d.handles.contains(handle)) by {
                if satisfy::names(d.handles, j) {
                    let i = choose|i: int|
                        0 <= i < d.handles.len() && word::index_of(#[trigger] d.handles[i]) == j;
                    assert(v.waitable(d.handles[i]));
                    satisfy::lemma_same_slot(v, d.handles[i], handle);
                }
                if d.handles.contains(handle) {
                    let i = d.handles.index_of(handle);
                    assert(word::index_of(d.handles[i]) == j);
                }
            }
            if d.handles.contains(handle) {
                let i = d.handles.index_of(handle);
                assert(d.ready(v, i));
            }
        }
    } else {
        if let Some(i) = d.first(v, true) {
            let one = seq![d.handles[i]];
            assert(one[0] == d.handles[i]);
            assert(v.waitable(d.handles[i]));
            assert(satisfy::names(one, j) <==> d.handles[i] == handle) by {
                if satisfy::names(one, j) {
                    assert(word::index_of(one[0]) == j);
                    satisfy::lemma_same_slot(v, d.handles[i], handle);
                }
            }
            if d.handles[i] == handle {
                assert(d.ready(v, i));
            }
        }
    }
}

/// What a pass of a wait does to a semaphore that keeps existing.
proof fn lemma_pass_semaphore(
    w: WaiterView,
    v: RegionView,
    c: CallerView,
    handle: u32,
    count: u32,
    max: u32,
)
    requires
        v.inv(),
        w.wf(),
        v.object_at(handle) == Some(Object::Semaphore { count, max }),
    ensures
        ({
            let (v2, _, step) = w.pass(v, c);
            let taken = takes(w.demand.handles, w.demand.all, step, handle);
            &&& taken ==> count > 0
            &&& v2.slot_at(handle).object == (Object::Semaphore {
                count: if taken {
                    (count - 1) as u32
                } else {
                    count
                },
                max,
            })
        }),
{
    lemma_pass_slots(w, v, c);
    let d = w.demand_at(v);
    satisfy::law_attempt_succeeds_iff_satisfiable(d, v);
    if w.valid(v) {
        assert(v.all_waitable(d.handles));
        lemma_attempt_semaphore(d, v, handle, count, max);
    }
}

/// A signal operation that is not a release of the semaphore leaves it alone.
proof fn lemma_other_signal(
    m: RegionView,
    mc: CallerView,
    h: u32,
    v2: RegionView,
    c2: CallerView,
    handle: u32,
)
    requires
        m.inv(),
        laws::signal_on(m, mc, h, v2, c2),
        m.lookup(handle) is Some,
        word::index_of(h) == word::index_of(handle) ==> v2 == m,
    ensures
        v2.slot_at(handle) == m.slot_at(handle),
{
    lemma_signal_slot(m, mc, h, v2, c2, word::index_of(handle));
}

/// A single call changes the count of a semaphore that keeps existing by exactly what
/// it released less what it acquired, and never its maximum.
pub proof fn law_call_changes_count_exactly(
    call: Call,
    v: RegionView,
    c: CallerView,
    v2: RegionView,
    c2: CallerView,
    handle: u32,
    count: u32,
    max: u32,
)
    requires
        v.inv(),
        call.made(v, c, v2, c2),
        v.object_at(handle) == Some(Object::Semaphore { count, max }),
        v2.lookup(handle) is Some,
    ensures
        v2.object_at(handle) matches Some(Object::Semaphore { count: count2, max: max2 }) && {
            &&& count2 == count + call.released(handle) - call.acquired(handle)
            &&& max2 == max
        },
{
    let j = word::index_of(handle);
    law_call_never_lowers_generation(call, v, c, v2, c2, j);
    reclaim::law_auto_sweep(v, c);
    reclaim::law_auto_sweep(v, c.bumped(SIGNAL_OPS));
    match call {
        Call::Create { object, res } => {
            if res != Err::<u32, Error>(Error::Invalid) {
                reclaim::law_sweep_frees_orphans(v, c);
                let m = objects::room(v, c).0;
                region::law_search_finds_free_slot(m);
                assert(m.slots[j] == if v.free_slot() is None && v.orphaned(c, j) {
                    v.slots[j].freed()
                } else {
                    v.slots[j]
                });
            }
        },
        Call::Close { handle: h, ok } => {
            if ok {
                reclaim::lemma_closed_inv(v, c, word::index_of(h));
            }
        },
        Call::Read { .. } => {},
        Call::SemRelease { handle: h, n, res } => {
            let (m, mc) = sweep::auto_swept(v, c);
            lemma_signal_slot(m, mc, h, v2, c2, j);
            assert(m.slots[j] == v.slots[j]);
            if word::index_of(h) == j {
                if m.lookup(h) is Some {
                    satisfy::lemma_same_slot(m, h, handle);
                    if res is Ok {
                        let f = m.with_object(
                            handle,
                            Object::Semaphore { count: (count + n) as u32, max },
                        );
                        sweep::lemma_woken_keeps(
                            f,
                            f.waiters[j],
                            mc.bumped(SIGNAL_OPS).bumped(WAKE_WALKS).stamp(),
                        );
                        assert(v2.slots == f.slots);
                    }
                } else {
                    assert(v2 == m);
                }
            }
        },
        Call::EventSet { handle: h, res } => {
            let (m, mc) = sweep::auto_swept(v, c.bumped(SIGNAL_OPS));
            lemma_signal_slot(m, mc, h, v2, c2, j);
            assert(m.slots[j] == v.slots[j]);
            lemma_other_signal(m, mc, h, v2, c2, handle);
        },
        Call::EventReset { handle: h, res } => {
            let (m, mc) = sweep::auto_swept(v, c.bumped(SIGNAL_OPS));
            lemma_signal_slot(m, mc, h, v2, c2, j);
            assert(m.slots[j] == v.slots[j]);
            lemma_other_signal(m, mc, h, v2, c2, handle);
        },
        Call::EventPulse { handle: h, res } => {
            let (m, mc) = sweep::auto_swept(v, c);
            lemma_signal_slot(m, mc, h, v2, c2, j);
            assert(m.slots[j] == v.slots[j]);
            lemma_other_signal(m, mc, h, v2, c2, handle);
        },
        Call::MutexUnlock { handle: h, owner, res } => {
            if owner != 0 {
                let (m, mc) = sweep::auto_swept(v, c.bumped(SIGNAL_OPS));
                lemma_signal_slot(m, mc, h, v2, c2, j);
                assert(m.slots[j] == v.slots[j]);
                lemma_other_signal(m, mc, h, v2, c2, handle);
            }
        },
        Call::MutexKill { handle: h, owner, .. } => {
            if owner != 0 {
                lemma_other_signal(v, c.bumped(SIGNAL_OPS), h, v2, c2, handle);
            }
        },
        Call::Wait { handles, owner, timeout, all, alert, step } => {
            if wait::well_asked(handles, owner) {
                let w = wait::asked(handles, owner, timeout, all, alert, c.now);
                lemma_pass_semaphore(w, v, c.bumped(WAIT_CALLS), handle, count, max);
            }
        },
        Call::Wakeup { w, ret, .. } => {
            reclaim::law_auto_sweep(v, wait::latency_noted(v, c, w, ret));
            assert(v2.slots[j] == v.slots[j]);
        },
        Call::Resume { w, step } => {
            let d = v.detached_all(w.nodes);
            lemma_detached_slots(v, w.nodes);
            assert forall|i: int| 0 <= i < w.nodes.len() implies #[trigger] w.nodes[i]
                < NODE_COUNT by {
                assert(v.allocated(w.nodes[i]));
            }
            wakeup::lemma_detached_inv(v, w.nodes);
            lemma_pass_semaphore(w, d, c, handle, count, max);
        },
        Call::Abandon { w } => {
            lemma_detached_slots(v, w.nodes);
        },
        Call::Sweep { freed } => {
            reclaim::law_sweep_frees_orphans(v, c);
            assert(v2.slots[j] == v.slots[j]);
        },
    }
}

/// Over any sequence of calls that leave it existing, the count of a semaphore is
/// what it was at the start, and what was released, less what was acquired. It stays
/// within the maximum, which never changes.
pub proof fn law_semaphore_count_adds_up(
    h: History,
    handle: u32,
    count: u32,
    max: u32,
    n: nat,
)
    requires
        h.valid(),
        n <= h.calls.len(),
        h.regions[0].object_at(handle) == Some(Object::Semaphore { count, max }),
        forall|i: int| 0 <= i <= n ==> (#[trigger] h.regions[i]).lookup(handle) is Some,
    ensures
        h.regions[n as int].object_at(handle) matches Some(
            Object::Semaphore { count: count2, max: max2 },
        ) && {
            &&& count2 == count + h.released(handle, n) - h.acquired(handle, n)
            &&& count2 <= max2
            &&& max2 == max
        },
    decreases n,
{
    let r = h.regions[n as int];
    assert(r.inv());
    assert(r.lookup(handle) is Some);
    if n > 0 {
        let i = n - 1;
        law_semaphore_count_adds_up(h, handle, count, max, i as nat);
        assert(h.regions[i].inv());
        assert(h.calls[i].made(h.regions[i], h.before[i], h.regions[i + 1], h.after[i]));
        let s = h.regions[i].object_at(handle)->0;
        law_call_changes_count_exactly(
            h.calls[i],
            h.regions[i],
            h.before[i],
            h.regions[i + 1],
            h.after[i],
            handle,
            s->Semaphore_count,
            max,
        );
    }
    let j = word::index_of(handle);
    assert(r.slots[j].object is Semaphore);
    assert(r.slots[j].object.valid());
}

} // verus!
