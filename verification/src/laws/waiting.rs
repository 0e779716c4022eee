//! What starting a wait, another pass of it and giving it up does, in terms of the
//! tables alone.
use crate::caller::CallerView;
use crate::error::WaitOutcome;
use crate::history;
use crate::history::Call;
use crate::laws::effects::{gotten, lemma_pass_slot};
use crate::laws::plain::{alive, place};
use crate::object::{Object, SlotView};
use crate::pool;
use crate::region::{NodeView, RegionView, NIL, NODE_COUNT};
use crate::satisfy;
use crate::stats::WAIT_CALLS;
use crate::wait;
use crate::wait::{StepView, WaiterView};
use crate::wakeup;
use crate::word;
use vstd::prelude::*;

verus! {

/// Whether a wait can be asked for: by an owner, on one to 64 handles, none of them
/// twice.
pub open spec fn sensible(handles: Seq<u32>, owner: u32) -> bool {
    &&& owner != 0
    &&& 1 <= handles.len() <= 64
    &&& forall|i: int, k: int| 0 <= i < k < handles.len() ==> handles[i] != handles[k]
}

/// Whether all that a wait names exists: an object for each handle, and an event for the
/// alert if there is one.
pub open spec fn stands(v: RegionView, handles: Seq<u32>, alert: u32) -> bool {
    &&& forall|i: int|
        0 <= i < handles.len() ==> alive(v, #[trigger] handles[i])
            && !(v.slots[place(handles[i])].object is Reserved)
    &&& alert != 0 ==> alive(v, alert) && v.slots[place(alert)].object is Event
}

/// Whether the alert of a wait is signaled.
pub open spec fn interrupted(v: RegionView, alert: u32) -> bool {
    alert != 0 && v.slots[place(alert)].object->Event_signaled
}

/// Whether object `i` of a wait is ready. `seen` are the numbers of pulses that a wait
/// which has slept counts from; one that starts counts none.
pub open spec fn ready_at(
    v: RegionView,
    handles: Seq<u32>,
    owner: u32,
    seen: Option<Seq<u64>>,
    i: int,
) -> bool {
    let s = v.slots[place(handles[i])];
    match s.object {
        Object::Semaphore { count, .. } => count > 0,
        Object::Mutex { owner: holder, count, .. } => {
            ||| holder == 0
            ||| holder == owner && count < 0x7fff_ffff
        },
        Object::Event { signaled, .. } => {
            ||| signaled
            ||| seen is Some && s.pulses != seen->0[i]
        },
        Object::Reserved => false,
    }
}

/// Whether the `i`-th object of a wait is a mutex that was abandoned.
pub open spec fn abandoned_at(v: RegionView, handles: Seq<u32>, i: int) -> bool {
    v.slots[place(handles[i])].object is Mutex
        && v.slots[place(handles[i])].object->Mutex_abandoned
}

/// Whether enough of the objects of a wait are ready: one, or all.
pub open spec fn fulfilled(
    v: RegionView,
    handles: Seq<u32>,
    owner: u32,
    all: bool,
    seen: Option<Seq<u64>>,
) -> bool {
    if all {
        forall|i: int| 0 <= i < handles.len() ==> #[trigger] ready_at(v, handles, owner, seen, i)
    } else {
        exists|i: int| 0 <= i < handles.len() && #[trigger] ready_at(v, handles, owner, seen, i)
    }
}

/// How a fulfilled wait ends: it gets the first object that is ready, or all of them,
/// says which, and says if one of those was an abandoned mutex. No other object changes.
pub open spec fn served(
    v: RegionView,
    handles: Seq<u32>,
    owner: u32,
    all: bool,
    seen: Option<Seq<u64>>,
    slots2: Seq<SlotView>,
    outcome: WaitOutcome,
) -> bool {
    match outcome {
        WaitOutcome::Signaled { index, owner_dead } => {
            &&& index < handles.len()
            &&& all ==> index == 0
            &&& !all ==> ready_at(v, handles, owner, seen, index as int) && forall|k: int|
                0 <= k < index ==> !#[trigger] ready_at(v, handles, owner, seen, k)
            &&& owner_dead <==> exists|i: int|
                0 <= i < handles.len() && (all || i == index) && #[trigger] abandoned_at(
                    v,
                    handles,
                    i,
                )
            &&& slots2.len() == v.slots.len()
            &&& forall|i: int|
                0 <= i < handles.len() && (all || i == index) ==> slots2[place(
                    #[trigger] handles[i],
                )] == (SlotView {
                    object: gotten(v.slots[place(handles[i])].object, owner),
                    ..v.slots[place(handles[i])]
                })
            &&& forall|j: int|
                0 <= j < 16384 && (forall|i: int|
                    0 <= i < handles.len() && (all || i == index) ==> place(#[trigger] handles[i])
                        != j) ==> #[trigger] slots2[j] == v.slots[j]
        },
        _ => false,
    }
}

/// What a pass of a wait comes to. A wait that names something that does not exist
/// fails. A signaled alert comes first, and gets nothing. Then come the objects, then
/// the time, and at last the thread sleeps if it can be given nodes (`room`).
pub open spec fn settled(
    v: RegionView,
    handles: Seq<u32>,
    owner: u32,
    all: bool,
    alert: u32,
    seen: Option<Seq<u64>>,
    time_up: bool,
    room: bool,
    slots2: Seq<SlotView>,
    step: StepView,
) -> bool {
    if !stands(v, handles, alert) {
        step == StepView::Done(WaitOutcome::Invalid) && slots2 == v.slots
    } else if interrupted(v, alert) {
        &&& step == StepView::Done(
            WaitOutcome::Signaled { index: handles.len() as u32, owner_dead: false },
        )
        &&& slots2 == v.slots
    } else if fulfilled(v, handles, owner, all, seen) {
        step is Done && served(v, handles, owner, all, seen, slots2, step->Done_0)
    } else {
        &&& slots2 == v.slots
        &&& if time_up {
            step == StepView::Done(WaitOutcome::Timeout)
        } else if room {
            step is Sleep
        } else {
            step == StepView::Done(WaitOutcome::Invalid)
        }
    }
}

/// The wait's numbers of pulses, as far as it has slept.
pub open spec fn seen_by(w: WaiterView) -> Option<Seq<u64>> {
    if w.nodes.len() == 0 {
        None
    } else {
        Some(w.demand.entry)
    }
}

/// A demand's object is ready by the state of its slot alone.
proof fn lemma_ready(w: WaiterView, v: RegionView, i: int)
    requires
        v.inv(),
        w.wf(),
        stands(v, w.demand.handles, w.alert),
        0 <= i < w.demand.handles.len(),
    ensures
        w.demand_at(v).ready(v, i) == ready_at(
            v,
            w.demand.handles,
            w.demand.owner,
            seen_by(w),
            i,
        ),
        v.waitable(w.demand.handles[i]),
        place(w.demand.handles[i]) == word::index_of(w.demand.handles[i]),
{
    let h = w.demand.handles[i];
    assert(alive(v, h));
    let j = place(h);
    if j != 0 {
        assert(v.slots[j].object.valid());
    }
}

/// What a pass of a wait comes to, by the tables alone.
proof fn lemma_pass_settles(w: WaiterView, v: RegionView, c: CallerView)
    requires
        v.inv(),
        w.wf(),
    ensures
        ({
            let (v2, c2, step) = w.pass(v, c);
            settled(
                v,
                w.demand.handles,
                w.demand.owner,
                w.demand.all,
                w.alert,
                seen_by(w),
                w.timeout is Some && w.start + w.timeout->0 <= c.now,
                w.nodes.len() > 0 || v.free.len() + (8192 - v.fresh) >= w.targets().len(),
                v2.slots,
                step,
            )
        }),
{
    let (v2, c2, step) = w.pass(v, c);
    let hs = w.demand.handles;
    let owner = w.demand.owner;
    let all = w.demand.all;
    let seen = seen_by(w);
    assert(sensible(hs, owner));
    assert(w.valid(v) == stands(v, hs, w.alert)) by {
        if w.valid(v) {
            assert forall|i: int| 0 <= i < hs.len() implies alive(v, #[trigger] hs[i]) && !(
            v.slots[place(hs[i])].object is Reserved) by {
                assert(v.waitable(hs[i]));
            }
        }
        if stands(v, hs, w.alert) {
            assert forall|i: int| 0 <= i < hs.len() implies v.waitable(#[trigger] hs[i]) by {
                assert(alive(v, hs[i]));
            }
        }
    }
    if stands(v, hs, w.alert) {
        assert(v.alerted(w.alert) == interrupted(v, w.alert));
        let d = w.demand_at(v);
        let (m, res) = d.attempt(v);
        satisfy::law_attempt_succeeds_iff_satisfiable(d, v);
        satisfy::lemma_first(d, v, true);
        satisfy::lemma_first(d, v, false);
        assert forall|i: int| 0 <= i < hs.len() implies d.ready(v, i) == #[trigger] ready_at(
            v,
            hs,
            owner,
            seen,
            i,
        ) by {
            lemma_ready(w, v, i);
        }
        assert(d.satisfiable(v) == fulfilled(v, hs, owner, all, seen)) by {
            if all {
                if d.satisfiable(v) {
                    assert forall|i: int| 0 <= i < hs.len() implies #[trigger] ready_at(
                        v,
                        hs,
                        owner,
                        seen,
                        i,
                    ) by {
                        assert(d.ready(v, i));
                    }
                }
                if fulfilled(v, hs, owner, all, seen) {
                    assert forall|i: int| 0 <= i < hs.len() implies #[trigger] d.ready(v, i) by {
                        assert(ready_at(v, hs, owner, seen, i));
                    }
                }
            } else {
                if d.satisfiable(v) {
                    let i = choose|i: int| 0 <= i < hs.len() && #[trigger] d.ready(v, i);
                    assert(ready_at(v, hs, owner, seen, i));
                }
                if fulfilled(v, hs, owner, all, seen) {
                    let i = choose|i: int|
                        0 <= i < hs.len() && #[trigger] ready_at(v, hs, owner, seen, i);
                    assert(d.ready(v, i));
                }
            }
        }
        history::lemma_pass_slots(w, v, c);
        if !interrupted(v, w.alert) && fulfilled(v, hs, owner, all, seen) {
            lemma_served(w, v, c);
        }
    }
}

/// How a pass of a fulfilled wait ends.
proof fn lemma_served(w: WaiterView, v: RegionView, c: CallerView)
    requires
        v.inv(),
        w.wf(),
        w.valid(v),
        stands(v, w.demand.handles, w.alert),
        !v.alerted(w.alert),
        w.demand_at(v).satisfiable(v),
    ensures
        ({
            let (v2, c2, step) = w.pass(v, c);
            step is Done && served(
                v,
                w.demand.handles,
                w.demand.owner,
                w.demand.all,
                seen_by(w),
                v2.slots,
                step->Done_0,
            )
        }),
{
    let (v2, c2, step) = w.pass(v, c);
    let hs = w.demand.handles;
    let owner = w.demand.owner;
    let all = w.demand.all;
    let seen = seen_by(w);
    let d = w.demand_at(v);
    let (m, res) = d.attempt(v);
    satisfy::law_attempt_succeeds_iff_satisfiable(d, v);
    satisfy::lemma_first(d, v, true);
    satisfy::lemma_first(d, v, false);
    history::lemma_pass_slots(w, v, c);
    wait::lemma_attempt_keeps(v, d);
    let outcome = step->Done_0;
    let index = outcome->Signaled_index as int;
    assert(v2.slots == m.slots);
    if !all {
        let i = d.first(v, true)->0;
        assert(index == i);
        lemma_ready(w, v, i);
        assert forall|k: int| 0 <= k < index implies !#[trigger] ready_at(
            v,
            hs,
            owner,
            seen,
            k,
        ) by {
            lemma_ready(w, v, k);
            assert(!d.ready(v, k));
        }
        if abandoned_at(v, hs, i) {
            assert(outcome->Signaled_owner_dead);
        }
        if outcome->Signaled_owner_dead {
            assert(abandoned_at(v, hs, i));
        }
    } else {
        if outcome->Signaled_owner_dead {
            let i = choose|i: int|
                0 <= i < hs.len() && v.slot_at(#[trigger] hs[i]).is_abandoned();
            assert(abandoned_at(v, hs, i));
        }
        if exists|i: int| 0 <= i < hs.len() && #[trigger] abandoned_at(v, hs, i) {
            let i = choose|i: int| 0 <= i < hs.len() && #[trigger] abandoned_at(v, hs, i);
            assert(v.slot_at(hs[i]).is_abandoned());
        }
    }
    assert forall|i: int| 0 <= i < hs.len() && (all || i == index) implies v2.slots[place(
        #[trigger] hs[i],
    )] == (SlotView {
        object: gotten(v.slots[place(hs[i])].object, owner),
        ..v.slots[place(hs[i])]
    }) by {
        lemma_pass_slot(w, v, c, hs[i]);
    }
    assert forall|j: int|
        0 <= j < 16384 && (forall|i: int|
            0 <= i < hs.len() && (all || i == index) ==> place(#[trigger] hs[i])
                != j) implies #[trigger] v2.slots[j] == v.slots[j] by {
        if all {
            assert(!satisfy::names(hs, j)) by {
                if satisfy::names(hs, j) {
                    let i = choose|i: int|
                        0 <= i < hs.len() && word::index_of(#[trigger] hs[i]) == j;
                    assert(place(hs[i]) == j);
                }
            }
        } else {
            let one = seq![hs[index]];
            assert(!satisfy::names(one, j)) by {
                if satisfy::names(one, j) {
                    assert(word::index_of(one[0]) == j);
                    assert(place(hs[index]) == j);
                }
            }
        }
    }
}

/// What goes into the counters: each has grown by what is given for it.
pub open spec fn counted(c: CallerView, c2: CallerView, more: spec_fn(int) -> int) -> bool {
    &&& c2 == (CallerView { stats: c2.stats, ..c })
    &&& c2.stats.len() == c.stats.len()
    &&& forall|k: int|
        0 <= k < c.stats.len() ==> #[trigger] c2.stats[k] == (c.stats[k] + more(k))
            % 0x1_0000_0000_0000_0000
}

/// How many nodes a wait needs: one for each object, and one for the alert if there is
/// one.
pub open spec fn needed(handles: Seq<u32>, alert: u32) -> int {
    handles.len() + if alert != 0 {
        1int
    } else {
        0
    }
}

/// The slot that node `i` of a wait is registered on.
pub open spec fn watches(handles: Seq<u32>, alert: u32, i: int) -> int {
    if i < handles.len() {
        place(handles[i])
    } else {
        place(alert)
    }
}

/// Whether node `n` is in use.
pub open spec fn in_use(v: RegionView, n: int) -> bool {
    n < v.fresh && forall|k: int| 0 <= k < v.free.len() ==> #[trigger] v.free[k] != n
}

/// A wait's nodes are registered for it: one on each thing that it waits for, all
/// leading to the futex word of the first, whose value the wait has noted.
pub open spec fn posted(w: WaiterView, v: RegionView, v2: RegionView) -> bool {
    &&& w.nodes.len() == needed(w.demand.handles, w.alert)
    &&& forall|i: int, k: int| 0 <= i < k < w.nodes.len() ==> w.nodes[i] != w.nodes[k]
    &&& forall|i: int|
        0 <= i < w.nodes.len() ==> {
            let x = (#[trigger] w.nodes[i]) as int;
            &&& x < 8192
            &&& in_use(v2, x)
            &&& v2.nodes[x].on == Some(watches(w.demand.handles, w.alert, i) as u32)
            &&& v2.nodes[x].word == w.nodes[0]
            &&& v2.nodes[x].seq == v.nodes[x].seq
            &&& v2.nodes[x].wake_ts == v.nodes[x].wake_ts
        }
    &&& w.seq == v2.nodes[w.nodes[0] as int].seq
}

/// A wait's nodes are registered for it, by process `pid`, and were in nobody's use
/// before; no other node has changed.
pub open spec fn newly_posted(w: WaiterView, pid: u32, v: RegionView, v2: RegionView) -> bool {
    &&& posted(w, v, v2)
    &&& forall|i: int|
        0 <= i < w.nodes.len() ==> !in_use(v, (#[trigger] w.nodes[i]) as int) && v2.nodes[
        w.nodes[i] as int].pid == pid
    &&& forall|x: int|
        0 <= x < 8192 && !w.nodes.contains(x as u32) ==> #[trigger] v2.nodes[x] == v.nodes[x]
            && in_use(v2, x) == in_use(v, x)
}

/// A wait is handed recycled nodes first, then such as were never used; its thread sleeps
/// on the futex word that all of them lead to. It is put before all who waited already,
/// whose order stays.
pub proof fn law_newcomer_is_put_first(
    v: RegionView,
    c: CallerView,
    handles: Seq<u32>,
    owner: u32,
    timeout: Option<u128>,
    all: bool,
    alert: u32,
    v2: RegionView,
    c2: CallerView,
    w: WaiterView,
    o: int,
)
    requires
        v.inv(),
        (Call::Wait { handles, owner, timeout, all, alert, step: StepView::Sleep(w) }).made(
            v,
            c,
            v2,
            c2,
        ),
        0 <= o < 16384,
    ensures
        forall|i: int|
            0 <= i < w.nodes.len() ==> (#[trigger] w.nodes[i]) == if i < v.free.len() {
                v.free[i] as int
            } else {
                v.fresh + (i - v.free.len())
            },
        forall|i: int|
            0 <= i < w.nodes.len() ==> v2.nodes[(#[trigger] w.nodes[i]) as int].word
                == wait::futex_of(w),
        v2.waiters[o].len() >= v.waiters[o].len(),
        v2.waiters[o].skip(v2.waiters[o].len() - v.waiters[o].len()) == v.waiters[o],
        forall|k: int|
            0 <= k < v2.waiters[o].len() - v.waiters[o].len() ==> w.nodes.contains(
                #[trigger] v2.waiters[o][k],
            ),
{
    let a = wait::asked(handles, owner, timeout, all, alert, c.now);
    let n = a.targets().len();
    let s = v.given(n);
    let m = v.handed_out(c.pid, n);
    wait::lemma_attempt_keeps(v, a.demand_at(v));
    lemma_attempt_in_vain(a, v);
    pool::lemma_given(v, c.pid, n);
    assert(w.nodes == s);
    assert(s.take(n as int) =~= s);
    lemma_enrolled_lists(m, a.targets(), s, n, o);
    assert forall|i: int| 0 <= i < s.len() implies #[trigger] s[i] < NODE_COUNT by {
        assert(m.allocated(s[i]));
    }
    pool::lemma_enrolled(m, a.targets(), s, n);
    assert forall|i: int| 0 <= i < s.len() implies v2.nodes[(#[trigger] s[i]) as int].word
        == s[0] by {
        assert(v2.nodes[s[i] as int].word == s[0]);
    }
}

/// Those who are put on a list are put before who is on it.
proof fn lemma_enrolled_lists(m: RegionView, t: Seq<u32>, s: Seq<u32>, k: nat, o: int)
    requires
        k <= s.len() <= t.len(),
        m.waiters.len() == 16384,
        0 <= o < 16384,
    ensures
        ({
            let list = m.enrolled(t, s, k).waiters[o];
            let d = list.len() - m.waiters[o].len();
            &&& m.enrolled(t, s, k).waiters.len() == 16384
            &&& 0 <= d
            &&& list.skip(d) == m.waiters[o]
            &&& forall|i: int| 0 <= i < d ==> s.take(k as int).contains(#[trigger] list[i])
        }),
    decreases k,
{
    if k == 0 {
        assert(m.waiters[o].skip(0) =~= m.waiters[o]);
    } else {
        let p = m.enrolled(t, s, (k - 1) as nat);
        lemma_enrolled_lists(m, t, s, (k - 1) as nat, o);
        let before = p.waiters[o];
        let list = m.enrolled(t, s, k).waiters[o];
        let d = before.len() - m.waiters[o].len();
        let x = word::index_of(t[k - 1]) as u32;
        assert forall|i: int| 0 <= i < d implies s.take(k as int).contains(
            #[trigger] before[i],
        ) by {
            let q = s.take(k - 1).index_of(before[i]);
            assert(s.take(k - 1).contains(before[i]));
            assert(s.take(k as int)[q] == before[i]);
        }
        if x == o {
            assert(list == seq![s[k - 1]] + before);
            assert(list.skip(d + 1) =~= before.skip(d));
            assert forall|i: int| 0 <= i < d + 1 implies s.take(k as int).contains(
                #[trigger] list[i],
            ) by {
                if i == 0 {
                    assert(s.take(k as int)[k - 1] == list[0]);
                } else {
                    assert(list[i] == before[i - 1]);
                }
            }
        } else {
            assert(list == before);
        }
    }
}

/// Starting a wait comes to what the objects that it names, its alert and its time say.
/// A wait for any one object gets the first that is ready, a wait for all gets all or
/// none, and both are interrupted by a signaled alert. An event that is unsignaled is not
/// ready for a wait that starts, however often it was pulsed. A wait that is over at once
/// changes nothing but what it got; one that has to sleep keeps what it was asked.
pub proof fn law_wait_starts(
    v: RegionView,
    c: CallerView,
    handles: Seq<u32>,
    owner: u32,
    timeout: Option<u128>,
    all: bool,
    alert: u32,
    v2: RegionView,
    c2: CallerView,
    step: StepView,
)
    requires
        v.inv(),
        c.stats.len() == 13,
        (Call::Wait { handles, owner, timeout, all, alert, step }).made(v, c, v2, c2),
    ensures
        !sensible(handles, owner) ==> step == StepView::Done(WaitOutcome::Invalid) && v2 == v
            && c2 == c,
        sensible(handles, owner) ==> settled(
            v,
            handles,
            owner,
            all,
            alert,
            None,
            timeout == Some(0u128),
            v.free.len() + (8192 - v.fresh) >= needed(handles, alert),
            v2.slots,
            step,
        ),
        sensible(handles, owner) && step is Done && step != StepView::Done(WaitOutcome::Invalid)
            ==> v2 == (RegionView { slots: v2.slots, ..v }),
        sensible(handles, owner) && !stands(v, handles, alert) ==> v2 == v,
        sensible(handles, owner) ==> match step {
            StepView::Done(_) => counted(
                c,
                c2,
                |k: int|
                    if k == 0 {
                        1
                    } else if k == 1 && stands(v, handles, alert) && !interrupted(v, alert)
                        && fulfilled(v, handles, owner, all, None) {
                        1
                    } else {
                        0
                    },
            ),
            StepView::Sleep(_) => counted(
                c,
                c2,
                |k: int|
                    if k == 0 || k == 2 || k == 3 {
                        1
                    } else if k == 9 {
                        needed(handles, alert)
                    } else {
                        0
                    },
            ),
        },
        step matches StepView::Sleep(w) ==> {
            &&& w.demand.handles == handles
            &&& w.demand.owner == owner
            &&& w.demand.all == all
            &&& w.alert == alert
            &&& w.timeout == timeout
            &&& w.start == c.now
            &&& w.last_dump == c.now
            &&& w.demand.entry.len() == handles.len()
            &&& forall|i: int|
                0 <= i < handles.len() && v.slots[place(#[trigger] handles[i])].object is Event
                    ==> w.demand.entry[i] == v.slots[place(handles[i])].pulses
            &&& newly_posted(w, c.pid, v, v2)
        },
{
    assert(wait::well_asked(handles, owner) == sensible(handles, owner)) by {
        if sensible(handles, owner) {
            assert forall|i: int, j: int|
                0 <= i < handles.len() && 0 <= j < handles.len() && i != j implies handles[i]
                != handles[j] by {
                if i < j {
                    assert(handles[i] != handles[j]);
                } else {
                    assert(handles[j] != handles[i]);
                }
            }
        }
    }
    if sensible(handles, owner) {
        let a = wait::asked(handles, owner, timeout, all, alert, c.now);
        let c1 = c.bumped(WAIT_CALLS);
        lemma_pass_settles(a, v, c1);
        let d = a.demand_at(v);
        satisfy::law_attempt_succeeds_iff_satisfiable(d, v);
        wait::lemma_attempt_keeps(v, d);
        lemma_attempt_in_vain(a, v);
        assert(v.released(Seq::<u32>::empty()) =~= v) by {
            assert(Seq::<u32>::empty().reverse() + v.free =~= v.free);
        }
        let m = d.attempt(v).0;
        assert(m.released(Seq::<u32>::empty()) =~= m) by {
            assert(Seq::<u32>::empty().reverse() + m.free =~= m.free);
        }
        assert(a.nodes =~= Seq::<u32>::empty());
        if let StepView::Sleep(w) = step {
            lemma_first_sleep(a, v, c1, w);
            assert(w.demand.entry == v.entries(handles));
            assert forall|i: int|
                0 <= i < handles.len() && v.slots[place(
                    #[trigger] handles[i],
                )].object is Event implies w.demand.entry[i] == v.slots[place(
                handles[i],
            )].pulses by {
                assert(v.slot_at(handles[i]).object is Event);
            }
        }
    }
}

/// A wait that fails because there are not enough nodes keeps none: what was in use is in
/// use, what was free is free, and nobody's place on a list has changed.
pub proof fn law_failed_wait_keeps_no_nodes(
    v: RegionView,
    c: CallerView,
    handles: Seq<u32>,
    owner: u32,
    timeout: Option<u128>,
    all: bool,
    alert: u32,
    v2: RegionView,
    c2: CallerView,
    x: int,
)
    requires
        v.inv(),
        (Call::Wait {
            handles,
            owner,
            timeout,
            all,
            alert,
            step: StepView::Done(WaitOutcome::Invalid),
        }).made(v, c, v2, c2),
        0 <= x < 8192,
    ensures
        in_use(v2, x) == in_use(v, x),
        v2.nodes[x].on == v.nodes[x].on,
        in_use(v, x) ==> v2.nodes[x] == v.nodes[x],
        v2.waiters == v.waiters,
        v2.slots == v.slots,
        v2.free.len() + (8192 - v2.fresh) == v.free.len() + (8192 - v.fresh),
{
    let a = wait::asked(handles, owner, timeout, all, alert, c.now);
    let d = a.demand_at(v);
    satisfy::law_attempt_succeeds_iff_satisfiable(d, v);
    lemma_attempt_in_vain(a, v);
    assert(a.nodes =~= Seq::<u32>::empty());
    assert(v.released(Seq::<u32>::empty()) =~= v) by {
        assert(Seq::<u32>::empty().reverse() + v.free =~= v.free);
    }
    if v2 != v {
        let k = v.available() as nat;
        let s = v.given(k);
        let m = v.handed_out(c.pid, k);
        assert(v2 == m.released(s));
        pool::lemma_given(v, c.pid, k);
        lemma_in_use(v, x as u32);
        lemma_in_use(v2, x as u32);
        if s.contains(x as u32) {
            let i = s.index_of(x as u32);
            assert(s.reverse()[s.len() - 1 - i] == x as u32);
            assert(v2.free[s.len() - 1 - i] == x as u32);
            assert(!v.allocated(x as u32));
            if v.nodes[x].on is Some {
                assert(x < v.fresh);
                assert(v.free.contains(x as u32));
                let q = v.free.index_of(x as u32);
                assert(v.nodes[v.free[q] as int].on is None);
            }
        } else {
            assert(v2.nodes[x] == v.nodes[x]);
            lemma_still_free(v, c.pid, k, x as u32);
            if v2.free.contains(x as u32) {
                let q = v2.free.index_of(x as u32);
                if q < s.len() {
                    assert(s.reverse()[q] == s[s.len() - 1 - q]);
                    assert(s.contains(x as u32));
                } else {
                    assert(m.free[q - s.len()] == x as u32);
                    assert(m.free.contains(x as u32));
                }
            }
            if m.free.contains(x as u32) {
                let q = m.free.index_of(x as u32);
                assert(v2.free[q + s.len()] == x as u32);
            }
        }
    }
}

/// An attempt in vain changes nothing.
proof fn lemma_attempt_in_vain(w: WaiterView, v: RegionView)
    ensures
        w.demand_at(v).attempt(v).1 is None ==> w.demand_at(v).attempt(v).0 == v,
{
}

/// A node is in use by the tables exactly if it is allocated.
proof fn lemma_in_use(v: RegionView, n: u32)
    ensures
        in_use(v, n as int) == v.allocated(n),
{
    if v.free.contains(n) {
        let k = v.free.index_of(n);
        assert(v.free[k] == n);
    }
    if v.allocated(n) {
        assert forall|k: int| 0 <= k < v.free.len() implies #[trigger] v.free[k] != n as int by {
            assert(v.free.contains(v.free[k]));
        }
    }
}

/// Where the nodes of a wait are that goes to sleep for the first time.
proof fn lemma_first_sleep(a: WaiterView, v: RegionView, c: CallerView, w: WaiterView)
    requires
        v.inv(),
        a.wf(),
        a.nodes.len() == 0,
        a.pass(v, c).2 == StepView::Sleep(w),
    ensures
        ({
            let v2 = a.pass(v, c).0;
            newly_posted(w, c.pid, v, v2)
        }),
{
    let v2 = a.pass(v, c).0;
    let n = a.targets().len();
    let s = v.given(n);
    let m = v.handed_out(c.pid, n);
    let t = a.targets();
    assert(w.nodes == s);
    assert(v2 == m.enrolled(t, s, n));
    pool::lemma_given(v, c.pid, n);
    assert forall|i: int| 0 <= i < s.len() implies #[trigger] s[i] < NODE_COUNT by {
        assert(m.allocated(s[i]));
    }
    pool::lemma_enrolled(m, t, s, n);
    assert(s.take(n as int) =~= s);
    assert forall|i: int| 0 <= i < s.len() implies {
        let x = #[trigger] s[i] as int;
        &&& x < 8192
        &&& in_use(v2, x)
        &&& !in_use(v, x)
        &&& v2.nodes[x].pid == c.pid
        &&& v2.nodes[x].on == Some(watches(w.demand.handles, w.alert, i) as u32)
        &&& v2.nodes[x].word == s[0]
        &&& v2.nodes[x].seq == v.nodes[x].seq
        &&& v2.nodes[x].wake_ts == v.nodes[x].wake_ts
    } by {
        let x = s[i] as int;
        assert(s.contains(s[i]));
        assert(m.allocated(s[i]));
        assert(v2.allocated(s[i]));
        lemma_in_use(v2, s[i]);
        lemma_in_use(v, s[i]);
        assert(m.nodes[x] == (NodeView { on: None, word: NIL, pid: c.pid, ..v.nodes[x] }));
        assert(v2.nodes[s[i] as int].word == s[0]);
    }
    assert forall|x: int| 0 <= x < 8192 && !s.contains(x as u32) implies #[trigger] v2.nodes[x]
        == v.nodes[x] && in_use(v2, x) == in_use(v, x) by {
        assert(m.nodes[x] == v.nodes[x]);
        lemma_in_use(v2, x as u32);
        lemma_in_use(v, x as u32);
        lemma_still_free(v, c.pid, n, x as u32);
    }
    assert(w.nodes.len() == needed(w.demand.handles, w.alert));
    assert forall|i: int, k: int| 0 <= i < k < s.len() implies s[i] != s[k] by {
        assert(s.no_duplicates());
    }
    assert(v2.nodes[s[0] as int].seq == v.nodes[s[0] as int].seq);
    assert(m.nodes[s[0] as int].seq == v.nodes[s[0] as int].seq);
    assert(posted(w, v, v2));
}

/// What was not handed out is as free as before.
proof fn lemma_still_free(v: RegionView, pid: u32, n: nat, x: u32)
    requires
        v.inv(),
        n <= v.available(),
        !v.given(n).contains(x),
    ensures
        v.handed_out(pid, n).allocated(x) == v.allocated(x),
{
    let m = v.handed_out(pid, n);
    pool::lemma_given(v, pid, n);
    if m.allocated(x) && !v.allocated(x) {
        if x < v.fresh {
            let k = v.free.index_of(x);
            assert(v.free[k] == x);
            if k < n {
                assert(v.given(n)[k] == x);
            } else {
                assert(m.free[k - n] == x);
                assert(m.free.contains(x));
            }
        } else {
            let k = x - v.fresh + v.free.len();
            assert(v.given(n)[k] == x);
        }
    }
}

/// Another pass of a wait that has slept comes to what the objects that it names, its
/// alert and its time say now; pulses count from where they stood when it started. A wait
/// that is over gives all its nodes back, off all lists; one that goes back to sleep is
/// the same wait.
pub proof fn law_wait_goes_on(
    v: RegionView,
    c: CallerView,
    w: WaiterView,
    v2: RegionView,
    c2: CallerView,
    step: StepView,
)
    requires
        v.inv(),
        c.stats.len() == 13,
        (Call::Resume { w, step }).made(v, c, v2, c2),
    ensures
        settled(
            v,
            w.demand.handles,
            w.demand.owner,
            w.demand.all,
            w.alert,
            Some(w.demand.entry),
            w.timeout is Some && w.start + w.timeout->0 <= c.now,
            true,
            v2.slots,
            step,
        ),
        match step {
            StepView::Done(_) => {
                &&& c2 == c
                &&& v2.free == w.nodes.reverse() + v.free
                &&& forall|i: int|
                    0 <= i < w.nodes.len() ==> !in_use(v2, #[trigger] w.nodes[i] as int)
                        && v2.nodes[w.nodes[i] as int].on is None
            },
            StepView::Sleep(u) => {
                &&& u.demand == w.demand
                &&& u.alert == w.alert
                &&& u.timeout == w.timeout
                &&& u.start == w.start
                &&& u.last_dump == w.last_dump
                &&& u.nodes == w.nodes
                &&& posted(u, v, v2)
                &&& v2.free == v.free
                &&& counted(
                    c,
                    c2,
                    |k: int|
                        if k == 2 || k == 3 {
                            1
                        } else if k == 9 {
                            needed(w.demand.handles, w.alert)
                        } else {
                            0
                        },
                )
            },
        },
        v2.fresh == v.fresh,
        v2.next_scan == v.next_scan,
        v2.sweep_ns == v.sweep_ns,
        forall|x: int|
            0 <= x < 8192 && !w.nodes.contains(x as u32) ==> #[trigger] v2.nodes[x] == v.nodes[x],
{
    let d = v.detached_all(w.nodes);
    assert forall|i: int| 0 <= i < w.nodes.len() implies #[trigger] w.nodes[i] < NODE_COUNT by {
        assert(v.allocated(w.nodes[i]));
    }
    pool::lemma_detached_all(v, w.nodes);
    wakeup::lemma_detached_inv(v, w.nodes);
    lemma_pass_settles(w, d, c);
    lemma_same_settling(w, v, d, c, v2, step);
    wait::lemma_attempt_keeps(d, w.demand);
    lemma_attempt_in_vain(w, d);
    satisfy::law_attempt_succeeds_iff_satisfiable(w.demand, d);
    match step {
        StepView::Done(_) => {
            assert forall|i: int| 0 <= i < w.nodes.len() implies !in_use(
                v2,
                #[trigger] w.nodes[i] as int,
            ) && v2.nodes[w.nodes[i] as int].on is None by {
                assert(w.nodes.contains(w.nodes[i]));
                let x = w.nodes[i] as int;
                assert(d.nodes[x].on is None);
                assert(v2.free[w.nodes.len() - 1 - i] == w.nodes[i]);
            }
        },
        StepView::Sleep(u) => {
            let n = w.targets().len();
            let s = w.nodes;
            pool::lemma_enrolled(d, w.targets(), s, n);
            assert(s.take(n as int) =~= s);
            assert forall|i: int| 0 <= i < s.len() implies {
                let x = #[trigger] s[i] as int;
                &&& x < 8192
                &&& in_use(v2, x)
                &&& v2.nodes[x].on == Some(watches(w.demand.handles, w.alert, i) as u32)
                &&& v2.nodes[x].word == s[0]
                &&& v2.nodes[x].seq == v.nodes[x].seq
                &&& v2.nodes[x].wake_ts == v.nodes[x].wake_ts
            } by {
                let x = s[i] as int;
                assert(v.allocated(s[i]));
                assert(v2.allocated(s[i]));
                lemma_in_use(v2, s[i]);
                assert(s.contains(s[i]));
                assert(d.nodes[x] == (NodeView { on: None, ..v.nodes[x] }));
                assert(v2.nodes[s[i] as int].word == s[0]);
            }
        },
    }
}

/// Taking a wait's nodes off the lists does not concern what its pass comes to.
proof fn lemma_same_settling(
    w: WaiterView,
    v: RegionView,
    d: RegionView,
    c: CallerView,
    v2: RegionView,
    step: StepView,
)
    requires
        d.slots == v.slots,
        w.slept(v),
        (v2, c, step) == (w.pass(d, c).0, c, w.pass(d, c).2),
        settled(
            d,
            w.demand.handles,
            w.demand.owner,
            w.demand.all,
            w.alert,
            Some(w.demand.entry),
            w.timeout is Some && w.start + w.timeout->0 <= c.now,
            true,
            v2.slots,
            step,
        ),
    ensures
        settled(
            v,
            w.demand.handles,
            w.demand.owner,
            w.demand.all,
            w.alert,
            Some(w.demand.entry),
            w.timeout is Some && w.start + w.timeout->0 <= c.now,
            true,
            v2.slots,
            step,
        ),
{
    let hs = w.demand.handles;
    let owner = w.demand.owner;
    let seen = Some(w.demand.entry);
    assert(forall|h: u32| #[trigger] alive(d, h) == alive(v, h));
    assert(stands(d, hs, w.alert) == stands(v, hs, w.alert)) by {
        if stands(d, hs, w.alert) {
            assert forall|i: int| 0 <= i < hs.len() implies alive(v, #[trigger] hs[i]) by {
                assert(alive(d, hs[i]));
            }
        }
        if stands(v, hs, w.alert) {
            assert forall|i: int| 0 <= i < hs.len() implies alive(d, #[trigger] hs[i]) by {
                assert(alive(v, hs[i]));
            }
        }
    }
    assert forall|i: int| #[trigger] ready_at(d, hs, owner, seen, i) == ready_at(
        v,
        hs,
        owner,
        seen,
        i,
    ) by {}
    assert forall|i: int| #[trigger] ready_at(v, hs, owner, seen, i) == ready_at(
        d,
        hs,
        owner,
        seen,
        i,
    ) by {}
    assert forall|i: int| #[trigger] abandoned_at(d, hs, i) == abandoned_at(v, hs, i) by {}
    assert forall|i: int| #[trigger] abandoned_at(v, hs, i) == abandoned_at(d, hs, i) by {}
}

/// A wait that is given up leaves the objects alone, and gives all its nodes back, off
/// all lists.
pub proof fn law_abandoned_wait_leaves_nothing(
    v: RegionView,
    c: CallerView,
    w: WaiterView,
    v2: RegionView,
    c2: CallerView,
)
    requires
        v.inv(),
        (Call::Abandon { w }).made(v, c, v2, c2),
    ensures
        c2 == c,
        v2.slots == v.slots,
        v2.free == w.nodes.reverse() + v.free,
        v2.fresh == v.fresh,
        v2.next_scan == v.next_scan,
        v2.sweep_ns == v.sweep_ns,
        forall|i: int|
            0 <= i < w.nodes.len() ==> !in_use(v2, #[trigger] w.nodes[i] as int)
                && v2.nodes[w.nodes[i] as int].on is None,
        forall|x: int|
            0 <= x < 8192 && !w.nodes.contains(x as u32) ==> #[trigger] v2.nodes[x] == v.nodes[x],
{
    let d = v.detached_all(w.nodes);
    assert forall|i: int| 0 <= i < w.nodes.len() implies #[trigger] w.nodes[i] < NODE_COUNT by {
        assert(v.allocated(w.nodes[i]));
    }
    pool::lemma_detached_all(v, w.nodes);
    assert forall|i: int| 0 <= i < w.nodes.len() implies !in_use(
        v2,
        #[trigger] w.nodes[i] as int,
    ) && v2.nodes[w.nodes[i] as int].on is None by {
        assert(w.nodes.contains(w.nodes[i]));
        let x = w.nodes[i] as int;
        assert(d.nodes[x].on is None);
        assert(v2.free[w.nodes.len() - 1 - i] == w.nodes[i]);
    }
}

} // verus!
