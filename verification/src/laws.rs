//! What the operations amount to together.
use crate::caller::CallerView;
use crate::errno::ENOMEM;
use crate::error::{Error, WaitOutcome};
use crate::ffi;
use crate::object::{Object, SlotView};
use crate::objects;
use crate::pool;
use crate::reclaim;
use crate::region;
use crate::region::{RegionView, NODE_COUNT};
use crate::satisfy;
use crate::satisfy::Demand;
use crate::signal;
use crate::sweep;
use crate::wait;
use crate::wait::{StepView, WaiterView};
use crate::wakeup;
use crate::word;
use crate::word::{HANDLE_GENERATIONS, MAX_RECURSION, SLOT_COUNT};
use vstd::prelude::*;

pub mod calls;
pub mod effects;
pub mod opening;
pub mod plain;
pub mod reaping;
pub mod signals;
pub mod states;
pub mod table;
pub mod waiting;

verus! {

proof fn lemma_room_inv(v: RegionView, c: CallerView)
    requires
        v.inv(),
    ensures
        objects::room(v, c).0.inv(),
{
    reclaim::law_sweep_frees_orphans(v, c);
}

/// A newly created object can be read back through its handle, as long as the
/// handle can hold the generation of its slot. The handle is not 0, named nothing
/// before, and no other object is touched.
pub proof fn law_created_object_reads_back(
    v: RegionView,
    c: CallerView,
    object: Object,
    v2: RegionView,
    c2: CallerView,
    handle: u32,
)
    requires
        v.inv(),
        objects::creates(v, c, object, v2, c2, Ok::<u32, Error>(handle)),
        v2.slot_at(handle).generation < HANDLE_GENERATIONS,
    ensures
        v2.object_at(handle) == Some(object),
        v2.slot_at(handle).pid == c.pid,
        handle != 0,
        objects::room(v, c).0.lookup(handle) is None,
        v.free_slot() is Some ==> v.lookup(handle) is None,
        forall|j: int|
            0 <= j < SLOT_COUNT && j != word::index_of(handle) ==> #[trigger] v2.slots[j]
                == objects::room(v, c).0.slots[j],
{
    lemma_room_inv(v, c);
    let m = objects::room(v, c).0;
    region::law_search_finds_free_slot(m);
    let i = m.free_slot()->0;
    word::lemma_handle_fields(m.slots[i].generation, i as u32);
}

/// A handle never refers to the reserved slot, whatever the generation.
pub proof fn law_handle_is_never_reserved(
    v: RegionView,
    c: CallerView,
    object: Object,
    v2: RegionView,
    c2: CallerView,
    handle: u32,
)
    requires
        v.inv(),
        objects::creates(v, c, object, v2, c2, Ok::<u32, Error>(handle)),
    ensures
        word::index_of(handle) != 0,
        handle != 0,
{
    lemma_room_inv(v, c);
    let m = objects::room(v, c).0;
    region::law_search_finds_free_slot(m);
    let i = m.free_slot()->0;
    word::lemma_handle_fields(m.slots[i].generation, i as u32);
}

/// Creating an object fails only if the table is full of objects whose creators
/// are not gone.
pub proof fn law_create_fails_only_when_full(
    v: RegionView,
    c: CallerView,
    object: Object,
    v2: RegionView,
    c2: CallerView,
    res: Result<u32, Error>,
)
    requires
        v.inv(),
        objects::creates(v, c, object, v2, c2, res),
    ensures
        res is Err <==> forall|j: int|
            0 <= j < SLOT_COUNT ==> (#[trigger] v.slots[j]).used && !v.orphaned(c, j),
        res is Err ==> res == Err::<u32, Error>(Error::Init(ENOMEM)) && v2.slots == v.slots,
{
    lemma_room_inv(v, c);
    reclaim::law_sweep_frees_orphans(v, c);
    let m = objects::room(v, c).0;
    region::law_search_finds_free_slot(m);
    region::law_search_finds_free_slot(v);
    if res is Err {
        assert forall|j: int| 0 <= j < SLOT_COUNT implies (#[trigger] v.slots[j]).used
            && !v.orphaned(c, j) by {
            assert(m.slots[j].used);
        }
        assert(m.slots =~= v.slots);
    } else {
        let i = m.free_slot()->0;
        assert(!m.slots[i].used);
        assert(!v.slots[i].used || v.orphaned(c, i)) by {
            if v.free_slot() is None {
                assert(v.slots[i].used);
            }
        }
    }
}

/// A handle of an object that was closed names nothing, also once another object
/// has taken its slot.
pub proof fn law_closed_handle_stays_dead(
    v: RegionView,
    c: CallerView,
    handle: u32,
    c1: CallerView,
    object: Object,
    v2: RegionView,
    c2: CallerView,
    res: Result<u32, Error>,
)
    requires
        v.inv(),
        v.lookup(handle) is Some,
        word::index_of(handle) != 0,
        objects::creates(
            sweep::closed(v, c, word::index_of(handle)).0,
            c1,
            object,
            v2,
            c2,
            res,
        ),
    ensures
        v2.lookup(handle) is None,
{
    let i = word::index_of(handle);
    reclaim::lemma_closed_inv(v, c, i);
    let m = sweep::closed(v, c, i).0;
    reclaim::law_sweep_frees_orphans(m, c1);
    lemma_room_inv(m, c1);
    let m2 = objects::room(m, c1).0;
    region::law_search_finds_free_slot(m2);
    assert(m2.slots[i] == m.slots[i]);
}

/// Acquiring a semaphore takes back what a release of one gave.
pub proof fn law_acquire_undoes_release(
    v: RegionView,
    c: CallerView,
    handle: u32,
    v2: RegionView,
    c2: CallerView,
    prev: u32,
    owner: u32,
    entry_seq: u64,
)
    requires
        v.inv(),
        signal::sem_releases(v, c, handle, 1, v2, c2, Ok::<u32, Error>(prev)),
    ensures
        v2.slot_at(handle).acquirable(owner, entry_seq),
        v2.slot_at(handle).acquired(owner) == v.slot_at(handle),
        v.object_at(handle) matches Some(Object::Semaphore { count, .. }) && count == prev,
{
    let o = word::index_of(handle);
    let obj = v.slots[o].object;
    let m = v.with_object(
        handle,
        Object::Semaphore { count: (obj->Semaphore_count + 1) as u32, max: obj->Semaphore_max },
    );
    sweep::lemma_woken_keeps(
        m,
        m.waiters[o],
        c.bumped(crate::stats::SIGNAL_OPS).bumped(crate::stats::WAKE_WALKS).stamp(),
    );
    assert(v2.slots == m.slots);
}

/// A release that would exceed the maximum is refused and changes nothing.
pub proof fn law_overflow_changes_nothing(
    v: RegionView,
    c: CallerView,
    handle: u32,
    n: u32,
    v2: RegionView,
    c2: CallerView,
    res: Result<u32, Error>,
)
    requires
        signal::sem_releases(v, c, handle, n, v2, c2, res),
        v.object_at(handle) matches Some(Object::Semaphore { count, max }) && count + n > max,
    ensures
        res == Err::<u32, Error>(Error::Overflow),
        v2 == v,
        c2.wakes == c.wakes,
{
}

/// Unlocking takes back one acquisition of a mutex, and gives the recursion count
/// that it had reached.
pub proof fn law_unlock_undoes_acquire(
    v: RegionView,
    c: CallerView,
    handle: u32,
    owner: u32,
    entry_seq: u64,
    v2: RegionView,
    c2: CallerView,
    res: Result<u32, Error>,
)
    requires
        v.inv(),
        owner != 0,
        v.object_at(handle) matches Some(o) && o is Mutex,
        v.slot_at(handle).acquirable(owner, entry_seq),
        signal::mutex_unlocks(
            v.with_slot(word::index_of(handle), v.slot_at(handle).acquired(owner)),
            c,
            handle,
            owner,
            v2,
            c2,
            res,
        ),
    ensures
        v.slot_at(handle).object matches Object::Mutex { owner: holder, count, .. } && {
            &&& res == Ok::<u32, Error>((count + 1) as u32)
            &&& v2.slot_at(handle).object == (Object::Mutex {
                owner: holder,
                count,
                abandoned: false,
            })
        },
{
    let o = word::index_of(handle);
    let m = v.with_slot(o, v.slot_at(handle).acquired(owner));
    assert(m.slots[o] == v.slots[o].acquired(owner));
    assert(v.slots[o].object.valid());
    let count = v.slots[o].object->Mutex_count;
    let f = m.with_object(handle, signal::unlocked(owner, (count + 1) as u32, false));
    sweep::lemma_woken_keeps(f, f.waiters[o], c.bumped(crate::stats::WAKE_WALKS).stamp());
}

/// Only its owner can unlock or abandon a mutex; others change nothing.
pub proof fn law_only_owner_unlocks(
    v: RegionView,
    c: CallerView,
    handle: u32,
    owner: u32,
    v2: RegionView,
    c2: CallerView,
    res: Result<u32, Error>,
    v3: RegionView,
    c3: CallerView,
    res3: Result<(), Error>,
)
    requires
        v.object_at(handle) matches Some(Object::Mutex { owner: holder, .. }) && holder != owner,
        signal::mutex_unlocks(v, c, handle, owner, v2, c2, res),
        signal::mutex_kills(v, c, handle, owner, v3, c3, res3),
    ensures
        res == Err::<u32, Error>(Error::Perm),
        res3 == Err::<(), Error>(Error::Perm),
        v2 == v,
        v3 == v,
{
}

/// An abandoned mutex is free for everybody, and whoever acquires it next is told,
/// and nobody after that.
pub proof fn law_killed_mutex_is_reported_once(
    v: RegionView,
    c: CallerView,
    handle: u32,
    owner: u32,
    v2: RegionView,
    c2: CallerView,
    next: u32,
    entry_seq: u64,
)
    requires
        v.inv(),
        next != 0,
        signal::mutex_kills(v, c, handle, owner, v2, c2, Ok::<(), Error>(())),
    ensures
        v2.slot_at(handle).acquirable(next, entry_seq),
        v2.slot_at(handle).is_abandoned(),
        !v2.slot_at(handle).acquired(next).is_abandoned(),
        v2.object_at(handle) == Some(Object::Mutex { owner: 0, count: 0, abandoned: true }),
{
    let o = word::index_of(handle);
    let m = v.with_object(handle, Object::Mutex { owner: 0, count: 0, abandoned: true });
    sweep::lemma_woken_keeps(m, m.waiters[o], c.bumped(crate::stats::WAKE_WALKS).stamp());
    assert(v2.slots == m.slots);
    assert(v2.slots[o].object == (Object::Mutex { owner: 0, count: 0, abandoned: true }));
}

/// After an event was set it is signaled; after it was reset it is not.
pub proof fn law_set_and_reset(
    v: RegionView,
    c: CallerView,
    handle: u32,
    v2: RegionView,
    c2: CallerView,
    set: u32,
    v3: RegionView,
    reset: u32,
)
    requires
        v.inv(),
        signal::event_sets(v, c, handle, v2, c2, Ok::<u32, Error>(set)),
        signal::event_resets(v2, handle, v3, Ok::<u32, Error>(reset)),
    ensures
        v2.object_at(handle) matches Some(Object::Event { signaled, .. }) && signaled,
        v3.object_at(handle) matches Some(Object::Event { signaled, .. }) && !signaled,
        reset == 1,
{
    let o = word::index_of(handle);
    if let Some(Object::Event { manual, signaled }) = v.object_at(handle) {
        let m = v.with_object(handle, Object::Event { manual, signaled: true });
        sweep::lemma_woken_keeps(m, m.waiters[o], c.bumped(crate::stats::WAKE_WALKS).stamp());
    }
}

/// A pulse leaves the event unsignaled and satisfies every wait that started
/// before it, but none that starts after it.
pub proof fn law_pulse_satisfies_current_waiters(
    v: RegionView,
    c: CallerView,
    handle: u32,
    v2: RegionView,
    c2: CallerView,
    prev: u32,
    owner: u32,
)
    requires
        v.inv(),
        signal::event_pulses(v, c, handle, v2, c2, Ok::<u32, Error>(prev)),
    ensures
        v2.object_at(handle) matches Some(Object::Event { signaled, .. }) && !signaled,
        v2.slot_at(handle).acquirable(owner, v.slot_at(handle).pulses),
        !v2.slot_at(handle).acquirable(owner, v2.slot_at(handle).pulses),
        v2.waiters[word::index_of(handle)].len() == 0,
        c2.wakes == c.wakes + v.words(word::index_of(handle)),
{
    let o = word::index_of(handle);
    let m = v.pulsed(handle);
    wakeup::lemma_table_apart(v, m.slots, v.waiters[o], c.stamp());
    reclaim::lemma_woken_inv(v, o, c.stamp());
    assert(m.words(o) =~= v.words(o));
}

/// A wait for any one object acquires the first that is ready, and touches no
/// other.
pub proof fn law_wait_any_takes_first(d: Demand, v: RegionView)
    requires
        v.inv(),
        !d.all,
        d.satisfiable(v),
    ensures
        d.attempt(v).1 matches Some(WaitOutcome::Signaled { index, owner_dead }) && {
            let i = d.first(v, true)->0;
            &&& index == i as u32
            &&& 0 <= i < d.handles.len()
            &&& d.ready(v, i)
            &&& forall|j: int| 0 <= j < i ==> !#[trigger] d.ready(v, j)
            &&& owner_dead == v.slot_at(d.handles[i]).is_abandoned()
            &&& d.attempt(v).0 == v.with_slot(
                word::index_of(d.handles[i]),
                v.slot_at(d.handles[i]).acquired(d.owner),
            )
        },
{
    satisfy::law_attempt_succeeds_iff_satisfiable(d, v);
    satisfy::lemma_first(d, v, true);
    let i = d.first(v, true)->0;
    let one = seq![d.handles[i]];
    let j = word::index_of(d.handles[i]);
    let m = v.with_slot(j, v.slots[j].acquired(d.owner));
    assert forall|k: int| 0 <= k < SLOT_COUNT implies #[trigger] v.acquired(
        one,
        d.owner,
    ).slots[k] == m.slots[k] by {
        assert(one[0] == d.handles[i]);
        if satisfy::names(one, k) {
            assert(word::index_of(one[0]) == k);
        } else if k == j {
            assert(satisfy::names(one, k));
        }
    }
    assert(v.acquired(one, d.owner) =~= m);
}

/// A wait for all objects acquires all of them or none.
pub proof fn law_wait_all_is_atomic(d: Demand, v: RegionView)
    requires
        v.inv(),
        d.all,
        d.entry.len() == d.handles.len(),
        v.all_waitable(d.handles),
    ensures
        d.satisfiable(v) ==> {
            &&& d.attempt(v).1 == Some(
                WaitOutcome::Signaled { index: 0, owner_dead: d.any_abandoned(v) },
            )
            &&& forall|i: int|
                0 <= i < d.handles.len() ==> d.attempt(v).0.slot_at(#[trigger] d.handles[i])
                    == v.slot_at(d.handles[i]).acquired(d.owner)
        },
        !d.satisfiable(v) ==> d.attempt(v) == (v, None::<WaitOutcome>),
{
    satisfy::law_attempt_succeeds_iff_satisfiable(d, v);
    wakeup::lemma_attempt_lowers(v, d);
    if d.satisfiable(v) {
        assert forall|i: int| 0 <= i < d.handles.len() implies d.attempt(v).0.slot_at(
            #[trigger] d.handles[i],
        ) == v.slot_at(d.handles[i]).acquired(d.owner) by {
            assert(satisfy::names(d.handles, word::index_of(d.handles[i])));
        }
    }
}

/// A signaled alert ends a wait before the objects are looked at: none is
/// acquired, and the index that is reported is that of no object.
pub proof fn law_alert_acquires_nothing(w: WaiterView, v: RegionView, c: CallerView)
    requires
        w.valid(v),
        v.alerted(w.alert),
        w.demand.handles.len() <= satisfy::MAX_WAIT_COUNT,
    ensures
        w.pass(v, c).0.slots == v.slots,
        w.pass(v, c).2 == StepView::Done(
            WaitOutcome::Signaled { index: w.demand.handles.len() as u32, owner_dead: false },
        ),
{
}

/// A wait without time never sleeps.
pub proof fn law_zero_timeout_never_sleeps(
    v: RegionView,
    c: CallerView,
    handles: Seq<u32>,
    owner: u32,
    all: bool,
    alert: u32,
)
    ensures
        wait::started(v, c, handles, owner, Some(0), all, alert).2 is Done,
{
}

/// A wait without a limit never runs out of time.
pub proof fn law_infinite_wait_never_times_out(w: WaiterView, v: RegionView, c: CallerView)
    requires
        w.timeout is None,
    ensures
        w.pass(v, c).2 != StepView::Done(WaitOutcome::Timeout),
{
    satisfy::lemma_first(w.demand_at(v), v, true);
}

/// A wait runs out of time only when its time is up and it cannot be satisfied.
pub proof fn law_timeout_only_when_due(w: WaiterView, v: RegionView, c: CallerView)
    requires
        w.pass(v, c).2 == StepView::Done(WaitOutcome::Timeout),
    ensures
        w.expired(c.now),
        !w.demand_at(v).satisfiable(v),
{
    satisfy::law_attempt_succeeds_iff_satisfiable(w.demand_at(v), v);
}

/// A wait fails exactly if it names something that does not exist, or if it has
/// to sleep and there are not enough nodes.
pub proof fn law_wait_fails_only_when_invalid(w: WaiterView, v: RegionView, c: CallerView)
    ensures
        w.pass(v, c).2 == StepView::Done(WaitOutcome::Invalid) <==> {
            ||| !w.valid(v)
            ||| {
                &&& !v.alerted(w.alert)
                &&& !w.demand_at(v).satisfiable(v)
                &&& !w.expired(c.now)
                &&& w.nodes.len() == 0
                &&& v.available() < w.targets().len()
            }
        },
{
    let d = w.demand_at(v);
    satisfy::law_attempt_succeeds_iff_satisfiable(d, v);
    wait::lemma_attempt_keeps(v, d);
}

/// A wait that is over has given all its nodes back.
pub proof fn law_finished_wait_keeps_no_nodes(w: WaiterView, v: RegionView, c: CallerView)
    requires
        w.nodes.len() > 0,
        w.pass(v, c).2 is Done,
    ensures
        forall|i: int| 0 <= i < w.nodes.len() ==> !w.pass(v, c).0.allocated(#[trigger] w.nodes[i]),
        w.pass(v, c).0.free == w.nodes.reverse() + v.free,
{
    let d = w.demand_at(v);
    wait::lemma_attempt_keeps(v, d);
    let m = w.pass(v, c).0;
    assert forall|i: int| 0 <= i < w.nodes.len() implies !m.allocated(#[trigger] w.nodes[i]) by {
        assert(m.free[w.nodes.len() - 1 - i] == w.nodes[i]);
        assert(m.free.contains(w.nodes[i]));
    }
}

/// Waits that sleep at the same time share no nodes.
pub proof fn law_sleeping_waits_share_no_nodes(
    v: RegionView,
    c: CallerView,
    handles: Seq<u32>,
    owner: u32,
    timeout: Option<u128>,
    all: bool,
    alert: u32,
    u: WaiterView,
    w: WaiterView,
)
    requires
        v.inv(),
        w.slept(v),
        wait::started(v, c, handles, owner, timeout, all, alert).2 == StepView::Sleep(u),
    ensures
        wakeup::disjoint(w.nodes, u.nodes),
{
    let a = wait::asked(handles, owner, timeout, all, alert, c.now);
    let d = a.demand_at(v);
    wait::lemma_attempt_keeps(v, d);
    let n = a.targets().len();
    assert(u.nodes =~= v.given(n));
    pool::lemma_given(v, c.pid, n);
    assert forall|i: int| 0 <= i < w.nodes.len() implies !u.nodes.contains(
        #[trigger] w.nodes[i],
    ) by {
        assert(v.allocated(w.nodes[i]));
    }
}

/// A wait that has slept and goes back to sleep keeps its nodes, and counts
/// pulses from the same point on.
pub proof fn law_resumed_wait_is_the_same(w: WaiterView, v: RegionView, c: CallerView, u: WaiterView)
    requires
        w.nodes.len() > 0,
        w.resumed(v, c).2 == StepView::Sleep(u),
    ensures
        u == (WaiterView { seq: u.seq, ..w }),
{
}

/// Closing an object wakes every wait that sleeps on it and was not woken yet, and
/// the next pass of such a wait fails, unless the slot has been used again by then
/// so often that its generation came round.
pub proof fn law_close_fails_waits(
    v: RegionView,
    c: CallerView,
    handle: u32,
    w: WaiterView,
    v3: RegionView,
    c3: CallerView,
)
    requires
        v.inv(),
        w.watched(v),
        v.lookup(handle) is Some,
        word::index_of(handle) != 0,
        w.targets().contains(handle),
        w.slept(v3),
        v3.sized(),
        v3.slot_at(handle) == sweep::closed(v, c, word::index_of(handle)).0.slot_at(handle)
            || v3.slot_at(handle).generation != word::generation_of(handle),
    ensures
        w.wakes(sweep::closed(v, c, word::index_of(handle)).0) != 0,
        w.resumed(v3, c3).2 == StepView::Done(WaitOutcome::Invalid),
{
    let i = word::index_of(handle);
    wakeup::law_close_keeps_watch(v, c, handle, w);
    reclaim::law_close_ends_object(v, c, handle);
    let m = sweep::closed(v, c, i).0;
    let k = w.targets().index_of(handle);
    let h = w.demand.handles;
    if w.wakes(m) == 0 {
        assert(w.valid(m));
        if k < h.len() {
            assert(m.waitable(h[k]));
        }
    }
    assert forall|x: int| 0 <= x < w.nodes.len() implies #[trigger] w.nodes[x] < NODE_COUNT by {
        assert(v3.allocated(w.nodes[x]));
    }
    pool::lemma_detached_all(v3, w.nodes);
    let d = v3.detached_all(w.nodes);
    assert(d.lookup(handle) is None);
    if k < h.len() {
        assert(!d.waitable(h[k]));
    }
}

/// Some signal operation on the object that `handle` names led from `v` and `c` to
/// `v2` and `c2`.
pub open spec fn signal_on(
    v: RegionView,
    c: CallerView,
    handle: u32,
    v2: RegionView,
    c2: CallerView,
) -> bool {
    ||| exists|n: u32, res: Result<u32, Error>| #[trigger]
        signal::sem_releases(v, c, handle, n, v2, c2, res)
    ||| exists|res: Result<u32, Error>| #[trigger] signal::event_sets(v, c, handle, v2, c2, res)
    ||| exists|res: Result<u32, Error>| #[trigger]
        signal::event_resets(v, handle, v2, res) && c2 == c
    ||| exists|res: Result<u32, Error>| #[trigger] signal::event_pulses(v, c, handle, v2, c2, res)
    ||| exists|owner: u32, res: Result<u32, Error>| #[trigger]
        signal::mutex_unlocks(v, c, handle, owner, v2, c2, res)
    ||| exists|owner: u32, res: Result<(), Error>| #[trigger]
        signal::mutex_kills(v, c, handle, owner, v2, c2, res)
}

/// A change of one slot, after which those who wait on its object may be woken.
spec fn touches_one(
    v: RegionView,
    c: CallerView,
    o: int,
    v2: RegionView,
    c2: CallerView,
) -> bool {
    &&& v2.slots.len() == v.slots.len()
    &&& v2.waiters.len() == v.waiters.len()
    &&& forall|j: int|
        0 <= j < SLOT_COUNT && j != o ==> {
            &&& #[trigger] v2.slots[j] == v.slots[j]
            &&& v2.waiters[j] == v.waiters[j]
        }
    &&& v2.slots[o].used == v.slots[o].used
    &&& v2.slots[o].generation == v.slots[o].generation
    &&& v2.slots[o].pid == v.slots[o].pid
    &&& c2.wakes == c.wakes || c2.wakes == c.wakes + v.words(o)
}

proof fn lemma_signal_touches_one(
    v: RegionView,
    c: CallerView,
    o: int,
    s: SlotView,
    c1: CallerView,
    v2: RegionView,
    c2: CallerView,
)
    requires
        v.inv(),
        0 <= o < SLOT_COUNT,
        s.used == v.slots[o].used,
        s.generation == v.slots[o].generation,
        s.pid == v.slots[o].pid,
        c1.wakes == c.wakes,
        (v2, c2) == region::signaled(v.with_slot(o, s), c1, o) || (v2, c2) == region::woken(
            v.with_slot(o, s),
            c1,
            o,
        ),
    ensures
        touches_one(v, c, o, v2, c2),
{
    let m = v.with_slot(o, s);
    assert(m.words(o) =~= v.words(o));
    if !(v.waiters[o].len() == 0 && (v2, c2) == region::signaled(m, c1, o)) {
        wakeup::lemma_table_apart(v, m.slots, v.waiters[o], c1.stamp());
        reclaim::lemma_woken_inv(v, o, c1.stamp());
    }
}

/// A signal operation touches only the object that it is given, never changes
/// which object that is, and wakes nobody but those who wait on it.
pub proof fn law_signal_touches_one_object(
    v: RegionView,
    c: CallerView,
    handle: u32,
    v2: RegionView,
    c2: CallerView,
)
    requires
        v.inv(),
        signal_on(v, c, handle, v2, c2),
    ensures
        ({
            let o = word::index_of(handle);
            &&& forall|j: int|
                0 <= j < SLOT_COUNT && j != o ==> {
                    &&& #[trigger] v2.slots[j] == v.slots[j]
                    &&& v2.waiters[j] == v.waiters[j]
                }
            &&& v2.slots[o].used == v.slots[o].used
            &&& v2.slots[o].generation == v.slots[o].generation
            &&& v2.slots[o].pid == v.slots[o].pid
            &&& c2.wakes == c.wakes || c2.wakes == c.wakes + v.words(o)
        }),
{
    let o = word::index_of(handle);
    if exists|n: u32, res: Result<u32, Error>| #[trigger]
        signal::sem_releases(v, c, handle, n, v2, c2, res) {
        let (n, res) = choose|n: u32, res: Result<u32, Error>| #[trigger]
            signal::sem_releases(v, c, handle, n, v2, c2, res);
        if res is Ok {
            let obj = v.object_at(handle)->0;
            let s = v.slots[o].with_object(
                Object::Semaphore {
                    count: (obj->Semaphore_count + n) as u32,
                    max: obj->Semaphore_max,
                },
            );
            lemma_signal_touches_one(v, c, o, s, c.bumped(crate::stats::SIGNAL_OPS), v2, c2);
        }
    } else if exists|res: Result<u32, Error>| #[trigger]
        signal::event_sets(v, c, handle, v2, c2, res) {
        if let Some(Object::Event { manual, signaled }) = v.object_at(handle) {
            if !signaled {
                let s = v.slots[o].with_object(Object::Event { manual, signaled: true });
                lemma_signal_touches_one(v, c, o, s, c, v2, c2);
            }
        }
    } else if exists|res: Result<u32, Error>| #[trigger]
        signal::event_pulses(v, c, handle, v2, c2, res) {
        if v.object_at(handle) is Some && v.object_at(handle)->0 is Event {
            lemma_signal_touches_one(v, c, o, v.pulsed(handle).slots[o], c, v2, c2);
        }
    } else if exists|owner: u32, res: Result<u32, Error>| #[trigger]
        signal::mutex_unlocks(v, c, handle, owner, v2, c2, res) {
        let (owner, res) = choose|owner: u32, res: Result<u32, Error>| #[trigger]
            signal::mutex_unlocks(v, c, handle, owner, v2, c2, res);
        if let Some(Object::Mutex { owner: holder, count, abandoned }) = v.object_at(handle) {
            if holder == owner {
                let s = v.slots[o].with_object(signal::unlocked(owner, count, abandoned));
                if count == 1 || count == MAX_RECURSION {
                    lemma_signal_touches_one(v, c, o, s, c, v2, c2);
                } else {
                    assert(v2 == v.with_slot(o, s));
                }
            }
        }
    } else if exists|owner: u32, res: Result<(), Error>| #[trigger]
        signal::mutex_kills(v, c, handle, owner, v2, c2, res) {
        let (owner, res) = choose|owner: u32, res: Result<(), Error>| #[trigger]
            signal::mutex_kills(v, c, handle, owner, v2, c2, res);
        if res is Ok {
            let s = v.slots[o].with_object(Object::Mutex { owner: 0, count: 0, abandoned: true });
            lemma_signal_touches_one(v, c, o, s, c, v2, c2);
        }
    }
}

/// Setting an event that is signaled changes nothing.
pub proof fn law_second_set_changes_nothing(
    v: RegionView,
    c: CallerView,
    handle: u32,
    v2: RegionView,
    c2: CallerView,
    set: u32,
    c1: CallerView,
    v3: RegionView,
    c3: CallerView,
    res: Result<u32, Error>,
)
    requires
        v.inv(),
        signal::event_sets(v, c, handle, v2, c2, Ok::<u32, Error>(set)),
        signal::event_sets(v2, c1, handle, v3, c3, res),
    ensures
        res == Ok::<u32, Error>(1),
        v3 == v2,
        c3 == c1,
{
    let o = word::index_of(handle);
    if let Some(Object::Event { manual, signaled }) = v.object_at(handle) {
        let m = v.with_object(handle, Object::Event { manual, signaled: true });
        sweep::lemma_woken_keeps(m, m.waiters[o], c.bumped(crate::stats::WAKE_WALKS).stamp());
    }
}

/// The timeout that C callers give is an absolute time: a wait on the monotonic
/// clock runs out of it exactly when that time has come.
pub proof fn law_deadline_is_absolute(
    handles: Seq<u32>,
    owner: u32,
    all: bool,
    alert: u32,
    timeout: u64,
    start: u64,
    now: u64,
)
    requires
        start <= now,
    ensures
        wait::asked(handles, owner, ffi::time_left(timeout, start), all, alert, start).expired(now)
            <==> timeout != u64::MAX && timeout <= now,
{
}

} // verus!
