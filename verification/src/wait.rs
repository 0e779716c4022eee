//! Waiting for any or all of a set of objects.
//!
//! A wait goes through passes. Each pass looks at the objects once; if they
//! satisfy the wait, or it has failed or run out of time, it is over. Else its
//! nodes are put on the objects' lists and the thread sleeps until one of them
//! is signaled, and then makes another pass.
use crate::caller::{Caller, CallerView};
use crate::errno::{os_etimedout, ETIMEDOUT};
use crate::error::WaitOutcome;
use crate::history::Call;
use crate::object::{is_locked, Object, Slot, TYPE_EVENT, TYPE_MUTEX, TYPE_SEM};
use crate::pool;
use crate::pool::{alloc_nodes, detach_nodes, register_nodes, waiter_cleanup, NodeSet};
use crate::region;
use crate::region::{Region, RegionView, NIL, NODE_COUNT};
use crate::satisfy::{try_satisfy, Demand, MAX_WAIT_COUNT};
use crate::stats;
use crate::stats::{
    bump, record_wake_latency, FUTEX_SLEEPS, NODES_REGISTERED, WAIT_BLOCKED, WAIT_CALLS,
    WAIT_FAST_OK,
};
use crate::sweep;
use crate::sweep::auto_sweep_dead;
use crate::word;
use crate::word::lo32;
use vstd::prelude::*;

verus! {

/// With diagnostics on, no sleep lasts longer than this many nanoseconds, and a
/// wait that is still stuck after as long is reported.
pub const STUCK_NS: u64 = 5_000_000_000;

/// A wait under way.
pub struct Waiter {
    /// The objects waited on.
    pub handles: Vec<u32>,
    /// Who waits: the owner of mutexes that get acquired.
    pub owner: u32,
    /// Whether all objects are needed, or any one of them.
    pub all: bool,
    /// Event that interrupts the wait; 0 if there is none.
    pub alert: u32,
    /// How long to wait, in nanoseconds; `None` is forever.
    pub timeout: Option<u128>,
    /// When the wait started.
    pub start: u64,
    /// When the wait was last reported as stuck.
    pub last_dump: u64,
    /// How many pulses each object had seen when the wait started.
    pub entry_seqs: Vec<u64>,
    /// The wait's nodes, once it has slept.
    pub nodes: NodeSet,
    /// What the futex word of the first node held before the sleep.
    pub seq: u32,
}

/// A wait as mathematical values.
#[verifier::ext_equal]
pub struct WaiterView {
    pub demand: Demand,
    pub alert: u32,
    pub timeout: Option<u128>,
    pub start: u64,
    pub last_dump: u64,
    pub nodes: Seq<u32>,
    pub seq: u32,
}

impl View for Waiter {
    type V = WaiterView;

    open spec fn view(&self) -> WaiterView {
        WaiterView {
            demand: Demand {
                handles: self.handles@,
                owner: self.owner,
                entry: self.entry_seqs@,
                all: self.all,
            },
            alert: self.alert,
            timeout: self.timeout,
            start: self.start,
            last_dump: self.last_dump,
            nodes: self.nodes@,
            seq: self.seq,
        }
    }
}

/// Where a pass leaves a wait.
pub enum WaitStep {
    /// It is over.
    Done(WaitOutcome),
    /// The thread is to sleep while the futex word of the wait's first node
    /// holds `seq`.
    Sleep(Waiter),
}

/// Where a pass leaves a wait, as mathematical values.
pub enum StepView {
    Done(WaitOutcome),
    Sleep(WaiterView),
}

impl View for WaitStep {
    type V = StepView;

    open spec fn view(&self) -> StepView {
        match *self {
            WaitStep::Done(o) => StepView::Done(o),
            WaitStep::Sleep(w) => StepView::Sleep(w@),
        }
    }
}

impl RegionView {
    /// Whether the alert event that a wait names is signaled.
    pub open spec fn alerted(self, alert: u32) -> bool {
        alert != 0 && (self.object_at(alert) matches Some(Object::Event { signaled, .. })
            && signaled)
    }

    /// For each object, the number of pulses that a wait starting now counts from.
    pub open spec fn entries(self, handles: Seq<u32>) -> Seq<u64> {
        Seq::new(
            handles.len(),
            |i: int|
                if self.slot_at(handles[i]).object is Event {
                    self.slot_at(handles[i]).pulses
                } else {
                    0
                },
        )
    }
}

/// Whether a wait on `handles` by `owner` makes sense at all.
pub open spec fn well_asked(handles: Seq<u32>, owner: u32) -> bool {
    &&& owner != 0
    &&& 0 < handles.len() <= MAX_WAIT_COUNT
    &&& handles.no_duplicates()
}

impl WaiterView {
    /// What the wait is registered on while it sleeps.
    pub open spec fn targets(self) -> Seq<u32> {
        pool::targets(self.demand.handles, self.alert)
    }

    /// Whether everything that the wait names still exists.
    pub open spec fn valid(self, v: RegionView) -> bool {
        &&& forall|i: int|
            0 <= i < self.demand.handles.len() ==> v.waitable(#[trigger] self.demand.handles[i])
        &&& self.alert != 0 ==> (v.object_at(self.alert) matches Some(o) && o is Event)
    }

    /// Whether the time of the wait is up.
    pub open spec fn expired(self, now: u64) -> bool {
        self.timeout matches Some(t) && self.start + t <= now
    }

    /// What the wait demands: pulses count from its first pass on.
    pub open spec fn demand_at(self, v: RegionView) -> Demand {
        if self.nodes.len() == 0 {
            Demand { entry: v.entries(self.demand.handles), ..self.demand }
        } else {
            self.demand
        }
    }

    /// What every wait under way satisfies: it makes sense, and it has either no
    /// nodes yet or one for each thing that it is registered on.
    pub open spec fn wf(self) -> bool {
        &&& well_asked(self.demand.handles, self.demand.owner)
        &&& self.demand.entry.len() == self.demand.handles.len()
        &&& self.nodes.len() == 0 || self.nodes.len() == self.targets().len()
    }

    /// What a wait satisfies that has slept: its nodes are its own.
    pub open spec fn slept(self, v: RegionView) -> bool {
        &&& self.wf()
        &&& self.nodes.len() > 0
        &&& v.all_allocated(self.nodes)
    }

    /// What becomes of the wait once it has to sleep: it fails if it has no nodes
    /// yet and there are not enough; else its nodes are put on the lists of what it
    /// waits for.
    pub open spec fn blocked(self, v: RegionView, c: CallerView) -> (
        RegionView,
        CallerView,
        StepView,
    ) {
        let n = self.targets().len();
        if self.nodes.len() == 0 && v.available() < n {
            let k = v.available() as nat;
            (
                v.handed_out(c.pid, k).released(v.given(k)),
                c,
                StepView::Done(WaitOutcome::Invalid),
            )
        } else {
            let nodes = if self.nodes.len() == 0 {
                v.given(n)
            } else {
                self.nodes
            };
            let m = if self.nodes.len() == 0 {
                v.handed_out(c.pid, n)
            } else {
                v
            };
            (
                m.enrolled(self.targets(), nodes, n),
                c.bumped(WAIT_BLOCKED).counted(NODES_REGISTERED, n as u64).bumped(FUTEX_SLEEPS),
                StepView::Sleep(WaiterView { nodes, seq: m.nodes[nodes[0] as int].seq, ..self }),
            )
        }
    }

    /// What one pass of the wait, whose nodes are on no lists, comes to. A wait
    /// that names something that does not exist fails. A signaled alert comes
    /// before the objects, and is only tested. A wait that is neither satisfied
    /// nor out of time blocks. A wait that is over gives its nodes back.
    pub open spec fn pass(self, v: RegionView, c: CallerView) -> (
        RegionView,
        CallerView,
        StepView,
    ) {
        if !self.valid(v) {
            (v.released(self.nodes), c, StepView::Done(WaitOutcome::Invalid))
        } else if v.alerted(self.alert) {
            (
                v.released(self.nodes),
                c,
                StepView::Done(
                    WaitOutcome::Signaled {
                        index: self.demand.handles.len() as u32,
                        owner_dead: false,
                    },
                ),
            )
        } else {
            let demand = self.demand_at(v);
            let (m, res) = demand.attempt(v);
            match res {
                Some(outcome) => (
                    m.released(self.nodes),
                    if self.nodes.len() == 0 {
                        c.bumped(WAIT_FAST_OK)
                    } else {
                        c
                    },
                    StepView::Done(outcome),
                ),
                None => if self.expired(c.now) {
                    (m.released(self.nodes), c, StepView::Done(WaitOutcome::Timeout))
                } else {
                    (WaiterView { demand, ..self }).blocked(m, c)
                },
            }
        }
    }

    /// What a pass after a sleep comes to.
    pub open spec fn resumed(self, v: RegionView, c: CallerView) -> (
        RegionView,
        CallerView,
        StepView,
    ) {
        self.pass(v.detached_all(self.nodes), c)
    }

    /// Nanoseconds left at time `now`.
    pub open spec fn remaining(self, now: u64) -> Option<u128> {
        match self.timeout {
            Some(t) => Some(
                if now <= self.start {
                    t
                } else if self.start + t <= now {
                    0
                } else {
                    (self.start + t - now) as u128
                },
            ),
            None => None,
        }
    }

    /// Whether it is time to report the wait as stuck.
    pub open spec fn stuck(self, c: CallerView) -> bool {
        c.debug && !self.expired(c.now) && c.now - self.last_dump >= STUCK_NS
    }
}

/// A wait that is about to start.
pub open spec fn asked(
    handles: Seq<u32>,
    owner: u32,
    timeout: Option<u128>,
    all: bool,
    alert: u32,
    now: u64,
) -> WaiterView {
    WaiterView {
        demand: Demand { handles, owner, entry: Seq::new(handles.len(), |i: int| 0u64), all },
        alert,
        timeout,
        start: now,
        last_dump: now,
        nodes: Seq::empty(),
        seq: 0,
    }
}

/// What starting a wait comes to.
pub open spec fn started(
    v: RegionView,
    c: CallerView,
    handles: Seq<u32>,
    owner: u32,
    timeout: Option<u128>,
    all: bool,
    alert: u32,
) -> (RegionView, CallerView, StepView) {
    if !well_asked(handles, owner) {
        (v, c, StepView::Done(WaitOutcome::Invalid))
    } else {
        asked(handles, owner, timeout, all, alert, c.now).pass(v, c.bumped(WAIT_CALLS))
    }
}

/// Whether no handle occurs twice.
fn all_distinct(handles: &[u32]) -> (b: bool)
    ensures
        b == handles@.no_duplicates(),
{
    let mut i: usize = 0;
    while i < handles.len()
        invariant
            i <= handles@.len(),
            forall|a: int, b: int| 0 <= a < b < i ==> handles@[a] != handles@[b],
        decreases handles@.len() - i,
    {
        let mut j: usize = 0;
        while j < i
            invariant
                j <= i < handles@.len(),
                forall|a: int| 0 <= a < j ==> handles@[a] != handles@[i as int],
            decreases i - j,
        {
            if handles[j] == handles[i] {
                return false;
            }
            j = j + 1;
        }
        i = i + 1;
    }
    true
}

/// Whether the handle names an object that can be waited on; if so, gives the
/// number of pulses that a wait on it counts from.
fn entry_seq(r: &Region, handle: u32) -> (res: Option<u64>)
    requires
        r.wf(),
    ensures
        res is Some <==> r@.waitable(handle),
        res matches Some(d) ==> d == if r@.slot_at(handle).object is Event {
            r@.slot_at(handle).pulses
        } else {
            0
        },
{
    proof {
        r.lemma_sizes();
        r.lemma_inv();
    }
    match r.slot(handle) {
        Some(i) => {
            let s = r.slots[i];
            assert(s@ == r@.slots[i as int]);
            assert(region::slot_valid(s, i as int));
            if s.obj_type == TYPE_EVENT {
                Some(s.d)
            } else if s.obj_type == TYPE_SEM || s.obj_type == TYPE_MUTEX {
                Some(0)
            } else {
                None
            }
        },
        None => None,
    }
}

/// The state of the event that `alert` names, if it names one.
fn alert_state(r: &Region, alert: u32) -> (res: Option<bool>)
    requires
        r.wf(),
    ensures
        res == match r@.object_at(alert) {
            Some(Object::Event { signaled, .. }) => Some(signaled),
            _ => None,
        },
{
    proof {
        r.lemma_sizes();
    }
    match r.slot(alert) {
        Some(i) if r.slots[i].obj_type == TYPE_EVENT => Some(lo32(r.slots[i].w0) != 0),
        _ => None,
    }
}

/// Checks that everything that the wait names exists. If so, and if this is the
/// wait's first pass, notes how many pulses its objects have seen.
fn validate(r: &Region, w: &mut Waiter) -> (ok: bool)
    requires
        r.wf(),
        old(w)@.wf(),
    ensures
        ok == old(w)@.valid(r@),
        final(w).nodes == old(w).nodes,
        ok ==> final(w)@ == (WaiterView { demand: old(w)@.demand_at(r@), ..old(w)@ }),
{
    let fresh = w.nodes.is_empty();
    let mut seqs: Vec<u64> = Vec::new();
    let mut i: usize = 0;
    while i < w.handles.len()
        invariant
            *w == *old(w),
            w@.wf(),
            r.wf(),
            i <= w.handles@.len(),
            seqs@.len() == i,
            forall|k: int| 0 <= k < i ==> r@.waitable(#[trigger] w.handles@[k]),
            forall|k: int| 0 <= k < i ==> #[trigger] seqs@[k] == r@.entries(w.handles@)[k],
        decreases w.handles@.len() - i,
    {
        match entry_seq(r, w.handles[i]) {
            Some(d) => seqs.push(d),
            None => {
                assert(!r@.waitable(w@.demand.handles[i as int]));
                return false;
            },
        }
        i = i + 1;
    }
    if w.alert != 0 && alert_state(r, w.alert).is_none() {
        return false;
    }
    if fresh {
        assert(seqs@ =~= r@.entries(w.handles@));
        w.entry_seqs = seqs;
    }
    true
}

/// Ends a wait: its nodes, which are on no lists, are given back.
fn finish(r: &mut Region, w: Waiter)
    requires
        old(r).wf(),
        old(r)@.all_allocated(w.nodes@),
        old(r)@.none_listed(w.nodes@),
    ensures
        final(r).wf(),
        final(r)@ == old(r)@.released(w.nodes@),
{
    proof {
        pool::lemma_detached_none(r@, w.nodes@);
    }
    let mut nodes = w.nodes;
    waiter_cleanup(r, &mut nodes);
}

/// Whether the time of the wait is up.
fn is_expired(w: &Waiter, now: u64) -> (b: bool)
    ensures
        b == w@.expired(now),
{
    match w.timeout {
        Some(t) => t <= now as u128 && now as u128 - t >= w.start as u128,
        None => false,
    }
}

/// Puts a wait to sleep, handing it nodes if it has none.
fn block(r: &mut Region, cx: &mut Caller, w: Waiter) -> (step: WaitStep)
    requires
        old(r).wf(),
        w@.wf(),
        w@.valid(old(r)@),
        old(r)@.all_allocated(w.nodes@),
        old(r)@.none_listed(w.nodes@),
    ensures
        final(r).wf(),
        (final(r)@, final(cx)@, step@) == w@.blocked(old(r)@, old(cx)@),
        step@ matches StepView::Sleep(w) ==> w.slept(final(r)@),
{
    let ghost v = r@;
    let mut w = w;
    let n: usize = if w.alert != 0 {
        w.handles.len() + 1
    } else {
        w.handles.len()
    };
    proof {
        r.lemma_inv();
        assert(n == w@.targets().len());
    }
    if w.nodes.is_empty() {
        if !alloc_nodes(r, cx.pid, n, &mut w.nodes) {
            return WaitStep::Done(WaitOutcome::Invalid);
        }
        proof {
            pool::lemma_given(v, cx.pid, n as nat);
            assert(r@.slots == v.slots);
        }
    }
    let ghost m = r@;
    proof {
        r.lemma_inv();
        assert forall|i: int|
            0 <= i < w.handles@.len() implies r@.lookup(#[trigger] w.handles@[i]) is Some by {
            assert(v.waitable(w.handles@[i]));
        }
        assert forall|i: int| 0 <= i < w.nodes@.len() implies #[trigger] w.nodes@[i]
            < NODE_COUNT by {
            assert(m.allocated(w.nodes@[i]));
        }
    }
    register_nodes(r, &w.handles, w.alert, &w.nodes);
    bump(&mut cx.stats, WAIT_BLOCKED);
    crate::stats::add(&mut cx.stats, NODES_REGISTERED, n as u64);
    bump(&mut cx.stats, FUTEX_SLEEPS);
    proof {
        r.lemma_sizes();
        pool::lemma_enrolled(m, w@.targets(), w.nodes@, n as nat);
        assert(r@.nodes[w.nodes@[0] as int].seq == m.nodes[w.nodes@[0] as int].seq);
    }
    w.seq = r.nodes[w.nodes.get(0) as usize].seq;
    proof {
        assert forall|i: int| 0 <= i < w.nodes@.len() implies r@.allocated(
            #[trigger] w.nodes@[i],
        ) by {
            assert(m.allocated(w.nodes@[i]));
        }
    }
    WaitStep::Sleep(w)
}

/// One pass of a wait whose nodes are on no lists.
fn wait_pass(r: &mut Region, cx: &mut Caller, w: Waiter) -> (step: WaitStep)
    requires
        old(r).wf(),
        w@.wf(),
        old(r)@.all_allocated(w.nodes@),
        old(r)@.none_listed(w.nodes@),
    ensures
        final(r).wf(),
        (final(r)@, final(cx)@, step@) == w@.pass(old(r)@, old(cx)@),
        step@ matches StepView::Sleep(w) ==> w.slept(final(r)@),
{
    let ghost v = r@;
    let mut w = w;
    proof {
        r.lemma_inv();
    }
    if !validate(r, &mut w) {
        finish(r, w);
        return WaitStep::Done(WaitOutcome::Invalid);
    }
    if w.alert != 0 {
        if let Some(true) = alert_state(r, w.alert) {
            let index = w.handles.len() as u32;
            finish(r, w);
            return WaitStep::Done(WaitOutcome::Signaled { index, owner_dead: false });
        }
    }
    let fresh = w.nodes.is_empty();
    if let Some(outcome) = try_satisfy(r, &w.handles, w.owner, &w.entry_seqs, w.all) {
        if fresh {
            bump(&mut cx.stats, WAIT_FAST_OK);
        }
        finish(r, w);
        return WaitStep::Done(outcome);
    }
    if is_expired(&w, cx.now) {
        finish(r, w);
        return WaitStep::Done(WaitOutcome::Timeout);
    }
    proof {
        lemma_attempt_keeps(v, w@.demand);
        assert(w@.valid(r@)) by {
            assert forall|i: int| 0 <= i < w@.demand.handles.len() implies r@.waitable(
                #[trigger] w@.demand.handles[i],
            ) by {
                assert(v.waitable(w@.demand.handles[i]));
                let j = word::index_of(w@.demand.handles[i]);
                assert(r@.slots[j].used == v.slots[j].used);
            }
            if w.alert != 0 {
                let j = word::index_of(w.alert);
                assert(r@.slots[j].used == v.slots[j].used);
            }
        }
    }
    block(r, cx, w)
}

/// An attempt to meet a demand keeps every object's existence and kind, and the
/// waiters.
pub proof fn lemma_attempt_keeps(v: RegionView, d: Demand)
    ensures
        ({
            let m = d.attempt(v).0;
            &&& m == (RegionView { slots: m.slots, ..v })
            &&& m.slots.len() == v.slots.len()
            &&& forall|j: int|
                0 <= j < v.slots.len() ==> {
                    &&& (#[trigger] m.slots[j]).used == v.slots[j].used
                    &&& m.slots[j].generation == v.slots[j].generation
                    &&& m.slots[j].pid == v.slots[j].pid
                    &&& m.slots[j].pulses == v.slots[j].pulses
                    &&& (m.slots[j].object is Reserved) == (v.slots[j].object is Reserved)
                    &&& (m.slots[j].object is Event) == (v.slots[j].object is Event)
                    &&& (m.slots[j].object is Mutex) == (v.slots[j].object is Mutex)
                }
        }),
{
}

/// Whether a wait on `handles` by `owner` makes sense at all.
pub fn check_wait(handles: &[u32], owner: u32) -> (ok: bool)
    ensures
        ok == well_asked(handles@, owner),
{
    if owner == 0 || handles.len() == 0 || handles.len() > MAX_WAIT_COUNT {
        return false;
    }
    all_distinct(handles)
}

/// Starts a wait.
fn wait(
    r: &mut Region,
    cx: &mut Caller,
    handles: &[u32],
    owner: u32,
    timeout: Option<u128>,
    all: bool,
    alert: u32,
) -> (step: WaitStep)
    requires
        old(r).wf(),
    ensures
        final(r).wf(),
        (final(r)@, final(cx)@, step@) == started(
            old(r)@,
            old(cx)@,
            handles@,
            owner,
            timeout,
            all,
            alert,
        ),
        step@ matches StepView::Sleep(w) ==> w.slept(final(r)@),
{
    if !check_wait(handles, owner) {
        return WaitStep::Done(WaitOutcome::Invalid);
    }
    bump(&mut cx.stats, WAIT_CALLS);
    let mut copy: Vec<u32> = Vec::new();
    let mut entry_seqs: Vec<u64> = Vec::new();
    let mut i: usize = 0;
    while i < handles.len()
        invariant
            i <= handles@.len(),
            copy@ == handles@.take(i as int),
            entry_seqs@ == Seq::new(i as nat, |k: int| 0u64),
        decreases handles@.len() - i,
    {
        copy.push(handles[i]);
        entry_seqs.push(0);
        assert(copy@ =~= handles@.take(i + 1));
        assert(entry_seqs@ =~= Seq::new((i + 1) as nat, |k: int| 0u64));
        i = i + 1;
    }
    assert(copy@ =~= handles@);
    let now = cx.now;
    let w = Waiter {
        handles: copy,
        owner,
        all,
        alert,
        timeout,
        start: now,
        last_dump: now,
        entry_seqs,
        nodes: NodeSet::new(),
        seq: 0,
    };
    assert(w@ =~= asked(handles@, owner, timeout, all, alert, now));
    wait_pass(r, cx, w)
}

/// Starts a wait for any one of the objects that `handles` name. The first of
/// them that is ready is acquired. `timeout` is in nanoseconds.
pub fn wait_any(
    r: &mut Region,
    cx: &mut Caller,
    handles: &[u32],
    owner: u32,
    timeout: Option<u128>,
    alert: u32,
) -> (step: WaitStep)
    requires
        old(r).wf(),
    ensures
        final(r).wf(),
        (final(r)@, final(cx)@, step@) == started(
            old(r)@,
            old(cx)@,
            handles@,
            owner,
            timeout,
            false,
            alert,
        ),
        step@ matches StepView::Sleep(w) ==> w.slept(final(r)@),
        (Call::Wait { handles: handles@, owner, timeout, all: false, alert, step: step@ }).made(
            old(r)@,
            old(cx)@,
            final(r)@,
            final(cx)@,
        ),
{
    wait(r, cx, handles, owner, timeout, false, alert)
}

/// Starts a wait for all of the objects that `handles` name. They are acquired
/// together. `timeout` is in nanoseconds.
pub fn wait_all(
    r: &mut Region,
    cx: &mut Caller,
    handles: &[u32],
    owner: u32,
    timeout: Option<u128>,
    alert: u32,
) -> (step: WaitStep)
    requires
        old(r).wf(),
    ensures
        final(r).wf(),
        (final(r)@, final(cx)@, step@) == started(
            old(r)@,
            old(cx)@,
            handles@,
            owner,
            timeout,
            true,
            alert,
        ),
        step@ matches StepView::Sleep(w) ==> w.slept(final(r)@),
        (Call::Wait { handles: handles@, owner, timeout, all: true, alert, step: step@ }).made(
            old(r)@,
            old(cx)@,
            final(r)@,
            final(cx)@,
        ),
{
    wait(r, cx, handles, owner, timeout, true, alert)
}

/// Makes another pass of a wait that has slept.
pub fn wait_resume(r: &mut Region, cx: &mut Caller, w: Waiter) -> (step: WaitStep)
    requires
        old(r).wf(),
        w@.slept(old(r)@),
    ensures
        final(r).wf(),
        (final(r)@, final(cx)@, step@) == w@.resumed(old(r)@, old(cx)@),
        step@ matches StepView::Sleep(w) ==> w.slept(final(r)@),
        (Call::Resume { w: w@, step: step@ }).made(old(r)@, old(cx)@, final(r)@, final(cx)@),
{
    detach_nodes(r, &w.nodes);
    wait_pass(r, cx, w)
}

/// Gives up a wait that cannot go on: its nodes are taken off all lists and given
/// back.
pub fn wait_abandon(r: &mut Region, w: Waiter)
    requires
        old(r).wf(),
        w@.slept(old(r)@),
    ensures
        final(r).wf(),
        final(r)@ == old(r)@.detached_all(w@.nodes).released(w@.nodes),
        forall|c: CallerView| #[trigger]
            (Call::Abandon { w: w@ }).made(old(r)@, c, final(r)@, c),
{
    let mut nodes = w.nodes;
    waiter_cleanup(r, &mut nodes);
}

/// The node on whose futex word the wait `w` sleeps.
pub open spec fn futex_of(w: WaiterView) -> u32 {
    w.nodes[0]
}

/// The node on whose futex word a wait sleeps.
pub fn sleep_word(w: &Waiter) -> (n: u32)
    requires
        w@.nodes.len() > 0,
    ensures
        n == w@.nodes[0],
        n == futex_of(w@),
{
    w.nodes.get(0)
}

/// How long a sleep of the wait `w` may last at most.
pub open spec fn sliced(w: WaiterView, c: CallerView) -> Option<u128> {
    match w.remaining(c.now) {
        Some(t) => Some(
            if c.debug && t > STUCK_NS {
                STUCK_NS as u128
            } else {
                t
            },
        ),
        None => if c.debug {
            Some(STUCK_NS as u128)
        } else {
            None
        },
    }
}

/// How long a sleep of the wait may last at most, in nanoseconds: as long as
/// the wait has left, but with diagnostics on no longer than `STUCK_NS`.
pub fn sleep_slice(w: &Waiter, cx: &Caller) -> (slice: Option<u128>)
    ensures
        slice == if cx@.debug {
            Some(
                match w@.remaining(cx@.now) {
                    Some(t) if t < STUCK_NS => t,
                    _ => STUCK_NS as u128,
                },
            )
        } else {
            w@.remaining(cx@.now)
        },
        slice == sliced(w@, cx@),
{
    let remaining: Option<u128> = match w.timeout {
        Some(t) => {
            let passed: u128 = cx.now.saturating_sub(w.start) as u128;
            Some(
                if passed >= t {
                    0
                } else {
                    t - passed
                },
            )
        },
        None => None,
    };
    if cx.debug {
        match remaining {
            Some(t) if t < STUCK_NS as u128 => Some(t),
            _ => Some(STUCK_NS as u128),
        }
    } else {
        remaining
    }
}

/// What a report on a stuck wait says about one of its objects.
pub enum StuckObject {
    /// The handle names no object any more.
    Closed { handle: u32 },
    /// The object is in `slot`; `waiters` tells whether anybody waits on it, and
    /// `signaled` whether it could be acquired right now.
    Open { handle: u32, slot: Slot, waiters: bool, signaled: bool },
}

/// The report on the object that `handle` names, for a wait by `owner`.
pub open spec fn reported(r: Region, handle: u32, owner: u32) -> StuckObject {
    match r@.lookup(handle) {
        Some(i) => StuckObject::Open {
            handle,
            slot: r.slots@[i],
            waiters: r@.waiters[i].len() > 0,
            signaled: r@.slots[i].acquirable(owner, r@.slots[i].pulses),
        },
        None => StuckObject::Closed { handle },
    }
}

/// Reports on the object that `handle` names.
fn stuck_object(r: &Region, handle: u32, owner: u32) -> (res: StuckObject)
    requires
        r.wf(),
    ensures
        res == reported(*r, handle, owner),
{
    proof {
        r.lemma_sizes();
    }
    match r.slot(handle) {
        Some(i) => {
            let slot = r.slots[i];
            proof {
                region::lemma_waiter_head(*r, i as u32);
                assert(slot@ == r@.slots[i as int]);
            }
            let waiters = slot.waiter_head != NIL;
            let signaled = is_locked(&slot, owner, slot.d);
            StuckObject::Open { handle, slot, waiters, signaled }
        },
        None => StuckObject::Closed { handle },
    }
}

/// The report on the wait `w`.
pub open spec fn report_on(r: Region, w: WaiterView) -> Seq<StuckObject> {
    w.targets().map_values(|h: u32| reported(r, h, w.demand.owner))
}

/// Reports on every object of a stuck wait, and its alert: this tells a lost
/// wakeup, where an object is signaled while the wait sleeps, from a signal that
/// never came.
pub fn stuck_report(r: &Region, w: &Waiter) -> (res: Vec<StuckObject>)
    requires
        r.wf(),
    ensures
        res@ == w@.targets().map_values(|h: u32| reported(*r, h, w@.demand.owner)),
        res@ == report_on(*r, w@),
{
    let ghost f = |h: u32| reported(*r, h, w@.demand.owner);
    let mut res: Vec<StuckObject> = Vec::new();
    let mut i: usize = 0;
    while i < w.handles.len()
        invariant
            r.wf(),
            i <= w.handles@.len(),
            f == (|h: u32| reported(*r, h, w@.demand.owner)),
            res@ == w.handles@.take(i as int).map_values(f),
        decreases w.handles@.len() - i,
    {
        res.push(stuck_object(r, w.handles[i], w.owner));
        assert(res@ =~= w.handles@.take(i + 1).map_values(f));
        i = i + 1;
    }
    assert(w.handles@.take(w.handles@.len() as int) =~= w.handles@);
    if w.alert != 0 {
        res.push(stuck_object(r, w.alert, w.owner));
        assert(res@ =~= w@.targets().map_values(f));
    }
    res
}

/// The name under which objects of a type are reported.
pub fn kind_name(obj_type: u32) -> (s: &'static str)
    ensures
        s@ == if obj_type == TYPE_EVENT {
            "event"@
        } else if obj_type == TYPE_MUTEX {
            "mutex"@
        } else if obj_type == TYPE_SEM {
            "sem"@
        } else {
            "?"@
        },
{
    if obj_type == TYPE_EVENT {
        "event"
    } else if obj_type == TYPE_MUTEX {
        "mutex"
    } else if obj_type == TYPE_SEM {
        "sem"
    } else {
        "?"
    }
}

/// What the end of a sleep does to the caller's counters: a wake by a signal is
/// a latency sample, with diagnostics on.
pub open spec fn latency_noted(v: RegionView, c: CallerView, w: WaiterView, ret: i32) -> CallerView {
    let ts = v.nodes[w.nodes[0] as int].wake_ts;
    if ret == 0 && c.debug && ts != 0 {
        CallerView {
            stats: stats::sampled(
                c.stats,
                if c.now >= ts {
                    ((c.now - ts) / 1000) as u64
                } else {
                    0
                },
            ),
            ..c
        }
    } else {
        c
    }
}

/// Deals with the end of a sleep; `ret` is 0 or a negative error number. A sleep
/// that ran out of time is an occasion for an automatic sweep: the wait may be
/// blocked on an object whose creator is gone. Gives a report if the wait is
/// stuck.
pub fn wait_wakeup(r: &mut Region, cx: &mut Caller, w: &mut Waiter, ret: i32) -> (res: Option<
    Vec<StuckObject>,
>)
    requires
        old(r).wf(),
        old(w)@.slept(old(r)@),
    ensures
        final(r).wf(),
        final(w)@.slept(final(r)@),
        ({
            let c = latency_noted(old(r)@, old(cx)@, old(w)@, ret);
            if ret == -ETIMEDOUT {
                &&& (final(r)@, final(cx)@) == sweep::auto_swept(old(r)@, c)
                &&& res is Some <==> old(w)@.stuck(old(cx)@)
                &&& res matches Some(report) ==> report@ == old(w)@.targets().map_values(
                    |h: u32| reported(*final(r), h, old(w)@.demand.owner),
                )
                &&& res matches Some(report) ==> report@ == report_on(*final(r), old(w)@)
                &&& final(w)@ == if old(w)@.stuck(old(cx)@) {
                    WaiterView { last_dump: old(cx)@.now, ..old(w)@ }
                } else {
                    old(w)@
                }
            } else {
                &&& final(r)@ == old(r)@
                &&& final(cx)@ == c
                &&& final(w)@ == old(w)@
                &&& res is None
            }
        }),
        (Call::Wakeup { w: old(w)@, ret, next: final(w)@, stuck: res is Some }).made(
            old(r)@,
            old(cx)@,
            final(r)@,
            final(cx)@,
        ),
{
    let ghost v = r@;
    proof {
        r.lemma_sizes();
        assert(v.allocated(w@.nodes[0]));
    }
    if ret == 0 && cx.debug {
        let ts = r.nodes[w.nodes.get(0) as usize].wake_ts;
        if ts != 0 {
            let now = cx.now;
            record_wake_latency(&mut cx.stats, ts, now);
        }
    }
    if ret != -os_etimedout() {
        return None;
    }
    proof {
        r.lemma_inv();
        sweep::lemma_auto_swept_keeps(r@, cx@);
    }
    auto_sweep_dead(r, cx);
    proof {
        assert forall|i: int| 0 <= i < w@.nodes.len() implies r@.allocated(
            #[trigger] w@.nodes[i],
        ) by {
            assert(v.allocated(w@.nodes[i]));
        }
    }
    if cx.debug && !is_expired(w, cx.now) && cx.now.saturating_sub(w.last_dump) >= STUCK_NS {
        let report = stuck_report(r, w);
        w.last_dump = cx.now;
        Some(report)
    } else {
        None
    }
}

} // verus!
