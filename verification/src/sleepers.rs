//! No wakeup is missed over any sequence of calls: whoever sleeps and could go on was
//! woken.
use crate::caller::CallerView;
use crate::errno::ETIMEDOUT;
use crate::error::Error;
use crate::history::{Call, History};
use crate::laws;
use crate::region::RegionView;
use crate::stats::SIGNAL_OPS;
use crate::wait;
use crate::wait::{StepView, WaiterView};
use crate::wakeup;
use crate::word;
use vstd::prelude::*;

verus! {

impl WaiterView {
    /// The wait, whenever it was last reported as stuck.
    pub open spec fn undated(self) -> WaiterView {
        WaiterView { last_dump: 0, ..self }
    }
}

impl Call {
    /// The sleeping wait that the call is about.
    pub open spec fn takes_up(self) -> Option<WaiterView> {
        match self {
            Call::Wakeup { w, .. } => Some(w),
            Call::Resume { w, .. } => Some(w),
            Call::Abandon { w } => Some(w),
            _ => None,
        }
    }

    /// Whether the call ends the sleep of the wait `w`: by another pass, or for good.
    pub open spec fn ends(self, w: WaiterView) -> bool {
        match self {
            Call::Resume { w: u, .. } => u.undated() == w.undated(),
            Call::Abandon { w: u } => u.undated() == w.undated(),
            _ => false,
        }
    }

    /// Whether the wait `w` goes to sleep in the call.
    pub open spec fn begins(self, w: WaiterView) -> bool {
        match self {
            Call::Wait { step: StepView::Sleep(u), .. } => u.undated() == w.undated(),
            Call::Resume { step: StepView::Sleep(u), .. } => u.undated() == w.undated(),
            _ => false,
        }
    }
}

impl History {
    /// Whether the wait `w` sleeps after the first `n` calls: it went to sleep in one
    /// of them, no later one ended its sleep, and nobody found its process gone.
    pub open spec fn asleep(self, w: WaiterView, n: nat) -> bool
        decreases n,
    {
        n > 0 && {
            ||| self.calls[n - 1].begins(w)
            ||| {
                &&& self.asleep(w, (n - 1) as nat)
                &&& !self.calls[n - 1].ends(w)
                &&& w.spared(self.regions[n - 1], self.before[n - 1])
            }
        }
    }

    /// Whether nobody takes up a wait that is not asleep. A wait is a value that goes
    /// into the call that takes it up, so nobody can take it up twice; and a process
    /// that is gone makes no calls.
    pub open spec fn orderly(self) -> bool {
        &&& self.regions[0].linked()
        &&& forall|i: int|
            0 <= i < self.calls.len() ==> ((#[trigger] self.calls[i]).takes_up() matches Some(w)
                ==> self.asleep(w, i as nat))
    }

    /// Whether call `i` wakes the wait `w`, and has its thread woken.
    pub open spec fn wakes_at(self, w: WaiterView, i: int) -> bool {
        &&& w.wakes(self.regions[i]) == 0
        &&& w.wakes(self.regions[i + 1]) != 0
        &&& self.after[i].wakes.contains(w.nodes[0])
    }
}

/// No call misses a wakeup: as long as the call does not end its sleep, a wait that was
/// watched stays watched, and its thread is woken if the wait was.
pub proof fn law_call_keeps_watch(
    call: Call,
    v: RegionView,
    c: CallerView,
    v2: RegionView,
    c2: CallerView,
    w: WaiterView,
)
    requires
        v.inv(),
        call.made(v, c, v2, c2),
        w.watched(v),
        w.spared(v, c),
        !call.ends(w),
        call.takes_up() matches Some(u) ==> u.undated() == w.undated() || wakeup::disjoint(
            w.nodes,
            u.nodes,
        ),
    ensures
        w.kept(v, c, v2, c2),
{
    match call {
        Call::Create { object, res } => {
            if res != Err::<u32, Error>(Error::Invalid) {
                wakeup::law_create_keeps_watch(v, c, object, v2, c2, res, w);
            }
        },
        Call::Close { handle, ok } => {
            if ok {
                wakeup::law_close_keeps_watch(v, c, handle, w);
            }
        },
        Call::Read { .. } => {},
        Call::SemRelease { handle, n, res } => {
            wakeup::law_sem_release_keeps_watch(v, c, handle, n, v2, c2, res, w);
        },
        Call::EventSet { handle, res } => {
            wakeup::law_event_set_keeps_watch(v, c, handle, v2, c2, res, w);
        },
        Call::EventReset { handle, res } => {
            wakeup::law_event_reset_keeps_watch(v, c, handle, v2, c2, res, w);
        },
        Call::EventPulse { handle, res } => {
            wakeup::law_event_pulse_keeps_watch(v, c, handle, v2, c2, res, w);
        },
        Call::MutexUnlock { handle, owner, res } => {
            if owner != 0 {
                wakeup::law_mutex_unlock_keeps_watch(v, c, handle, owner, v2, c2, res, w);
            }
        },
        Call::MutexKill { handle, owner, done } => {
            if owner != 0 {
                wakeup::law_mutex_kill_keeps_watch(v, c, handle, owner, v2, c2, done, w);
            }
        },
        Call::Wait { handles, owner, timeout, all, alert, step } => {
            wakeup::law_other_wait_keeps_watch(v, c, handles, owner, timeout, all, alert, w);
        },
        Call::Wakeup { w: u, ret, .. } => {
            let mc = wait::latency_noted(v, c, u, ret);
            if ret == -ETIMEDOUT {
                assert(w.spared(v, mc));
                wakeup::law_auto_sweep_keeps_watch(v, mc, w);
            }
        },
        Call::Resume { w: u, step } => {
            wakeup::law_other_resume_keeps_watch(v, c, u, w);
        },
        Call::Abandon { w: u } => {
            wakeup::law_other_abandon_keeps_watch(v, u, w);
        },
        Call::Sweep { freed } => {
            wakeup::law_sweep_keeps_watch(v, c, w);
        },
    }
}

/// After any call everybody is woken through a node in use.
pub proof fn law_call_keeps_links(
    call: Call,
    v: RegionView,
    c: CallerView,
    v2: RegionView,
    c2: CallerView,
)
    requires
        v.inv(),
        v.linked(),
        call.made(v, c, v2, c2),
        call.takes_up() matches Some(u) ==> v.exclusive(u.nodes),
    ensures
        v2.linked(),
{
    let c1 = c.bumped(SIGNAL_OPS);
    match call {
        Call::Create { object, res } => {
            if res != Err::<u32, Error>(Error::Invalid) {
                wakeup::law_create_keeps_links(v, c, object, v2, c2, res);
            }
        },
        Call::Close { handle, ok } => {
            if ok {
                wakeup::law_close_keeps_links(v, c, word::index_of(handle));
            }
        },
        Call::Read { .. } => {},
        Call::SemRelease { handle, n, res } => {
            wakeup::law_signals_keep_links(v, c, handle, n, v2, c2);
        },
        Call::EventSet { handle, res } => {
            wakeup::law_signals_keep_links(v, c1, handle, 0, v2, c2);
        },
        Call::EventReset { handle, res } => {
            wakeup::law_signals_keep_links(v, c1, handle, 0, v2, c2);
        },
        Call::EventPulse { handle, res } => {
            wakeup::law_signals_keep_links(v, c, handle, 0, v2, c2);
        },
        Call::MutexUnlock { handle, owner, res } => {
            if owner != 0 {
                wakeup::law_signals_keep_links(v, c1, handle, owner, v2, c2);
            }
        },
        Call::MutexKill { handle, owner, done } => {
            if owner != 0 {
                wakeup::law_signals_keep_links(v, c1, handle, owner, v2, c2);
            }
        },
        Call::Wait { handles, owner, timeout, all, alert, step } => {
            wakeup::law_wait_keeps_links(v, c, handles, owner, timeout, all, alert);
        },
        Call::Wakeup { w, ret, .. } => {
            wakeup::law_sweep_keeps_links(v, wait::latency_noted(v, c, w, ret));
        },
        Call::Resume { w, step } => {
            wakeup::law_resume_keeps_links(v, c, w);
        },
        Call::Abandon { w } => {
            wakeup::law_resume_keeps_links(v, c, w);
        },
        Call::Sweep { freed } => {
            wakeup::law_sweep_keeps_links(v, c);
        },
    }
}

/// When a wait was last reported does not concern whether it is watched.
proof fn lemma_undated(u: WaiterView, w: WaiterView, v: RegionView)
    requires
        u.undated() == w.undated(),
        u.watched(v),
    ensures
        w.watched(v),
        w.wakes(v) == u.wakes(v),
{
    assert(w.demand == u.undated().demand);
    assert(w.nodes == u.undated().nodes);
    assert(w.alert == u.undated().alert);
    assert(w.seq == u.undated().seq);
    assert forall|i: int| 0 <= i < w.nodes.len() && v.nodes[(
    #[trigger] w.nodes[i]) as int].on is Some implies {
        &&& v.nodes[w.nodes[i] as int].on == Some(word::index_of(w.targets()[i]) as u32)
        &&& v.nodes[w.nodes[i] as int].word == w.nodes[0]
    } by {
        assert(v.nodes[u.nodes[i] as int].on is Some);
    }
}

/// A wait that goes to sleep in a call is watched from then on, and nobody has woken it
/// yet.
proof fn lemma_begins(
    call: Call,
    v: RegionView,
    c: CallerView,
    v2: RegionView,
    c2: CallerView,
    w: WaiterView,
)
    requires
        v.inv(),
        v.linked(),
        call.made(v, c, v2, c2),
        call.takes_up() matches Some(u) ==> u.watched(v),
        call.begins(w),
    ensures
        w.watched(v2),
        w.wakes(v2) == 0,
{
    match call {
        Call::Wait { handles, owner, timeout, all, alert, step: StepView::Sleep(u) } => {
            wakeup::law_sleep_is_watched(v, c, handles, owner, timeout, all, alert, u);
            lemma_undated(u, w, v2);
        },
        Call::Resume { w: u0, step: StepView::Sleep(u) } => {
            wakeup::law_resumed_sleep_is_watched(v, c, u0, u);
            lemma_undated(u, w, v2);
        },
        _ => {},
    }
}

/// A wait that goes to sleep in a call shares no nodes with one that sleeps already.
proof fn lemma_begins_apart(
    call: Call,
    v: RegionView,
    c: CallerView,
    v2: RegionView,
    c2: CallerView,
    u: WaiterView,
    w: WaiterView,
)
    requires
        v.inv(),
        call.made(v, c, v2, c2),
        call.begins(u),
        w.slept(v),
        call.takes_up() matches Some(x) ==> wakeup::disjoint(w.nodes, x.nodes),
    ensures
        wakeup::disjoint(w.nodes, u.nodes),
        wakeup::disjoint(u.nodes, w.nodes),
{
    match call {
        Call::Wait { handles, owner, timeout, all, alert, step: StepView::Sleep(x) } => {
            laws::law_sleeping_waits_share_no_nodes(
                v,
                c,
                handles,
                owner,
                timeout,
                all,
                alert,
                x,
                w,
            );
            assert(x.undated().nodes == u.nodes);
        },
        Call::Resume { w: x0, step: StepView::Sleep(x) } => {
            laws::law_resumed_wait_is_the_same(x0, v, c, x);
            assert(x.undated().nodes == u.nodes);
        },
        _ => {},
    }
    assert forall|i: int| 0 <= i < u.nodes.len() implies !w.nodes.contains(#[trigger] u.nodes[i]) by {
        if w.nodes.contains(u.nodes[i]) {
            let k = w.nodes.index_of(u.nodes[i]);
            assert(u.nodes.contains(w.nodes[k]));
        }
    }
}

/// At any time everybody is woken through a node in use, every wait that sleeps was
/// woken or has reason to sleep, and no two of them share a node.
pub proof fn law_sleepers_are_watched(h: History, n: nat)
    requires
        h.valid(),
        h.orderly(),
        n <= h.calls.len(),
    ensures
        h.regions[n as int].linked(),
        forall|w: WaiterView| #[trigger] h.asleep(w, n) ==> w.watched(h.regions[n as int]),
        forall|u: WaiterView, w: WaiterView| #[trigger]
            h.asleep(u, n) && #[trigger] h.asleep(w, n) ==> u.undated() == w.undated()
                || wakeup::disjoint(u.nodes, w.nodes),
    decreases n,
{
    if n > 0 {
        let i = n - 1;
        let m = i as nat;
        law_sleepers_are_watched(h, m);
        let (v, c, v2, c2) = (h.regions[i], h.before[i], h.regions[i + 1], h.after[i]);
        let call = h.calls[i];
        assert(v.inv());
        assert(call.made(v, c, v2, c2));
        if let Some(x) = call.takes_up() {
            assert(h.asleep(x, m));
        }
        law_call_keeps_links(call, v, c, v2, c2);
        assert forall|w: WaiterView| #[trigger] h.asleep(w, n) implies w.watched(v2) by {
            if call.begins(w) {
                lemma_begins(call, v, c, v2, c2, w);
            } else {
                assert(h.asleep(w, m));
                law_call_keeps_watch(call, v, c, v2, c2, w);
            }
        }
        assert forall|u: WaiterView, w: WaiterView| #[trigger]
            h.asleep(u, n) && #[trigger] h.asleep(w, n) implies u.undated() == w.undated()
            || wakeup::disjoint(u.nodes, w.nodes) by {
            if call.begins(u) && !call.begins(w) {
                assert(h.asleep(w, m));
                lemma_begins_apart(call, v, c, v2, c2, u, w);
            } else if !call.begins(u) && call.begins(w) {
                assert(h.asleep(u, m));
                lemma_begins_apart(call, v, c, v2, c2, w, u);
            } else if !call.begins(u) {
                assert(h.asleep(u, m) && h.asleep(w, m));
            }
        }
    }
}

/// While nobody ends its sleep or finds its process gone, a wait that went to sleep in
/// call `a` sleeps, and if it was woken, then by a call that has its thread woken.
proof fn lemma_sleeps_on(h: History, w: WaiterView, a: int, n: nat)
    requires
        h.valid(),
        h.orderly(),
        0 <= a < n <= h.calls.len(),
        h.calls[a].begins(w),
        forall|i: int|
            a < i < n ==> !(#[trigger] h.calls[i]).ends(w) && w.spared(
                h.regions[i],
                h.before[i],
            ),
    ensures
        h.asleep(w, n),
        w.wakes(h.regions[n as int]) != 0 ==> exists|i: int|
            a < i < n && #[trigger] h.wakes_at(w, i),
    decreases n,
{
    let i = n - 1;
    let m = i as nat;
    law_sleepers_are_watched(h, m);
    let (v, c, v2, c2) = (h.regions[i], h.before[i], h.regions[i + 1], h.after[i]);
    let call = h.calls[i];
    assert(v.inv());
    assert(call.made(v, c, v2, c2));
    if let Some(x) = call.takes_up() {
        assert(h.asleep(x, m));
    }
    if a == i {
        lemma_begins(call, v, c, v2, c2, w);
    } else {
        lemma_sleeps_on(h, w, a, m);
        law_call_keeps_watch(call, v, c, v2, c2, w);
        if w.wakes(v) == 0 && w.wakes(v2) != 0 {
            assert(w.roused(v2, c2));
            assert(h.wakes_at(w, i));
        }
    }
}

/// A wait that went to sleep in call `a`, whose sleep nobody has ended since and whose
/// process nobody found gone, and that could go on before call `b`, because it could be
/// satisfied, is alerted or has failed, was woken: some call between has changed its
/// futex word and has its thread woken.
pub proof fn law_no_wakeup_is_missed(h: History, w: WaiterView, a: int, b: int)
    requires
        h.valid(),
        h.orderly(),
        0 <= a < b <= h.calls.len(),
        h.calls[a].begins(w),
        forall|i: int|
            a < i < b ==> !(#[trigger] h.calls[i]).ends(w) && w.spared(
                h.regions[i],
                h.before[i],
            ),
        w.demand.satisfiable(h.regions[b]) || h.regions[b].alerted(w.alert) || !w.valid(
            h.regions[b],
        ),
    ensures
        h.regions[b].nodes[w.nodes[0] as int].seq != w.seq,
        exists|i: int| a < i < b && #[trigger] h.wakes_at(w, i),
{
    law_sleepers_are_watched(h, b as nat);
    lemma_sleeps_on(h, w, a, b as nat);
    wakeup::law_wait_that_can_go_on_was_woken(h.regions[b], w);
}

} // verus!
