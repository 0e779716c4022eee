//! No wakeup is missed: as long as nobody has woken a sleeping wait, it could not
//! go on anyway.
use crate::caller::CallerView;
use crate::error::Error;
use crate::object::{Object, SlotView};
use crate::objects;
use crate::pool;
use crate::reclaim;
use crate::region;
use crate::region::{NodeView, RegionView, NODE_COUNT};
use crate::satisfy;
use crate::satisfy::Demand;
use crate::signal;
use crate::sweep;
use crate::wait;
use crate::wait::{StepView, WaiterView};
use crate::word;
use crate::word::{MAX_RECURSION, SLOT_COUNT};
use vstd::prelude::*;

verus! {

/// How many of the nodes `s` are on a list.
pub open spec fn listed_count(nodes: Seq<NodeView>, s: Seq<u32>) -> nat
    decreases s.len(),
{
    if s.len() == 0 {
        0
    } else {
        listed_count(nodes, s.drop_last()) + if nodes[s.last() as int].on is Some {
            1nat
        } else {
            0
        }
    }
}

impl RegionView {
    /// Whether the tables have their full size.
    pub open spec fn sized(self) -> bool {
        &&& self.slots.len() == SLOT_COUNT
        &&& self.nodes.len() == NODE_COUNT
        &&& self.fresh <= NODE_COUNT
    }

    /// Whether nobody but the owner of the nodes `s` is registered to be woken
    /// through them.
    pub open spec fn exclusive(self, s: Seq<u32>) -> bool {
        forall|n: int|
            0 <= n < NODE_COUNT && (#[trigger] self.nodes[n]).on is Some && s.contains(
                self.nodes[n].word,
            ) ==> s.contains(n as u32)
    }

    /// Whether everybody who is registered is woken through a node in use.
    pub open spec fn linked(self) -> bool {
        forall|n: int|
            0 <= n < NODE_COUNT && (#[trigger] self.nodes[n]).on is Some ==> self.allocated(
                self.nodes[n].word,
            )
    }
}

impl WaiterView {
    /// How often the wait was woken since it went to sleep.
    pub open spec fn wakes(self, v: RegionView) -> int {
        (v.nodes[self.nodes[0] as int].seq - self.seq) % 0x1_0000_0000
    }

    /// The part of being watched that is about nodes: they are the wait's own,
    /// each that is on a list is on the right one and leads to the wait's futex
    /// word, and only a wake takes one off.
    pub open spec fn rooted(self, v: RegionView) -> bool {
        &&& self.slept(v)
        &&& v.exclusive(self.nodes)
        &&& forall|i: int|
            0 <= i < self.nodes.len() && v.nodes[(#[trigger] self.nodes[i]) as int].on is Some ==> {
                &&& v.nodes[self.nodes[i] as int].on == Some(
                    word::index_of(self.targets()[i]) as u32,
                )
                &&& v.nodes[self.nodes[i] as int].word == self.nodes[0]
            }
        &&& self.wakes(v) + listed_count(v.nodes, self.nodes) <= self.nodes.len()
        &&& self.wakes(v) == 0 ==> forall|i: int|
            0 <= i < self.nodes.len() ==> v.nodes[(#[trigger] self.nodes[i]) as int].on is Some
    }

    /// Whether the wait has reason to sleep: it is in order, not alerted, and not
    /// satisfiable.
    pub open spec fn calm(self, v: RegionView) -> bool {
        &&& self.valid(v)
        &&& !v.alerted(self.alert)
        &&& !self.demand.satisfiable(v)
    }

    /// Whether the sleeping wait was woken or has reason to sleep.
    pub open spec fn watched(self, v: RegionView) -> bool {
        &&& self.rooted(v)
        &&& self.wakes(v) == 0 ==> self.calm(v)
    }

    /// Whether the caller will wake the wait's thread if the wait was woken.
    pub open spec fn roused(self, v: RegionView, c: CallerView) -> bool {
        self.wakes(v) != 0 ==> c.wakes.contains(self.nodes[0])
    }

    /// Whether an operation that led from `v` and `c` to `v2` and `c2` keeps the
    /// wait watched, and wakes its thread if it woke the wait.
    pub open spec fn kept(
        self,
        v: RegionView,
        c: CallerView,
        v2: RegionView,
        c2: CallerView,
    ) -> bool {
        &&& self.watched(v2)
        &&& self.roused(v, c) ==> self.roused(v2, c2)
    }
}

proof fn lemma_count_same(a: Seq<NodeView>, b: Seq<NodeView>, s: Seq<u32>)
    requires
        forall|i: int|
            0 <= i < s.len() ==> (a[(#[trigger] s[i]) as int].on is Some) == (
            b[s[i] as int].on is Some),
    ensures
        listed_count(a, s) == listed_count(b, s),
    decreases s.len(),
{
    if s.len() > 0 {
        let t = s.drop_last();
        assert forall|i: int| 0 <= i < t.len() implies (a[(#[trigger] t[i]) as int].on is Some) == (
        b[t[i] as int].on is Some) by {
            assert(t[i] == s[i]);
        }
        lemma_count_same(a, b, t);
        assert(s[s.len() - 1] == s.last());
    }
}

proof fn lemma_count_one_less(a: Seq<NodeView>, b: Seq<NodeView>, s: Seq<u32>, k: int)
    requires
        s.no_duplicates(),
        0 <= k < s.len(),
        a[s[k] as int].on is Some,
        b[s[k] as int].on is None,
        forall|i: int|
            0 <= i < s.len() && i != k ==> (a[(#[trigger] s[i]) as int].on is Some) == (
            b[s[i] as int].on is Some),
    ensures
        listed_count(a, s) == listed_count(b, s) + 1,
    decreases s.len(),
{
    let t = s.drop_last();
    assert(s[s.len() - 1] == s.last());
    if k == s.len() - 1 {
        assert forall|i: int| 0 <= i < t.len() implies (a[(#[trigger] t[i]) as int].on is Some) == (
        b[t[i] as int].on is Some) by {
            assert(t[i] == s[i]);
        }
        lemma_count_same(a, b, t);
    } else {
        assert(t[k] == s[k]);
        assert(t.no_duplicates());
        assert forall|i: int| 0 <= i < t.len() && i != k implies (
        a[(#[trigger] t[i]) as int].on is Some) == (b[t[i] as int].on is Some) by {
            assert(t[i] == s[i]);
        }
        lemma_count_one_less(a, b, t, k);
    }
}

proof fn lemma_count_all(a: Seq<NodeView>, s: Seq<u32>)
    requires
        forall|i: int| 0 <= i < s.len() ==> a[(#[trigger] s[i]) as int].on is Some,
    ensures
        listed_count(a, s) == s.len(),
    decreases s.len(),
{
    if s.len() > 0 {
        let t = s.drop_last();
        assert forall|i: int| 0 <= i < t.len() implies a[(#[trigger] t[i]) as int].on is Some by {
            assert(t[i] == s[i]);
        }
        lemma_count_all(a, t);
        assert(s[s.len() - 1] == s.last());
    }
}

/// Changes that leave a wait's nodes alone keep it rooted.
proof fn lemma_rooted_kept(v: RegionView, v2: RegionView, w: WaiterView)
    requires
        w.rooted(v),
        v.nodes.len() == NODE_COUNT,
        w.slept(v2),
        v2.exclusive(w.nodes),
        forall|i: int|
            0 <= i < w.nodes.len() ==> {
                &&& v2.nodes[(#[trigger] w.nodes[i]) as int].on == v.nodes[w.nodes[i] as int].on
                &&& v2.nodes[w.nodes[i] as int].seq == v.nodes[w.nodes[i] as int].seq
                &&& v2.nodes[w.nodes[i] as int].word == v.nodes[w.nodes[i] as int].word
            },
    ensures
        w.rooted(v2),
        w.wakes(v2) == w.wakes(v),
{
    assert(v2.nodes[w.nodes[0] as int].seq == v.nodes[w.nodes[0] as int].seq);
    lemma_count_same(v.nodes, v2.nodes, w.nodes);
}

/// Waking one registered node keeps every wait rooted, and wakes its own.
proof fn lemma_wake_one(v: RegionView, n: u32, stamp: Option<u64>, w: WaiterView)
    requires
        w.rooted(v),
        v.nodes.len() == NODE_COUNT,
        v.fresh <= NODE_COUNT,
        n < NODE_COUNT,
        v.nodes[n as int].on is Some,
        v.nodes[n as int].word < NODE_COUNT,
    ensures
        ({
            let m = v.detached(n).bumped(v.nodes[n as int].word, stamp);
            &&& w.rooted(m)
            &&& w.nodes.contains(n) ==> w.wakes(m) != 0
            &&& !w.nodes.contains(n) ==> w.wakes(m) == w.wakes(v)
        }),
{
    let x = v.nodes[n as int].word;
    let m = v.detached(n).bumped(x, stamp);
    let s = w.nodes;
    let head = s[0];
    assert(v.allocated(s[0]));
    assert(m.exclusive(s)) by {
        assert forall|k: int|
            0 <= k < NODE_COUNT && (#[trigger] m.nodes[k]).on is Some && s.contains(
                m.nodes[k].word,
            ) implies s.contains(k as u32) by {
            assert(v.nodes[k].on is Some);
        }
    }
    assert forall|i: int| 0 <= i < s.len() implies m.allocated(#[trigger] s[i]) by {
        assert(v.allocated(s[i]));
    }
    if s.contains(n) {
        let k = s.index_of(n);
        assert(s[k] == n);
        assert(x == head);
        assert forall|i: int| 0 <= i < s.len() && i != k implies (
        v.nodes[(#[trigger] s[i]) as int].on is Some) == (m.nodes[s[i] as int].on is Some) by {
            assert(s[i] != n);
            assert(v.allocated(s[i]));
        }
        lemma_count_one_less(v.nodes, m.nodes, s, k);
        let seq = v.nodes[head as int].seq as int;
        assert(m.nodes[head as int].seq == (seq + 1) % 0x1_0000_0000);
        assert(w.wakes(v) < s.len() <= 65);
        assert(w.wakes(m) == w.wakes(v) + 1) by {
            assert((seq - w.seq) % 0x1_0000_0000 == w.wakes(v));
        }
    } else {
        assert(x != head) by {
            if x == head {
                assert(s.contains(head));
            }
        }
        assert forall|i: int| 0 <= i < s.len() implies {
            &&& m.nodes[(#[trigger] s[i]) as int].on == v.nodes[s[i] as int].on
            &&& m.nodes[s[i] as int].word == v.nodes[s[i] as int].word
        } by {
            assert(v.allocated(s[i]));
            assert(s.contains(s[i]));
        }
        lemma_count_same(v.nodes, m.nodes, s);
        assert(m.nodes[head as int].seq == v.nodes[head as int].seq);
    }
}

/// Waking a list of registered nodes keeps every wait rooted, and wakes those
/// with a node on it.
proof fn lemma_wake_list(v: RegionView, list: Seq<u32>, stamp: Option<u64>, w: WaiterView)
    requires
        w.rooted(v),
        v.nodes.len() == NODE_COUNT,
        v.fresh <= NODE_COUNT,
        list.no_duplicates(),
        forall|i: int|
            0 <= i < list.len() ==> {
                &&& (#[trigger] list[i]) < NODE_COUNT
                &&& v.nodes[list[i] as int].on is Some
                &&& v.nodes[list[i] as int].word < NODE_COUNT
            },
    ensures
        ({
            let m = v.woken_list(list, stamp);
            &&& w.rooted(m)
            &&& w.wakes(m) == 0 ==> {
                &&& w.wakes(v) == 0
                &&& forall|i: int| 0 <= i < list.len() ==> !w.nodes.contains(#[trigger] list[i])
            }
            &&& w.wakes(v) == 0 && w.wakes(m) != 0 ==> exists|i: int|
                0 <= i < list.len() && w.nodes.contains(#[trigger] list[i])
        }),
    decreases list.len(),
{
    if list.len() > 0 {
        let n = list[0];
        let x = v.detached(n).bumped(v.nodes[n as int].word, stamp);
        let t = list.drop_first();
        lemma_wake_one(v, n, stamp, w);
        assert forall|i: int| 0 <= i < t.len() implies {
            &&& (#[trigger] t[i]) < NODE_COUNT
            &&& x.nodes[t[i] as int].on is Some
            &&& x.nodes[t[i] as int].word < NODE_COUNT
        } by {
            assert(t[i] == list[i + 1]);
            assert(list[i + 1] != list[0]);
        }
        assert(t.no_duplicates());
        lemma_wake_list(x, t, stamp, w);
        let m = v.woken_list(list, stamp);
        if w.wakes(m) == 0 {
            assert forall|i: int| 0 <= i < list.len() implies !w.nodes.contains(
                #[trigger] list[i],
            ) by {
                if i > 0 {
                    assert(t[i - 1] == list[i]);
                }
            }
        }
        if w.wakes(v) == 0 && w.wakes(m) != 0 {
            if w.wakes(x) == 0 {
                let i = choose|i: int| 0 <= i < t.len() && w.nodes.contains(#[trigger] t[i]);
                assert(list[i + 1] == t[i]);
            } else {
                assert(w.nodes.contains(list[0]));
            }
        }
    }
}

/// Any change to object `o` alone keeps a wait watched, if everybody who waits on
/// that object is woken.
proof fn lemma_wake_keeps_watch(
    v: RegionView,
    c: CallerView,
    o: int,
    s: SlotView,
    v2: RegionView,
    c2: CallerView,
    stamp: Option<u64>,
    w: WaiterView,
)
    requires
        v.inv(),
        w.watched(v),
        0 <= o < SLOT_COUNT,
        v2 == (RegionView {
            slots: v.slots.update(o, s),
            ..v.woken_list(v.waiters[o], stamp)
        }),
        c2.wakes == c.wakes + v.words(o),
    ensures
        w.kept(v, c, v2, c2),
{
    let list = v.waiters[o];
    let m = v.woken_list(list, stamp);
    reclaim::lemma_woken_inv(v, o, stamp);
    assert forall|i: int| 0 <= i < list.len() implies {
        &&& (#[trigger] list[i]) < NODE_COUNT
        &&& v.nodes[list[i] as int].on is Some
        &&& v.nodes[list[i] as int].word < NODE_COUNT
    } by {
        assert(v.waiters[o][i] < NODE_COUNT);
        assert(v.nodes[v.waiters[o][i] as int].on is Some);
    }
    lemma_wake_list(v, list, stamp, w);
    assert(w.rooted(v2)) by {
        assert forall|i: int| 0 <= i < w.nodes.len() implies v2.allocated(
            #[trigger] w.nodes[i],
        ) by {
            assert(m.allocated(w.nodes[i]));
        }
        assert(v2.exclusive(w.nodes)) by {
            assert(m.exclusive(w.nodes));
            assert(v2.nodes == m.nodes);
        }
    }
    assert(w.wakes(v2) == w.wakes(m));
    if w.wakes(v2) == 0 {
        assert forall|i: int| 0 <= i < w.targets().len() implies word::index_of(
            #[trigger] w.targets()[i],
        ) != o by {
            let n = w.nodes[i];
            assert(v.allocated(n));
            assert(v.nodes[n as int].on is Some);
            if word::index_of(w.targets()[i]) == o {
                assert(v.waiters[o].contains(n));
                let j = list.index_of(n);
                assert(w.nodes.contains(list[j]));
            }
        }
        lemma_calm_elsewhere(v, v2, o, w);
    }
    if w.roused(v, c) && w.wakes(v2) != 0 {
        if w.wakes(v) == 0 {
            let i = choose|i: int| 0 <= i < list.len() && w.nodes.contains(#[trigger] list[i]);
            let k = w.nodes.index_of(list[i]);
            assert(w.nodes[k] == list[i]);
            assert(v.nodes[list[i] as int].word == w.nodes[0]);
            assert(v.words(o)[i] == w.nodes[0]);
            assert(c2.wakes[c.wakes.len() + i] == w.nodes[0]);
        } else {
            let i = c.wakes.index_of(w.nodes[0]);
            assert(c2.wakes[i] == w.nodes[0]);
        }
    }
}

/// A change to an object that a wait does not name does not concern it.
proof fn lemma_calm_elsewhere(v: RegionView, v2: RegionView, o: int, w: WaiterView)
    requires
        w.wf(),
        w.calm(v),
        v.slots.len() == SLOT_COUNT,
        v2.slots.len() == SLOT_COUNT,
        forall|j: int| 0 <= j < SLOT_COUNT && j != o ==> #[trigger] v2.slots[j] == v.slots[j],
        forall|i: int|
            0 <= i < w.targets().len() ==> word::index_of(#[trigger] w.targets()[i]) != o,
    ensures
        w.calm(v2),
{
    let h = w.demand.handles;
    assert forall|i: int| 0 <= i < h.len() implies v2.slot_at(#[trigger] h[i]) == v.slot_at(
        h[i],
    ) by {
        assert(w.targets()[i] == h[i]);
    }
    if w.alert != 0 {
        assert(w.targets()[h.len() as int] == w.alert);
    }
    assert forall|i: int| 0 <= i < h.len() implies v2.waitable(#[trigger] h[i]) by {
        assert(v.waitable(h[i]));
        assert(v2.slot_at(h[i]) == v.slot_at(h[i]));
    }
    assert forall|i: int| 0 <= i < h.len() implies #[trigger] w.demand.ready(v2, i)
        == w.demand.ready(v, i) by {
        assert(v2.slot_at(h[i]) == v.slot_at(h[i]));
    }
    lemma_satisfiable_same(w.demand, v, v2);
}

proof fn lemma_satisfiable_same(d: Demand, v: RegionView, v2: RegionView)
    requires
        forall|i: int| 0 <= i < d.handles.len() ==> #[trigger] d.ready(v2, i) == d.ready(v, i),
    ensures
        d.satisfiable(v2) == d.satisfiable(v),
{
    if d.all {
        if d.satisfiable(v) {
            assert forall|i: int| 0 <= i < d.handles.len() implies #[trigger] d.ready(v2, i) by {
                assert(d.ready(v, i));
            }
        }
        if d.satisfiable(v2) {
            assert forall|i: int| 0 <= i < d.handles.len() implies #[trigger] d.ready(v, i) by {
                assert(d.ready(v2, i));
            }
        }
    } else {
        if d.satisfiable(v) {
            let i = choose|i: int| 0 <= i < d.handles.len() && #[trigger] d.ready(v, i);
            assert(d.ready(v2, i));
        }
        if d.satisfiable(v2) {
            let i = choose|i: int| 0 <= i < d.handles.len() && #[trigger] d.ready(v2, i);
            assert(d.ready(v, i));
        }
    }
}

/// An object is in no more ways ready in state `t` than in state `s`.
pub open spec fn no_readier(s: SlotView, t: SlotView) -> bool {
    &&& t.used == s.used
    &&& t.generation == s.generation
    &&& (t.object is Reserved) == (s.object is Reserved)
    &&& (t.object is Event) == (s.object is Event)
    &&& (t.object is Event && t.object->Event_signaled) ==> s.object->Event_signaled
    &&& forall|owner: u32, e: u64| #[trigger]
        t.acquirable(owner, e) ==> s.acquirable(owner, e)
}

/// Changes that make no object readier keep a wait watched, without waking
/// anybody.
proof fn lemma_lower_keeps_watch(
    v: RegionView,
    c: CallerView,
    v2: RegionView,
    c2: CallerView,
    w: WaiterView,
)
    requires
        v.inv(),
        w.watched(v),
        v2.nodes == v.nodes,
        v2.free == v.free,
        v2.fresh == v.fresh,
        v2.slots.len() == SLOT_COUNT,
        forall|j: int| 0 <= j < SLOT_COUNT ==> no_readier(v.slots[j], #[trigger] v2.slots[j]),
        c2.wakes == c.wakes,
    ensures
        w.kept(v, c, v2, c2),
{
    let s = w.nodes;
    assert forall|i: int| 0 <= i < s.len() implies v2.allocated(#[trigger] s[i]) by {
        assert(v.allocated(s[i]));
    }
    assert(v2.exclusive(s)) by {
        assert(v.exclusive(s));
    }
    lemma_rooted_kept(v, v2, w);
    if w.wakes(v2) == 0 {
        let h = w.demand.handles;
        assert forall|i: int| 0 <= i < h.len() implies v2.waitable(#[trigger] h[i]) by {
            assert(v.waitable(h[i]));
            assert(no_readier(v.slot_at(h[i]), v2.slots[word::index_of(h[i])]));
        }
        if w.alert != 0 {
            assert(no_readier(v.slot_at(w.alert), v2.slots[word::index_of(w.alert)]));
        }
        assert forall|i: int| 0 <= i < h.len() && #[trigger] w.demand.ready(v2, i) implies w.demand.ready(
            v,
            i,
        ) by {
            assert(no_readier(v.slot_at(h[i]), v2.slots[word::index_of(h[i])]));
        }
        if w.demand.satisfiable(v2) {
            if w.demand.all {
                assert forall|i: int| 0 <= i < h.len() implies #[trigger] w.demand.ready(v, i) by {
                    assert(w.demand.ready(v2, i));
                }
            } else {
                let i = choose|i: int| 0 <= i < h.len() && #[trigger] w.demand.ready(v2, i);
                assert(w.demand.ready(v, i));
            }
        }
    }
}

/// Waking a list does not depend on the table.
pub proof fn lemma_table_apart(v: RegionView, slots: Seq<SlotView>, list: Seq<u32>, stamp: Option<u64>)
    ensures
        (RegionView { slots, ..v }).woken_list(list, stamp) == (RegionView {
            slots,
            ..v.woken_list(list, stamp)
        }),
    decreases list.len(),
{
    if list.len() > 0 {
        let n = list[0];
        let u = RegionView { slots, ..v };
        let x = v.detached(n).bumped(v.nodes[n as int].word, stamp);
        let y = u.detached(n).bumped(u.nodes[n as int].word, stamp);
        assert(y == (RegionView { slots, ..x }));
        lemma_table_apart(x, slots, list.drop_first(), stamp);
    }
}

/// A change to object `o` that is then signaled keeps a wait watched.
proof fn lemma_signal_keeps_watch(
    v: RegionView,
    c: CallerView,
    o: int,
    s: SlotView,
    c1: CallerView,
    v2: RegionView,
    c2: CallerView,
    w: WaiterView,
)
    requires
        v.inv(),
        w.watched(v),
        0 <= o < SLOT_COUNT,
        c1.wakes == c.wakes,
        (v2, c2) == region::signaled(v.with_slot(o, s), c1, o) || (v2, c2) == region::woken(
            v.with_slot(o, s),
            c1,
            o,
        ),
    ensures
        w.kept(v, c, v2, c2),
{
    let m = v.with_slot(o, s);
    let list = v.waiters[o];
    assert(m.waiters[o] == list);
    assert(m.words(o) =~= v.words(o));
    if list.len() == 0 && (v2, c2) == region::signaled(m, c1, o) {
        assert(c2.wakes =~= c.wakes + v.words(o));
        lemma_wake_keeps_watch(v, c, o, s, v2, c2, None, w);
    } else {
        let stamp = c1.stamp();
        lemma_table_apart(v, m.slots, list, stamp);
        lemma_wake_keeps_watch(v, c, o, s, v2, c2, stamp, w);
    }
}

impl WaiterView {
    /// Whether the process of the wait is not among those that are gone.
    pub open spec fn spared(self, v: RegionView, c: CallerView) -> bool {
        forall|i: int|
            0 <= i < self.nodes.len() ==> !c.gone(v.nodes[(#[trigger] self.nodes[i]) as int].pid)
    }
}

proof fn lemma_purge_keeps_watch(v: RegionView, c: CallerView, w: WaiterView)
    requires
        v.inv(),
        w.watched(v),
        w.spared(v, c),
    ensures
        w.kept(v, c, v.purged(c), c),
        w.spared(v.purged(c), c),
{
    reclaim::lemma_purged_inv(v, c);
    let m = v.purged(c);
    assert forall|i: int| 0 <= i < w.nodes.len() implies m.allocated(#[trigger] w.nodes[i])
        && m.nodes[w.nodes[i] as int] == v.nodes[w.nodes[i] as int] by {
        assert(v.allocated(w.nodes[i]));
    }
    assert(m.exclusive(w.nodes)) by {
        assert forall|n: int|
            0 <= n < NODE_COUNT && (#[trigger] m.nodes[n]).on is Some && w.nodes.contains(
                m.nodes[n].word,
            ) implies w.nodes.contains(n as u32) by {
            assert(v.nodes[n].on is Some);
        }
    }
    lemma_rooted_kept(v, m, w);
    if w.wakes(m) == 0 {
        lemma_calm_elsewhere(v, m, -1, w);
    }
}

proof fn lemma_reap_keeps_watch(v: RegionView, c: CallerView, k: nat, w: WaiterView)
    requires
        v.inv(),
        w.watched(v),
        k <= SLOT_COUNT,
    ensures
        w.kept(v, c, sweep::reaped_upto(v, c, k).0, sweep::reaped_upto(v, c, k).1),
    decreases k,
{
    if k > 0 {
        lemma_reap_keeps_watch(v, c, (k - 1) as nat, w);
        reclaim::lemma_reaped(v, c, (k - 1) as nat);
        let (v1, c1, _) = sweep::reaped_upto(v, c, (k - 1) as nat);
        if v1.orphaned(c1, k - 1) {
            assert(k - 1 > 0);
            reclaim::lemma_closed_inv(v1, c1, k - 1);
            let (v2, c2) = sweep::closed(v1, c1, k - 1);
            lemma_wake_keeps_watch(
                v1,
                c1,
                k - 1,
                v1.slots[k - 1].freed(),
                v2,
                c2,
                c1.stamp(),
                w,
            );
        }
    }
}

/// A sweep misses no wakeup of a process that is not gone.
pub proof fn law_sweep_keeps_watch(v: RegionView, c: CallerView, w: WaiterView)
    requires
        v.inv(),
        w.watched(v),
        w.spared(v, c),
    ensures
        w.kept(v, c, sweep::swept(v, c).0, sweep::swept(v, c).1),
{
    lemma_purge_keeps_watch(v, c, w);
    reclaim::lemma_purged_inv(v, c);
    lemma_reap_keeps_watch(v.purged(c), c, SLOT_COUNT as nat, w);
}

/// The automatic sweep misses no wakeup of a process that is not gone.
pub proof fn law_auto_sweep_keeps_watch(v: RegionView, c: CallerView, w: WaiterView)
    requires
        v.inv(),
        w.watched(v),
        w.spared(v, c),
    ensures
        w.kept(v, c, sweep::auto_swept(v, c).0, sweep::auto_swept(v, c).1),
{
    if sweep::sweep_due(v, c) {
        let c1 = c.ticked();
        assert(w.spared(v, c1));
        law_sweep_keeps_watch(v, c1, w);
        let (m, mc, _) = sweep::swept(v, c1);
        let (v2, c2) = sweep::auto_swept(v, c);
        reclaim::law_sweep_frees_orphans(v, c1);
        lemma_same_watch(m, v2, w);
    }
}

/// What is not about nodes and objects does not concern a wait.
proof fn lemma_same_watch(v: RegionView, v2: RegionView, w: WaiterView)
    requires
        v.inv(),
        w.watched(v),
        v2.nodes == v.nodes,
        v2.free == v.free,
        v2.fresh == v.fresh,
        v2.slots == v.slots,
    ensures
        w.watched(v2),
        w.wakes(v2) == w.wakes(v),
{
    assert forall|i: int| 0 <= i < w.nodes.len() implies v2.allocated(#[trigger] w.nodes[i]) by {
        assert(v.allocated(w.nodes[i]));
    }
    assert(v2.exclusive(w.nodes)) by {
        assert(v.exclusive(w.nodes));
    }
    lemma_rooted_kept(v, v2, w);
    if w.wakes(v2) == 0 {
        lemma_calm_elsewhere(v, v2, -1, w);
    }
}

/// Releasing a semaphore misses no wakeup.
pub proof fn law_sem_release_keeps_watch(
    v: RegionView,
    c: CallerView,
    handle: u32,
    n: u32,
    v2: RegionView,
    c2: CallerView,
    res: Result<u32, Error>,
    w: WaiterView,
)
    requires
        v.inv(),
        w.watched(v),
        w.spared(v, c),
        ({
            let (m, mc) = sweep::auto_swept(v, c);
            signal::sem_releases(m, mc, handle, n, v2, c2, res)
        }),
    ensures
        w.kept(v, c, v2, c2),
{
    law_auto_sweep_keeps_watch(v, c, w);
    reclaim::law_auto_sweep(v, c);
    let (m, mc) = sweep::auto_swept(v, c);
    if res is Ok {
        let o = word::index_of(handle);
        let obj = m.object_at(handle)->0;
        let s = m.slots[o].with_object(
            Object::Semaphore {
                count: (obj->Semaphore_count + n) as u32,
                max: obj->Semaphore_max,
            },
        );
        lemma_signal_keeps_watch(
            m,
            mc,
            o,
            s,
            mc.bumped(crate::stats::SIGNAL_OPS),
            v2,
            c2,
            w,
        );
    }
}

/// Setting an event misses no wakeup.
pub proof fn law_event_set_keeps_watch(
    v: RegionView,
    c: CallerView,
    handle: u32,
    v2: RegionView,
    c2: CallerView,
    res: Result<u32, Error>,
    w: WaiterView,
)
    requires
        v.inv(),
        w.watched(v),
        w.spared(v, c),
        ({
            let (m, mc) = sweep::auto_swept(v, c.bumped(crate::stats::SIGNAL_OPS));
            signal::event_sets(m, mc, handle, v2, c2, res)
        }),
    ensures
        w.kept(v, c, v2, c2),
{
    let c0 = c.bumped(crate::stats::SIGNAL_OPS);
    assert(w.spared(v, c0));
    law_auto_sweep_keeps_watch(v, c0, w);
    reclaim::law_auto_sweep(v, c0);
    let (m, mc) = sweep::auto_swept(v, c0);
    if let Some(Object::Event { manual, signaled }) = m.object_at(handle) {
        if !signaled {
            let o = word::index_of(handle);
            let s = m.slots[o].with_object(Object::Event { manual, signaled: true });
            lemma_signal_keeps_watch(m, mc, o, s, mc, v2, c2, w);
        }
    }
}

/// Resetting an event misses no wakeup.
pub proof fn law_event_reset_keeps_watch(
    v: RegionView,
    c: CallerView,
    handle: u32,
    v2: RegionView,
    c2: CallerView,
    res: Result<u32, Error>,
    w: WaiterView,
)
    requires
        v.inv(),
        w.watched(v),
        w.spared(v, c),
        ({
            let (m, mc) = sweep::auto_swept(v, c.bumped(crate::stats::SIGNAL_OPS));
            signal::event_resets(m, handle, v2, res) && c2 == mc
        }),
    ensures
        w.kept(v, c, v2, c2),
{
    let c0 = c.bumped(crate::stats::SIGNAL_OPS);
    assert(w.spared(v, c0));
    law_auto_sweep_keeps_watch(v, c0, w);
    reclaim::law_auto_sweep(v, c0);
    let (m, mc) = sweep::auto_swept(v, c0);
    if m.object_at(handle) is Some && m.object_at(handle)->0 is Event {
        lemma_lower_keeps_watch(m, mc, v2, c2, w);
    }
}

/// Pulsing an event misses no wakeup.
pub proof fn law_event_pulse_keeps_watch(
    v: RegionView,
    c: CallerView,
    handle: u32,
    v2: RegionView,
    c2: CallerView,
    res: Result<u32, Error>,
    w: WaiterView,
)
    requires
        v.inv(),
        w.watched(v),
        w.spared(v, c),
        ({
            let (m, mc) = sweep::auto_swept(v, c);
            signal::event_pulses(m, mc, handle, v2, c2, res)
        }),
    ensures
        w.kept(v, c, v2, c2),
{
    law_auto_sweep_keeps_watch(v, c, w);
    reclaim::law_auto_sweep(v, c);
    let (m, mc) = sweep::auto_swept(v, c);
    if m.object_at(handle) is Some && m.object_at(handle)->0 is Event {
        let o = word::index_of(handle);
        lemma_signal_keeps_watch(m, mc, o, m.pulsed(handle).slots[o], mc, v2, c2, w);
    }
}

/// Unlocking a mutex misses no wakeup.
pub proof fn law_mutex_unlock_keeps_watch(
    v: RegionView,
    c: CallerView,
    handle: u32,
    owner: u32,
    v2: RegionView,
    c2: CallerView,
    res: Result<u32, Error>,
    w: WaiterView,
)
    requires
        v.inv(),
        w.watched(v),
        w.spared(v, c),
        owner != 0,
        ({
            let (m, mc) = sweep::auto_swept(v, c.bumped(crate::stats::SIGNAL_OPS));
            signal::mutex_unlocks(m, mc, handle, owner, v2, c2, res)
        }),
    ensures
        w.kept(v, c, v2, c2),
{
    let c0 = c.bumped(crate::stats::SIGNAL_OPS);
    assert(w.spared(v, c0));
    law_auto_sweep_keeps_watch(v, c0, w);
    reclaim::law_auto_sweep(v, c0);
    let (m, mc) = sweep::auto_swept(v, c0);
    if let Some(Object::Mutex { owner: holder, count, abandoned }) = m.object_at(handle) {
        let o = word::index_of(handle);
        if holder == owner {
            if count == 1 || count == MAX_RECURSION {
                let s = m.slots[o].with_object(signal::unlocked(owner, count, abandoned));
                lemma_signal_keeps_watch(m, mc, o, s, mc, v2, c2, w);
            } else {
                lemma_lower_keeps_watch(m, mc, v2, c2, w);
            }
        }
    }
}

/// Abandoning a mutex misses no wakeup.
pub proof fn law_mutex_kill_keeps_watch(
    v: RegionView,
    c: CallerView,
    handle: u32,
    owner: u32,
    v2: RegionView,
    c2: CallerView,
    res: Result<(), Error>,
    w: WaiterView,
)
    requires
        v.inv(),
        w.watched(v),
        owner != 0,
        signal::mutex_kills(
            v,
            c.bumped(crate::stats::SIGNAL_OPS),
            handle,
            owner,
            v2,
            c2,
            res,
        ),
    ensures
        w.kept(v, c, v2, c2),
{
    if res is Ok {
        let o = word::index_of(handle);
        let s = v.slots[o].with_object(Object::Mutex { owner: 0, count: 0, abandoned: true });
        lemma_signal_keeps_watch(
            v,
            c,
            o,
            s,
            c.bumped(crate::stats::SIGNAL_OPS),
            v2,
            c2,
            w,
        );
    }
}

/// Closing an object misses no wakeup: those who wait on it are woken.
pub proof fn law_close_keeps_watch(v: RegionView, c: CallerView, handle: u32, w: WaiterView)
    requires
        v.inv(),
        w.watched(v),
        v.lookup(handle) is Some,
        word::index_of(handle) != 0,
    ensures
        ({
            let (v2, c2) = sweep::closed(v, c, word::index_of(handle));
            w.kept(v, c, v2, c2)
        }),
{
    let i = word::index_of(handle);
    reclaim::lemma_closed_inv(v, c, i);
    let (v2, c2) = sweep::closed(v, c, i);
    lemma_wake_keeps_watch(v, c, i, v.slots[i].freed(), v2, c2, c.stamp(), w);
}

/// Creating an object misses no wakeup.
pub proof fn law_create_keeps_watch(
    v: RegionView,
    c: CallerView,
    object: Object,
    v2: RegionView,
    c2: CallerView,
    res: Result<u32, Error>,
    w: WaiterView,
)
    requires
        v.inv(),
        w.watched(v),
        w.spared(v, c),
        objects::creates(v, c, object, v2, c2, res),
    ensures
        w.kept(v, c, v2, c2),
{
    let (m, mc) = objects::room(v, c);
    if v.free_slot() is None {
        law_sweep_keeps_watch(v, c, w);
        reclaim::law_sweep_frees_orphans(v, c);
    }
    if let Some(i) = m.free_slot() {
        region::law_search_finds_free_slot(m);
        assert forall|k: int| 0 <= k < w.nodes.len() implies v2.allocated(#[trigger] w.nodes[k]) by {
            assert(m.allocated(w.nodes[k]));
        }
        assert(v2.exclusive(w.nodes)) by {
            assert(m.exclusive(w.nodes));
        }
        lemma_rooted_kept(m, v2, w);
        if w.wakes(v2) == 0 {
            assert forall|k: int| 0 <= k < w.targets().len() implies word::index_of(
                #[trigger] w.targets()[k],
            ) != i by {
                let h = w.demand.handles;
                if k < h.len() {
                    assert(m.waitable(h[k]));
                }
            }
            lemma_calm_elsewhere(m, v2, i, w);
        }
    }
}

/// Changes that leave the objects and a wait's nodes alone keep it watched.
proof fn lemma_apart_keeps_watch(v: RegionView, v2: RegionView, w: WaiterView)
    requires
        v.sized(),
        w.watched(v),
        v2.slots == v.slots,
        v2.exclusive(w.nodes),
        forall|i: int|
            0 <= i < w.nodes.len() ==> {
                &&& v2.allocated(#[trigger] w.nodes[i])
                &&& v2.nodes[w.nodes[i] as int] == v.nodes[w.nodes[i] as int]
            },
    ensures
        w.watched(v2),
        w.wakes(v2) == w.wakes(v),
{
    lemma_rooted_kept(v, v2, w);
    if w.wakes(v2) == 0 {
        lemma_calm_elsewhere(v, v2, -1, w);
    }
}

/// No node belongs to both.
pub open spec fn disjoint(s: Seq<u32>, t: Seq<u32>) -> bool {
    forall|i: int| 0 <= i < s.len() ==> !t.contains(#[trigger] s[i])
}

proof fn lemma_release_keeps_watch(v: RegionView, s: Seq<u32>, w: WaiterView)
    requires
        v.sized(),
        w.watched(v),
        disjoint(w.nodes, s),
    ensures
        w.watched(v.released(s)),
        w.wakes(v.released(s)) == w.wakes(v),
{
    let m = v.released(s);
    assert forall|i: int| 0 <= i < w.nodes.len() implies m.allocated(#[trigger] w.nodes[i]) by {
        let n = w.nodes[i];
        assert(v.allocated(n));
        if m.free.contains(n) {
            let j = m.free.index_of(n);
            if j < s.len() {
                assert(s.reverse()[j] == s[s.len() - 1 - j]);
                assert(s.contains(n));
            } else {
                assert(v.free[j - s.len()] == n);
            }
        }
    }
    assert(m.exclusive(w.nodes)) by {
        assert(v.exclusive(w.nodes));
    }
    lemma_apart_keeps_watch(v, m, w);
}

proof fn lemma_detach_keeps_watch(v: RegionView, s: Seq<u32>, w: WaiterView)
    requires
        v.sized(),
        w.watched(v),
        disjoint(w.nodes, s),
        v.all_allocated(s),
    ensures
        w.watched(v.detached_all(s)),
        w.wakes(v.detached_all(s)) == w.wakes(v),
{
    let m = v.detached_all(s);
    assert forall|i: int| 0 <= i < s.len() implies #[trigger] s[i] < NODE_COUNT by {
        assert(v.allocated(s[i]));
    }
    pool::lemma_detached_all(v, s);
    assert forall|i: int| 0 <= i < w.nodes.len() implies {
        &&& m.allocated(#[trigger] w.nodes[i])
        &&& m.nodes[w.nodes[i] as int] == v.nodes[w.nodes[i] as int]
    } by {
        assert(v.allocated(w.nodes[i]));
    }
    assert(m.exclusive(w.nodes)) by {
        assert forall|n: int|
            0 <= n < NODE_COUNT && (#[trigger] m.nodes[n]).on is Some && w.nodes.contains(
                m.nodes[n].word,
            ) implies w.nodes.contains(n as u32) by {
            assert(v.nodes[n].on is Some);
        }
    }
    lemma_apart_keeps_watch(v, m, w);
}

proof fn lemma_handing_out_keeps_watch(v: RegionView, pid: u32, n: nat, w: WaiterView)
    requires
        v.inv(),
        w.watched(v),
        n <= v.available(),
    ensures
        w.watched(v.handed_out(pid, n)),
        w.wakes(v.handed_out(pid, n)) == w.wakes(v),
        disjoint(w.nodes, v.given(n)),
{
    let m = v.handed_out(pid, n);
    pool::lemma_given(v, pid, n);
    assert forall|i: int| 0 <= i < w.nodes.len() implies {
        &&& m.allocated(#[trigger] w.nodes[i])
        &&& m.nodes[w.nodes[i] as int] == v.nodes[w.nodes[i] as int]
        &&& !v.given(n).contains(w.nodes[i])
    } by {
        assert(v.allocated(w.nodes[i]));
        let x = w.nodes[i] as int;
        assert(m.nodes[x] == v.nodes[x]);
    }
    assert(m.exclusive(w.nodes)) by {
        assert forall|k: int|
            0 <= k < NODE_COUNT && (#[trigger] m.nodes[k]).on is Some && w.nodes.contains(
                m.nodes[k].word,
            ) implies w.nodes.contains(k as u32) by {
            assert(v.nodes[k].on is Some);
            assert(m.nodes[k].word == v.nodes[k].word);
        }
    }
    lemma_apart_keeps_watch(v, m, w);
}

proof fn lemma_enrolling_keeps_watch(
    v: RegionView,
    t: Seq<u32>,
    s: Seq<u32>,
    w: WaiterView,
)
    requires
        v.sized(),
        w.watched(v),
        v.all_allocated(s),
        0 < s.len() <= t.len(),
        disjoint(w.nodes, s),
    ensures
        w.watched(v.enrolled(t, s, s.len())),
        w.wakes(v.enrolled(t, s, s.len())) == w.wakes(v),
{
    let m = v.enrolled(t, s, s.len());
    assert forall|i: int| 0 <= i < s.len() implies #[trigger] s[i] < NODE_COUNT by {
        assert(v.allocated(s[i]));
    }
    pool::lemma_enrolled(v, t, s, s.len());
    assert(s.take(s.len() as int) =~= s);
    assert forall|i: int| 0 <= i < w.nodes.len() implies {
        &&& m.allocated(#[trigger] w.nodes[i])
        &&& m.nodes[w.nodes[i] as int] == v.nodes[w.nodes[i] as int]
    } by {
        assert(v.allocated(w.nodes[i]));
        let x = w.nodes[i] as int;
        assert(m.nodes[x] == v.nodes[x]);
    }
    assert(m.exclusive(w.nodes)) by {
        assert forall|k: int|
            0 <= k < NODE_COUNT && (#[trigger] m.nodes[k]).on is Some && w.nodes.contains(
                m.nodes[k].word,
            ) implies w.nodes.contains(k as u32) by {
            if s.contains(k as u32) {
                let i = s.index_of(k as u32);
                assert(m.nodes[s[i] as int].word == s[0]);
                let j = w.nodes.index_of(s[0]);
                assert(w.nodes[j] == s[0]);
                assert(s.contains(s[0]));
            } else {
                assert(v.nodes[k].on is Some);
            }
        }
    }
    lemma_apart_keeps_watch(v, m, w);
}

/// An attempt to meet a demand makes no object readier, and one in vain changes
/// nothing.
pub proof fn lemma_attempt_lowers(v: RegionView, d: Demand)
    requires
        v.inv(),
        d.entry.len() == d.handles.len(),
        v.all_waitable(d.handles),
    ensures
        ({
            let (m, res) = d.attempt(v);
            &&& forall|j: int| 0 <= j < SLOT_COUNT ==> no_readier(v.slots[j], #[trigger] m.slots[j])
            &&& res is None ==> m == v
        }),
{
    let (m, res) = d.attempt(v);
    satisfy::lemma_first(d, v, true);
    satisfy::lemma_first(d, v, false);
    if d.all {
        if d.first(v, false) is None {
            assert forall|j: int| 0 <= j < SLOT_COUNT implies no_readier(
                v.slots[j],
                #[trigger] m.slots[j],
            ) by {
                if satisfy::names(d.handles, j) {
                    let i = choose|i: int|
                        0 <= i < d.handles.len() && word::index_of(#[trigger] d.handles[i]) == j;
                    assert(d.ready(v, i));
                    assert(v.waitable(d.handles[i]));
                }
            }
        }
    } else {
        if let Some(i) = d.first(v, true) {
            let one = seq![d.handles[i]];
            assert forall|j: int| 0 <= j < SLOT_COUNT implies no_readier(
                v.slots[j],
                #[trigger] m.slots[j],
            ) by {
                if satisfy::names(one, j) {
                    assert(word::index_of(one[0]) == j);
                    assert(d.ready(v, i));
                    assert(v.waitable(d.handles[i]));
                }
            }
        }
    }
}

/// The table of a region in which objects changed only as an attempt to meet a
/// demand changes them is in order.
proof fn lemma_attempt_inv(v: RegionView, d: Demand)
    requires
        v.inv(),
        d.owner != 0,
        d.entry.len() == d.handles.len(),
        v.all_waitable(d.handles),
    ensures
        d.attempt(v).0.inv(),
{
    let m = d.attempt(v).0;
    wait::lemma_attempt_keeps(v, d);
    satisfy::lemma_first(d, v, true);
    satisfy::lemma_first(d, v, false);
    assert forall|j: int| 0 < j < SLOT_COUNT && (#[trigger] m.slots[j]).used implies {
        &&& m.slots[j].object.valid()
        &&& !(m.slots[j].object is Reserved)
    } by {
        assert(v.slots[j].used);
        if d.all && d.first(v, false) is None && satisfy::names(d.handles, j) {
            let i = choose|i: int|
                0 <= i < d.handles.len() && word::index_of(#[trigger] d.handles[i]) == j;
            assert(d.ready(v, i));
        }
        if !d.all && d.first(v, true) is Some {
            let i = d.first(v, true)->0;
            let one = seq![d.handles[i]];
            if satisfy::names(one, j) {
                assert(word::index_of(one[0]) == j);
                assert(d.ready(v, i));
            }
        }
    }
    assert(m.slots[0].used == v.slots[0].used);
    if d.all {
        if satisfy::names(d.handles, 0) {
            let i = choose|i: int|
                0 <= i < d.handles.len() && word::index_of(#[trigger] d.handles[i]) == 0;
            assert(v.waitable(d.handles[i]));
        }
    }
    assert forall|n: int| 0 <= n < NODE_COUNT && (#[trigger] m.nodes[n]).on is Some implies {
        &&& n < m.fresh
        &&& m.nodes[n].on->0 < SLOT_COUNT
        &&& m.slots[m.nodes[n].on->0 as int].used
        &&& m.waiters[m.nodes[n].on->0 as int].contains(n as u32)
        &&& m.nodes[n].word < NODE_COUNT
    } by {
        assert(v.nodes[n].on is Some);
        let o = v.nodes[n].on->0 as int;
        assert(m.slots[o].used == v.slots[o].used);
    }
    assert forall|o: int, i: int|
        0 <= o < SLOT_COUNT && 0 <= i < m.waiters[o].len() implies {
        &&& #[trigger] m.waiters[o][i] < NODE_COUNT
        &&& m.nodes[m.waiters[o][i] as int].on == Some(o as u32)
    } by {
        assert(v.waiters[o][i] < NODE_COUNT);
    }
}

/// A pass of another wait keeps a wait watched.
proof fn lemma_pass_keeps_watch(v: RegionView, c: CallerView, u: WaiterView, w: WaiterView)
    requires
        v.inv(),
        w.watched(v),
        u.wf(),
        v.all_allocated(u.nodes),
        disjoint(w.nodes, u.nodes),
    ensures
        w.kept(v, c, u.pass(v, c).0, u.pass(v, c).1),
{
    let (v2, c2, step) = u.pass(v, c);
    if !u.valid(v) || v.alerted(u.alert) {
        lemma_release_keeps_watch(v, u.nodes, w);
    } else {
        let d = u.demand_at(v);
        let (m, res) = d.attempt(v);
        assert(v.all_waitable(d.handles));
        lemma_attempt_lowers(v, d);
        lemma_attempt_inv(v, d);
        wait::lemma_attempt_keeps(v, d);
        lemma_lower_keeps_watch(v, c, m, c, w);
        if res is Some || u.expired(c.now) {
            lemma_release_keeps_watch(m, u.nodes, w);
        } else {
            lemma_block_keeps_watch(m, c, (WaiterView { demand: d, ..u }), w);
        }
    }
}

proof fn lemma_block_keeps_watch(v: RegionView, c: CallerView, u: WaiterView, w: WaiterView)
    requires
        v.inv(),
        w.watched(v),
        u.wf(),
        v.all_allocated(u.nodes),
        disjoint(w.nodes, u.nodes),
    ensures
        w.watched(u.blocked(v, c).0),
        w.wakes(u.blocked(v, c).0) == w.wakes(v),
        u.blocked(v, c).1.wakes == c.wakes,
{
    let n = u.targets().len();
    if u.nodes.len() == 0 {
        if v.available() < n {
            let k = v.available() as nat;
            lemma_handing_out_keeps_watch(v, c.pid, k, w);
            lemma_release_keeps_watch(v.handed_out(c.pid, k), v.given(k), w);
        } else {
            lemma_handing_out_keeps_watch(v, c.pid, n, w);
            pool::lemma_given(v, c.pid, n);
            lemma_enrolling_keeps_watch(v.handed_out(c.pid, n), u.targets(), v.given(n), w);
        }
    } else {
        lemma_enrolling_keeps_watch(v, u.targets(), u.nodes, w);
    }
}

/// Starting another wait misses no wakeup.
pub proof fn law_other_wait_keeps_watch(
    v: RegionView,
    c: CallerView,
    handles: Seq<u32>,
    owner: u32,
    timeout: Option<u128>,
    all: bool,
    alert: u32,
    w: WaiterView,
)
    requires
        v.inv(),
        w.watched(v),
    ensures
        ({
            let (v2, c2, _) = wait::started(v, c, handles, owner, timeout, all, alert);
            w.kept(v, c, v2, c2)
        }),
{
    if wait::well_asked(handles, owner) {
        let u = wait::asked(handles, owner, timeout, all, alert, c.now);
        lemma_pass_keeps_watch(v, c.bumped(crate::stats::WAIT_CALLS), u, w);
    }
}

/// A pass of another wait misses no wakeup.
pub proof fn law_other_resume_keeps_watch(v: RegionView, c: CallerView, u: WaiterView, w: WaiterView)
    requires
        v.inv(),
        w.watched(v),
        u.slept(v),
        disjoint(w.nodes, u.nodes),
    ensures
        w.kept(v, c, u.resumed(v, c).0, u.resumed(v, c).1),
{
    let m = v.detached_all(u.nodes);
    assert forall|i: int| 0 <= i < u.nodes.len() implies #[trigger] u.nodes[i] < NODE_COUNT by {
        assert(v.allocated(u.nodes[i]));
    }
    pool::lemma_detached_all(v, u.nodes);
    lemma_detach_keeps_watch(v, u.nodes, w);
    lemma_detached_inv(v, u.nodes);
    assert forall|i: int| 0 <= i < u.nodes.len() implies m.allocated(#[trigger] u.nodes[i]) by {
        assert(v.allocated(u.nodes[i]));
    }
    lemma_pass_keeps_watch(m, c, u, w);
}

/// Giving up another wait misses no wakeup.
pub proof fn law_other_abandon_keeps_watch(v: RegionView, u: WaiterView, w: WaiterView)
    requires
        v.inv(),
        w.watched(v),
        u.slept(v),
        disjoint(w.nodes, u.nodes),
    ensures
        w.watched(v.detached_all(u.nodes).released(u.nodes)),
        w.wakes(v.detached_all(u.nodes).released(u.nodes)) == w.wakes(v),
{
    assert forall|i: int| 0 <= i < u.nodes.len() implies #[trigger] u.nodes[i] < NODE_COUNT by {
        assert(v.allocated(u.nodes[i]));
    }
    pool::lemma_detached_all(v, u.nodes);
    lemma_detach_keeps_watch(v, u.nodes, w);
    lemma_release_keeps_watch(v.detached_all(u.nodes), u.nodes, w);
}

/// A region stays in order when nodes are taken off their lists.
pub proof fn lemma_detached_inv(v: RegionView, s: Seq<u32>)
    requires
        v.inv(),
        forall|i: int| 0 <= i < s.len() ==> #[trigger] s[i] < NODE_COUNT,
    ensures
        v.detached_all(s).inv(),
    decreases s.len(),
{
    if s.len() > 0 {
        let t = s.drop_last();
        assert forall|i: int| 0 <= i < t.len() implies #[trigger] t[i] < NODE_COUNT by {
            assert(t[i] == s[i]);
        }
        assert(s[s.len() - 1] == s.last());
        lemma_detached_inv(v, t);
        lemma_detached_one_inv(v.detached_all(t), s.last());
    }
}

proof fn lemma_detached_one_inv(v: RegionView, n: u32)
    requires
        v.inv(),
        n < NODE_COUNT,
    ensures
        v.detached(n).inv(),
{
    let m = v.detached(n);
    if let Some(o) = v.nodes[n as int].on {
        let list = v.waiters[o as int];
        assert(list.contains(n));
        let k = list.index_of(n);
        let list2 = list.remove(k);
        assert(list.no_duplicates());
        assert forall|p: int| 0 <= p < SLOT_COUNT implies (
        #[trigger] m.waiters[p]).no_duplicates() by {
            assert(v.waiters[p].no_duplicates());
            if p == o {
                assert forall|i: int, j: int| 0 <= i < j < list2.len() implies list2[i]
                    != list2[j] by {
                    let i0 = if i < k {
                        i
                    } else {
                        i + 1
                    };
                    let j0 = if j < k {
                        j
                    } else {
                        j + 1
                    };
                    assert(list[i0] != list[j0]);
                }
            }
        }
        assert forall|p: int, i: int|
            0 <= p < SLOT_COUNT && 0 <= i < m.waiters[p].len() implies {
            &&& #[trigger] m.waiters[p][i] < NODE_COUNT
            &&& m.nodes[m.waiters[p][i] as int].on == Some(p as u32)
        } by {
            if p == o {
                let i0 = if i < k {
                    i
                } else {
                    i + 1
                };
                assert(list2[i] == v.waiters[p][i0]);
                assert(list[i0] != list[k]);
            } else {
                assert(v.waiters[p][i] < NODE_COUNT);
            }
        }
        assert forall|x: int| 0 <= x < NODE_COUNT && (#[trigger] m.nodes[x]).on is Some implies {
            &&& x < m.fresh
            &&& m.nodes[x].on->0 < SLOT_COUNT
            &&& m.slots[m.nodes[x].on->0 as int].used
            &&& m.waiters[m.nodes[x].on->0 as int].contains(x as u32)
            &&& m.nodes[x].word < NODE_COUNT
        } by {
            assert(v.nodes[x].on is Some);
            if v.nodes[x].on->0 == o {
                let j = list.index_of(x as u32);
                assert(list[j] == x as u32);
                let j2 = if j < k {
                    j
                } else {
                    j - 1
                };
                assert(list2[j2] == x as u32);
            }
        }
        assert forall|i: int| 0 <= i < m.free.len() implies {
            &&& #[trigger] m.free[i] < m.fresh
            &&& m.nodes[m.free[i] as int].on is None
        } by {
            assert(v.free[i] < v.fresh);
        }
    }
}

/// Where a wait's nodes are once it has gone to sleep.
proof fn lemma_blocked_links(v: RegionView, c: CallerView, u: WaiterView)
    requires
        v.inv(),
        v.linked(),
        u.wf(),
        v.all_allocated(u.nodes),
        v.none_listed(u.nodes),
        v.exclusive(u.nodes),
    ensures
        u.blocked(v, c).2 matches StepView::Sleep(w) ==> {
            let v2 = u.blocked(v, c).0;
            &&& v2.linked()
            &&& v2.exclusive(w.nodes)
            &&& v2.all_allocated(w.nodes)
            &&& v2.slots == v.slots
            &&& w.wakes(v2) == 0
            &&& forall|i: int|
                0 <= i < w.nodes.len() ==> {
                    &&& v2.nodes[(#[trigger] w.nodes[i]) as int].on == Some(
                        word::index_of(u.targets()[i]) as u32,
                    )
                    &&& v2.nodes[w.nodes[i] as int].word == w.nodes[0]
                }
        },
{
    let n = u.targets().len();
    if let StepView::Sleep(w) = u.blocked(v, c).2 {
        let fresh = u.nodes.len() == 0;
        let m = if fresh {
            v.handed_out(c.pid, n)
        } else {
            v
        };
        let s = w.nodes;
        let t = u.targets();
        let v2 = u.blocked(v, c).0;
        if fresh {
            pool::lemma_given(v, c.pid, n);
        }
        assert(m.all_allocated(s));
        assert forall|i: int| 0 <= i < s.len() implies #[trigger] s[i] < NODE_COUNT by {
            assert(m.allocated(s[i]));
        }
        assert(m.linked() && m.exclusive(s)) by {
            assert forall|k: int| 0 <= k < NODE_COUNT && (
            #[trigger] m.nodes[k]).on is Some implies {
                &&& m.allocated(m.nodes[k].word)
                &&& s.contains(m.nodes[k].word) ==> s.contains(k as u32)
            } by {
                assert(v.nodes[k].on is Some);
                assert(v.allocated(v.nodes[k].word));
            }
        }
        pool::lemma_enrolled(m, t, s, n);
        assert(s.take(n as int) =~= s);
        assert forall|k: int| 0 <= k < NODE_COUNT && (#[trigger] v2.nodes[k]).on is Some implies {
            &&& v2.allocated(v2.nodes[k].word)
            &&& s.contains(v2.nodes[k].word) ==> s.contains(k as u32)
        } by {
            if s.contains(k as u32) {
                let i = s.index_of(k as u32);
                assert(v2.nodes[s[i] as int].word == s[0]);
                assert(m.allocated(s[0]));
            } else {
                assert(m.nodes[k].on is Some);
                assert(m.allocated(m.nodes[k].word));
            }
        }
        assert(v2.exclusive(s));
        assert forall|i: int| 0 <= i < s.len() implies {
            &&& v2.allocated(#[trigger] s[i])
            &&& v2.nodes[s[i] as int].on == Some(word::index_of(t[i]) as u32)
            &&& v2.nodes[s[i] as int].word == s[0]
        } by {
            assert(m.allocated(s[i]));
            assert(v2.nodes[s[i] as int].word == s[0]);
        }
        assert(v2.nodes[s[0] as int].seq == m.nodes[s[0] as int].seq);
    }
}

/// A wait that goes to sleep is watched from then on.
proof fn lemma_blocked_is_watched(v: RegionView, c: CallerView, u: WaiterView)
    requires
        v.inv(),
        v.linked(),
        u.wf(),
        v.all_allocated(u.nodes),
        v.none_listed(u.nodes),
        v.exclusive(u.nodes),
        u.calm(v),
    ensures
        u.blocked(v, c).2 matches StepView::Sleep(w) ==> {
            &&& w.watched(u.blocked(v, c).0)
            &&& w.wakes(u.blocked(v, c).0) == 0
            &&& u.blocked(v, c).0.linked()
        },
{
    lemma_blocked_links(v, c, u);
    if let StepView::Sleep(w) = u.blocked(v, c).2 {
        let v2 = u.blocked(v, c).0;
        lemma_count_all(v2.nodes, w.nodes);
        lemma_calm_elsewhere(v, v2, -1, u);
        assert(w.calm(v2));
    }
}

/// A wait that goes to sleep in its first pass is watched from then on.
pub proof fn law_sleep_is_watched(
    v: RegionView,
    c: CallerView,
    handles: Seq<u32>,
    owner: u32,
    timeout: Option<u128>,
    all: bool,
    alert: u32,
    w: WaiterView,
)
    requires
        v.inv(),
        v.linked(),
        wait::started(v, c, handles, owner, timeout, all, alert).2 == StepView::Sleep(w),
    ensures
        ({
            let v2 = wait::started(v, c, handles, owner, timeout, all, alert).0;
            &&& w.watched(v2)
            &&& w.wakes(v2) == 0
            &&& v2.linked()
        }),
{
    let u = wait::asked(handles, owner, timeout, all, alert, c.now);
    let d = u.demand_at(v);
    assert(v.all_waitable(d.handles));
    lemma_attempt_lowers(v, d);
    satisfy::law_attempt_succeeds_iff_satisfiable(d, v);
    lemma_blocked_is_watched(
        v,
        c.bumped(crate::stats::WAIT_CALLS),
        (WaiterView { demand: d, ..u }),
    );
}

/// A wait that goes back to sleep is watched again.
pub proof fn law_resumed_sleep_is_watched(v: RegionView, c: CallerView, u: WaiterView, w: WaiterView)
    requires
        v.inv(),
        v.linked(),
        u.rooted(v),
        u.resumed(v, c).2 == StepView::Sleep(w),
    ensures
        w.watched(u.resumed(v, c).0),
        w.wakes(u.resumed(v, c).0) == 0,
        u.resumed(v, c).0.linked(),
{
    let m = v.detached_all(u.nodes);
    let d = u.demand;
    lemma_detached_links(v, u);
    assert(m.all_waitable(d.handles));
    lemma_attempt_lowers(m, d);
    satisfy::law_attempt_succeeds_iff_satisfiable(d, m);
    lemma_blocked_is_watched(m, c, u);
}

/// If nobody new is registered and no node is given back, everybody is still
/// woken through a node in use.
proof fn lemma_fewer_links(v: RegionView, v2: RegionView)
    requires
        v.linked(),
        forall|n: int|
            0 <= n < NODE_COUNT && (#[trigger] v2.nodes[n]).on is Some ==> v.nodes[n].on is Some
                && v2.nodes[n].word == v.nodes[n].word,
        forall|x: u32| v.allocated(x) ==> #[trigger] v2.allocated(x),
    ensures
        v2.linked(),
{
    assert forall|n: int| 0 <= n < NODE_COUNT && (
    #[trigger] v2.nodes[n]).on is Some implies v2.allocated(v2.nodes[n].word) by {
        assert(v.allocated(v.nodes[n].word));
    }
}

proof fn lemma_signal_keeps_links(
    v: RegionView,
    o: int,
    s: SlotView,
    c1: CallerView,
    v2: RegionView,
    c2: CallerView,
)
    requires
        v.inv(),
        v.linked(),
        0 <= o < SLOT_COUNT,
        (v2, c2) == region::signaled(v.with_slot(o, s), c1, o) || (v2, c2) == region::woken(
            v.with_slot(o, s),
            c1,
            o,
        ),
    ensures
        v2.linked(),
{
    let m = v.with_slot(o, s);
    let list = v.waiters[o];
    assert(m.waiters[o] == list);
    if list.len() == 0 && (v2, c2) == region::signaled(m, c1, o) {
        lemma_fewer_links(v, v2);
    } else {
        lemma_table_apart(v, m.slots, list, c1.stamp());
        lemma_table_apart(v, m.slots, list, c1.bumped(crate::stats::WAKE_WALKS).stamp());
        reclaim::lemma_woken_inv(v, o, c1.stamp());
        lemma_fewer_links(v, v2);
    }
}

/// In an empty region everybody is woken through a node in use.
pub proof fn law_empty_region_is_linked()
    ensures
        region::empty_region().linked(),
        region::empty_region().inv(),
{
    let v = region::empty_region();
    assert(v.free.no_duplicates());
    assert forall|o: int| 0 <= o < SLOT_COUNT implies (
    #[trigger] v.waiters[o]).no_duplicates() by {}
}

/// After a sweep everybody is still woken through a node in use.
pub proof fn law_sweep_keeps_links(v: RegionView, c: CallerView)
    requires
        v.inv(),
        v.linked(),
    ensures
        sweep::swept(v, c).0.linked(),
        sweep::auto_swept(v, c).0.linked(),
{
    assert forall|c: CallerView| #[trigger] sweep::swept(v, c).0.linked() by {
        let p = v.purged(c);
        reclaim::lemma_purged_inv(v, c);
        reclaim::lemma_reaped(p, c, SLOT_COUNT as nat);
        let m = sweep::swept(v, c).0;
        assert forall|n: int| 0 <= n < NODE_COUNT && (
        #[trigger] m.nodes[n]).on is Some implies v.nodes[n].on is Some && m.nodes[n].word
            == v.nodes[n].word by {
            assert(p.nodes[n].on is Some);
        }
        lemma_fewer_links(v, m);
    }
    let c1 = c.ticked();
    assert(sweep::swept(v, c1).0.linked());
    if sweep::sweep_due(v, c) {
        lemma_fewer_links(sweep::swept(v, c1).0, sweep::auto_swept(v, c).0);
    }
}

/// After an object was closed everybody is still woken through a node in use.
pub proof fn law_close_keeps_links(v: RegionView, c: CallerView, i: int)
    requires
        v.inv(),
        v.linked(),
        0 < i < SLOT_COUNT,
    ensures
        sweep::closed(v, c, i).0.linked(),
{
    reclaim::lemma_closed_inv(v, c, i);
    lemma_fewer_links(v, sweep::closed(v, c, i).0);
}

/// After an object was created everybody is still woken through a node in use.
pub proof fn law_create_keeps_links(
    v: RegionView,
    c: CallerView,
    object: Object,
    v2: RegionView,
    c2: CallerView,
    res: Result<u32, Error>,
)
    requires
        v.inv(),
        v.linked(),
        objects::creates(v, c, object, v2, c2, res),
    ensures
        v2.linked(),
{
    law_sweep_keeps_links(v, c);
    lemma_fewer_links(objects::room(v, c).0, v2);
}

/// After any signal operation everybody is still woken through a node in use.
pub proof fn law_signals_keep_links(
    v: RegionView,
    c: CallerView,
    handle: u32,
    n: u32,
    v2: RegionView,
    c2: CallerView,
)
    requires
        v.inv(),
        v.linked(),
        ({
            let (m, mc) = sweep::auto_swept(v, c);
            ||| exists|res: Result<u32, Error>| #[trigger]
                signal::sem_releases(m, mc, handle, n, v2, c2, res)
            ||| exists|res: Result<u32, Error>| #[trigger]
                signal::event_sets(m, mc, handle, v2, c2, res)
            ||| exists|res: Result<u32, Error>| #[trigger]
                signal::event_resets(m, handle, v2, res)
            ||| exists|res: Result<u32, Error>| #[trigger]
                signal::event_pulses(m, mc, handle, v2, c2, res)
            ||| exists|res: Result<u32, Error>| #[trigger]
                signal::mutex_unlocks(m, mc, handle, n, v2, c2, res)
        }) || exists|res: Result<(), Error>| #[trigger]
            signal::mutex_kills(v, c, handle, n, v2, c2, res),
    ensures
        v2.linked(),
{
    law_sweep_keeps_links(v, c);
    reclaim::law_auto_sweep(v, c);
    let (m, mc) = sweep::auto_swept(v, c);
    let o = word::index_of(handle);
    if exists|res: Result<(), Error>| #[trigger]
        signal::mutex_kills(v, c, handle, n, v2, c2, res) {
        let res = choose|res: Result<(), Error>| #[trigger]
            signal::mutex_kills(v, c, handle, n, v2, c2, res);
        if res is Ok {
            let s = v.slots[o].with_object(Object::Mutex { owner: 0, count: 0, abandoned: true });
            lemma_signal_keeps_links(v, o, s, c, v2, c2);
        }
    } else if exists|res: Result<u32, Error>| #[trigger]
        signal::sem_releases(m, mc, handle, n, v2, c2, res) {
        let res = choose|res: Result<u32, Error>| #[trigger]
            signal::sem_releases(m, mc, handle, n, v2, c2, res);
        if res is Ok {
            let obj = m.object_at(handle)->0;
            let s = m.slots[o].with_object(
                Object::Semaphore {
                    count: (obj->Semaphore_count + n) as u32,
                    max: obj->Semaphore_max,
                },
            );
            lemma_signal_keeps_links(
                m,
                o,
                s,
                mc.bumped(crate::stats::SIGNAL_OPS),
                v2,
                c2,
            );
        }
    } else if exists|res: Result<u32, Error>| #[trigger]
        signal::event_sets(m, mc, handle, v2, c2, res) {
        if let Some(Object::Event { manual, signaled }) = m.object_at(handle) {
            if !signaled {
                let s = m.slots[o].with_object(Object::Event { manual, signaled: true });
                lemma_signal_keeps_links(m, o, s, mc, v2, c2);
            }
        }
    } else if exists|res: Result<u32, Error>| #[trigger]
        signal::event_resets(m, handle, v2, res) {
        lemma_fewer_links(m, v2);
    } else if exists|res: Result<u32, Error>| #[trigger]
        signal::event_pulses(m, mc, handle, v2, c2, res) {
        if m.object_at(handle) is Some && m.object_at(handle)->0 is Event {
            lemma_signal_keeps_links(m, o, m.pulsed(handle).slots[o], mc, v2, c2);
        }
    } else {
        let res = choose|res: Result<u32, Error>| #[trigger]
            signal::mutex_unlocks(m, mc, handle, n, v2, c2, res);
        if let Some(Object::Mutex { owner: holder, count, abandoned }) = m.object_at(handle) {
            if holder == n && (count == 1 || count == MAX_RECURSION) {
                let s = m.slots[o].with_object(signal::unlocked(n, count, abandoned));
                lemma_signal_keeps_links(m, o, s, mc, v2, c2);
            } else {
                lemma_fewer_links(m, v2);
            }
        }
    }
}

/// Giving back nodes that nobody else is woken through.
proof fn lemma_release_keeps_links(v: RegionView, s: Seq<u32>)
    requires
        v.linked(),
        v.exclusive(s),
        v.none_listed(s),
    ensures
        v.released(s).linked(),
{
    let m = v.released(s);
    assert forall|n: int| 0 <= n < NODE_COUNT && (
    #[trigger] m.nodes[n]).on is Some implies m.allocated(m.nodes[n].word) by {
        let x = v.nodes[n].word;
        assert(v.allocated(x));
        if m.free.contains(x) {
            let j = m.free.index_of(x);
            if j < s.len() {
                assert(s.reverse()[j] == s[s.len() - 1 - j]);
                assert(s.contains(x));
                assert(s.contains(n as u32));
                let k = s.index_of(n as u32);
                assert(v.nodes[s[k] as int].on is None);
            } else {
                assert(v.free[j - s.len()] == x);
            }
        }
    }
}

proof fn lemma_pass_keeps_links(v: RegionView, c: CallerView, u: WaiterView)
    requires
        v.inv(),
        v.linked(),
        u.wf(),
        v.all_allocated(u.nodes),
        v.none_listed(u.nodes),
        v.exclusive(u.nodes),
    ensures
        u.pass(v, c).0.linked(),
{
    if !u.valid(v) || v.alerted(u.alert) {
        lemma_release_keeps_links(v, u.nodes);
    } else {
        let d = u.demand_at(v);
        let (m, res) = d.attempt(v);
        wait::lemma_attempt_keeps(v, d);
        assert(v.all_waitable(d.handles));
        lemma_attempt_inv(v, d);
        assert(m.linked()) by {
            lemma_fewer_links(v, m);
        }
        assert(m.exclusive(u.nodes)) by {
            assert(v.exclusive(u.nodes));
        }
        assert forall|i: int| 0 <= i < u.nodes.len() implies m.allocated(
            #[trigger] u.nodes[i],
        ) by {
            assert(v.allocated(u.nodes[i]));
        }
        if res is Some || u.expired(c.now) {
            lemma_release_keeps_links(m, u.nodes);
        } else {
            let w = WaiterView { demand: d, ..u };
            let n = w.targets().len();
            if u.nodes.len() == 0 && m.available() < n {
                let k = m.available() as nat;
                let h = m.handed_out(c.pid, k);
                pool::lemma_given(m, c.pid, k);
                assert forall|x: int| 0 <= x < NODE_COUNT && (
                #[trigger] h.nodes[x]).on is Some implies m.nodes[x].on is Some && h.nodes[x].word
                    == m.nodes[x].word && !m.given(k).contains(m.nodes[x].word) by {
                    assert(m.allocated(m.nodes[x].word));
                }
                lemma_fewer_links(m, h);
                assert(h.exclusive(m.given(k)));
                lemma_release_keeps_links(h, m.given(k));
            } else {
                lemma_blocked_links(m, c, w);
            }
        }
    }
}

/// After a wait was started everybody is woken through a node in use.
pub proof fn law_wait_keeps_links(
    v: RegionView,
    c: CallerView,
    handles: Seq<u32>,
    owner: u32,
    timeout: Option<u128>,
    all: bool,
    alert: u32,
)
    requires
        v.inv(),
        v.linked(),
    ensures
        wait::started(v, c, handles, owner, timeout, all, alert).0.linked(),
{
    if wait::well_asked(handles, owner) {
        let u = wait::asked(handles, owner, timeout, all, alert, c.now);
        lemma_pass_keeps_links(v, c.bumped(crate::stats::WAIT_CALLS), u);
    }
}

/// After another pass of a wait, and after giving it up, everybody is woken
/// through a node in use.
pub proof fn law_resume_keeps_links(v: RegionView, c: CallerView, u: WaiterView)
    requires
        v.inv(),
        v.linked(),
        u.slept(v),
        v.exclusive(u.nodes),
    ensures
        u.resumed(v, c).0.linked(),
        v.detached_all(u.nodes).released(u.nodes).linked(),
{
    let m = v.detached_all(u.nodes);
    lemma_detached_links(v, u);
    lemma_pass_keeps_links(m, c, u);
    lemma_release_keeps_links(m, u.nodes);
}

/// Taking a wait's nodes off their lists.
proof fn lemma_detached_links(v: RegionView, u: WaiterView)
    requires
        v.inv(),
        v.linked(),
        u.slept(v),
        v.exclusive(u.nodes),
    ensures
        ({
            let m = v.detached_all(u.nodes);
            &&& m.inv()
            &&& m.linked()
            &&& m.exclusive(u.nodes)
            &&& m.all_allocated(u.nodes)
            &&& m.none_listed(u.nodes)
            &&& m.slots == v.slots
        }),
{
    let m = v.detached_all(u.nodes);
    assert forall|i: int| 0 <= i < u.nodes.len() implies #[trigger] u.nodes[i] < NODE_COUNT by {
        assert(v.allocated(u.nodes[i]));
    }
    pool::lemma_detached_all(v, u.nodes);
    lemma_detached_inv(v, u.nodes);
    assert forall|i: int| 0 <= i < u.nodes.len() implies {
        &&& m.allocated(#[trigger] u.nodes[i])
        &&& m.nodes[u.nodes[i] as int].on is None
    } by {
        assert(v.allocated(u.nodes[i]));
        assert(u.nodes.contains(u.nodes[i]));
        let x = u.nodes[i] as int;
        assert(m.nodes[x].on is None);
    }
    assert forall|k: int| 0 <= k < NODE_COUNT && (#[trigger] m.nodes[k]).on is Some implies {
        &&& m.allocated(m.nodes[k].word)
        &&& u.nodes.contains(m.nodes[k].word) ==> u.nodes.contains(k as u32)
    } by {
        assert(v.nodes[k].on is Some);
        assert(v.allocated(v.nodes[k].word));
    }
    assert(m.linked() && m.exclusive(u.nodes));
}

/// A watched wait that could go on, because it could be satisfied, is alerted or has
/// failed, was woken: its futex word no longer holds what it held when the thread
/// went to sleep.
pub proof fn law_wait_that_can_go_on_was_woken(v: RegionView, w: WaiterView)
    requires
        w.watched(v),
        w.demand.satisfiable(v) || v.alerted(w.alert) || !w.valid(v),
    ensures
        v.nodes[w.nodes[0] as int].seq != w.seq,
{
}

} // verus!
