//! What waking, closing and sweeping do to a region as a whole.
use crate::caller::CallerView;
use crate::region::{NodeView, RegionView, NODE_COUNT};
use crate::sweep;
use crate::word;
use crate::word::SLOT_COUNT;
use vstd::prelude::*;

verus! {

/// What waking everybody on the list of object `o` does to nodes and lists.
proof fn lemma_woken_lists(v: RegionView, list: Seq<u32>, stamp: Option<u64>, o: int)
    requires
        0 <= o < SLOT_COUNT,
        v.nodes.len() == NODE_COUNT,
        v.waiters.len() == SLOT_COUNT,
        v.waiters[o] == list,
        list.no_duplicates(),
        forall|i: int|
            0 <= i < list.len() ==> {
                &&& (#[trigger] list[i]) < NODE_COUNT
                &&& v.nodes[list[i] as int].on == Some(o as u32)
                &&& v.nodes[list[i] as int].word < NODE_COUNT
            },
    ensures
        ({
            let m = v.woken_list(list, stamp);
            &&& m == (RegionView { nodes: m.nodes, waiters: m.waiters, ..v })
            &&& m.nodes.len() == NODE_COUNT
            &&& m.waiters == v.waiters.update(o, Seq::empty())
            &&& forall|n: int|
                0 <= n < NODE_COUNT ==> {
                    &&& (#[trigger] m.nodes[n]).on == if list.contains(n as u32) {
                        None
                    } else {
                        v.nodes[n].on
                    }
                    &&& m.nodes[n].word == v.nodes[n].word
                    &&& m.nodes[n].pid == v.nodes[n].pid
                }
        }),
    decreases list.len(),
{
    if list.len() > 0 {
        let n = list[0];
        let d = v.detached(n);
        let x = d.bumped(v.nodes[n as int].word, stamp);
        let t = list.drop_first();
        assert(list.contains(n));
        assert(list.index_of(n) == 0) by {
            assert(list[list.index_of(n)] == n);
        }
        assert(list.remove(0) =~= t);
        assert(x.waiters[o] == t);
        assert forall|i: int| 0 <= i < t.len() implies {
            &&& (#[trigger] t[i]) < NODE_COUNT
            &&& x.nodes[t[i] as int].on == Some(o as u32)
            &&& x.nodes[t[i] as int].word < NODE_COUNT
        } by {
            assert(t[i] == list[i + 1]);
            assert(list[i + 1] != list[0]);
        }
        assert(t.no_duplicates());
        lemma_woken_lists(x, t, stamp, o);
        let m = v.woken_list(list, stamp);
        assert(m.waiters =~= v.waiters.update(o, Seq::empty()));
        assert forall|k: int| 0 <= k < NODE_COUNT implies {
            &&& (#[trigger] m.nodes[k]).on == if list.contains(k as u32) {
                None
            } else {
                v.nodes[k].on
            }
            &&& m.nodes[k].word == v.nodes[k].word
            &&& m.nodes[k].pid == v.nodes[k].pid
        } by {
            if t.contains(k as u32) {
                let i = t.index_of(k as u32);
                assert(list[i + 1] == k as u32);
            } else if list.contains(k as u32) {
                let i = list.index_of(k as u32);
                if i > 0 {
                    assert(t[i - 1] == k as u32);
                }
            }
        }
    } else {
        assert(list =~= Seq::empty());
        assert(v.waiters =~= v.waiters.update(o, Seq::empty()));
    }
}

/// A region stays in order when everybody who waits on object `o` is woken, and
/// nobody waits on that object any more.
pub proof fn lemma_woken_inv(v: RegionView, o: int, stamp: Option<u64>)
    requires
        v.inv(),
        0 <= o < SLOT_COUNT,
    ensures
        ({
            let m = v.woken_list(v.waiters[o], stamp);
            &&& m.inv()
            &&& m == (RegionView { nodes: m.nodes, waiters: m.waiters, ..v })
            &&& m.waiters == v.waiters.update(o, Seq::empty())
            &&& forall|n: int|
                0 <= n < NODE_COUNT ==> {
                    &&& (#[trigger] m.nodes[n]).on == if v.nodes[n].on == Some(o as u32) {
                        None
                    } else {
                        v.nodes[n].on
                    }
                    &&& m.nodes[n].word == v.nodes[n].word
                    &&& m.nodes[n].pid == v.nodes[n].pid
                }
        }),
{
    let list = v.waiters[o];
    assert forall|i: int| 0 <= i < list.len() implies {
        &&& (#[trigger] list[i]) < NODE_COUNT
        &&& v.nodes[list[i] as int].on == Some(o as u32)
        &&& v.nodes[list[i] as int].word < NODE_COUNT
    } by {
        assert(v.waiters[o][i] < NODE_COUNT);
        assert(v.nodes[v.waiters[o][i] as int].on is Some);
    }
    lemma_woken_lists(v, list, stamp, o);
    let m = v.woken_list(list, stamp);
    assert forall|n: int| 0 <= n < NODE_COUNT implies (#[trigger] m.nodes[n]).on == if v.nodes[n].on
        == Some(o as u32) {
        None
    } else {
        v.nodes[n].on
    } by {
        if list.contains(n as u32) {
            let i = list.index_of(n as u32);
            assert(v.waiters[o][i] == n as u32);
        }
        if v.nodes[n].on == Some(o as u32) {
            assert(v.waiters[o].contains(n as u32));
        }
    }
    assert forall|p: int, i: int|
        0 <= p < SLOT_COUNT && 0 <= i < m.waiters[p].len() implies {
        &&& #[trigger] m.waiters[p][i] < NODE_COUNT
        &&& m.nodes[m.waiters[p][i] as int].on == Some(p as u32)
    } by {
        assert(p != o);
        assert(v.waiters[p][i] < NODE_COUNT);
    }
    assert forall|n: int| 0 <= n < NODE_COUNT && (#[trigger] m.nodes[n]).on is Some implies {
        &&& n < m.fresh
        &&& m.nodes[n].on->0 < SLOT_COUNT
        &&& m.slots[m.nodes[n].on->0 as int].used
        &&& m.waiters[m.nodes[n].on->0 as int].contains(n as u32)
        &&& m.nodes[n].word < NODE_COUNT
    } by {
        assert(v.nodes[n].on is Some);
    }
    assert forall|i: int| 0 <= i < m.free.len() implies {
        &&& #[trigger] m.free[i] < m.fresh
        &&& m.nodes[m.free[i] as int].on is None
    } by {
        assert(v.free[i] < v.fresh);
    }
}

/// A region stays in order when an object is closed.
pub proof fn lemma_closed_inv(v: RegionView, c: CallerView, i: int)
    requires
        v.inv(),
        0 < i < SLOT_COUNT,
    ensures
        ({
            let (m, mc) = sweep::closed(v, c, i);
            &&& m.inv()
            &&& m == (RegionView {
                slots: v.slots.update(i, v.slots[i].freed()),
                ..v.woken_list(v.waiters[i], c.stamp())
            })
            &&& m == (RegionView { slots: m.slots, nodes: m.nodes, waiters: m.waiters, ..v })
            &&& m.waiters == v.waiters.update(i, Seq::empty())
            &&& mc == c.woke(v.words(i))
            &&& forall|n: int|
                0 <= n < NODE_COUNT ==> {
                    &&& (#[trigger] m.nodes[n]).on == if v.nodes[n].on == Some(i as u32) {
                        None
                    } else {
                        v.nodes[n].on
                    }
                    &&& m.nodes[n].word == v.nodes[n].word
                    &&& m.nodes[n].pid == v.nodes[n].pid
                }
        }),
{
    lemma_woken_inv(v, i, c.stamp());
    let w = v.woken_list(v.waiters[i], c.stamp());
    let (m, _) = sweep::closed(v, c, i);
    assert forall|p: int, k: int|
        0 <= p < SLOT_COUNT && 0 <= k < m.waiters[p].len() implies {
        &&& #[trigger] m.waiters[p][k] < NODE_COUNT
        &&& m.nodes[m.waiters[p][k] as int].on == Some(p as u32)
    } by {
        assert(w.waiters[p][k] < NODE_COUNT);
    }
    assert forall|n: int| 0 <= n < NODE_COUNT && (#[trigger] m.nodes[n]).on is Some implies {
        &&& n < m.fresh
        &&& m.nodes[n].on->0 < SLOT_COUNT
        &&& m.slots[m.nodes[n].on->0 as int].used
        &&& m.waiters[m.nodes[n].on->0 as int].contains(n as u32)
        &&& m.nodes[n].word < NODE_COUNT
    } by {
        assert(w.nodes[n].on is Some);
    }
    assert forall|k: int| 0 <= k < m.free.len() implies {
        &&& #[trigger] m.free[k] < m.fresh
        &&& m.nodes[m.free[k] as int].on is None
    } by {
        assert(w.free[k] < w.fresh);
    }
    assert forall|p: int| 0 <= p < SLOT_COUNT implies (
    #[trigger] m.waiters[p]).no_duplicates() by {
        assert(w.waiters[p].no_duplicates());
    }
    assert forall|k: int| 0 < k < SLOT_COUNT && (#[trigger] m.slots[k]).used implies {
        &&& m.slots[k].object.valid()
        &&& !(m.slots[k].object is Reserved)
    } by {
        assert(w.slots[k].used);
    }
}

proof fn lemma_filter(s: Seq<u32>, p: spec_fn(u32) -> bool)
    requires
        s.no_duplicates(),
    ensures
        s.filter(p).no_duplicates(),
        forall|x: u32| #[trigger] s.filter(p).contains(x) <==> s.contains(x) && p(x),
    decreases s.len(),
{
    reveal(Seq::filter);
    if s.len() == 0 {
        assert(s.filter(p) =~= Seq::empty());
    } else {
        let t = s.drop_last();
        let last = s.last();
        lemma_filter(t, p);
        assert(s[s.len() - 1] == last);
        assert(!t.contains(last)) by {
            if t.contains(last) {
                let i = t.index_of(last);
                assert(s[i] == s[s.len() - 1]);
            }
        }
        let f = t.filter(p);
        assert forall|x: u32| s.contains(x) <==> t.contains(x) || x == last by {
            if t.contains(x) {
                let i = t.index_of(x);
                assert(s[i] == x);
            }
            if s.contains(x) && x != last {
                let i = s.index_of(x);
                assert(t[i] == x);
            }
        }
        if p(last) {
            let g = f.push(last);
            assert(s.filter(p) == g);
            assert(!f.contains(last));
            assert forall|x: u32| #[trigger] g.contains(x) <==> f.contains(x) || x == last by {
                if f.contains(x) {
                    let i = f.index_of(x);
                    assert(g[i] == x);
                }
                assert(g[f.len() as int] == last);
                if g.contains(x) && x != last {
                    let i = g.index_of(x);
                    assert(f[i] == x);
                }
            }
            assert forall|i: int, j: int| 0 <= i < j < g.len() implies g[i] != g[j] by {
                if j == f.len() {
                    assert(f.contains(f[i]));
                }
            }
        } else {
            assert(s.filter(p) == f);
        }
    }
}

/// A region stays in order when the waits of processes that are gone are taken
/// off the lists, and no such wait stays on one.
pub proof fn lemma_purged_inv(v: RegionView, c: CallerView)
    requires
        v.inv(),
    ensures
        ({
            let m = v.purged(c);
            &&& m.inv()
            &&& m == (RegionView { nodes: m.nodes, waiters: m.waiters, ..v })
            &&& forall|n: int|
                0 <= n < NODE_COUNT ==> #[trigger] m.nodes[n] == if c.gone(v.nodes[n].pid) {
                    NodeView { on: None, ..v.nodes[n] }
                } else {
                    v.nodes[n]
                }
        }),
{
    let m = v.purged(c);
    let p = |n: u32| !(n < NODE_COUNT as int && c.gone(v.nodes[n as int].pid));
    assert forall|o: int| 0 <= o < SLOT_COUNT implies {
        &&& (#[trigger] m.waiters[o]).no_duplicates()
        &&& forall|x: u32| #[trigger]
            m.waiters[o].contains(x) <==> v.waiters[o].contains(x) && p(x)
    } by {
        assert(v.waiters[o].no_duplicates());
        lemma_filter(v.waiters[o], p);
        assert(m.waiters[o] == v.waiters[o].filter(p));
    }
    assert forall|o: int, i: int|
        0 <= o < SLOT_COUNT && 0 <= i < m.waiters[o].len() implies {
        &&& #[trigger] m.waiters[o][i] < NODE_COUNT
        &&& m.nodes[m.waiters[o][i] as int].on == Some(o as u32)
    } by {
        let x = m.waiters[o][i];
        assert(m.waiters[o].contains(x));
        assert(v.waiters[o].contains(x) && p(x));
        let j = v.waiters[o].index_of(x);
        assert(v.waiters[o][j] < NODE_COUNT);
    }
    assert forall|n: int| 0 <= n < NODE_COUNT && (#[trigger] m.nodes[n]).on is Some implies {
        &&& n < m.fresh
        &&& m.nodes[n].on->0 < SLOT_COUNT
        &&& m.slots[m.nodes[n].on->0 as int].used
        &&& m.waiters[m.nodes[n].on->0 as int].contains(n as u32)
        &&& m.nodes[n].word < NODE_COUNT
    } by {
        assert(v.nodes[n].on is Some);
        let o = v.nodes[n].on->0 as int;
        assert(v.waiters[o].contains(n as u32));
        assert(p(n as u32));
        assert(m.waiters[o].contains(n as u32));
    }
    assert forall|k: int| 0 <= k < m.free.len() implies {
        &&& #[trigger] m.free[k] < m.fresh
        &&& m.nodes[m.free[k] as int].on is None
    } by {
        assert(v.free[k] < v.fresh);
    }
}

/// How many of the first `k` slots hold objects whose creators are gone.
pub open spec fn orphans(v: RegionView, c: CallerView, k: nat) -> nat
    decreases k,
{
    if k == 0 {
        0
    } else {
        orphans(v, c, (k - 1) as nat) + if v.orphaned(c, k - 1) {
            1nat
        } else {
            0
        }
    }
}

/// What closing the orphaned objects among the first `k` does.
pub proof fn lemma_reaped(v: RegionView, c: CallerView, k: nat)
    requires
        v.inv(),
        k <= SLOT_COUNT,
    ensures
        ({
            let (m, mc, n) = sweep::reaped_upto(v, c, k);
            &&& m.inv()
            &&& m == (RegionView { slots: m.slots, nodes: m.nodes, waiters: m.waiters, ..v })
            &&& mc == (CallerView { wakes: mc.wakes, ..c })
            &&& n == orphans(v, c, k)
            &&& forall|j: int|
                0 <= j < SLOT_COUNT ==> #[trigger] m.slots[j] == if j < k && v.orphaned(c, j) {
                    v.slots[j].freed()
                } else {
                    v.slots[j]
                }
            &&& forall|x: int|
                0 <= x < NODE_COUNT ==> {
                    &&& (#[trigger] m.nodes[x]).pid == v.nodes[x].pid
                    &&& m.nodes[x].word == v.nodes[x].word
                    &&& m.nodes[x].on is Some ==> m.nodes[x].on == v.nodes[x].on
                }
        }),
    decreases k,
{
    if k > 0 {
        lemma_reaped(v, c, (k - 1) as nat);
        let (v1, c1, n1) = sweep::reaped_upto(v, c, (k - 1) as nat);
        assert(v1.slots[k - 1] == v.slots[k - 1]);
        assert(v1.orphaned(c1, k - 1) == v.orphaned(c, k - 1));
        if v1.orphaned(c1, k - 1) {
            assert(k - 1 > 0);
            lemma_closed_inv(v1, c1, k - 1);
            let (m, mc, n) = sweep::reaped_upto(v, c, k);
            assert((m, mc) == sweep::closed(v1, c1, k - 1));
            assert forall|j: int| 0 <= j < SLOT_COUNT implies #[trigger] m.slots[j] == (if j < k
                && v.orphaned(c, j) {
                v.slots[j].freed()
            } else {
                v.slots[j]
            }) by {
                if j != k - 1 {
                    assert(m.slots[j] == v1.slots[j]);
                }
            }
            assert forall|x: int| 0 <= x < NODE_COUNT implies {
                &&& (#[trigger] m.nodes[x]).pid == v.nodes[x].pid
                &&& m.nodes[x].word == v.nodes[x].word
                &&& m.nodes[x].on is Some ==> m.nodes[x].on == v.nodes[x].on
            } by {
                assert(v1.nodes[x].pid == v.nodes[x].pid);
            }
            assert(mc =~= CallerView { wakes: mc.wakes, ..c });
        }
    }
}

/// A sweep frees exactly the objects whose creators are gone, tells how many they
/// were, and leaves all others alone. Afterwards no wait of a process that is
/// gone is on a list.
pub proof fn law_sweep_frees_orphans(v: RegionView, c: CallerView)
    requires
        v.inv(),
    ensures
        ({
            let (m, mc, n) = sweep::swept(v, c);
            &&& n == orphans(v, c, SLOT_COUNT as nat)
            &&& forall|j: int|
                0 <= j < SLOT_COUNT ==> #[trigger] m.slots[j] == if v.orphaned(c, j) {
                    v.slots[j].freed()
                } else {
                    v.slots[j]
                }
            &&& forall|x: int|
                0 <= x < NODE_COUNT && (#[trigger] m.nodes[x]).on is Some ==> !c.gone(
                    m.nodes[x].pid,
                )
            &&& m.inv()
        }),
{
    let p = v.purged(c);
    lemma_purged_inv(v, c);
    lemma_reaped(p, c, SLOT_COUNT as nat);
    lemma_orphans_same(v, p, c, SLOT_COUNT as nat);
    let (m, mc, n) = sweep::swept(v, c);
    assert forall|x: int| 0 <= x < NODE_COUNT && (
    #[trigger] m.nodes[x]).on is Some implies !c.gone(m.nodes[x].pid) by {
        assert(p.nodes[x].on is Some);
    }
}

proof fn lemma_orphans_same(v: RegionView, p: RegionView, c: CallerView, k: nat)
    requires
        v.slots == p.slots,
    ensures
        orphans(v, c, k) == orphans(p, c, k),
    decreases k,
{
    if k > 0 {
        lemma_orphans_same(v, p, c, (k - 1) as nat);
    }
}

proof fn lemma_no_orphans(v: RegionView, c: CallerView, k: nat)
    requires
        forall|j: int| 0 <= j < k ==> !#[trigger] v.orphaned(c, j),
    ensures
        orphans(v, c, k) == 0,
    decreases k,
{
    if k > 0 {
        lemma_no_orphans(v, c, (k - 1) as nat);
        assert(!v.orphaned(c, k - 1));
    }
}

/// The reserved slot survives every sweep.
pub proof fn law_sweep_spares_reserved_slot(v: RegionView, c: CallerView)
    requires
        v.inv(),
    ensures
        sweep::swept(v, c).0.slots[0] == v.slots[0],
{
    law_sweep_frees_orphans(v, c);
}

/// A second sweep, with the same processes gone, frees nothing.
pub proof fn law_second_sweep_frees_nothing(v: RegionView, c: CallerView, c2: CallerView)
    requires
        v.inv(),
        c2.dead == c.dead,
    ensures
        ({
            let (m, _, _) = sweep::swept(v, c);
            &&& sweep::swept(m, c2).2 == 0
            &&& sweep::swept(m, c2).0.slots == m.slots
        }),
{
    law_sweep_frees_orphans(v, c);
    let (m, _, _) = sweep::swept(v, c);
    law_sweep_frees_orphans(m, c2);
    assert forall|j: int| 0 <= j < SLOT_COUNT implies !#[trigger] m.orphaned(c2, j) by {
        assert(m.slots[j] == if v.orphaned(c, j) {
            v.slots[j].freed()
        } else {
            v.slots[j]
        });
    }
    lemma_no_orphans(m, c2, SLOT_COUNT as nat);
    assert(sweep::swept(m, c2).0.slots =~= m.slots);
}

/// An automatic sweep that is not due changes nothing but the number of calls.
/// One that is due leaves every object of a living process alone.
pub proof fn law_auto_sweep(v: RegionView, c: CallerView)
    requires
        v.inv(),
    ensures
        ({
            let (m, mc) = sweep::auto_swept(v, c);
            &&& m.inv()
            &&& !sweep::sweep_due(v, c) ==> m == v && mc.wakes == c.wakes
            &&& forall|j: int|
                0 <= j < SLOT_COUNT ==> #[trigger] m.slots[j] == if sweep::sweep_due(v, c)
                    && v.orphaned(c, j) {
                    v.slots[j].freed()
                } else {
                    v.slots[j]
                }
            &&& sweep::sweep_due(v, c) ==> m.sweep_ns == c.now
        }),
{
    if sweep::sweep_due(v, c) {
        let c1 = c.ticked();
        law_sweep_frees_orphans(v, c1);
        let s = sweep::swept(v, c1).0;
        let m = sweep::auto_swept(v, c).0;
        assert forall|j: int| 0 <= j < SLOT_COUNT implies #[trigger] m.slots[j] == (if v.orphaned(
            c,
            j,
        ) {
            v.slots[j].freed()
        } else {
            v.slots[j]
        }) by {
            assert(s.slots[j] == m.slots[j]);
            assert(v.orphaned(c, j) == v.orphaned(c1, j));
        }
        assert(m.inv()) by {
            assert(s.inv());
        }
    }
}

/// A closed object's handle names nothing any more, nobody waits on it, everybody
/// who did is to be woken, and no other object is touched.
pub proof fn law_close_ends_object(v: RegionView, c: CallerView, handle: u32)
    requires
        v.inv(),
        v.lookup(handle) is Some,
        word::index_of(handle) != 0,
    ensures
        ({
            let i = word::index_of(handle);
            let (m, mc) = sweep::closed(v, c, i);
            &&& m.lookup(handle) is None
            &&& m.waiters[i].len() == 0
            &&& mc.wakes == c.wakes + v.words(i)
            &&& forall|j: int|
                0 <= j < SLOT_COUNT && j != i ==> {
                    &&& #[trigger] m.slots[j] == v.slots[j]
                    &&& m.waiters[j] == v.waiters[j]
                }
        }),
{
    lemma_closed_inv(v, c, word::index_of(handle));
}

} // verus!
