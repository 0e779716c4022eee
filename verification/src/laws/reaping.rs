//! What a sweep does, in terms of the tables alone.
use crate::caller::CallerView;
use crate::laws::plain::{due, lost, missing, remains, times, vacated, words_of};
use crate::laws::signals::lemma_woken_counts;
use crate::object::SlotView;
use crate::reclaim;
use crate::region::{RegionView, NODE_COUNT};
use crate::sweep;
use crate::word::SLOT_COUNT;
use vstd::prelude::*;

verus! {

/// How many of the first `k` slots are in use by processes in `dead`.
pub open spec fn lost_count(slots: Seq<SlotView>, dead: Seq<u32>, k: nat) -> nat
    decreases k,
{
    if k == 0 {
        0
    } else {
        lost_count(slots, dead, (k - 1) as nat) + if slots[k - 1].used && slots[k - 1].pid != 0
            && dead.contains(slots[k - 1].pid) {
            1nat
        } else {
            0
        }
    }
}

/// Those on the list of slot `o` whose processes exist.
pub open spec fn survivors(v: RegionView, c: CallerView, o: int) -> Seq<u32> {
    v.waiters[o].filter(|n: u32| !missing(c, v.nodes[n as int].pid))
}

/// The futex words of the survivors on the lists of the lost objects among the first
/// `k` slots, in order.
pub open spec fn called(v: RegionView, c: CallerView, k: nat) -> Seq<u32>
    decreases k,
{
    if k == 0 {
        Seq::empty()
    } else {
        called(v, c, (k - 1) as nat) + if lost(v, c, k - 1) {
            words_of(v, survivors(v, c, k - 1))
        } else {
            Seq::empty()
        }
    }
}

/// The same where nobody on a list is missing.
spec fn called_all(v: RegionView, c: CallerView, k: nat) -> Seq<u32>
    decreases k,
{
    if k == 0 {
        Seq::empty()
    } else {
        called_all(v, c, (k - 1) as nat) + if lost(v, c, k - 1) {
            words_of(v, v.waiters[k - 1])
        } else {
            Seq::empty()
        }
    }
}

proof fn lemma_times_append(s: Seq<u32>, t: Seq<u32>, x: int)
    ensures
        times(s + t, x) == times(s, x) + times(t, x),
    decreases s.len(),
{
    if s.len() == 0 {
        assert(s + t =~= t);
    } else {
        assert((s + t).drop_first() =~= s.drop_first() + t);
        lemma_times_append(s.drop_first(), t, x);
    }
}

/// What closing the lost objects among the first `k` does to the lists, and whom it
/// calls.
proof fn lemma_closing(p: RegionView, c: CallerView, k: nat)
    requires
        p.inv(),
        k <= SLOT_COUNT,
    ensures
        ({
            let (m, mc, n) = sweep::reaped_upto(p, c, k);
            &&& n == lost_count(p.slots, c.dead, k)
            &&& mc.wakes == c.wakes + called_all(p, c, k)
            &&& forall|o: int|
                0 <= o < SLOT_COUNT ==> #[trigger] m.waiters[o] == if o < k && lost(p, c, o) {
                    Seq::empty()
                } else {
                    p.waiters[o]
                }
        }),
    decreases k,
{
    if k == 0 {
        assert(c.wakes + called_all(p, c, k) =~= c.wakes);
    } else {
        let j = k - 1;
        lemma_closing(p, c, j as nat);
        reclaim::lemma_reaped(p, c, j as nat);
        let (v1, c1, n1) = sweep::reaped_upto(p, c, j as nat);
        assert(v1.slots[j] == p.slots[j]);
        let before = called_all(p, c, j as nat);
        if lost(p, c, j) {
            assert(v1.orphaned(c1, j));
            assert(j > 0);
            reclaim::lemma_closed_inv(v1, c1, j);
            lemma_same_words(p, v1, j);
            let added = words_of(p, p.waiters[j]);
            let mc = sweep::closed(v1, c1, j).1;
            assert(mc.wakes =~= c.wakes + (before + added));
        } else {
            assert(!v1.orphaned(c1, j));
            assert(called_all(p, c, k) =~= before);
        }
    }
}

/// A list leads to the same futex words as long as it and the words are the same.
proof fn lemma_same_words(p: RegionView, v1: RegionView, j: int)
    requires
        v1.inv(),
        0 <= j < SLOT_COUNT,
        v1.waiters[j] == p.waiters[j],
        forall|x: int| 0 <= x < NODE_COUNT ==> (#[trigger] v1.nodes[x]).word == p.nodes[x].word,
    ensures
        v1.words(j) == words_of(p, p.waiters[j]),
        words_of(v1, p.waiters[j]) == words_of(p, p.waiters[j]),
        forall|i: int|
            0 <= i < p.waiters[j].len() ==> (#[trigger] p.waiters[j][i]) < NODE_COUNT
                && v1.nodes[p.waiters[j][i] as int].word < NODE_COUNT,
{
    let list = p.waiters[j];
    assert forall|i: int| 0 <= i < list.len() implies (#[trigger] list[i]) < NODE_COUNT
        && v1.nodes[list[i] as int].word < NODE_COUNT && v1.nodes[list[i] as int].word
        == p.nodes[list[i] as int].word by {
        assert(v1.waiters[j][i] < NODE_COUNT);
        assert(v1.nodes[v1.waiters[j][i] as int].on is Some);
    }
    assert(v1.words(j) =~= words_of(p, list));
    assert(words_of(v1, list) =~= words_of(p, list));
}

/// What closing the lost objects among the first `k` does to node `x`.
proof fn lemma_closing_node(p: RegionView, c: CallerView, k: nat, x: int)
    requires
        p.inv(),
        k <= SLOT_COUNT,
        0 <= x < NODE_COUNT,
    ensures
        ({
            let m = sweep::reaped_upto(p, c, k).0;
            let n = times(called_all(p, c, k), x);
            &&& m.nodes[x].on == if p.nodes[x].on is Some && p.nodes[x].on->0 < k && lost(
                p,
                c,
                p.nodes[x].on->0 as int,
            ) {
                None
            } else {
                p.nodes[x].on
            }
            &&& m.nodes[x].seq == (p.nodes[x].seq + n) % 0x1_0000_0000
            &&& m.nodes[x].wake_ts == if n > 0 && c.debug {
                c.now
            } else {
                p.nodes[x].wake_ts
            }
        }),
    decreases k,
{
    if k > 0 {
        let j = k - 1;
        lemma_closing_node(p, c, j as nat, x);
        lemma_closing(p, c, j as nat);
        reclaim::lemma_reaped(p, c, j as nat);
        let (v1, c1, n1) = sweep::reaped_upto(p, c, j as nat);
        assert(v1.slots[j] == p.slots[j]);
        let before = called_all(p, c, j as nat);
        if lost(p, c, j) {
            assert(v1.orphaned(c1, j));
            assert(j > 0);
            reclaim::lemma_closed_inv(v1, c1, j);
            lemma_same_words(p, v1, j);
            let list = p.waiters[j];
            lemma_woken_counts(v1, list, c1.stamp(), x);
            lemma_times_append(before, words_of(p, list), x);
        } else {
            assert(!v1.orphaned(c1, j));
            assert(called_all(p, c, k) =~= before);
        }
    }
}

proof fn lemma_called(v: RegionView, p: RegionView, c: CallerView, k: nat)
    requires
        k <= SLOT_COUNT,
        p.slots == v.slots,
        forall|o: int|
            0 <= o < SLOT_COUNT ==> #[trigger] p.waiters[o] == survivors(v, c, o),
        forall|o: int, i: int|
            0 <= o < SLOT_COUNT && 0 <= i < p.waiters[o].len() ==> #[trigger] p.waiters[o][i]
                < NODE_COUNT,
        forall|x: int| 0 <= x < NODE_COUNT ==> (#[trigger] p.nodes[x]).word == v.nodes[x].word,
    ensures
        called_all(p, c, k) == called(v, c, k),
    decreases k,
{
    if k > 0 {
        lemma_called(v, p, c, (k - 1) as nat);
        assert(p.waiters[k - 1] == survivors(v, c, k - 1));
        assert(words_of(p, p.waiters[k - 1]) =~= words_of(v, survivors(v, c, k - 1))) by {
            assert forall|i: int| 0 <= i < p.waiters[k - 1].len() implies #[trigger] words_of(
                p,
                p.waiters[k - 1],
            )[i] == words_of(v, survivors(v, c, k - 1))[i] by {
                assert(p.waiters[k - 1][i] < NODE_COUNT);
            }
        }
    }
}

/// A sweep frees every object whose creator is gone, whatever kind of object it is, and
/// no other, and tells how many they were. It takes the waits of processes that are gone
/// off all lists, keeps those of others in order, and wakes those of them that wait on
/// an object that it frees.
pub proof fn law_sweep_frees_what_the_dead_left(v: RegionView, c: CallerView)
    requires
        v.inv(),
    ensures
        ({
            let (m, mc, n) = sweep::swept(v, c);
            &&& n == lost_count(v.slots, c.dead, 16384)
            &&& m.slots.len() == v.slots.len()
            &&& forall|j: int|
                0 <= j < 16384 ==> #[trigger] m.slots[j] == if lost(v, c, j) {
                    vacated(v.slots[j])
                } else {
                    v.slots[j]
                }
            &&& forall|j: int|
                0 <= j < 16384 && (#[trigger] m.slots[j]).used ==> m.slots[j].pid == 0
                    || !c.dead.contains(m.slots[j].pid)
            &&& forall|o: int|
                0 <= o < 16384 ==> #[trigger] m.waiters[o] == if lost(v, c, o) {
                    Seq::empty()
                } else {
                    survivors(v, c, o)
                }
            &&& forall|x: int|
                0 <= x < 8192 ==> {
                    &&& (#[trigger] m.nodes[x]).on == if v.nodes[x].on is Some && !missing(
                        c,
                        v.nodes[x].pid,
                    ) && !lost(v, c, v.nodes[x].on->0 as int) {
                        v.nodes[x].on
                    } else {
                        None
                    }
                    &&& m.nodes[x].word == v.nodes[x].word
                    &&& m.nodes[x].pid == v.nodes[x].pid
                    &&& m.nodes[x].seq == (v.nodes[x].seq + times(called(v, c, 16384), x))
                        % 0x1_0000_0000
                    &&& m.nodes[x].wake_ts == if times(called(v, c, 16384), x) > 0 && c.debug {
                        c.now
                    } else {
                        v.nodes[x].wake_ts
                    }
                }
            &&& m.free == v.free
            &&& m.fresh == v.fresh
            &&& m.next_scan == v.next_scan
            &&& m.sweep_ns == v.sweep_ns
            &&& mc == (CallerView { wakes: c.wakes + called(v, c, 16384), ..c })
        }),
{
    let p = v.purged(c);
    reclaim::lemma_purged_inv(v, c);
    lemma_closing(p, c, SLOT_COUNT as nat);
    reclaim::lemma_reaped(p, c, SLOT_COUNT as nat);
    reclaim::law_sweep_frees_orphans(v, c);
    let (m, mc, n) = sweep::swept(v, c);
    assert forall|o: int| 0 <= o < SLOT_COUNT implies #[trigger] p.waiters[o] == survivors(
        v,
        c,
        o,
    ) by {
        let f = |n: u32| !(n < NODE_COUNT as int && c.gone(v.nodes[n as int].pid));
        let g = |n: u32| !missing(c, v.nodes[n as int].pid);
        assert forall|i: int| 0 <= i < v.waiters[o].len() implies f(#[trigger] v.waiters[o][i])
            == g(v.waiters[o][i]) by {
            assert(v.waiters[o][i] < NODE_COUNT);
        }
        sweep::lemma_filter_same(v.waiters[o], f, g);
    }
    lemma_called(v, p, c, SLOT_COUNT as nat);
    assert forall|j: int| 0 <= j < 16384 implies #[trigger] m.slots[j] == (if lost(v, c, j) {
        vacated(v.slots[j])
    } else {
        v.slots[j]
    }) by {
        assert(v.orphaned(c, j) == lost(v, c, j));
    }
    assert forall|x: int| 0 <= x < 8192 implies {
        &&& (#[trigger] m.nodes[x]).on == if v.nodes[x].on is Some && !missing(c, v.nodes[x].pid)
            && !lost(v, c, v.nodes[x].on->0 as int) {
            v.nodes[x].on
        } else {
            None
        }
        &&& m.nodes[x].word == v.nodes[x].word
        &&& m.nodes[x].pid == v.nodes[x].pid
        &&& m.nodes[x].seq == (v.nodes[x].seq + times(called(v, c, 16384), x)) % 0x1_0000_0000
        &&& m.nodes[x].wake_ts == if times(called(v, c, 16384), x) > 0 && c.debug {
            c.now
        } else {
            v.nodes[x].wake_ts
        }
    } by {
        lemma_closing_node(p, c, SLOT_COUNT as nat, x);
        assert(p.nodes[x].pid == v.nodes[x].pid);
        if p.nodes[x].on is Some {
            assert(p.nodes[x].on->0 < SLOT_COUNT);
        }
    }
}

/// A caller whose turn it is sweeps; any other only counts the call.
pub proof fn law_sweep_when_due(v: RegionView, c: CallerView)
    requires
        v.inv(),
    ensures
        ({
            let (m, mc) = sweep::auto_swept(v, c);
            let (s, sc, n) = sweep::swept(v, c);
            &&& mc.calls == if c.calls == u64::MAX {
                0
            } else {
                c.calls + 1
            }
            &&& forall|j: int| 0 <= j < 16384 ==> #[trigger] m.slots[j] == remains(v, c, j)
            &&& mc == (CallerView {
                wakes: mc.wakes,
                calls: mc.calls,
                reclaimed: mc.reclaimed,
                ..c
            })
            &&& if due(v, c) {
                &&& m == (RegionView { sweep_ns: c.now, ..s })
                &&& mc.wakes == c.wakes + called(v, c, 16384)
                &&& mc.reclaimed == lost_count(v.slots, c.dead, 16384)
            } else {
                m == v && mc.wakes == c.wakes && mc.reclaimed == 0
            }
        }),
{
    let c1 = c.ticked();
    law_sweep_frees_what_the_dead_left(v, c);
    law_sweep_frees_what_the_dead_left(v, c1);
    lemma_lost_count_bound(v.slots, c.dead, 16384);
    let (m, mc) = sweep::auto_swept(v, c);
    if due(v, c) {
        lemma_same_sweep(v, c, c1);
    }
}

proof fn lemma_lost_count_bound(slots: Seq<SlotView>, dead: Seq<u32>, k: nat)
    ensures
        lost_count(slots, dead, k) <= k,
    decreases k,
{
    if k > 0 {
        lemma_lost_count_bound(slots, dead, (k - 1) as nat);
    }
}

/// A sweep does not depend on how many calls the caller has made.
proof fn lemma_same_sweep(v: RegionView, c: CallerView, c1: CallerView)
    requires
        v.inv(),
        c1 == c.ticked(),
    ensures
        sweep::swept(v, c1).0 == sweep::swept(v, c).0,
        called(v, c1, 16384) == called(v, c, 16384),
{
    assert(v.purged(c) =~= v.purged(c1)) by {
        assert(forall|pid: u32| c.gone(pid) == c1.gone(pid));
        assert(v.purged(c).nodes =~= v.purged(c1).nodes);
        assert forall|o: int| 0 <= o < v.waiters.len() implies #[trigger] v.purged(c).waiters[o]
            == v.purged(c1).waiters[o] by {
            let f = |n: u32| !(n < NODE_COUNT as int && c.gone(v.nodes[n as int].pid));
            let g = |n: u32| !(n < NODE_COUNT as int && c1.gone(v.nodes[n as int].pid));
            sweep::lemma_filter_same(v.waiters[o], f, g);
        }
    }
    lemma_same_reaping(v.purged(c), c, c1, SLOT_COUNT as nat);
    lemma_same_called(v, c, c1, 16384);
}

proof fn lemma_same_reaping(p: RegionView, c: CallerView, c1: CallerView, k: nat)
    requires
        c1 == c.ticked(),
    ensures
        sweep::reaped_upto(p, c1, k).0 == sweep::reaped_upto(p, c, k).0,
    decreases k,
{
    if k > 0 {
        lemma_same_reaping(p, c, c1, (k - 1) as nat);
        sweep::lemma_reaped_caller(p, c, (k - 1) as nat);
        sweep::lemma_reaped_caller(p, c1, (k - 1) as nat);
    }
}

proof fn lemma_same_called(v: RegionView, c: CallerView, c1: CallerView, k: nat)
    requires
        c1 == c.ticked(),
    ensures
        called(v, c1, k) == called(v, c, k),
    decreases k,
{
    if k > 0 {
        lemma_same_called(v, c, c1, (k - 1) as nat);
        let f = |n: u32| !missing(c, v.nodes[n as int].pid);
        let g = |n: u32| !missing(c1, v.nodes[n as int].pid);
        sweep::lemma_filter_same(v.waiters[k - 1], f, g);
    }
}

/// No object of a process that exists, and no object without a creator, is ever swept.
pub proof fn law_sweep_spares_the_living(v: RegionView, c: CallerView, j: int)
    requires
        v.inv(),
        0 <= j < 16384,
        v.slots[j].pid == 0 || !c.dead.contains(v.slots[j].pid),
    ensures
        sweep::swept(v, c).0.slots[j] == v.slots[j],
        sweep::auto_swept(v, c).0.slots[j] == v.slots[j],
{
    law_sweep_frees_what_the_dead_left(v, c);
    law_sweep_when_due(v, c);
}

} // verus!
