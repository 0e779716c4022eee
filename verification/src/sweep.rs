//! Reclaiming what processes that are gone have left behind.
use crate::caller::{contains, Caller, CallerView};
use crate::errno::{os_esrch, ESRCH};
use crate::error::Error;
use crate::history::Call;
use crate::region;
use crate::region::{
    node_detach, set_sweep_ns, slot_free, wake_object, NodeView, Region, RegionView, NODE_COUNT,
};
use crate::object::SLOT_USED;
use crate::word::SLOT_COUNT;
use vstd::prelude::*;

verus! {

/// Default number of seconds between automatic sweeps.
pub const DEFAULT_INTERVAL_SEC: u64 = 30;

impl RegionView {
    /// After the nodes below `k` of waiters that are gone were taken off their
    /// lists.
    pub open spec fn purged_upto(self, c: CallerView, k: int) -> RegionView {
        RegionView {
            nodes: Seq::new(
                self.nodes.len(),
                |n: int|
                    if n < k && c.gone(self.nodes[n].pid) {
                        NodeView { on: None, ..self.nodes[n] }
                    } else {
                        self.nodes[n]
                    },
            ),
            waiters: Seq::new(
                self.waiters.len(),
                |o: int|
                    self.waiters[o].filter(
                        |n: u32| !(n < k && c.gone(self.nodes[n as int].pid)),
                    ),
            ),
            ..self
        }
    }

    /// After all nodes of waiters that are gone were taken off their lists.
    pub open spec fn purged(self, c: CallerView) -> RegionView {
        self.purged_upto(c, NODE_COUNT as int)
    }

    /// Whether the object in slot `i` was created by a process that is gone.
    pub open spec fn orphaned(self, c: CallerView, i: int) -> bool {
        self.slots[i].used && self.slots[i].pid != 0 && c.gone(self.slots[i].pid)
    }
}

/// After object `i` was closed: its waiters are woken and its slot is free.
pub open spec fn closed(v: RegionView, c: CallerView, i: int) -> (RegionView, CallerView) {
    let (v2, c2) = region::woken(v, c, i);
    (v2.with_slot(i, v2.slots[i].freed()), c2)
}

/// After the orphaned objects among the first `k` slots were closed, and how
/// many they were.
pub open spec fn reaped_upto(v: RegionView, c: CallerView, k: nat) -> (
    RegionView,
    CallerView,
    nat,
)
    decreases k,
{
    if k == 0 {
        (v, c, 0)
    } else {
        let (v1, c1, n) = reaped_upto(v, c, (k - 1) as nat);
        if v1.orphaned(c1, k - 1) {
            let (v2, c2) = closed(v1, c1, k - 1);
            (v2, c2, n + 1)
        } else {
            (v1, c1, n)
        }
    }
}

/// After a sweep, and how many objects it freed.
pub open spec fn swept(v: RegionView, c: CallerView) -> (RegionView, CallerView, nat) {
    reaped_upto(v.purged(c), c, SLOT_COUNT as nat)
}

/// Whether an automatic sweep is due: at every 256th signal operation of a
/// thread, if the interval has passed since the last one.
pub open spec fn sweep_due(v: RegionView, c: CallerView) -> bool {
    &&& c.calls % 256 == 0
    &&& c.interval != 0
    &&& c.now >= v.sweep_ns
    &&& c.now - v.sweep_ns >= c.interval
}

/// After the check for an automatic sweep that signal operations start with. The
/// caller learns how many objects were freed.
pub open spec fn auto_swept(v: RegionView, c: CallerView) -> (RegionView, CallerView) {
    if sweep_due(v, c) {
        let (v2, c2, freed) = swept(v, c.ticked());
        (
            RegionView { sweep_ns: c.now, ..v2 },
            CallerView { reclaimed: freed as u32, ..c2 },
        )
    } else {
        (v, CallerView { reclaimed: 0, ..c.ticked() })
    }
}

/// A sweep adds to the caller's wakes and changes nothing else of its context.
pub proof fn lemma_reaped_caller(v: RegionView, c: CallerView, k: nat)
    ensures
        reaped_upto(v, c, k).1 == (CallerView { wakes: reaped_upto(v, c, k).1.wakes, ..c }),
    decreases k,
{
    if k > 0 {
        lemma_reaped_caller(v, c, (k - 1) as nat);
    }
}

/// Waking everybody on a list keeps the table and which nodes are in use.
pub proof fn lemma_woken_keeps(v: RegionView, list: Seq<u32>, stamp: Option<u64>)
    ensures
        ({
            let m = v.woken_list(list, stamp);
            m == (RegionView { nodes: m.nodes, waiters: m.waiters, ..v })
        }),
    decreases list.len(),
{
    if list.len() > 0 {
        let n = list[0];
        lemma_woken_keeps(
            v.detached(n).bumped(v.nodes[n as int].word, stamp),
            list.drop_first(),
            stamp,
        );
    }
}

/// A sweep keeps which nodes are in use.
pub proof fn lemma_reaped_keeps(v: RegionView, c: CallerView, k: nat)
    ensures
        ({
            let m = reaped_upto(v, c, k).0;
            m == (RegionView { slots: m.slots, nodes: m.nodes, waiters: m.waiters, ..v })
        }),
    decreases k,
{
    if k > 0 {
        lemma_reaped_keeps(v, c, (k - 1) as nat);
        let (v1, c1, _) = reaped_upto(v, c, (k - 1) as nat);
        lemma_woken_keeps(v1, v1.waiters[k - 1], c1.stamp());
    }
}

/// An automatic sweep keeps which nodes are in use, and of the caller's context
/// everything but the wakes, the number of calls and the number of objects freed.
pub proof fn lemma_auto_swept_keeps(v: RegionView, c: CallerView)
    ensures
        ({
            let (m, mc) = auto_swept(v, c);
            &&& m == (RegionView {
                slots: m.slots,
                nodes: m.nodes,
                waiters: m.waiters,
                sweep_ns: m.sweep_ns,
                ..v
            })
            &&& mc == (CallerView {
                wakes: mc.wakes,
                calls: mc.calls,
                reclaimed: mc.reclaimed,
                ..c
            })
        }),
{
    lemma_reaped_keeps(v.purged(c.ticked()), c.ticked(), SLOT_COUNT as nat);
    lemma_reaped_caller(v.purged(c.ticked()), c.ticked(), SLOT_COUNT as nat);
}

proof fn lemma_filter_one_less(s: Seq<u32>, p: spec_fn(u32) -> bool, q: spec_fn(u32) -> bool, n: u32)
    requires
        s.no_duplicates(),
        p(n),
        forall|x: u32| #[trigger] q(x) == (p(x) && x != n),
    ensures
        s.filter(q) == region::without(s.filter(p), n),
        s.filter(p).no_duplicates(),
        forall|x: u32| s.filter(p).contains(x) ==> s.contains(x),
    decreases s.len(),
{
    reveal(Seq::filter);
    if s.len() == 0 {
        assert(s.filter(p) =~= Seq::empty());
        assert(s.filter(q) =~= Seq::empty());
    } else {
        let t = s.drop_last();
        let last = s.last();
        lemma_filter_one_less(t, p, q, n);
        let fp = t.filter(p);
        let fq = t.filter(q);
        assert(!t.contains(last)) by {
            if t.contains(last) {
                let i = t.index_of(last);
                assert(s[i] == s[s.len() - 1]);
            }
        }
        assert(!fp.contains(last));
        assert forall|x: u32| s.filter(p).contains(x) implies s.contains(x) by {
            let i = choose|i: int| 0 <= i < s.filter(p).len() && s.filter(p)[i] == x;
            if p(last) && i == fp.len() {
                assert(s[s.len() - 1] == x);
            } else {
                assert(fp[i] == x);
                assert(t.filter(p).contains(x));
                assert(t.contains(x));
                let j = choose|j: int| 0 <= j < t.len() && t[j] == x;
                assert(s[j] == x);
            }
        }
        if p(last) {
            assert(s.filter(p) == fp.push(last));
            if last == n {
                assert(s.filter(q) == fq);
                assert(fq == fp);
                let g = fp.push(last);
                assert(g[fp.len() as int] == n);
                assert(g.index_of(n) == fp.len()) by {
                    let i = g.index_of(n);
                    assert(g[i] == n);
                    if i < fp.len() {
                        assert(fp[i] == n);
                    }
                }
                assert(g.remove(fp.len() as int) =~= fp);
            } else {
                assert(s.filter(q) == fq.push(last));
                let g = fp.push(last);
                if fp.contains(n) {
                    let i = fp.index_of(n);
                    assert(g[i] == n);
                    assert(g.index_of(n) == i) by {
                        let j = g.index_of(n);
                        assert(g[j] == n);
                        assert(fp[j] == n);
                    }
                    assert(g.remove(i) =~= fp.remove(i).push(last));
                } else {
                    assert(!g.contains(n)) by {
                        if g.contains(n) {
                            let j = g.index_of(n);
                            assert(fp[j] == n);
                        }
                    }
                }
            }
        } else {
            assert(s.filter(p) == fp);
            assert(s.filter(q) == fq);
        }
    }
}

/// Filters that agree on a sequence pick the same of it.
pub proof fn lemma_filter_same(s: Seq<u32>, p: spec_fn(u32) -> bool, q: spec_fn(u32) -> bool)
    requires
        forall|i: int| 0 <= i < s.len() ==> p(#[trigger] s[i]) == q(s[i]),
    ensures
        s.filter(p) == s.filter(q),
    decreases s.len(),
{
    reveal(Seq::filter);
    if s.len() > 0 {
        assert forall|i: int| 0 <= i < s.drop_last().len() implies p(
            #[trigger] s.drop_last()[i],
        ) == q(s.drop_last()[i]) by {
            assert(s.drop_last()[i] == s[i]);
        }
        lemma_filter_same(s.drop_last(), p, q);
        assert(s.last() == s[s.len() - 1]);
    } else {
        assert(s.filter(p) =~= s.filter(q));
    }
}

proof fn lemma_filter_all(s: Seq<u32>, p: spec_fn(u32) -> bool)
    requires
        forall|i: int| 0 <= i < s.len() ==> p(#[trigger] s[i]),
    ensures
        s.filter(p) == s,
    decreases s.len(),
{
    reveal(Seq::filter);
    if s.len() > 0 {
        assert forall|i: int| 0 <= i < s.drop_last().len() implies p(
            #[trigger] s.drop_last()[i],
        ) by {
            assert(s.drop_last()[i] == s[i]);
        }
        lemma_filter_all(s.drop_last(), p);
        assert(s.last() == s[s.len() - 1]);
        assert(s.drop_last().push(s.last()) =~= s);
    } else {
        assert(s.filter(p) =~= s);
    }
}

/// Purging one more node.
proof fn lemma_purge_step(v: RegionView, c: CallerView, k: int)
    requires
        v.inv(),
        0 <= k < NODE_COUNT,
    ensures
        ({
            let w = v.purged_upto(c, k);
            v.purged_upto(c, k + 1) == if w.nodes[k].on is Some && c.gone(w.nodes[k].pid) {
                w.detached(k as u32)
            } else {
                w
            }
        }),
{
    let w = v.purged_upto(c, k);
    let x = v.purged_upto(c, k + 1);
    let n = k as u32;
    assert(w.nodes[k] == v.nodes[k]);
    assert forall|o: int| 0 <= o < SLOT_COUNT implies #[trigger] x.waiters[o] == (if v.nodes[k].on
        == Some(o as u32) && c.gone(v.nodes[k].pid) {
        region::without(w.waiters[o], n)
    } else {
        w.waiters[o]
    }) by {
        let p = |n: u32| !(n < k && c.gone(v.nodes[n as int].pid));
        let q = |n: u32| !(n < k + 1 && c.gone(v.nodes[n as int].pid));
        assert(x.waiters[o] == v.waiters[o].filter(q));
        assert(w.waiters[o] == v.waiters[o].filter(p));
        if v.nodes[k].on == Some(o as u32) && c.gone(v.nodes[k].pid) {
            assert forall|y: u32| #[trigger] q(y) == (p(y) && y != n) by {}
            lemma_filter_one_less(v.waiters[o], p, q, n);
        } else {
            assert forall|i: int| 0 <= i < v.waiters[o].len() implies p(
                #[trigger] v.waiters[o][i],
            ) == q(v.waiters[o][i]) by {
                assert(v.nodes[v.waiters[o][i] as int].on == Some(o as u32));
            }
            lemma_filter_same(v.waiters[o], p, q);
        }
    }
    if w.nodes[k].on is Some && c.gone(w.nodes[k].pid) {
        assert(x.nodes =~= w.detached(n).nodes);
        assert(x.waiters =~= w.detached(n).waiters);
    } else {
        assert(x.nodes =~= w.nodes);
        assert(x.waiters =~= w.waiters);
    }
}

/// Purging no node changes nothing; nodes that were never handed out need no
/// purging.
proof fn lemma_purge_ends(v: RegionView, c: CallerView)
    requires
        v.inv(),
    ensures
        v.purged_upto(c, 0) == v,
        v.purged_upto(c, v.fresh as int) == v.purged(c),
{
    let w = v.purged_upto(c, 0);
    assert forall|o: int| 0 <= o < SLOT_COUNT implies #[trigger] w.waiters[o] == v.waiters[o] by {
        let p = |n: u32| !(n < 0 && c.gone(v.nodes[n as int].pid));
        assert(w.waiters[o] == v.waiters[o].filter(p));
        lemma_filter_all(v.waiters[o], p);
    }
    assert(w.nodes =~= v.nodes);
    assert(w.waiters =~= v.waiters);
    let x = v.purged_upto(c, v.fresh as int);
    let y = v.purged(c);
    assert forall|n: int| 0 <= n < NODE_COUNT implies #[trigger] x.nodes[n] == y.nodes[n] by {
        if n >= v.fresh {
            assert(v.nodes[n].on is None);
        }
    }
    assert forall|o: int| 0 <= o < SLOT_COUNT implies #[trigger] x.waiters[o] == y.waiters[o] by {
        let p = |n: u32| !(n < v.fresh as int && c.gone(v.nodes[n as int].pid));
        let q = |n: u32| !(n < NODE_COUNT as int && c.gone(v.nodes[n as int].pid));
        assert(x.waiters[o] == v.waiters[o].filter(p));
        assert(y.waiters[o] == v.waiters[o].filter(q));
        assert forall|i: int| 0 <= i < v.waiters[o].len() implies p(#[trigger] v.waiters[o][i])
            == q(v.waiters[o][i]) by {
            assert(v.nodes[v.waiters[o][i] as int].on == Some(o as u32));
        }
        lemma_filter_same(v.waiters[o], p, q);
    }
    assert(x.nodes =~= y.nodes);
    assert(x.waiters =~= y.waiters);
}

/// Takes the nodes of waiters that are gone off their lists.
fn purge_nodes(r: &mut Region, cx: &Caller)
    requires
        old(r).wf(),
    ensures
        final(r).wf(),
        final(r)@ == old(r)@.purged(cx@),
{
    let ghost v = r@;
    let ghost c = cx@;
    proof {
        r.lemma_sizes();
        r.lemma_inv();
        lemma_purge_ends(v, c);
    }
    let node_hi = r.header.node_fresh;
    let mut i: u32 = 0;
    while i < node_hi
        invariant
            r.wf(),
            v.inv(),
            i <= node_hi <= NODE_COUNT,
            node_hi == v.fresh,
            c == cx@,
            r@ == v.purged_upto(c, i as int),
        decreases node_hi - i,
    {
        proof {
            r.lemma_sizes();
            lemma_purge_step(v, c, i as int);
        }
        let node = r.nodes[i as usize];
        if node.registered != 0 && cx.is_gone(node.pid) {
            node_detach(r, i);
        }
        i = i + 1;
    }
    proof {
        lemma_purge_ends(v, c);
    }
}

/// Closes object `i`: wakes its waiters, who will find it gone, and frees its
/// slot.
pub fn close_slot(r: &mut Region, cx: &mut Caller, i: u32)
    requires
        old(r).wf(),
        0 < i < SLOT_COUNT,
        old(r)@.slots[i as int].used,
    ensures
        final(r).wf(),
        (final(r)@, final(cx)@) == closed(old(r)@, old(cx)@, i as int),
        final(cx)@.dead == old(cx)@.dead,
{
    wake_object(r, cx, i);
    slot_free(r, i as usize);
}

/// Takes waiters that are gone off all lists, then frees the objects whose
/// creators are gone. Gives the number of objects freed.
pub fn sweep_dead_locked(r: &mut Region, cx: &mut Caller) -> (freed: u32)
    requires
        old(r).wf(),
    ensures
        final(r).wf(),
        (final(r)@, final(cx)@, freed as nat) == swept(old(r)@, old(cx)@),
        freed < SLOT_COUNT,
{
    let ghost c = cx@;
    purge_nodes(r, cx);
    let ghost v = r@;
    let mut freed: u32 = 0;
    let mut index: u32 = 0;
    proof {
        r.lemma_inv();
    }
    while index < SLOT_COUNT
        invariant
            r.wf(),
            index <= SLOT_COUNT,
            freed <= index,
            index > 0 ==> freed < index,
            (r@, cx@, freed as nat) == reaped_upto(v, c, index as nat),
        decreases SLOT_COUNT - index,
    {
        proof {
            r.lemma_sizes();
            r.lemma_inv();
        }
        let s = r.slots[index as usize];
        assert(s@ == r@.slots[index as int]);
        if s.state == SLOT_USED && s.pid != 0 && cx.is_gone(s.pid) {
            close_slot(r, cx, index);
            freed = freed + 1;
        }
        index = index + 1;
    }
    freed
}

/// Frees all objects created by processes that are gone, and takes their waits
/// off all lists. Gives the number of objects freed.
pub fn sweep_dead(r: &mut Region, cx: &mut Caller) -> (res: Result<u32, Error>)
    requires
        old(r).wf(),
    ensures
        final(r).wf(),
        res matches Ok(freed) && freed < SLOT_COUNT && (final(r)@, final(cx)@, freed as nat)
            == swept(old(r)@, old(cx)@),
        res matches Ok(freed) && (Call::Sweep { freed: freed as nat }).made(
            old(r)@,
            old(cx)@,
            final(r)@,
            final(cx)@,
        ),
{
    Ok(sweep_dead_locked(r, cx))
}

/// Whether the next signal operation of this thread will sweep.
pub fn is_sweep_due(r: &Region, cx: &Caller) -> (b: bool)
    requires
        r.wf(),
    ensures
        b == sweep_due(r@, cx@),
{
    let n = cx.calls;
    proof {
        assert(n & 0xff == n % 256) by (bit_vector);
    }
    if n & 0xff != 0 {
        return false;
    }
    if cx.interval == 0 {
        return false;
    }
    cx.now.saturating_sub(r.header.sweep_ns) >= cx.interval
}

/// Sweeps if that is due. Gives the number of objects freed.
pub fn auto_sweep_dead(r: &mut Region, cx: &mut Caller) -> (freed: u32)
    requires
        old(r).wf(),
    ensures
        final(r).wf(),
        (final(r)@, final(cx)@) == auto_swept(old(r)@, old(cx)@),
        final(cx)@.reclaimed == freed,
        freed as nat == if sweep_due(old(r)@, old(cx)@) {
            swept(old(r)@, old(cx)@.ticked()).2
        } else {
            0
        },
{
    let due = is_sweep_due(r, cx);
    cx.calls = cx.calls.wrapping_add(1);
    if !due {
        cx.reclaimed = 0;
        return 0;
    }
    let now = cx.now;
    let freed = sweep_dead_locked(r, cx);
    cx.reclaimed = freed;
    set_sweep_ns(r, now);
    freed
}

/// The time between automatic sweeps, in nanoseconds.
pub open spec fn interval_of(secs: Option<u64>) -> int {
    match secs {
        Some(s) => s * 1_000_000_000,
        None => DEFAULT_INTERVAL_SEC * 1_000_000_000,
    }
}

/// The time between automatic sweeps, from the number of seconds that was
/// asked for, if any.
pub fn sweep_interval_ns(secs: Option<u64>) -> (ns: u64)
    requires
        secs matches Some(s) ==> s * 1_000_000_000 <= u64::MAX,
    ensures
        ns == (match secs {
            Some(s) => s,
            None => DEFAULT_INTERVAL_SEC,
        }) * 1_000_000_000,
        ns == interval_of(secs),
{
    match secs {
        Some(s) => s * 1_000_000_000,
        None => DEFAULT_INTERVAL_SEC * 1_000_000_000,
    }
}

impl RegionView {
    /// Whether process `pid` has created an object that exists, or waits.
    pub open spec fn involves(self, pid: u32) -> bool {
        ||| exists|i: int|
            0 <= i < SLOT_COUNT && (#[trigger] self.slots[i]).used && self.slots[i].pid == pid
        ||| exists|n: int|
            0 <= n < NODE_COUNT && (#[trigger] self.nodes[n]).on is Some && self.nodes[n].pid
                == pid
    }
}

/// Adds `pid` to `pids`, unless it is 0 or there already.
fn note_pid(pids: &mut Vec<u32>, pid: u32)
    requires
        old(pids)@.no_duplicates(),
    ensures
        final(pids)@.no_duplicates(),
        forall|p: u32|
            #[trigger] final(pids)@.contains(p) <==> old(pids)@.contains(p) || (p == pid && p != 0),
{
    if pid != 0 && !contains(pids, pid) {
        let ghost before = pids@;
        pids.push(pid);
        proof {
            assert forall|p: u32| #[trigger]
                pids@.contains(p) <==> before.contains(p) || (p == pid && p != 0) by {
                if before.contains(p) {
                    let i = before.index_of(p);
                    assert(pids@[i] == p);
                }
                assert(pids@[before.len() as int] == pid);
                if pids@.contains(p) && p != pid {
                    let i = pids@.index_of(p);
                    assert(before[i] == p);
                }
            }
        }
    }
}

/// The processes whose existence a sweep depends on.
pub fn probe_pids(r: &Region) -> (pids: Vec<u32>)
    requires
        r.wf(),
    ensures
        pids@.no_duplicates(),
        forall|p: u32| #[trigger] pids@.contains(p) <==> p != 0 && r@.involves(p),
{
    proof {
        r.lemma_sizes();
        r.lemma_inv();
    }
    let mut pids: Vec<u32> = Vec::new();
    let mut i: usize = 0;
    while i < SLOT_COUNT as usize
        invariant
            r.wf(),
            i <= SLOT_COUNT,
            r.slots@.len() == SLOT_COUNT,
            pids@.no_duplicates(),
            forall|p: u32| #[trigger]
                pids@.contains(p) <==> p != 0 && exists|k: int|
                    0 <= k < i && (#[trigger] r@.slots[k]).used && r@.slots[k].pid == p,
        decreases SLOT_COUNT - i,
    {
        let s = r.slots[i];
        assert(s@ == r@.slots[i as int]);
        if s.state == SLOT_USED {
            note_pid(&mut pids, s.pid);
        }
        i = i + 1;
    }
    let node_hi = r.header.node_fresh as usize;
    let mut n: usize = 0;
    while n < node_hi
        invariant
            r.wf(),
            n <= node_hi <= NODE_COUNT,
            r.nodes@.len() == NODE_COUNT,
            pids@.no_duplicates(),
            forall|p: u32| #[trigger]
                pids@.contains(p) <==> p != 0 && ((exists|k: int|
                    0 <= k < SLOT_COUNT && (#[trigger] r@.slots[k]).used && r@.slots[k].pid == p)
                    || (exists|k: int|
                    0 <= k < n && (#[trigger] r@.nodes[k]).on is Some && r@.nodes[k].pid == p)),
        decreases node_hi - n,
    {
        let node = r.nodes[n];
        assert(node@ == r@.nodes[n as int]);
        if node.registered != 0 {
            note_pid(&mut pids, node.pid);
        }
        n = n + 1;
    }
    pids
}

/// Whether a probe of a process means that the process is gone.
pub open spec fn found_gone(ret: i32, errno: i32) -> bool {
    ret != 0 && errno == ESRCH
}

/// Whether a probe of a process, which returned `ret` and left the error number
/// `errno`, means that the process is gone.
pub fn probe_says_gone(ret: i32, errno: i32) -> (gone: bool)
    ensures
        gone == (ret != 0 && errno == ESRCH),
        gone == found_gone(ret, errno),
{
    ret != 0 && errno == os_esrch()
}

/// Whether the table has a free slot.
pub fn has_room(r: &Region) -> (b: bool)
    requires
        r.wf(),
    ensures
        b == (r@.free_slot() is Some),
{
    proof {
        r.lemma_sizes();
        r.lemma_inv();
        region::law_search_finds_free_slot(r@);
    }
    let mut i: usize = 0;
    while i < SLOT_COUNT as usize
        invariant
            r.wf(),
            r.slots@.len() == SLOT_COUNT,
            i <= SLOT_COUNT,
            forall|k: int| 0 <= k < i ==> (#[trigger] r@.slots[k]).used,
        decreases SLOT_COUNT - i,
    {
        let s = r.slots[i];
        assert(s@ == r@.slots[i as int]);
        assert(region::slot_valid(s, i as int)) by {
            r.lemma_sizes();
        }
        if s.state != SLOT_USED {
            proof {
                r.lemma_inv();
                region::law_search_finds_free_slot(r@);
                assert(!r@.slots[i as int].used);
            }
            return true;
        }
        i = i + 1;
    }
    proof {
        r.lemma_inv();
        region::law_search_finds_free_slot(r@);
    }
    false
}

} // verus!
