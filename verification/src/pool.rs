//! The waiter nodes of one wait: handing out a set of them, putting them on
//! the lists of the objects waited on, and giving them back.
use crate::region::{
    node_alloc, node_detach, node_free, node_register, NodeView, Region, RegionView, NIL,
    NODE_COUNT,
};
use crate::satisfy::MAX_WAIT_COUNT;
use crate::word;
use crate::word::handle_index;
use vstd::prelude::*;

verus! {

/// Most nodes that one wait can need: one per object and one for the alert.
pub const MAX_NODES: usize = 65;

/// Fixed-capacity set of waiter nodes.
pub struct NodeSet {
    idx: [u32; 65],
    len: usize,
}

impl View for NodeSet {
    type V = Seq<u32>;

    closed spec fn view(&self) -> Seq<u32> {
        self.idx@.take(self.len as int)
    }
}

impl NodeSet {
    #[verifier::type_invariant]
    spec fn fits(self) -> bool {
        self.len <= MAX_NODES
    }

    /// No nodes.
    pub fn new() -> (s: NodeSet)
        ensures
            s@ == Seq::<u32>::empty(),
    {
        let s = NodeSet { idx: [0;65], len: 0 };
        assert(s@ =~= Seq::empty());
        s
    }

    /// Adds a node.
    pub fn push(&mut self, v: u32)
        requires
            old(self)@.len() < MAX_NODES,
        ensures
            final(self)@ == old(self)@.push(v),
    {
        proof {
            use_type_invariant(&*self);
        }
        let len = self.len;
        self.idx[len] = v;
        self.len = len + 1;
        assert(self@ =~= old(self)@.push(v));
    }

    /// Whether there are no nodes.
    pub fn is_empty(&self) -> (b: bool)
        ensures
            b == (self@.len() == 0),
    {
        proof {
            use_type_invariant(self);
        }
        self.len == 0
    }

    /// Number of nodes.
    pub fn len(&self) -> (n: usize)
        ensures
            n == self@.len(),
            n <= MAX_NODES,
    {
        proof {
            use_type_invariant(self);
        }
        self.len
    }

    /// Removes all nodes.
    pub fn clear(&mut self)
        ensures
            final(self)@ == Seq::<u32>::empty(),
    {
        self.len = 0;
        assert(self@ =~= Seq::empty());
    }

    /// The `i`-th node.
    pub fn get(&self, i: usize) -> (n: u32)
        requires
            i < self@.len(),
        ensures
            n == self@[i as int],
    {
        proof {
            use_type_invariant(self);
        }
        self.idx[i]
    }
}

impl RegionView {
    /// How many nodes can be handed out.
    pub open spec fn available(self) -> int {
        self.free.len() + (NODE_COUNT - self.fresh)
    }

    /// The next `n` nodes to be handed out: recycled ones first.
    pub open spec fn given(self, n: nat) -> Seq<u32> {
        Seq::new(
            n,
            |i: int|
                if i < self.free.len() {
                    self.free[i]
                } else {
                    (self.fresh + (i - self.free.len())) as u32
                },
        )
    }

    /// After `n` nodes were handed out to process `pid`.
    pub open spec fn handed_out(self, pid: u32, n: nat) -> RegionView {
        RegionView {
            nodes: Seq::new(
                self.nodes.len(),
                |x: int|
                    if self.given(n).contains(x as u32) {
                        NodeView { on: None, word: NIL, pid, ..self.nodes[x] }
                    } else {
                        self.nodes[x]
                    },
            ),
            free: if n <= self.free.len() {
                self.free.skip(n as int)
            } else {
                Seq::empty()
            },
            fresh: if n <= self.free.len() {
                self.fresh
            } else {
                (self.fresh + (n - self.free.len())) as u32
            },
            ..self
        }
    }

    /// After all nodes of `s` were taken off the lists that they are on.
    pub open spec fn detached_all(self, s: Seq<u32>) -> RegionView
        decreases s.len(),
    {
        if s.len() == 0 {
            self
        } else {
            self.detached_all(s.drop_last()).detached(s.last())
        }
    }

    /// After the nodes of `s` were given back in order.
    pub open spec fn released(self, s: Seq<u32>) -> RegionView {
        RegionView { free: s.reverse() + self.free, ..self }
    }

    /// After each of the first `k` nodes of `s` was put on the list of the object
    /// that the corresponding one of `targets` names; the waiter sleeps on the
    /// first node.
    pub open spec fn enrolled(self, targets: Seq<u32>, s: Seq<u32>, k: nat) -> RegionView
        decreases k,
    {
        if k == 0 {
            self
        } else {
            self.enrolled(targets, s, (k - 1) as nat).registered(
                s[k - 1],
                word::index_of(targets[k - 1]) as u32,
                s[0],
            )
        }
    }

    /// Whether the nodes of `s` are in use, each listed once.
    pub open spec fn all_allocated(self, s: Seq<u32>) -> bool {
        &&& s.no_duplicates()
        &&& forall|i: int| 0 <= i < s.len() ==> self.allocated(#[trigger] s[i])
    }

    /// Whether no node of `s` is on a list.
    pub open spec fn none_listed(self, s: Seq<u32>) -> bool {
        forall|i: int| 0 <= i < s.len() ==> self.nodes[(#[trigger] s[i]) as int].on is None
    }
}

/// Handing out one more node.
proof fn lemma_given_step(v: RegionView, pid: u32, k: nat)
    requires
        v.inv(),
        k <= v.available(),
    ensures
        ({
            let m = v.handed_out(pid, k);
            &&& m.next_node() is Some <==> k < v.available()
            &&& k < v.available() ==> {
                &&& m.next_node() == Some(v.given(k + 1)[k as int])
                &&& v.given(k + 1) == v.given(k).push(v.given(k + 1)[k as int])
                &&& v.handed_out(pid, k + 1) == m.allocated_one(pid)
            }
        }),
        v.handed_out(pid, 0) == v,
        v.given(0) == Seq::<u32>::empty(),
{
    let m = v.handed_out(pid, k);
    assert(v.handed_out(pid, 0) =~= v);
    assert(v.given(0) =~= Seq::empty());
    if k < v.available() {
        let g = v.given(k + 1);
        let n = g[k as int];
        assert(g =~= v.given(k).push(n));
        if k < v.free.len() {
            assert(m.free[0] == v.free[k as int]);
            assert(v.free[k as int] < v.fresh);
        }
        assert(m.next_node() == Some(n));
        let a = v.handed_out(pid, k + 1);
        let b = m.allocated_one(pid);
        assert(a.free =~= b.free);
        assert forall|x: int| 0 <= x < NODE_COUNT implies #[trigger] a.nodes[x] == b.nodes[x] by {
            if v.given(k).contains(x as u32) {
                let i = v.given(k).index_of(x as u32);
                assert(g[i] == x as u32);
            }
            if g.contains(x as u32) {
                let i = g.index_of(x as u32);
                if i < k {
                    assert(v.given(k)[i] == x as u32);
                }
            }
            if x == n as int {
                assert(g[k as int] == x as u32);
            }
        }
        assert(a.nodes =~= b.nodes);
    }
}

/// What was handed out is in use, and on no list.
pub proof fn lemma_given(v: RegionView, pid: u32, n: nat)
    requires
        v.inv(),
        n <= v.available(),
    ensures
        v.handed_out(pid, n).all_allocated(v.given(n)),
        v.handed_out(pid, n).none_listed(v.given(n)),
        forall|x: u32| v.given(n).contains(x) ==> !v.allocated(x) && x < NODE_COUNT,
        forall|x: u32| v.allocated(x) ==> #[trigger] v.handed_out(pid, n).allocated(x),
        forall|x: int|
            0 <= x < NODE_COUNT && v.allocated(x as u32) ==> #[trigger] v.handed_out(
                pid,
                n,
            ).nodes[x] == v.nodes[x],
{
    let m = v.handed_out(pid, n);
    let g = v.given(n);
    assert forall|i: int, j: int| 0 <= i < j < g.len() implies g[i] != g[j] by {
        if i < v.free.len() {
            assert(v.free[i] < v.fresh);
        }
        if j < v.free.len() {
            assert(v.free[i] != v.free[j]);
        }
    }
    assert(g.no_duplicates());
    assert forall|i: int| 0 <= i < g.len() implies m.allocated(#[trigger] g[i]) by {
        if i < v.free.len() {
            assert(v.free[i] < v.fresh);
        }
        if m.free.contains(g[i]) {
            let j = m.free.index_of(g[i]);
            assert(m.free[j] == v.free[n + j]);
            assert(v.free[n + j] < v.fresh);
        }
    }
    assert forall|i: int| 0 <= i < g.len() implies m.nodes[(#[trigger] g[i]) as int].on is None by {
        if i < v.free.len() {
            assert(v.free[i] < v.fresh);
        }
        assert(g.contains(g[i]));
    }
    assert forall|x: u32| g.contains(x) implies !v.allocated(x) && x < NODE_COUNT by {
        let i = g.index_of(x);
        if i < v.free.len() {
            assert(v.free[i] < v.fresh);
            assert(v.free.contains(x));
        }
    }
    assert forall|x: u32| v.allocated(x) implies #[trigger] m.allocated(x) by {
        if m.free.contains(x) {
            let j = m.free.index_of(x);
            assert(m.free[j] == v.free[n + j]);
            assert(v.free.contains(x));
        }
    }
}

/// What taking nodes off their lists changes, and what not.
pub proof fn lemma_detached_all(v: RegionView, s: Seq<u32>)
    requires
        v.nodes.len() == NODE_COUNT,
        forall|i: int| 0 <= i < s.len() ==> #[trigger] s[i] < NODE_COUNT,
    ensures
        ({
            let m = v.detached_all(s);
            &&& m == (RegionView { nodes: m.nodes, waiters: m.waiters, ..v })
            &&& m.nodes.len() == NODE_COUNT
            &&& forall|x: int|
                0 <= x < NODE_COUNT ==> #[trigger] m.nodes[x] == if s.contains(x as u32) {
                    NodeView { on: None, ..v.nodes[x] }
                } else {
                    v.nodes[x]
                }
        }),
    decreases s.len(),
{
    if s.len() > 0 {
        let t = s.drop_last();
        let n = s.last();
        assert(s[s.len() - 1] == n);
        assert forall|i: int| 0 <= i < t.len() implies #[trigger] t[i] < NODE_COUNT by {
            assert(t[i] == s[i]);
        }
        lemma_detached_all(v, t);
        let m = v.detached_all(s);
        assert forall|x: int| 0 <= x < NODE_COUNT implies #[trigger] m.nodes[x] == (if s.contains(
            x as u32,
        ) {
            NodeView { on: None, ..v.nodes[x] }
        } else {
            v.nodes[x]
        }) by {
            if t.contains(x as u32) {
                let i = t.index_of(x as u32);
                assert(s[i] == x as u32);
            }
            if s.contains(x as u32) && x as u32 != n {
                let i = s.index_of(x as u32);
                assert(t[i] == x as u32);
            }
        }
    }
}

/// Takes all nodes of a waiter off the lists that they are on.
pub fn detach_nodes(r: &mut Region, nodes: &NodeSet)
    requires
        old(r).wf(),
        old(r)@.all_allocated(nodes@),
    ensures
        final(r).wf(),
        final(r)@ == old(r)@.detached_all(nodes@),
        final(r)@.all_allocated(nodes@),
        final(r)@.none_listed(nodes@),
{
    let ghost v = r@;
    proof {
        r.lemma_inv();
        assert forall|i: int| 0 <= i < nodes@.len() implies #[trigger] nodes@[i] < NODE_COUNT by {
            assert(v.allocated(nodes@[i]));
        }
    }
    let mut i: usize = 0;
    assert(nodes@.take(0) =~= Seq::empty());
    while i < nodes.len()
        invariant
            i <= nodes@.len(),
            r.wf(),
            forall|k: int| 0 <= k < nodes@.len() ==> #[trigger] nodes@[k] < NODE_COUNT,
            r@ == v.detached_all(nodes@.take(i as int)),
        decreases nodes@.len() - i,
    {
        node_detach(r, nodes.get(i));
        proof {
            let t = nodes@.take(i + 1);
            assert(t.drop_last() =~= nodes@.take(i as int));
            assert(t.last() == nodes@[i as int]);
        }
        i = i + 1;
    }
    proof {
        assert(nodes@.take(nodes@.len() as int) =~= nodes@);
        lemma_detached_all(v, nodes@);
        assert forall|k: int| 0 <= k < nodes@.len() implies r@.allocated(#[trigger] nodes@[k]) by {
            assert(v.allocated(nodes@[k]));
        }
        assert forall|k: int| 0 <= k < nodes@.len() implies r@.nodes[(
        #[trigger] nodes@[k]) as int].on is None by {
            assert(nodes@.contains(nodes@[k]));
        }
    }
}

/// Gives all nodes of a waiter back.
fn free_nodes(r: &mut Region, nodes: &NodeSet)
    requires
        old(r).wf(),
        old(r)@.all_allocated(nodes@),
        old(r)@.none_listed(nodes@),
    ensures
        final(r).wf(),
        final(r)@ == old(r)@.released(nodes@),
{
    let ghost v = r@;
    let mut i: usize = 0;
    assert(v.released(nodes@.take(0)) =~= v);
    while i < nodes.len()
        invariant
            i <= nodes@.len(),
            r.wf(),
            v.all_allocated(nodes@),
            v.none_listed(nodes@),
            r@ == v.released(nodes@.take(i as int)),
        decreases nodes@.len() - i,
    {
        let n = nodes.get(i);
        proof {
            let t = nodes@.take(i as int);
            assert(v.allocated(nodes@[i as int]));
            if r@.free.contains(n) {
                let j = r@.free.index_of(n);
                if j < t.len() {
                    assert(t.reverse()[j] == nodes@[t.len() - 1 - j]);
                } else {
                    assert(v.free[j - t.len()] == n);
                }
            }
            assert(r@.nodes[nodes@[i as int] as int].on is None);
        }
        node_free(r, n);
        proof {
            let t = nodes@.take(i as int);
            let t2 = nodes@.take(i + 1);
            assert(t2.reverse() =~= seq![n] + t.reverse());
            assert(r@.free =~= t2.reverse() + v.free);
        }
        i = i + 1;
    }
    assert(nodes@.take(nodes@.len() as int) =~= nodes@);
}

/// Takes all nodes of a waiter off their lists and gives them back.
pub fn waiter_cleanup(r: &mut Region, nodes: &mut NodeSet)
    requires
        old(r).wf(),
        old(r)@.all_allocated(old(nodes)@),
    ensures
        final(r).wf(),
        final(r)@ == old(r)@.detached_all(old(nodes)@).released(old(nodes)@),
        final(nodes)@ == Seq::<u32>::empty(),
{
    detach_nodes(r, nodes);
    free_nodes(r, nodes);
    nodes.clear();
}

/// Taking nodes off their lists that are on none changes nothing.
pub proof fn lemma_detached_none(v: RegionView, s: Seq<u32>)
    requires
        v.none_listed(s),
    ensures
        v.detached_all(s) == v,
    decreases s.len(),
{
    if s.len() > 0 {
        let t = s.drop_last();
        assert forall|i: int| 0 <= i < t.len() implies v.nodes[(#[trigger] t[i]) as int].on is None by {
            assert(t[i] == s[i]);
        }
        lemma_detached_none(v, t);
        assert(v.nodes[s[s.len() - 1] as int].on is None);
    }
}

/// Hands out `n` nodes to process `pid`, or none if there are not enough.
pub fn alloc_nodes(r: &mut Region, pid: u32, n: usize, nodes: &mut NodeSet) -> (ok: bool)
    requires
        old(r).wf(),
        n <= MAX_NODES,
        old(nodes)@.len() == 0,
    ensures
        final(r).wf(),
        ok == (n <= old(r)@.available()),
        ok ==> {
            &&& final(r)@ == old(r)@.handed_out(pid, n as nat)
            &&& final(nodes)@ == old(r)@.given(n as nat)
        },
        !ok ==> {
            let m = old(r)@.available() as nat;
            &&& final(r)@ == old(r)@.handed_out(pid, m).released(old(r)@.given(m))
            &&& final(nodes)@ == Seq::<u32>::empty()
        },
{
    let ghost v = r@;
    proof {
        r.lemma_inv();
        lemma_given_step(v, pid, 0);
        assert(nodes@ =~= v.given(0));
    }
    let mut i: usize = 0;
    while i < n
        invariant
            i <= n <= MAX_NODES,
            i <= v.available(),
            v == old(r)@,
            r.wf(),
            v.inv(),
            r@ == v.handed_out(pid, i as nat),
            nodes@ == v.given(i as nat),
        decreases n - i,
    {
        proof {
            lemma_given_step(v, pid, i as nat);
        }
        match node_alloc(r, pid) {
            Some(idx) => nodes.push(idx),
            None => {
                proof {
                    assert(r@ == v.handed_out(pid, i as nat));
                    lemma_given(v, pid, i as nat);
                    lemma_detached_none(r@, nodes@);
                }
                waiter_cleanup(r, nodes);
                return false;
            },
        }
        i = i + 1;
    }
    true
}

/// What a wait on `handles` that `alert` can interrupt is registered on.
pub open spec fn targets(handles: Seq<u32>, alert: u32) -> Seq<u32> {
    if alert == 0 {
        handles
    } else {
        handles.push(alert)
    }
}

/// What putting nodes on lists changes, and what not.
pub proof fn lemma_enrolled(v: RegionView, t: Seq<u32>, s: Seq<u32>, k: nat)
    requires
        v.nodes.len() == NODE_COUNT,
        k <= s.len() <= t.len(),
        s.no_duplicates(),
        forall|i: int| 0 <= i < s.len() ==> #[trigger] s[i] < NODE_COUNT,
    ensures
        ({
            let m = v.enrolled(t, s, k);
            &&& m == (RegionView { nodes: m.nodes, waiters: m.waiters, ..v })
            &&& m.nodes.len() == NODE_COUNT
            &&& forall|i: int|
                0 <= i < k ==> #[trigger] m.nodes[s[i] as int] == (NodeView {
                    on: Some(word::index_of(t[i]) as u32),
                    word: s[0],
                    ..v.nodes[s[i] as int]
                })
            &&& forall|x: int|
                0 <= x < NODE_COUNT && !s.take(k as int).contains(x as u32)
                    ==> #[trigger] m.nodes[x] == v.nodes[x]
        }),
    decreases k,
{
    if k > 0 {
        lemma_enrolled(v, t, s, (k - 1) as nat);
        let m = v.enrolled(t, s, k);
        let p = v.enrolled(t, s, (k - 1) as nat);
        let a = s.take(k - 1);
        let b = s.take(k as int);
        assert(!a.contains(s[k - 1])) by {
            if a.contains(s[k - 1]) {
                let i = a.index_of(s[k - 1]);
                assert(s[i] == s[k - 1]);
            }
        }
        assert(p.nodes[s[k - 1] as int] == v.nodes[s[k - 1] as int]);
        assert forall|i: int| 0 <= i < k implies #[trigger] m.nodes[s[i] as int] == (NodeView {
            on: Some(word::index_of(t[i]) as u32),
            word: s[0],
            ..v.nodes[s[i] as int]
        }) by {
            if i < k - 1 {
                assert(s[i] != s[k - 1]);
                assert(m.nodes[s[i] as int] == p.nodes[s[i] as int]);
            }
        }
        assert forall|x: int|
            0 <= x < NODE_COUNT && !b.contains(x as u32) implies #[trigger] m.nodes[x]
            == v.nodes[x] by {
            if a.contains(x as u32) {
                let i = a.index_of(x as u32);
                assert(b[i] == x as u32);
            }
            assert(b[k - 1] == s[k - 1]);
        }
    }
}

/// Puts the nodes of a waiter on the lists of the objects that it waits on and
/// of its alert, if it has one.
pub fn register_nodes(r: &mut Region, handles: &Vec<u32>, alert: u32, nodes: &NodeSet)
    requires
        old(r).wf(),
        old(r)@.all_allocated(nodes@),
        old(r)@.none_listed(nodes@),
        0 < handles@.len() <= MAX_WAIT_COUNT,
        nodes@.len() == targets(handles@, alert).len(),
        forall|i: int|
            0 <= i < handles@.len() ==> old(r)@.lookup(#[trigger] handles@[i]) is Some,
        alert != 0 ==> old(r)@.lookup(alert) is Some,
    ensures
        final(r).wf(),
        final(r)@ == old(r)@.enrolled(targets(handles@, alert), nodes@, nodes@.len()),
{
    let ghost v = r@;
    let ghost t = targets(handles@, alert);
    proof {
        r.lemma_inv();
        assert forall|i: int| 0 <= i < nodes@.len() implies #[trigger] nodes@[i] < NODE_COUNT by {
            assert(v.allocated(nodes@[i]));
        }
    }
    let head = nodes.get(0);
    let mut i: usize = 0;
    while i < handles.len()
        invariant
            i <= handles@.len() <= nodes@.len(),
            0 < handles@.len(),
            r.wf(),
            v.inv(),
            v.all_allocated(nodes@),
            v.none_listed(nodes@),
            forall|k: int| 0 <= k < nodes@.len() ==> #[trigger] nodes@[k] < NODE_COUNT,
            forall|k: int| 0 <= k < handles@.len() ==> v.lookup(#[trigger] handles@[k]) is Some,
            nodes@.len() == t.len(),
            t == targets(handles@, alert),
            head == nodes@[0],
            r@ == v.enrolled(t, nodes@, i as nat),
        decreases handles@.len() - i,
    {
        proof {
            lemma_can_enroll(v, t, nodes@, i as nat);
            assert(t[i as int] == handles@[i as int]);
            assert(v.lookup(handles@[i as int]) is Some);
        }
        node_register(r, nodes.get(i), handle_index(handles[i]), head);
        i = i + 1;
    }
    if alert != 0 {
        proof {
            lemma_can_enroll(v, t, nodes@, i as nat);
        }
        node_register(r, nodes.get(handles.len()), handle_index(alert), head);
    }
}

proof fn lemma_can_enroll(v: RegionView, t: Seq<u32>, s: Seq<u32>, k: nat)
    requires
        v.inv(),
        k < s.len() <= t.len(),
        v.all_allocated(s),
        v.none_listed(s),
        forall|i: int| 0 <= i < s.len() ==> #[trigger] s[i] < NODE_COUNT,
    ensures
        ({
            let m = v.enrolled(t, s, k);
            &&& m.allocated(s[k as int])
            &&& m.nodes[s[k as int] as int].on is None
            &&& m.slots == v.slots
        }),
{
    lemma_enrolled(v, t, s, k);
    let m = v.enrolled(t, s, k);
    assert(v.allocated(s[k as int]));
    let a = s.take(k as int);
    if a.contains(s[k as int]) {
        let i = a.index_of(s[k as int]);
        assert(s[i] == s[k as int]);
    }
    assert(m.nodes[s[k as int] as int] == v.nodes[s[k as int] as int]);
}

} // verus!
