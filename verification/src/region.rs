//! The region: the object table, the per-object waiter lists, and the pool of
//! waiter nodes that the lists are threaded through.
//!
//! Each object keeps an intrusive doubly linked list of the waiter nodes
//! registered on it, most recent first. Unused nodes form a singly linked free
//! list; nodes that were never handed out are not on it but lie above the
//! `node_fresh` mark.
use crate::caller::Caller;
use crate::caller::CallerView;
use crate::object;
use crate::object::{Object, Slot, SlotView, SLOT_FREE, SLOT_USED, TYPE_RESERVED};
use crate::stats::{bump, WAKE_WALKS};
use crate::word;
use crate::word::{handle_generation, handle_index, make_handle, SLOT_COUNT};
use vstd::prelude::*;

verus! {

/// Marks a region file of this library.
pub const MAGIC: u64 = 0x6E7473796E635F75;

/// Version of the region layout.
pub const VERSION: u32 = 9;

/// Number of nodes in the waiter pool.
pub const NODE_COUNT: u32 = 8192;

/// The null node index.
pub const NIL: u32 = 0xffff_ffff;

/// One waiter node. A thread that waits on N objects holds N nodes and
/// registers one on each object's list; it sleeps on the `seq` word of its first
/// node.
#[derive(Clone, Copy)]
pub struct WaitNode {
    /// Futex word (only that of a waiter's first node is waited on).
    pub seq: u32,
    /// Nonzero while the node is linked on the list of `obj`.
    pub registered: u32,
    /// Slot index of the object that the node is registered on.
    pub obj: u32,
    /// The waiter's first node, whose `seq` is to be bumped.
    pub wait_word: u32,
    pub obj_prev: u32,
    pub obj_next: u32,
    /// Free-list link.
    pub waiter_next: u32,
    /// Process of the waiter.
    pub pid: u32,
    /// When the waiter was last woken (diagnostics).
    pub wake_ts: u64,
}

/// Bookkeeping of the region.
pub struct Header {
    pub magic: u64,
    pub version: u32,
    pub capacity: u32,
    pub node_capacity: u32,
    /// First node of the free list.
    pub node_free_head: u32,
    /// First node that was never handed out.
    pub node_fresh: u32,
    /// Where the next search for a free slot starts.
    pub next_scan: u32,
    /// When the last automatic sweep ran.
    pub sweep_ns: u64,
}

/// The shared region.
pub struct Region {
    pub header: Box<Header>,
    pub slots: Vec<Slot>,
    pub nodes: Vec<WaitNode>,
}

/// What a waiter node means.
pub struct NodeView {
    /// Futex word.
    pub seq: u32,
    /// Slot index of the object on whose list the node is.
    pub on: Option<u32>,
    /// Node whose futex word belongs to the waiter.
    pub word: u32,
    /// Process of the waiter.
    pub pid: u32,
    /// When the waiter was last woken.
    pub wake_ts: u64,
}

/// The region as mathematical values.
#[verifier::ext_equal]
pub struct RegionView {
    pub slots: Seq<SlotView>,
    /// For each slot, the nodes waiting on its object, most recent first.
    pub waiters: Seq<Seq<u32>>,
    pub nodes: Seq<NodeView>,
    /// Recycled nodes, in the order in which they will be handed out.
    pub free: Seq<u32>,
    /// First node that was never handed out.
    pub fresh: u32,
    /// Where the next search for a free slot starts.
    pub next_scan: u32,
    /// When the last automatic sweep ran.
    pub sweep_ns: u64,
}

impl View for WaitNode {
    type V = NodeView;

    open spec fn view(&self) -> NodeView {
        NodeView {
            seq: self.seq,
            on: if self.registered != 0 {
                Some(self.obj)
            } else {
                None
            },
            word: self.wait_word,
            pid: self.pid,
            wake_ts: self.wake_ts,
        }
    }
}

/// The list `s` hangs off `head` and consists of nodes registered on `obj`.
pub open spec fn is_chain(nodes: Seq<WaitNode>, obj: u32, head: u32, s: Seq<u32>) -> bool {
    &&& s.no_duplicates()
    &&& head == if s.len() == 0 {
        NIL
    } else {
        s[0]
    }
    &&& forall|i: int| 0 <= i < s.len() ==> #[trigger] s[i] < nodes.len()
    &&& forall|i: int|
        0 <= i < s.len() ==> {
            &&& (#[trigger] nodes[s[i] as int]).registered != 0
            &&& nodes[s[i] as int].obj == obj
            &&& nodes[s[i] as int].obj_prev == if i == 0 {
                NIL
            } else {
                s[i - 1]
            }
            &&& nodes[s[i] as int].obj_next == if i + 1 == s.len() {
                NIL
            } else {
                s[i + 1]
            }
        }
}

/// The nodes listed from `head` on for object `obj`.
pub open spec fn chain_from(nodes: Seq<WaitNode>, obj: u32, head: u32) -> Seq<u32> {
    choose|s: Seq<u32>| is_chain(nodes, obj, head, s)
}

/// The free list `s` hangs off `head`.
pub open spec fn is_free_chain(nodes: Seq<WaitNode>, head: u32, s: Seq<u32>) -> bool {
    &&& s.no_duplicates()
    &&& head == if s.len() == 0 {
        NIL
    } else {
        s[0]
    }
    &&& forall|i: int| 0 <= i < s.len() ==> #[trigger] s[i] < nodes.len()
    &&& forall|i: int|
        0 <= i < s.len() ==> {
            &&& (#[trigger] nodes[s[i] as int]).waiter_next == if i + 1 == s.len() {
                NIL
            } else {
                s[i + 1]
            }
        }
}

/// The nodes of the free list from `head` on.
pub open spec fn free_from(nodes: Seq<WaitNode>, head: u32) -> Seq<u32> {
    choose|s: Seq<u32>| is_free_chain(nodes, head, s)
}

/// What holds of slot `i` of a region: slot 0 is reserved, every other used
/// slot holds an object in a valid state.
pub open spec fn slot_valid(s: Slot, i: int) -> bool {
    &&& s.state == SLOT_USED || s.state == SLOT_FREE
    &&& i == 0 ==> {
        &&& s.state == SLOT_USED
        &&& s.generation == 0
        &&& s.obj_type == TYPE_RESERVED
        &&& s.pid == 0
    }
    &&& i != 0 && s.state == SLOT_USED ==> {
        &&& 1 <= s.obj_type <= 3
        &&& object::word_valid(s.obj_type, s.w0)
    }
}

impl View for Region {
    type V = RegionView;

    open spec fn view(&self) -> RegionView {
        RegionView {
            slots: self.slots@.map_values(|s: Slot| s@),
            waiters: Seq::new(
                self.slots@.len(),
                |o: int|
                    if self.slots@[o].state == SLOT_USED {
                        chain_from(self.nodes@, o as u32, self.slots@[o].waiter_head)
                    } else {
                        Seq::empty()
                    },
            ),
            nodes: self.nodes@.map_values(|n: WaitNode| n@),
            free: free_from(self.nodes@, self.header.node_free_head),
            fresh: self.header.node_fresh,
            next_scan: self.header.next_scan,
            sweep_ns: self.header.sweep_ns,
        }
    }
}

/// What the header of a region that this library laid out holds.
pub open spec fn header_valid(h: Header) -> bool {
    &&& h.magic == MAGIC
    &&& h.version == VERSION
    &&& h.capacity == SLOT_COUNT
    &&& h.node_capacity == NODE_COUNT
}

impl Region {
    /// The table and the lists are intact, and the lists are `lists` and
    /// `free`.
    #[verifier::opaque]
    pub closed spec fn wf_with(&self, lists: Seq<Seq<u32>>, free: Seq<u32>) -> bool {
        &&& self.slots@.len() == SLOT_COUNT
        &&& self.nodes@.len() == NODE_COUNT
        &&& header_valid(*self.header)
        &&& self.header.node_fresh <= NODE_COUNT
        &&& self.header.next_scan < SLOT_COUNT
        &&& forall|i: int| 0 <= i < SLOT_COUNT ==> slot_valid(#[trigger] self.slots@[i], i)
        &&& lists.len() == SLOT_COUNT
        &&& forall|o: int|
            0 <= o < SLOT_COUNT ==> #[trigger] self.list_ok(o, lists[o])
        &&& forall|n: int|
            0 <= n < NODE_COUNT && (#[trigger] self.nodes@[n]).registered != 0 ==> {
                &&& n < self.header.node_fresh
                &&& self.nodes@[n].obj < SLOT_COUNT
                &&& self.slots@[self.nodes@[n].obj as int].state == SLOT_USED
                &&& lists[self.nodes@[n].obj as int].contains(n as u32)
                &&& self.nodes@[n].wait_word < NODE_COUNT
            }
        &&& is_free_chain(self.nodes@, self.header.node_free_head, free)
        &&& forall|i: int|
            0 <= i < free.len() ==> {
                &&& #[trigger] free[i] < self.header.node_fresh
                &&& self.nodes@[free[i] as int].registered == 0
            }
    }

    pub closed spec fn list_ok(&self, o: int, s: Seq<u32>) -> bool {
        if self.slots@[o].state == SLOT_USED {
            is_chain(self.nodes@, o as u32, self.slots@[o].waiter_head, s)
        } else {
            s.len() == 0
        }
    }

    /// The region is intact.
    pub closed spec fn wf(&self) -> bool {
        self.wf_with(self@.waiters, self@.free)
    }
}

impl RegionView {
    /// What holds of every intact region.
    pub open spec fn inv(self) -> bool {
        &&& self.slots.len() == SLOT_COUNT
        &&& self.waiters.len() == SLOT_COUNT
        &&& self.nodes.len() == NODE_COUNT
        &&& self.fresh <= NODE_COUNT
        &&& self.next_scan < SLOT_COUNT
        &&& self.slots[0].used
        &&& self.slots[0].generation == 0
        &&& self.slots[0].pid == 0
        &&& self.slots[0].object is Reserved
        &&& forall|i: int|
            0 < i < SLOT_COUNT && (#[trigger] self.slots[i]).used ==> {
                &&& self.slots[i].object.valid()
                &&& !(self.slots[i].object is Reserved)
            }
        &&& forall|o: int| 0 <= o < SLOT_COUNT ==> (#[trigger] self.waiters[o]).no_duplicates()
        &&& forall|o: int, i: int|
            0 <= o < SLOT_COUNT && 0 <= i < self.waiters[o].len() ==> {
                &&& #[trigger] self.waiters[o][i] < NODE_COUNT
                &&& self.nodes[self.waiters[o][i] as int].on == Some(o as u32)
            }
        &&& forall|n: int|
            0 <= n < NODE_COUNT && (#[trigger] self.nodes[n]).on is Some ==> {
                &&& n < self.fresh
                &&& self.nodes[n].on->0 < SLOT_COUNT
                &&& self.slots[self.nodes[n].on->0 as int].used
                &&& self.waiters[self.nodes[n].on->0 as int].contains(n as u32)
                &&& self.nodes[n].word < NODE_COUNT
            }
        &&& self.free.no_duplicates()
        &&& forall|i: int|
            0 <= i < self.free.len() ==> {
                &&& #[trigger] self.free[i] < self.fresh
                &&& self.nodes[self.free[i] as int].on is None
            }
    }

    /// The slot that a handle names, if its object still exists.
    pub open spec fn lookup(self, handle: u32) -> Option<int> {
        let i = word::index_of(handle);
        if self.slots[i].used && self.slots[i].generation == word::generation_of(handle) {
            Some(i)
        } else {
            None
        }
    }

    /// Whether node `n` was handed out and not given back.
    pub open spec fn allocated(self, n: u32) -> bool {
        n < self.fresh && !self.free.contains(n)
    }

    /// With slot `i` replaced.
    pub open spec fn with_slot(self, i: int, s: SlotView) -> RegionView {
        RegionView { slots: self.slots.update(i, s), ..self }
    }
}

proof fn lemma_chain_unique(nodes: Seq<WaitNode>, obj: u32, head: u32, s: Seq<u32>, t: Seq<u32>)
    requires
        nodes.len() <= NIL,
        is_chain(nodes, obj, head, s),
        is_chain(nodes, obj, head, t),
    ensures
        s == t,
{
    lemma_chain_agree(nodes, obj, head, s, t, s.len());
    lemma_chain_agree(nodes, obj, head, t, s, t.len());
    assert(s =~= t);
}

proof fn lemma_chain_agree(
    nodes: Seq<WaitNode>,
    obj: u32,
    head: u32,
    s: Seq<u32>,
    t: Seq<u32>,
    k: nat,
)
    requires
        nodes.len() <= NIL,
        is_chain(nodes, obj, head, s),
        is_chain(nodes, obj, head, t),
        k <= s.len(),
    ensures
        k <= t.len(),
        forall|i: int| 0 <= i < k ==> s[i] == t[i],
    decreases k,
{
    if k > 0 {
        lemma_chain_agree(nodes, obj, head, s, t, (k - 1) as nat);
        assert(s[k - 1] < nodes.len());
        if k > 1 {
            assert(s[k - 2] == t[k - 2]);
            assert(nodes[t[k - 2] as int].obj_next == s[k - 1]);
        }
    }
}

proof fn lemma_free_unique(nodes: Seq<WaitNode>, head: u32, s: Seq<u32>, t: Seq<u32>)
    requires
        nodes.len() <= NIL,
        is_free_chain(nodes, head, s),
        is_free_chain(nodes, head, t),
    ensures
        s == t,
{
    lemma_free_agree(nodes, head, s, t, s.len());
    lemma_free_agree(nodes, head, t, s, t.len());
    assert(s =~= t);
}

proof fn lemma_free_agree(nodes: Seq<WaitNode>, head: u32, s: Seq<u32>, t: Seq<u32>, k: nat)
    requires
        nodes.len() <= NIL,
        is_free_chain(nodes, head, s),
        is_free_chain(nodes, head, t),
        k <= s.len(),
    ensures
        k <= t.len(),
        forall|i: int| 0 <= i < k ==> s[i] == t[i],
    decreases k,
{
    if k > 0 {
        lemma_free_agree(nodes, head, s, t, (k - 1) as nat);
        assert(s[k - 1] < nodes.len());
        if k > 1 {
            assert(s[k - 2] == t[k - 2]);
            assert(nodes[t[k - 2] as int].waiter_next == s[k - 1]);
        }
    }
}

impl Region {
    /// Lists that fit the links are the lists of the region.
    proof fn lemma_lists(&self, lists: Seq<Seq<u32>>, free: Seq<u32>)
        requires
            self.wf_with(lists, free),
        ensures
            self.wf(),
            self@.waiters == lists,
            self@.free == free,
    {
        reveal(Region::wf_with);
        assert forall|o: int| 0 <= o < SLOT_COUNT implies #[trigger] self@.waiters[o]
            == lists[o] by {
            assert(self.list_ok(o, lists[o]));
            if self.slots@[o].state == SLOT_USED {
                let head = self.slots@[o].waiter_head;
                assert(is_chain(self.nodes@, o as u32, head, chain_from(self.nodes@, o as u32, head)));
                lemma_chain_unique(
                    self.nodes@,
                    o as u32,
                    head,
                    lists[o],
                    chain_from(self.nodes@, o as u32, head),
                );
            } else {
                assert(lists[o] =~= Seq::empty());
            }
        }
        assert(self@.waiters =~= lists);
        let head = self.header.node_free_head;
        assert(is_free_chain(self.nodes@, head, free_from(self.nodes@, head)));
        lemma_free_unique(self.nodes@, head, free, free_from(self.nodes@, head));
    }

    /// What holds of every intact region.
    pub proof fn lemma_inv(&self)
        requires
            self.wf(),
        ensures
            self@.inv(),
    {
        reveal(Region::wf_with);
        let v = self@;
        assert forall|o: int| 0 <= o < SLOT_COUNT implies (
        #[trigger] v.waiters[o]).no_duplicates() by {
            assert(self.list_ok(o, v.waiters[o]));
        }
        assert forall|o: int, i: int|
            0 <= o < SLOT_COUNT && 0 <= i < v.waiters[o].len() implies {
            &&& #[trigger] v.waiters[o][i] < NODE_COUNT
            &&& v.nodes[v.waiters[o][i] as int].on == Some(o as u32)
        } by {
            assert(self.list_ok(o, v.waiters[o]));
        }
        assert(slot_valid(self.slots@[0], 0));
        assert forall|i: int| 0 < i < SLOT_COUNT && (#[trigger] v.slots[i]).used implies {
            &&& v.slots[i].object.valid()
            &&& !(v.slots[i].object is Reserved)
        } by {
            assert(slot_valid(self.slots@[i], i));
        }
        assert forall|n: int| 0 <= n < NODE_COUNT && (#[trigger] v.nodes[n]).on is Some implies {
            &&& n < v.fresh
            &&& v.nodes[n].on->0 < SLOT_COUNT
            &&& v.slots[v.nodes[n].on->0 as int].used
            &&& v.waiters[v.nodes[n].on->0 as int].contains(n as u32)
            &&& v.nodes[n].word < NODE_COUNT
        } by {
            assert(self.nodes@[n].registered != 0);
        }
        assert forall|i: int| 0 <= i < v.free.len() implies {
            &&& #[trigger] v.free[i] < v.fresh
            &&& v.nodes[v.free[i] as int].on is None
        } by {
            assert(self.nodes@[v.free[i] as int].registered == 0);
        }
    }

    /// Nobody waits on a free slot.
    proof fn lemma_lists_of_free_slots(&self)
        requires
            self.wf(),
        ensures
            forall|o: int|
                0 <= o < SLOT_COUNT && self.slots@[o].state != SLOT_USED ==> (
                #[trigger] self@.waiters[o]).len() == 0,
    {
        reveal(Region::wf_with);
    }

    /// The header is the library's, the tables have their full size, and every slot
    /// is in order.
    pub proof fn lemma_sizes(&self)
        requires
            self.wf(),
        ensures
            header_valid(*self.header),
            self.slots@.len() == SLOT_COUNT,
            self.nodes@.len() == NODE_COUNT,
            self.header.node_fresh <= NODE_COUNT,
            self.header.next_scan < SLOT_COUNT,
            forall|i: int| 0 <= i < SLOT_COUNT ==> slot_valid(#[trigger] self.slots@[i], i),
    {
        reveal(Region::wf_with);
    }

    /// The slot that a handle names, if its object still exists.
    pub fn slot(&self, handle: u32) -> (r: Option<usize>)
        requires
            self.wf(),
        ensures
            self@.lookup(handle) matches Some(i) ==> r == Some(i as usize) && 0 <= i < SLOT_COUNT,
            self@.lookup(handle) is None ==> r is None,
    {
        proof {
            self.lemma_sizes();
        }
        let index = handle_index(handle) as usize;
        let generation = handle_generation(handle);
        let s = &self.slots[index];
        if s.state == SLOT_USED && s.generation == generation {
            Some(index)
        } else {
            None
        }
    }
}


/// `s` without node `n`.
pub open spec fn without(s: Seq<u32>, n: u32) -> Seq<u32> {
    if s.contains(n) {
        s.remove(s.index_of(n))
    } else {
        s
    }
}

impl RegionView {
    /// After node `n` was taken off the list that it is on, if any.
    pub open spec fn detached(self, n: u32) -> RegionView {
        match self.nodes[n as int].on {
            Some(o) => RegionView {
                nodes: self.nodes.update(n as int, NodeView { on: None, ..self.nodes[n as int] }),
                waiters: self.waiters.update(o as int, without(self.waiters[o as int], n)),
                ..self
            },
            None => self,
        }
    }

    /// After node `n`, whose waiter sleeps on node `word`, was put first on the
    /// list of object `o`.
    pub open spec fn registered(self, n: u32, o: u32, word: u32) -> RegionView {
        RegionView {
            nodes: self.nodes.update(
                n as int,
                NodeView { on: Some(o), word, ..self.nodes[n as int] },
            ),
            waiters: self.waiters.update(o as int, seq![n] + self.waiters[o as int]),
            ..self
        }
    }

    /// The node that the next allocation hands out.
    pub open spec fn next_node(self) -> Option<u32> {
        if self.free.len() > 0 {
            Some(self.free[0])
        } else if self.fresh < NODE_COUNT {
            Some(self.fresh)
        } else {
            None
        }
    }

    /// After process `pid` was handed a node, if there was one.
    pub open spec fn allocated_one(self, pid: u32) -> RegionView {
        match self.next_node() {
            Some(n) => RegionView {
                nodes: self.nodes.update(
                    n as int,
                    NodeView { on: None, word: NIL, pid, ..self.nodes[n as int] },
                ),
                free: if self.free.len() > 0 {
                    self.free.drop_first()
                } else {
                    self.free
                },
                fresh: if self.free.len() > 0 {
                    self.fresh
                } else {
                    (self.fresh + 1) as u32
                },
                ..self
            },
            None => self,
        }
    }

    /// After node `n` was given back.
    pub open spec fn freed_one(self, n: u32) -> RegionView {
        RegionView { free: seq![n] + self.free, ..self }
    }
}

/// Replacing one slot leads from an intact region to an intact one, if its list
/// is kept, or newly started, or empty and dropped.
proof fn lemma_slot_replaced(r: Region, r2: Region, i: int, s: Slot)
    requires
        r.wf(),
        0 <= i < SLOT_COUNT,
        slot_valid(s, i),
        s.state == SLOT_USED ==> s.waiter_head == if r.slots@[i].state == SLOT_USED {
            r.slots@[i].waiter_head
        } else {
            NIL
        },
        s.state != SLOT_USED ==> r@.waiters[i].len() == 0,
        r2.slots@ == r.slots@.update(i, s),
        r2.nodes == r.nodes,
        r2.header == r.header,
    ensures
        r2.wf(),
        r2@ == r@.with_slot(i, s@),
{
    let v = r@;
    assert(r2.wf_with(v.waiters, v.free)) by {
        reveal(Region::wf_with);
        assert forall|o: int| 0 <= o < SLOT_COUNT implies #[trigger] r2.list_ok(
            o,
            v.waiters[o],
        ) by {
            assert(r.list_ok(o, v.waiters[o]));
        }
        assert forall|n: int| 0 <= n < NODE_COUNT && (
        #[trigger] r2.nodes@[n]).registered != 0 implies {
            &&& n < r2.header.node_fresh
            &&& r2.nodes@[n].obj < SLOT_COUNT
            &&& r2.slots@[r2.nodes@[n].obj as int].state == SLOT_USED
            &&& v.waiters[r2.nodes@[n].obj as int].contains(n as u32)
            &&& r2.nodes@[n].wait_word < NODE_COUNT
        } by {
            assert(r.nodes@[n].registered != 0);
        }
    }
    r2.lemma_lists(v.waiters, v.free);
    r.lemma_sizes();
    assert(r2@ =~= v.with_slot(i, s@));
}

/// Replaces what slot `i` holds, leaving its waiters alone.
pub fn put_slot(r: &mut Region, i: usize, s: Slot)
    requires
        old(r).wf(),
        i < SLOT_COUNT,
        slot_valid(s, i as int),
        s.state == old(r).slots@[i as int].state,
        s.waiter_head == old(r).slots@[i as int].waiter_head,
    ensures
        final(r).wf(),
        final(r)@ == old(r)@.with_slot(i as int, s@),
{
    proof {
        r.lemma_sizes();
        r.lemma_lists_of_free_slots();
    }
    r.slots[i] = s;
    proof {
        lemma_slot_replaced(*old(r), *r, i as int, s);
    }
}

/// Makes the object in the free slot `i` exist.
pub fn slot_publish(r: &mut Region, i: usize, obj_type: u32, pid: u32, w0: u64)
    requires
        old(r).wf(),
        0 < i < SLOT_COUNT,
        !old(r)@.slots[i as int].used,
        1 <= obj_type <= 3,
        object::word_valid(obj_type, w0),
    ensures
        final(r).wf(),
        final(r)@ == old(r)@.with_slot(
            i as int,
            SlotView {
                used: true,
                generation: old(r)@.slots[i as int].generation,
                pid,
                object: object::object_of(obj_type, w0),
                pulses: 0,
            },
        ),
{
    proof {
        r.lemma_sizes();
    }
    let generation = r.slots[i].generation;
    let s = Slot { state: SLOT_USED, generation, obj_type, pid, waiter_head: NIL, w0, d: 0 };
    r.slots[i] = s;
    proof {
        lemma_slot_replaced(*old(r), *r, i as int, s);
    }
}

/// Frees slot `i`, on whose object nobody waits.
pub fn slot_free(r: &mut Region, i: usize)
    requires
        old(r).wf(),
        0 < i < SLOT_COUNT,
        old(r)@.slots[i as int].used,
        old(r)@.waiters[i as int].len() == 0,
    ensures
        final(r).wf(),
        final(r)@ == old(r)@.with_slot(i as int, old(r)@.slots[i as int].freed()),
{
    proof {
        r.lemma_sizes();
    }
    let mut s = r.slots[i];
    s.state = SLOT_FREE;
    s.generation = s.generation.wrapping_add(1);
    r.slots[i] = s;
    proof {
        lemma_slot_replaced(*old(r), *r, i as int, s);
    }
}

/// How the free list starts.
proof fn lemma_free_head(r: Region)
    requires
        r.wf(),
    ensures
        r.header.node_free_head == NIL <==> r@.free.len() == 0,
        r@.free.len() > 0 ==> r@.free[0] == r.header.node_free_head && r@.free[0] < NODE_COUNT,
        forall|n: int|
            r.header.node_fresh <= n < NODE_COUNT ==> (#[trigger] r.nodes@[n]).registered == 0,
{
    reveal(Region::wf_with);
    if r@.free.len() > 0 {
        assert(r@.free[0] < r.header.node_fresh);
    }
}

/// Hands out a node to process `pid`: a recycled one, else one that was never
/// used.
pub fn node_alloc(r: &mut Region, pid: u32) -> (res: Option<u32>)
    requires
        old(r).wf(),
    ensures
        final(r).wf(),
        res == old(r)@.next_node(),
        final(r)@ == old(r)@.allocated_one(pid),
{
    proof {
        r.lemma_sizes();
        lemma_free_head(*r);
    }
    let head = r.header.node_free_head;
    let idx: u32 = if head != NIL {
        let next = r.nodes[head as usize].waiter_next;
        r.header.node_free_head = next;
        head
    } else {
        let fresh = r.header.node_fresh;
        if fresh >= NODE_COUNT {
            return None;
        }
        r.header.node_fresh = fresh + 1;
        fresh
    };
    let mut node = r.nodes[idx as usize];
    node.registered = 0;
    node.obj = NIL;
    node.wait_word = NIL;
    node.obj_prev = NIL;
    node.obj_next = NIL;
    node.waiter_next = NIL;
    node.pid = pid;
    r.nodes[idx as usize] = node;
    proof {
        lemma_alloc(*old(r), *r, idx, pid);
    }
    Some(idx)
}

proof fn lemma_alloc(r: Region, r2: Region, idx: u32, pid: u32)
    requires
        r.wf(),
        r@.next_node() == Some(idx),
        r2.slots == r.slots,
        r2.nodes@ == r.nodes@.update(
            idx as int,
            WaitNode {
                registered: 0,
                obj: NIL,
                wait_word: NIL,
                obj_prev: NIL,
                obj_next: NIL,
                waiter_next: NIL,
                pid,
                ..r.nodes@[idx as int]
            },
        ),
        r@.free.len() > 0 ==> *r2.header == (Header {
            node_free_head: r.nodes@[idx as int].waiter_next,
            ..*r.header
        }),
        r@.free.len() == 0 ==> *r2.header == (Header {
            node_fresh: (r.header.node_fresh + 1) as u32,
            ..*r.header
        }),
    ensures
        r2.wf(),
        r2@ == r@.allocated_one(pid),
{
    let v = r@;
    let free2 = v.allocated_one(pid).free;
    r.lemma_sizes();
    lemma_free_head(r);
    assert(r2.wf_with(v.waiters, free2)) by {
        reveal(Region::wf_with);
        assert(r.nodes@[idx as int].registered == 0);
        assert forall|o: int| 0 <= o < SLOT_COUNT implies #[trigger] r2.list_ok(
            o,
            v.waiters[o],
        ) by {
            assert(r.list_ok(o, v.waiters[o]));
        }
        assert forall|n: int| 0 <= n < NODE_COUNT && (
        #[trigger] r2.nodes@[n]).registered != 0 implies {
            &&& n < r2.header.node_fresh
            &&& r2.nodes@[n].obj < SLOT_COUNT
            &&& r2.slots@[r2.nodes@[n].obj as int].state == SLOT_USED
            &&& v.waiters[r2.nodes@[n].obj as int].contains(n as u32)
            &&& r2.nodes@[n].wait_word < NODE_COUNT
        } by {
            assert(r.nodes@[n].registered != 0);
        }
        assert forall|k: int| 0 <= k < free2.len() implies {
            &&& #[trigger] free2[k] < r2.nodes@.len()
            &&& free2[k] < r2.header.node_fresh
            &&& r2.nodes@[free2[k] as int].registered == 0
            &&& r2.nodes@[free2[k] as int].waiter_next == if k + 1 == free2.len() {
                NIL
            } else {
                free2[k + 1]
            }
        } by {
            if v.free.len() > 0 {
                assert(free2[k] == v.free[k + 1]);
                assert(v.free[k + 1] != v.free[0]);
            }
        }
        if v.free.len() > 1 {
            assert(free2[0] == v.free[1]);
        }
        assert(free2.no_duplicates());
    }
    r2.lemma_lists(v.waiters, free2);
    assert(r2@ =~= v.allocated_one(pid)) by {
        reveal(Region::wf_with);
    }
}

/// Takes back node `idx`, which is on no list.
pub fn node_free(r: &mut Region, idx: u32)
    requires
        old(r).wf(),
        old(r)@.allocated(idx),
        old(r)@.nodes[idx as int].on is None,
    ensures
        final(r).wf(),
        final(r)@ == old(r)@.freed_one(idx),
{
    proof {
        r.lemma_sizes();
    }
    let head = r.header.node_free_head;
    let mut node = r.nodes[idx as usize];
    node.waiter_next = head;
    r.nodes[idx as usize] = node;
    r.header.node_free_head = idx;
    proof {
        lemma_free(*old(r), *r, idx);
    }
}

proof fn lemma_free(r: Region, r2: Region, idx: u32)
    requires
        r.wf(),
        r@.allocated(idx),
        r@.nodes[idx as int].on is None,
        r2.slots == r.slots,
        r2.nodes@ == r.nodes@.update(
            idx as int,
            WaitNode { waiter_next: r.header.node_free_head, ..r.nodes@[idx as int] },
        ),
        *r2.header == (Header { node_free_head: idx, ..*r.header }),
    ensures
        r2.wf(),
        r2@ == r@.freed_one(idx),
{
    let v = r@;
    let free2 = seq![idx] + v.free;
    r.lemma_sizes();
    assert(r2.wf_with(v.waiters, free2)) by {
        reveal(Region::wf_with);
        assert forall|o: int| 0 <= o < SLOT_COUNT implies #[trigger] r2.list_ok(
            o,
            v.waiters[o],
        ) by {
            assert(r.list_ok(o, v.waiters[o]));
        }
        assert forall|n: int| 0 <= n < NODE_COUNT && (
        #[trigger] r2.nodes@[n]).registered != 0 implies {
            &&& n < r2.header.node_fresh
            &&& r2.nodes@[n].obj < SLOT_COUNT
            &&& r2.slots@[r2.nodes@[n].obj as int].state == SLOT_USED
            &&& v.waiters[r2.nodes@[n].obj as int].contains(n as u32)
            &&& r2.nodes@[n].wait_word < NODE_COUNT
        } by {
            assert(r.nodes@[n].registered != 0);
        }
        assert forall|k: int| 0 <= k < free2.len() implies {
            &&& #[trigger] free2[k] < r2.nodes@.len()
            &&& free2[k] < r2.header.node_fresh
            &&& r2.nodes@[free2[k] as int].registered == 0
            &&& r2.nodes@[free2[k] as int].waiter_next == if k + 1 == free2.len() {
                NIL
            } else {
                free2[k + 1]
            }
        } by {
            if k > 0 {
                assert(free2[k] == v.free[k - 1]);
                assert(v.free.contains(v.free[k - 1]));
            }
        }
        assert(free2.no_duplicates());
    }
    r2.lemma_lists(v.waiters, free2);
    assert(r2@ =~= v.freed_one(idx));
}

/// How the nodes change when the `k`th node of `list` is unlinked.
spec fn unlinked(nodes: Seq<WaitNode>, nodes2: Seq<WaitNode>, list: Seq<u32>, k: int) -> bool {
    &&& nodes2.len() == nodes.len()
    &&& forall|n: int|
        #![trigger nodes2[n]]
        0 <= n < nodes.len() && n != list[k] && !(k > 0 && n == list[k - 1]) && !(k + 1
            < list.len() && n == list[k + 1]) ==> nodes2[n] == nodes[n]
    &&& k > 0 ==> nodes2[list[k - 1] as int] == (WaitNode {
        obj_next: nodes[list[k] as int].obj_next,
        ..nodes[list[k - 1] as int]
    })
    &&& k + 1 < list.len() ==> nodes2[list[k + 1] as int] == (WaitNode {
        obj_prev: nodes[list[k] as int].obj_prev,
        ..nodes[list[k + 1] as int]
    })
    &&& nodes2[list[k] as int] == (WaitNode {
        registered: 0,
        obj: NIL,
        obj_prev: NIL,
        obj_next: NIL,
        ..nodes[list[k] as int]
    })
}

proof fn lemma_unlink_own_list(
    nodes: Seq<WaitNode>,
    nodes2: Seq<WaitNode>,
    obj: u32,
    head: u32,
    list: Seq<u32>,
    k: int,
)
    requires
        nodes.len() < NIL,
        is_chain(nodes, obj, head, list),
        0 <= k < list.len(),
        unlinked(nodes, nodes2, list, k),
    ensures
        is_chain(
            nodes2,
            obj,
            if k == 0 {
                nodes[list[0] as int].obj_next
            } else {
                head
            },
            list.remove(k),
        ),
{
    let list2 = list.remove(k);
    assert forall|j: int| 0 <= j < list2.len() implies {
        &&& #[trigger] list2[j] < nodes2.len()
        &&& nodes2[list2[j] as int].registered != 0
        &&& nodes2[list2[j] as int].obj == obj
        &&& nodes2[list2[j] as int].obj_prev == if j == 0 {
            NIL
        } else {
            list2[j - 1]
        }
        &&& nodes2[list2[j] as int].obj_next == if j + 1 == list2.len() {
            NIL
        } else {
            list2[j + 1]
        }
    } by {
        let j0 = if j < k {
            j
        } else {
            j + 1
        };
        assert(list2[j] == list[j0]);
        assert(list[j0] < nodes.len());
        assert(list[j0] != list[k]);
        if k > 0 {
            assert(j0 != k - 1 ==> list[j0] != list[k - 1]);
        }
        if k + 1 < list.len() {
            assert(j0 != k + 1 ==> list[j0] != list[k + 1]);
        }
    }
    assert(list2.no_duplicates());
}

proof fn lemma_unlink_other_list(
    nodes: Seq<WaitNode>,
    nodes2: Seq<WaitNode>,
    obj: u32,
    head: u32,
    list: Seq<u32>,
    k: int,
    other: u32,
    other_head: u32,
    s: Seq<u32>,
)
    requires
        is_chain(nodes, obj, head, list),
        0 <= k < list.len(),
        unlinked(nodes, nodes2, list, k),
        other != obj,
        is_chain(nodes, other, other_head, s),
    ensures
        is_chain(nodes2, other, other_head, s),
{
    assert forall|j: int| 0 <= j < s.len() implies nodes2[(#[trigger] s[j]) as int]
        == nodes[s[j] as int] by {
        assert(nodes[s[j] as int].obj == other);
        assert(nodes[list[k] as int].obj == obj);
        if k > 0 {
            assert(nodes[list[k - 1] as int].obj == obj);
        }
        if k + 1 < list.len() {
            assert(nodes[list[k + 1] as int].obj == obj);
        }
    }
}

/// How a registered node is linked.
proof fn lemma_links(r: Region, idx: u32) -> (k: int)
    requires
        r.wf(),
        idx < NODE_COUNT,
        r.nodes@[idx as int].registered != 0,
    ensures
        ({
            let node = r.nodes@[idx as int];
            let list = r@.waiters[node.obj as int];
            &&& node.obj < SLOT_COUNT
            &&& r.slots@[node.obj as int].state == SLOT_USED
            &&& 0 <= k < list.len()
            &&& list[k] == idx
            &&& list.index_of(idx) == k
            &&& node.obj_prev == if k == 0 {
                NIL
            } else {
                list[k - 1]
            }
            &&& k > 0 ==> list[k - 1] < NODE_COUNT && list[k - 1] != idx
            &&& node.obj_next == if k + 1 == list.len() {
                NIL
            } else {
                list[k + 1]
            }
            &&& k + 1 < list.len() ==> list[k + 1] < NODE_COUNT && list[k + 1] != idx
            &&& k > 0 && k + 1 < list.len() ==> list[k - 1] != list[k + 1]
        }),
{
    reveal(Region::wf_with);
    let node = r.nodes@[idx as int];
    let list = r@.waiters[node.obj as int];
    let k = list.index_of(idx);
    assert(r.list_ok(node.obj as int, list));
    assert(list[k] == idx);
    if k > 0 {
        assert(list[k - 1] < NODE_COUNT);
    }
    if k + 1 < list.len() {
        assert(list[k + 1] < NODE_COUNT);
    }
    k
}

/// Takes node `idx` off the list that it is on, if any.
pub fn node_detach(r: &mut Region, idx: u32)
    requires
        old(r).wf(),
        idx < NODE_COUNT,
    ensures
        final(r).wf(),
        final(r)@ == old(r)@.detached(idx),
{
    proof {
        r.lemma_sizes();
    }
    let mut node = r.nodes[idx as usize];
    if node.registered == 0 {
        return;
    }
    let ghost k = lemma_links(*r, idx);
    let obj = node.obj;
    let prev = node.obj_prev;
    let next = node.obj_next;
    if prev == NIL {
        r.slots[obj as usize].waiter_head = next;
    } else {
        r.nodes[prev as usize].obj_next = next;
    }
    if next != NIL {
        r.nodes[next as usize].obj_prev = prev;
    }
    node.registered = 0;
    node.obj = NIL;
    node.obj_prev = NIL;
    node.obj_next = NIL;
    r.nodes[idx as usize] = node;
    proof {
        assert(unlinked(old(r).nodes@, r.nodes@, old(r)@.waiters[obj as int], k));
        assert(r.slots@ =~= old(r).slots@.update(
            obj as int,
            Slot {
                waiter_head: if k == 0 {
                    old(r).nodes@[idx as int].obj_next
                } else {
                    old(r).slots@[obj as int].waiter_head
                },
                ..old(r).slots@[obj as int]
            },
        ));
        lemma_detach(*old(r), *r, idx, k);
    }
}

/// What unlinking node `idx`, the `k`-th of its list, does to a region.
spec fn unlinks(r: Region, r2: Region, idx: u32, k: int) -> bool {
    let obj = r.nodes@[idx as int].obj;
    let list = r@.waiters[obj as int];
    &&& idx < NODE_COUNT
    &&& r.nodes@[idx as int].registered != 0
    &&& 0 <= k < list.len()
    &&& list[k] == idx
    &&& unlinked(r.nodes@, r2.nodes@, list, k)
    &&& r2.slots@ == r.slots@.update(
        obj as int,
        Slot {
            waiter_head: if k == 0 {
                r.nodes@[idx as int].obj_next
            } else {
                r.slots@[obj as int].waiter_head
            },
            ..r.slots@[obj as int]
        },
    )
    &&& r2.header == r.header
}

/// Unlinking a node keeps all other links intact.
#[verifier::spinoff_prover]
proof fn lemma_detach_links(r: Region, r2: Region, idx: u32, k: int)
    requires
        r.wf(),
        unlinks(r, r2, idx, k),
    ensures
        ({
            let obj = r.nodes@[idx as int].obj;
            let lists2 = r@.waiters.update(obj as int, r@.waiters[obj as int].remove(k));
            r2.wf_with(lists2, r@.free)
        }),
{
    let v = r@;
    let obj = r.nodes@[idx as int].obj;
    let list = v.waiters[obj as int];
    let list2 = list.remove(k);
    let lists2 = v.waiters.update(obj as int, list2);
    r.lemma_sizes();
    let k0 = lemma_links(r, idx);
    assert(list.no_duplicates()) by {
        lemma_waiter_head(r, obj);
    }
    lemma_unlinked_fields(r.nodes@, r2.nodes@, list, k);
    assert forall|o: int| 0 <= o < SLOT_COUNT implies #[trigger] r2.list_ok(o, lists2[o]) by {
        lemma_detach_list(r, r2, idx, k, o);
    }
    assert forall|n: int| 0 <= n < NODE_COUNT && (
    #[trigger] r2.nodes@[n]).registered != 0 implies {
        &&& n < r2.header.node_fresh
        &&& r2.nodes@[n].obj < SLOT_COUNT
        &&& r2.slots@[r2.nodes@[n].obj as int].state == SLOT_USED
        &&& lists2[r2.nodes@[n].obj as int].contains(n as u32)
        &&& r2.nodes@[n].wait_word < NODE_COUNT
    } by {
        reveal(Region::wf_with);
        assert(r.nodes@[n].registered != 0);
        if r2.nodes@[n].obj == obj {
            let p = list.index_of(n as u32);
            assert(list[p] == n as u32 && p != k);
            let p2 = if p < k {
                p
            } else {
                p - 1
            };
            assert(list2[p2] == n as u32);
        }
    }
    assert forall|j: int| 0 <= j < SLOT_COUNT implies slot_valid(#[trigger] r2.slots@[j], j) by {
        assert(slot_valid(r.slots@[j], j));
    }
    reveal(Region::wf_with);
}

/// Unlinking a node leads from an intact region to an intact one.
#[verifier::spinoff_prover]
proof fn lemma_detach(r: Region, r2: Region, idx: u32, k: int)
    requires
        r.wf(),
        unlinks(r, r2, idx, k),
    ensures
        r2.wf(),
        r2@ == r@.detached(idx),
{
    let v = r@;
    let obj = r.nodes@[idx as int].obj;
    let list = v.waiters[obj as int];
    lemma_detach_links(r, r2, idx, k);
    r2.lemma_lists(v.waiters.update(obj as int, list.remove(k)), v.free);
    r.lemma_sizes();
    let k0 = lemma_links(r, idx);
    assert(list.no_duplicates() && k0 == k) by {
        lemma_waiter_head(r, obj);
    }
    lemma_unlinked_fields(r.nodes@, r2.nodes@, list, k);
    assert(r2@.slots =~= v.slots);
    assert(r2@.nodes =~= v.detached(idx).nodes);
    assert(r2@ =~= v.detached(idx));
}

proof fn lemma_unlinked_fields(
    nodes: Seq<WaitNode>,
    nodes2: Seq<WaitNode>,
    list: Seq<u32>,
    k: int,
)
    requires
        0 <= k < list.len(),
        list.no_duplicates(),
        unlinked(nodes, nodes2, list, k),
    ensures
        forall|n: int|
            0 <= n < nodes.len() ==> {
                &&& (#[trigger] nodes2[n]).registered == if n == list[k] {
                    0
                } else {
                    nodes[n].registered
                }
                &&& n != list[k] ==> nodes2[n].obj == nodes[n].obj
                &&& nodes2[n].wait_word == nodes[n].wait_word
                &&& nodes2[n].waiter_next == nodes[n].waiter_next
                &&& nodes2[n].seq == nodes[n].seq
                &&& nodes2[n].pid == nodes[n].pid
                &&& nodes2[n].wake_ts == nodes[n].wake_ts
            },
{
    if k > 0 {
        assert(list[k - 1] != list[k]);
    }
    if k + 1 < list.len() {
        assert(list[k + 1] != list[k]);
    }
}

proof fn lemma_detach_list(r: Region, r2: Region, idx: u32, k: int, o: int)
    requires
        r.wf(),
        unlinks(r, r2, idx, k),
        0 <= o < SLOT_COUNT,
    ensures
        ({
            let obj = r.nodes@[idx as int].obj;
            let list = r@.waiters[obj as int];
            r2.list_ok(
                o,
                if o == obj {
                    list.remove(k)
                } else {
                    r@.waiters[o]
                },
            )
        }),
{
    let v = r@;
    let obj = r.nodes@[idx as int].obj;
    let list = v.waiters[obj as int];
    let head = r.slots@[obj as int].waiter_head;
    r.lemma_sizes();
    let k0 = lemma_links(r, idx);
    lemma_waiter_head(r, obj);
    if o == obj {
        lemma_unlink_own_list(r.nodes@, r2.nodes@, obj, head, list, k);
    } else if r.slots@[o].state == SLOT_USED {
        lemma_waiter_head(r, o as u32);
        lemma_unlink_other_list(
            r.nodes@,
            r2.nodes@,
            obj,
            head,
            list,
            k,
            o as u32,
            r.slots@[o].waiter_head,
            v.waiters[o],
        );
    } else {
        r.lemma_lists_of_free_slots();
    }
}

/// How an object's waiter list starts.
pub proof fn lemma_waiter_head(r: Region, o: u32)
    requires
        r.wf(),
        o < SLOT_COUNT,
        r.slots@[o as int].state == SLOT_USED,
    ensures
        is_chain(r.nodes@, o, r.slots@[o as int].waiter_head, r@.waiters[o as int]),
        r@.waiters[o as int].len() > 0 ==> r@.waiters[o as int][0] < NODE_COUNT,
{
    reveal(Region::wf_with);
    assert(r.list_ok(o as int, r@.waiters[o as int]));
}

/// Registers node `idx` on object `obj_idx`, for a waiter that sleeps on node
/// `wait_word`.
pub fn node_register(r: &mut Region, idx: u32, obj_idx: u32, wait_word: u32)
    requires
        old(r).wf(),
        old(r)@.allocated(idx),
        old(r)@.nodes[idx as int].on is None,
        obj_idx < SLOT_COUNT,
        old(r)@.slots[obj_idx as int].used,
        wait_word < NODE_COUNT,
    ensures
        final(r).wf(),
        final(r)@ == old(r)@.registered(idx, obj_idx, wait_word),
{
    proof {
        r.lemma_sizes();
        lemma_waiter_head(*r, obj_idx);
    }
    let old_head = r.slots[obj_idx as usize].waiter_head;
    let mut node = r.nodes[idx as usize];
    node.registered = 1;
    node.obj = obj_idx;
    node.wait_word = wait_word;
    node.obj_prev = NIL;
    node.obj_next = old_head;
    if old_head != NIL {
        r.nodes[old_head as usize].obj_prev = idx;
    }
    r.nodes[idx as usize] = node;
    r.slots[obj_idx as usize].waiter_head = idx;
    proof {
        lemma_register(*old(r), *r, idx, obj_idx, wait_word);
    }
}

proof fn lemma_register(r: Region, r2: Region, idx: u32, obj_idx: u32, wait_word: u32)
    requires
        r.wf(),
        r@.allocated(idx),
        r@.nodes[idx as int].on is None,
        obj_idx < SLOT_COUNT,
        r.slots@[obj_idx as int].state == SLOT_USED,
        wait_word < NODE_COUNT,
        r2.header == r.header,
        r2.slots@ == r.slots@.update(
            obj_idx as int,
            Slot { waiter_head: idx, ..r.slots@[obj_idx as int] },
        ),
        r2.nodes@.len() == r.nodes@.len(),
        ({
            let head = r.slots@[obj_idx as int].waiter_head;
            &&& forall|n: int|
                #![trigger r2.nodes@[n]]
                0 <= n < NODE_COUNT && n != idx && n != head ==> r2.nodes@[n] == r.nodes@[n]
            &&& head != NIL ==> r2.nodes@[head as int] == (WaitNode {
                obj_prev: idx,
                ..r.nodes@[head as int]
            })
            &&& r2.nodes@[idx as int] == (WaitNode {
                registered: 1,
                obj: obj_idx,
                wait_word,
                obj_prev: NIL,
                obj_next: head,
                ..r.nodes@[idx as int]
            })
        }),
    ensures
        r2.wf(),
        r2@ == r@.registered(idx, obj_idx, wait_word),
{
    let v = r@;
    let list = v.waiters[obj_idx as int];
    let head = r.slots@[obj_idx as int].waiter_head;
    let list2 = seq![idx] + list;
    let lists2 = v.waiters.update(obj_idx as int, list2);
    r.lemma_sizes();
    lemma_waiter_head(r, obj_idx);
    if head != NIL {
        assert(list[0] == head);
        assert(r.nodes@[list[0] as int].registered != 0);
    }
    assert(r2.wf_with(lists2, v.free)) by {
        reveal(Region::wf_with);
        assert(is_chain(r2.nodes@, obj_idx, idx, list2)) by {
            assert forall|j: int| 0 <= j < list2.len() implies {
                &&& #[trigger] list2[j] < r2.nodes@.len()
                &&& r2.nodes@[list2[j] as int].registered != 0
                &&& r2.nodes@[list2[j] as int].obj == obj_idx
                &&& r2.nodes@[list2[j] as int].obj_prev == if j == 0 {
                    NIL
                } else {
                    list2[j - 1]
                }
                &&& r2.nodes@[list2[j] as int].obj_next == if j + 1 == list2.len() {
                    NIL
                } else {
                    list2[j + 1]
                }
            } by {
                if j > 0 {
                    assert(list2[j] == list[j - 1]);
                    assert(r.nodes@[list[j - 1] as int].registered != 0);
                    if j > 1 {
                        assert(list[j - 1] != list[0]);
                    }
                }
            }
            assert(list2.no_duplicates());
        }
        assert forall|o: int| 0 <= o < SLOT_COUNT implies #[trigger] r2.list_ok(
            o,
            lists2[o],
        ) by {
            assert(r.list_ok(o, v.waiters[o]));
            if o != obj_idx && r.slots@[o].state == SLOT_USED {
                let s = v.waiters[o];
                assert forall|j: int| 0 <= j < s.len() implies r2.nodes@[(
                #[trigger] s[j]) as int] == r.nodes@[s[j] as int] by {
                    assert(r.nodes@[s[j] as int].obj == o);
                }
            }
        }
        assert forall|n: int| 0 <= n < NODE_COUNT && (
        #[trigger] r2.nodes@[n]).registered != 0 implies {
            &&& n < r2.header.node_fresh
            &&& r2.nodes@[n].obj < SLOT_COUNT
            &&& r2.slots@[r2.nodes@[n].obj as int].state == SLOT_USED
            &&& lists2[r2.nodes@[n].obj as int].contains(n as u32)
            &&& r2.nodes@[n].wait_word < NODE_COUNT
        } by {
            if n == idx {
                assert(list2[0] == idx);
            } else {
                assert(r.nodes@[n].registered != 0);
                if r2.nodes@[n].obj == obj_idx {
                    let p = list.index_of(n as u32);
                    assert(list2[p + 1] == n as u32);
                }
            }
        }
        assert forall|j: int| 0 <= j < SLOT_COUNT implies slot_valid(
            #[trigger] r2.slots@[j],
            j,
        ) by {
            assert(slot_valid(r.slots@[j], j));
        }
        assert forall|j: int| 0 <= j < v.free.len() implies {
            &&& #[trigger] v.free[j] < r2.nodes@.len()
            &&& r2.nodes@[v.free[j] as int].registered == 0
            &&& r2.nodes@[v.free[j] as int].waiter_next == r.nodes@[v.free[j] as int].waiter_next
        } by {
            assert(v.free.contains(v.free[j]));
        }
    }
    r2.lemma_lists(lists2, v.free);
    assert(r2@.slots =~= v.slots);
    assert(r2@.nodes =~= v.registered(idx, obj_idx, wait_word).nodes);
    assert(r2@ =~= v.registered(idx, obj_idx, wait_word));
}


impl RegionView {
    /// After the futex word of node `word` was bumped, at time `stamp` if that is
    /// recorded.
    pub open spec fn bumped(self, word: u32, stamp: Option<u64>) -> RegionView {
        let n = self.nodes[word as int];
        RegionView {
            nodes: self.nodes.update(
                word as int,
                NodeView {
                    seq: ((n.seq + 1) % 0x1_0000_0000) as u32,
                    wake_ts: match stamp {
                        Some(t) => t,
                        None => n.wake_ts,
                    },
                    ..n
                },
            ),
            ..self
        }
    }

    /// After each node of `list`, in order, was taken off its list and its
    /// waiter's futex word bumped.
    pub open spec fn woken_list(self, list: Seq<u32>, stamp: Option<u64>) -> RegionView
        decreases list.len(),
    {
        if list.len() == 0 {
            self
        } else {
            let n = list[0];
            self.detached(n).bumped(self.nodes[n as int].word, stamp).woken_list(
                list.drop_first(),
                stamp,
            )
        }
    }

    /// The futex words of those who wait on object `o`, one for each node.
    pub open spec fn words(self, o: int) -> Seq<u32> {
        self.waiters[o].map_values(|n: u32| self.nodes[n as int].word)
    }
}

/// After everybody who waits on object `o` was woken.
pub open spec fn woken(v: RegionView, c: CallerView, o: int) -> (RegionView, CallerView) {
    (v.woken_list(v.waiters[o], c.stamp()), c.woke(v.words(o)))
}

/// After object `o` was signaled: its waiters, if any, are woken.
pub open spec fn signaled(v: RegionView, c: CallerView, o: int) -> (RegionView, CallerView) {
    if v.waiters[o].len() == 0 {
        (v, c)
    } else {
        woken(v, c.bumped(WAKE_WALKS), o)
    }
}

/// Changes that leave all links alone keep a region intact.
proof fn lemma_links_kept(r: Region, r2: Region)
    requires
        r.wf(),
        r2.slots == r.slots,
        r2.nodes@.len() == r.nodes@.len(),
        forall|n: int|
            0 <= n < NODE_COUNT ==> (#[trigger] r2.nodes@[n]) == (WaitNode {
                seq: r2.nodes@[n].seq,
                wake_ts: r2.nodes@[n].wake_ts,
                ..r.nodes@[n]
            }),
        *r2.header == (Header {
            next_scan: r2.header.next_scan,
            sweep_ns: r2.header.sweep_ns,
            ..*r.header
        }),
        r2.header.next_scan < SLOT_COUNT,
    ensures
        r2.wf(),
        r2@.slots == r@.slots,
        r2@.waiters == r@.waiters,
        r2@.free == r@.free,
        r2@.fresh == r@.fresh,
{
    let v = r@;
    assert(r2.wf_with(v.waiters, v.free)) by {
        reveal(Region::wf_with);
        assert forall|o: int| 0 <= o < SLOT_COUNT implies #[trigger] r2.list_ok(
            o,
            v.waiters[o],
        ) by {
            assert(r.list_ok(o, v.waiters[o]));
        }
        assert forall|n: int| 0 <= n < NODE_COUNT && (
        #[trigger] r2.nodes@[n]).registered != 0 implies {
            &&& n < r2.header.node_fresh
            &&& r2.nodes@[n].obj < SLOT_COUNT
            &&& r2.slots@[r2.nodes@[n].obj as int].state == SLOT_USED
            &&& v.waiters[r2.nodes@[n].obj as int].contains(n as u32)
            &&& r2.nodes@[n].wait_word < NODE_COUNT
        } by {
            assert(r.nodes@[n].registered != 0);
        }
    }
    r2.lemma_lists(v.waiters, v.free);
}

/// Records when the last automatic sweep ran.
pub fn set_sweep_ns(r: &mut Region, now: u64)
    requires
        old(r).wf(),
    ensures
        final(r).wf(),
        final(r)@ == (RegionView { sweep_ns: now, ..old(r)@ }),
{
    proof {
        r.lemma_sizes();
    }
    r.header.sweep_ns = now;
    proof {
        lemma_links_kept(*old(r), *r);
        assert(r@ =~= (RegionView { sweep_ns: now, ..old(r)@ }));
    }
}

/// Bumps the futex word of node `word`.
pub fn node_bump(r: &mut Region, word: u32, stamp: Option<u64>)
    requires
        old(r).wf(),
        word < NODE_COUNT,
    ensures
        final(r).wf(),
        final(r)@ == old(r)@.bumped(word, stamp),
{
    proof {
        r.lemma_sizes();
    }
    let mut node = r.nodes[word as usize];
    node.seq = node.seq.wrapping_add(1);
    if let Some(t) = stamp {
        node.wake_ts = t;
    }
    r.nodes[word as usize] = node;
    proof {
        lemma_links_kept(*old(r), *r);
        assert(r@ =~= old(r)@.bumped(word, stamp));
    }
}

/// Wakes everybody who waits on object `obj_idx`: their nodes leave its list,
/// their futex words are bumped, and the words are noted for waking.
pub fn wake_object(r: &mut Region, cx: &mut Caller, obj_idx: u32)
    requires
        old(r).wf(),
        obj_idx < SLOT_COUNT,
        old(r)@.slots[obj_idx as int].used,
    ensures
        final(r).wf(),
        (final(r)@, final(cx)@) == woken(old(r)@, old(cx)@, obj_idx as int),
        final(r)@.waiters[obj_idx as int].len() == 0,
        final(r)@.slots == old(r)@.slots,
{
    let ghost v = old(r)@;
    let ghost o = obj_idx as int;
    let ghost stamp = cx@.stamp();
    let stamp_now: Option<u64> = if cx.debug {
        Some(cx.now)
    } else {
        None
    };
    proof {
        r.lemma_sizes();
        lemma_waiter_head(*r, obj_idx);
    }
    let mut idx = r.slots[obj_idx as usize].waiter_head;
    let ghost mut done: int = 0;
    assert(v.waiters[o].skip(0) =~= v.waiters[o]);
    assert(cx.wakes@ =~= old(cx)@.wakes + v.words(o).take(0));
    while idx != NIL
        invariant
            r.wf(),
            obj_idx < SLOT_COUNT,
            o == obj_idx,
            0 <= done <= v.waiters[o].len(),
            r@.slots == v.slots,
            v.slots[o].used,
            stamp_now == stamp,
            r@.waiters[o] == v.waiters[o].skip(done),
            idx == (if done == v.waiters[o].len() {
                NIL
            } else {
                v.waiters[o][done]
            }),
            r@.woken_list(r@.waiters[o], stamp) == v.woken_list(v.waiters[o], stamp),
            forall|k: int|
                done <= k < v.waiters[o].len() ==> (#[trigger] v.waiters[o][k]) < NODE_COUNT
                    && r@.nodes[v.waiters[o][k] as int].word == v.words(o)[k],
            cx@ == (CallerView {
                wakes: old(cx)@.wakes + v.words(o).take(done),
                ..old(cx)@
            }),
        decreases v.waiters[o].len() - done,
    {
        let ghost before = r@;
        proof {
            r.lemma_sizes();
            r.lemma_inv();
            lemma_waiter_head(*r, obj_idx);
            assert(done < v.waiters[o].len());
            assert(v.waiters[o][done] < NODE_COUNT);
            assert(before.waiters[o][0] == idx);
            assert(before.nodes[idx as int].on == Some(obj_idx));
        }
        let next = r.nodes[idx as usize].obj_next;
        let word = r.nodes[idx as usize].wait_word;
        proof {
            let k = lemma_links(*r, idx);
            assert(k == 0) by {
                assert(before.waiters[o].no_duplicates());
                assert(before.waiters[o][k] == before.waiters[o][0]);
            }
            if before.waiters[o].len() > 1 {
                assert(before.waiters[o][1] == v.waiters[o][done + 1]);
            }
        }
        node_detach(r, idx);
        node_bump(r, word, stamp_now);
        cx.wakes.push(word);
        proof {
            assert(before.waiters[o].remove(0) =~= before.waiters[o].drop_first());
            assert(before.waiters[o].drop_first() =~= v.waiters[o].skip(done + 1));
            assert(v.words(o).take(done + 1) =~= v.words(o).take(done).push(word));
            assert(cx@.wakes =~= old(cx)@.wakes + v.words(o).take(done + 1));
            done = done + 1;
        }
        idx = next;
    }
    assert(v.words(o).take(done) =~= v.words(o));
    assert(r@.waiters[o].len() == 0);
}

/// Wakes the waiters of object `obj_idx`, if it has any.
pub fn wake_waiters_if_any(r: &mut Region, cx: &mut Caller, obj_idx: u32)
    requires
        old(r).wf(),
        obj_idx < SLOT_COUNT,
        old(r)@.slots[obj_idx as int].used,
    ensures
        final(r).wf(),
        (final(r)@, final(cx)@) == signaled(old(r)@, old(cx)@, obj_idx as int),
        final(r)@.slots == old(r)@.slots,
{
    proof {
        r.lemma_sizes();
        lemma_waiter_head(*r, obj_idx);
    }
    if r.slots[obj_idx as usize].waiter_head == NIL {
        return;
    }
    bump(&mut cx.stats, WAKE_WALKS);
    wake_object(r, cx, obj_idx);
}


impl RegionView {
    /// The first free slot at or after the `k`th place of the search, which
    /// goes round the table once from `next_scan` on.
    pub open spec fn scan(self, k: nat) -> Option<int>
        decreases SLOT_COUNT - k,
    {
        if k >= SLOT_COUNT {
            None
        } else {
            let i = (self.next_scan + k) % (SLOT_COUNT as int);
            if !self.slots[i].used {
                Some(i)
            } else {
                self.scan(k + 1)
            }
        }
    }

    /// The slot that the next object will take.
    pub open spec fn free_slot(self) -> Option<int> {
        self.scan(0)
    }
}

/// The search finds a free slot whenever there is one, and never slot 0.
pub proof fn law_search_finds_free_slot(v: RegionView)
    requires
        v.inv(),
    ensures
        v.free_slot() matches Some(i) ==> 0 < i < SLOT_COUNT && !v.slots[i].used,
        v.free_slot() is None ==> forall|i: int| 0 <= i < SLOT_COUNT ==> (#[trigger] v.slots[i]).used,
{
    lemma_scan(v, 0);
    if v.free_slot() is None {
        assert forall|i: int| 0 <= i < SLOT_COUNT implies (#[trigger] v.slots[i]).used by {
            let k = if i >= v.next_scan {
                i - v.next_scan
            } else {
                i + SLOT_COUNT - v.next_scan
            };
            assert((v.next_scan + k) % (SLOT_COUNT as int) == i);
        }
    }
}

proof fn lemma_scan(v: RegionView, k: nat)
    requires
        v.inv(),
    ensures
        v.scan(k) matches Some(i) ==> 0 < i < SLOT_COUNT && !v.slots[i].used,
        v.scan(k) is None ==> forall|j: int|
            #![trigger v.slots[(v.next_scan + j) % (SLOT_COUNT as int)]]
            k <= j < SLOT_COUNT ==> v.slots[(v.next_scan + j) % (SLOT_COUNT as int)].used,
    decreases SLOT_COUNT - k,
{
    if k < SLOT_COUNT {
        lemma_scan(v, k + 1);
    }
}

/// Finds a free slot and gives the handle that its next object will have.
pub fn alloc_slot(r: &mut Region) -> (res: Option<u32>)
    requires
        old(r).wf(),
    ensures
        final(r).wf(),
        match old(r)@.free_slot() {
            Some(i) => {
                &&& 0 < i < SLOT_COUNT
                &&& !old(r)@.slots[i].used
                &&& res == Some(word::handle_for(old(r)@.slots[i].generation, i as u32))
                &&& final(r)@ == (RegionView {
                    next_scan: ((i + 1) % (SLOT_COUNT as int)) as u32,
                    ..old(r)@
                })
            },
            None => res is None && final(r)@ == old(r)@,
        },
{
    proof {
        r.lemma_sizes();
        r.lemma_inv();
        law_search_finds_free_slot(r@);
    }
    let start = r.header.next_scan;
    let mut i: u32 = 0;
    while i < SLOT_COUNT
        invariant
            r.wf(),
            *r == *old(r),
            r.slots@.len() == SLOT_COUNT,
            start == r@.next_scan,
            start < SLOT_COUNT,
            i <= SLOT_COUNT,
            r@.scan(i as nat) == r@.free_slot(),
            r@.free_slot() matches Some(x) ==> 0 < x < SLOT_COUNT && !r@.slots[x].used,
            forall|j: int| 0 <= j < SLOT_COUNT ==> slot_valid(#[trigger] r.slots@[j], j),
        decreases SLOT_COUNT - i,
    {
        let index = (start + i) % SLOT_COUNT;
        let s = r.slots[index as usize];
        assert(slot_valid(r.slots@[index as int], index as int));
        if s.state == SLOT_FREE {
            r.header.next_scan = (index + 1) % SLOT_COUNT;
            proof {
                lemma_links_kept(*old(r), *r);
                assert(r@ =~= (RegionView { next_scan: r.header.next_scan, ..old(r)@ }));
            }
            return Some(make_handle(s.generation, index));
        }
        i = i + 1;
    }
    None
}

/// A slot of a table that was never used.
pub open spec fn blank_slot(s: Slot) -> bool {
    s.state == SLOT_FREE && s.generation == 0 && s.obj_type == 0 && s.pid == 0 && s.waiter_head == 0
        && s.w0 == 0 && s.d == 0
}

/// A node of a pool that was never used.
pub open spec fn blank_node(n: WaitNode) -> bool {
    n.seq == 0 && n.registered == 0 && n.obj == 0 && n.wait_word == 0 && n.obj_prev == 0
        && n.obj_next == 0 && n.waiter_next == 0 && n.pid == 0 && n.wake_ts == 0
}

/// A region in which nothing exists and nobody waits.
pub open spec fn empty_region() -> RegionView {
    RegionView {
        slots: Seq::new(
            SLOT_COUNT as nat,
            |i: int|
                SlotView {
                    used: i == 0,
                    generation: 0,
                    pid: 0,
                    object: Object::Reserved,
                    pulses: 0,
                },
        ),
        waiters: Seq::new(SLOT_COUNT as nat, |o: int| Seq::<u32>::empty()),
        nodes: Seq::new(
            NODE_COUNT as nat,
            |n: int| NodeView { seq: 0, on: None, word: 0, pid: 0, wake_ts: 0 },
        ),
        free: Seq::empty(),
        fresh: 0,
        next_scan: 0,
        sweep_ns: 0,
    }
}

/// Lays out a region in memory that is all zeros. Only the header and the
/// reserved slot are written, so that the rest stays untouched until needed.
pub fn format_region(r: &mut Region)
    requires
        old(r).slots@.len() == SLOT_COUNT,
        old(r).nodes@.len() == NODE_COUNT,
        forall|i: int| 0 <= i < SLOT_COUNT ==> blank_slot(#[trigger] old(r).slots@[i]),
        forall|n: int| 0 <= n < NODE_COUNT ==> blank_node(#[trigger] old(r).nodes@[n]),
    ensures
        final(r).wf(),
        final(r)@ == empty_region(),
        final(r).slots@ == old(r).slots@.update(0, final(r).slots@[0]),
        final(r).nodes@ == old(r).nodes@,
{
    r.header.magic = MAGIC;
    r.header.version = VERSION;
    r.header.capacity = SLOT_COUNT;
    r.header.node_capacity = NODE_COUNT;
    r.header.node_free_head = NIL;
    r.header.node_fresh = 0;
    r.header.next_scan = 0;
    r.header.sweep_ns = 0;
    let mut slot0 = r.slots[0];
    slot0.waiter_head = NIL;
    slot0.obj_type = TYPE_RESERVED;
    slot0.pid = 0;
    slot0.state = SLOT_USED;
    r.slots[0] = slot0;
    proof {
        let lists = empty_region().waiters;
        let free = Seq::<u32>::empty();
        assert(r.wf_with(lists, free)) by {
            reveal(Region::wf_with);
            assert forall|o: int| 0 <= o < SLOT_COUNT implies #[trigger] r.list_ok(
                o,
                lists[o],
            ) by {
                if o > 0 {
                    assert(blank_slot(old(r).slots@[o]));
                }
            }
            assert forall|i: int| 0 <= i < SLOT_COUNT implies slot_valid(
                #[trigger] r.slots@[i],
                i,
            ) by {
                assert(blank_slot(old(r).slots@[i]));
            }
            assert forall|n: int| 0 <= n < NODE_COUNT implies (
            #[trigger] r.nodes@[n]).registered == 0 by {
                assert(blank_node(old(r).nodes@[n]));
            }
        }
        r.lemma_lists(lists, free);
        assert forall|i: int| 0 <= i < SLOT_COUNT implies #[trigger] r@.slots[i]
            == empty_region().slots[i] by {
            assert(blank_slot(old(r).slots@[i]));
        }
        assert forall|n: int| 0 <= n < NODE_COUNT implies #[trigger] r@.nodes[n]
            == empty_region().nodes[n] by {
            assert(blank_node(old(r).nodes@[n]));
        }
        assert(r@ =~= empty_region());
    }
}

impl Region {
    /// An empty region of its own, shared with nobody.
    pub fn new() -> (r: Region)
        ensures
            r.wf(),
            r@ == empty_region(),
    {
        let mut slots: Vec<Slot> = Vec::new();
        let mut i: u32 = 0;
        while i < SLOT_COUNT
            invariant
                i <= SLOT_COUNT,
                slots@.len() == i,
                forall|k: int| 0 <= k < i ==> blank_slot(#[trigger] slots@[k]),
            decreases SLOT_COUNT - i,
        {
            slots.push(
                Slot {
                    state: SLOT_FREE,
                    generation: 0,
                    obj_type: 0,
                    pid: 0,
                    waiter_head: 0,
                    w0: 0,
                    d: 0,
                },
            );
            i = i + 1;
        }
        let mut nodes: Vec<WaitNode> = Vec::new();
        let mut n: u32 = 0;
        while n < NODE_COUNT
            invariant
                n <= NODE_COUNT,
                nodes@.len() == n,
                forall|k: int| 0 <= k < n ==> blank_node(#[trigger] nodes@[k]),
            decreases NODE_COUNT - n,
        {
            nodes.push(
                WaitNode {
                    seq: 0,
                    registered: 0,
                    obj: 0,
                    wait_word: 0,
                    obj_prev: 0,
                    obj_next: 0,
                    waiter_next: 0,
                    pid: 0,
                    wake_ts: 0,
                },
            );
            n = n + 1;
        }
        let header = Header {
            magic: 0,
            version: 0,
            capacity: 0,
            node_capacity: 0,
            node_free_head: 0,
            node_fresh: 0,
            next_scan: 0,
            sweep_ns: 0,
        };
        let mut r = Region { header: Box::new(header), slots, nodes };
        format_region(&mut r);
        r
    }
}

/// Whether a header is that of a region that this library laid out.
pub fn check_header(h: &Header) -> (ok: bool)
    ensures
        ok == header_valid(*h),
{
    h.magic == MAGIC && h.version == VERSION && h.capacity == SLOT_COUNT && h.node_capacity
        == NODE_COUNT
}

} // verus!
