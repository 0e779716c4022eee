//! The words in which laws speak of a region: nothing but its tables and numbers.
use crate::caller::CallerView;
use crate::object::{Object, SlotView};
use crate::region::RegionView;
use vstd::prelude::*;

verus! {

/// The slot that a handle refers to.
pub open spec fn place(handle: u32) -> int {
    handle as int % 16384
}

/// Whether the object that a handle was given for exists.
pub open spec fn alive(v: RegionView, handle: u32) -> bool {
    &&& v.slots[place(handle)].used
    &&& v.slots[place(handle)].generation == handle as int / 16384
}

/// Whether a process does not exist, as far as the caller knows.
pub open spec fn missing(c: CallerView, pid: u32) -> bool {
    pid == 0 || c.dead.contains(pid)
}

/// Whether slot `j` holds an object of a process that does not exist any more.
pub open spec fn lost(v: RegionView, c: CallerView, j: int) -> bool {
    v.slots[j].used && v.slots[j].pid != 0 && c.dead.contains(v.slots[j].pid)
}

/// A slot whose object has ceased to exist.
pub open spec fn vacated(s: SlotView) -> SlotView {
    SlotView {
        used: false,
        generation: if s.generation == u32::MAX {
            0
        } else {
            (s.generation + 1) as u32
        },
        pid: s.pid,
        object: s.object,
        pulses: s.pulses,
    }
}

/// Whether a caller's next signal operation looks for processes that are gone.
pub open spec fn due(v: RegionView, c: CallerView) -> bool {
    c.calls % 256 == 0 && c.interval > 0 && c.now >= v.sweep_ns + c.interval
}

/// Whether the object that a handle was given for exists, and is still there after a
/// sweep if one is due.
pub open spec fn stays(v: RegionView, c: CallerView, handle: u32) -> bool {
    alive(v, handle) && !(due(v, c) && lost(v, c, place(handle)))
}

/// What slot `j` holds after a sweep, if one is due.
pub open spec fn remains(v: RegionView, c: CallerView, j: int) -> SlotView {
    if due(v, c) && lost(v, c, j) {
        vacated(v.slots[j])
    } else {
        v.slots[j]
    }
}

/// How often `x` occurs in `s`.
pub open spec fn times(s: Seq<u32>, x: int) -> nat
    decreases s.len(),
{
    if s.len() == 0 {
        0
    } else {
        times(s.drop_first(), x) + if s[0] == x {
            1nat
        } else {
            0
        }
    }
}

/// The futex words that lead to the nodes `list`.
pub open spec fn words_of(v: RegionView, list: Seq<u32>) -> Seq<u32> {
    Seq::new(list.len(), |k: int| v.nodes[list[k] as int].word)
}

/// Everybody on the list of slot `o` was woken, and nobody else: the list is empty, the
/// futex words have changed once for each node, and the caller is told to wake them.
pub open spec fn all_roused(
    v: RegionView,
    c: CallerView,
    o: int,
    v2: RegionView,
    c2: CallerView,
) -> bool {
    let words = words_of(v, v.waiters[o]);
    &&& v2.waiters == v.waiters.update(o, Seq::<u32>::empty())
    &&& c2.wakes == c.wakes + words
    &&& v2.nodes.len() == v.nodes.len()
    &&& forall|x: int|
        0 <= x < 8192 ==> {
            &&& (#[trigger] v2.nodes[x]).on == if v.nodes[x].on == Some(o as u32) {
                None
            } else {
                v.nodes[x].on
            }
            &&& v2.nodes[x].word == v.nodes[x].word
            &&& v2.nodes[x].pid == v.nodes[x].pid
            &&& v2.nodes[x].seq == (v.nodes[x].seq + times(words, x)) % 0x1_0000_0000
            &&& v2.nodes[x].wake_ts == if times(words, x) > 0 && c.debug {
                c.now
            } else {
                v.nodes[x].wake_ts
            }
        }
    &&& v2.free == v.free
    &&& v2.fresh == v.fresh
    &&& v2.next_scan == v.next_scan
    &&& v2.sweep_ns == v.sweep_ns
}

/// Nobody was woken, and nobody's node has changed.
pub open spec fn none_roused(v: RegionView, c: CallerView, v2: RegionView, c2: CallerView) -> bool {
    &&& v2.waiters == v.waiters
    &&& v2.nodes == v.nodes
    &&& v2.free == v.free
    &&& v2.fresh == v.fresh
    &&& v2.next_scan == v.next_scan
    &&& v2.sweep_ns == v.sweep_ns
    &&& c2.wakes == c.wakes
}

/// Of the caller's context only the wakes and the counters have changed, and of the
/// counters only those of signal operations (by `ops`) and of wake walks (by `walks`).
pub open spec fn tallied(c: CallerView, c2: CallerView, ops: nat, walks: nat) -> bool {
    &&& c2.pid == c.pid
    &&& c2.calls == c.calls
    &&& c2.interval == c.interval
    &&& c2.now == c.now
    &&& c2.debug == c.debug
    &&& c2.dead == c.dead
    &&& c2.reclaimed == c.reclaimed
    &&& c2.stats.len() == c.stats.len()
    &&& forall|k: int|
        0 <= k < c.stats.len() ==> #[trigger] c2.stats[k] == if k == 7 {
            (c.stats[k] + ops) % 0x1_0000_0000_0000_0000
        } else if k == 8 {
            (c.stats[k] + walks) % 0x1_0000_0000_0000_0000
        } else {
            c.stats[k] as int
        }
}

/// Slot `o` holds the object `object`, and is otherwise as it was, with `pulses` pulses;
/// no other slot has changed.
pub open spec fn only_changed(
    v: RegionView,
    o: int,
    object: Object,
    pulses: int,
    v2: RegionView,
) -> bool {
    &&& v2.slots.len() == v.slots.len()
    &&& forall|j: int| 0 <= j < v.slots.len() && j != o ==> #[trigger] v2.slots[j] == v.slots[j]
    &&& v2.slots[o].used == v.slots[o].used
    &&& v2.slots[o].generation == v.slots[o].generation
    &&& v2.slots[o].pid == v.slots[o].pid
    &&& v2.slots[o].object == object
    &&& v2.slots[o].pulses == pulses
}

} // verus!
