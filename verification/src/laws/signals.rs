//! What each signal operation does, in terms of the tables alone.
use crate::caller::CallerView;
use crate::error::Error;
use crate::laws::plain::{
    alive, all_roused, none_roused, only_changed, place, tallied, times, words_of,
};
use crate::object::{Object, SlotView};
use crate::reclaim;
use crate::region;
use crate::region::{RegionView, NODE_COUNT};
use crate::signal;
use crate::stats::SIGNAL_OPS;
use crate::wakeup;
use crate::word::SLOT_COUNT;
use vstd::prelude::*;

verus! {

/// How waking a list counts up a futex word.
pub proof fn lemma_woken_counts(v: RegionView, list: Seq<u32>, stamp: Option<u64>, x: int)
    requires
        v.nodes.len() == NODE_COUNT,
        0 <= x < NODE_COUNT,
        forall|i: int|
            0 <= i < list.len() ==> (#[trigger] list[i]) < NODE_COUNT
                && v.nodes[list[i] as int].word < NODE_COUNT,
    ensures
        ({
            let m = v.woken_list(list, stamp);
            let n = times(words_of(v, list), x);
            &&& m.nodes.len() == NODE_COUNT
            &&& m.nodes[x].seq == (v.nodes[x].seq + n) % 0x1_0000_0000
            &&& m.nodes[x].wake_ts == if n > 0 && stamp is Some {
                stamp->0
            } else {
                v.nodes[x].wake_ts
            }
        }),
    decreases list.len(),
{
    if list.len() > 0 {
        let n = list[0];
        let w = v.nodes[n as int].word;
        let u = v.detached(n).bumped(w, stamp);
        let rest = list.drop_first();
        assert(forall|y: int|
            0 <= y < NODE_COUNT ==> (#[trigger] u.nodes[y]).word == v.nodes[y].word);
        assert forall|i: int| 0 <= i < rest.len() implies (#[trigger] rest[i]) < NODE_COUNT
            && u.nodes[rest[i] as int].word < NODE_COUNT by {
            assert(rest[i] == list[i + 1]);
        }
        lemma_woken_counts(u, rest, stamp, x);
        assert(words_of(u, rest) =~= words_of(v, list).drop_first()) by {
            assert forall|k: int| 0 <= k < rest.len() implies #[trigger] words_of(u, rest)[k]
                == words_of(v, list).drop_first()[k] by {
                assert(rest[k] == list[k + 1]);
            }
        }
        assert(words_of(v, list)[0] == w);
    }
}

/// Changing one slot and then signaling it.
pub proof fn lemma_change_and_signal(
    v: RegionView,
    c: CallerView,
    o: int,
    s: SlotView,
    v2: RegionView,
    c2: CallerView,
    counted: bool,
)
    requires
        v.inv(),
        0 <= o < SLOT_COUNT,
        c.stats.len() == 13,
        (v2, c2) == if counted {
            region::signaled(v.with_slot(o, s), c, o)
        } else {
            region::woken(v.with_slot(o, s), c, o)
        },
    ensures
        all_roused(v, c, o, v2, c2),
        tallied(
            c,
            c2,
            0,
            if counted && v.waiters[o].len() > 0 {
                1
            } else {
                0
            },
        ),
        v2.slots == v.slots.update(o, s),
{
    let m = v.with_slot(o, s);
    let list = v.waiters[o];
    let words = words_of(v, list);
    assert(m.words(o) =~= words);
    assert forall|i: int| 0 <= i < list.len() implies (#[trigger] list[i]) < NODE_COUNT
        && v.nodes[list[i] as int].word < NODE_COUNT by {
        assert(v.waiters[o][i] < NODE_COUNT);
        assert(v.nodes[v.waiters[o][i] as int].on is Some);
    }
    if list.len() == 0 && counted {
        assert(list =~= Seq::<u32>::empty());
        assert(v2.waiters =~= v.waiters.update(o, Seq::<u32>::empty()));
        assert(c2.wakes =~= c.wakes + words);
        assert forall|x: int| 0 <= x < 8192 implies (#[trigger] v2.nodes[x]).on == (
        if v.nodes[x].on == Some(o as u32) {
            None
        } else {
            v.nodes[x].on
        }) by {
            if v.nodes[x].on == Some(o as u32) {
                assert(list.contains(x as u32));
            }
        }
    } else {
        let stamp = c.stamp();
        wakeup::lemma_table_apart(v, m.slots, list, stamp);
        reclaim::lemma_woken_inv(v, o, stamp);
        let k = v.woken_list(list, stamp);
        assert(v2 == (RegionView { slots: m.slots, ..k }));
        assert forall|x: int| 0 <= x < 8192 implies {
            &&& (#[trigger] v2.nodes[x]).seq == (v.nodes[x].seq + times(words, x)) % 0x1_0000_0000
            &&& v2.nodes[x].wake_ts == if times(words, x) > 0 && c.debug {
                c.now
            } else {
                v.nodes[x].wake_ts
            }
        } by {
            lemma_woken_counts(v, list, stamp, x);
        }
    }
}

/// Releasing a semaphore succeeds exactly if its count then stays within the maximum.
/// It gives the count that was there, adds to it and to nothing else, and wakes all who
/// wait on the semaphore. A release beyond the maximum, and one on anything but a
/// semaphore that exists, is refused and changes nothing.
pub proof fn law_release_adds(
    v: RegionView,
    c: CallerView,
    handle: u32,
    n: u32,
    v2: RegionView,
    c2: CallerView,
    res: Result<u32, Error>,
)
    requires
        v.inv(),
        c.stats.len() == 13,
        signal::sem_releases(v, c, handle, n, v2, c2, res),
    ensures
        alive(v, handle) && v.slots[place(handle)].object is Semaphore ==> {
            let count = v.slots[place(handle)].object->Semaphore_count;
            let max = v.slots[place(handle)].object->Semaphore_max;
            if count + n <= max {
                &&& res == Ok::<u32, Error>(count)
                &&& only_changed(
                    v,
                    place(handle),
                    Object::Semaphore { count: (count + n) as u32, max },
                    v.slots[place(handle)].pulses as int,
                    v2,
                )
                &&& all_roused(v, c, place(handle), v2, c2)
                &&& tallied(
                    c,
                    c2,
                    1,
                    if v.waiters[place(handle)].len() > 0 {
                        1
                    } else {
                        0
                    },
                )
            } else {
                &&& res == Err::<u32, Error>(Error::Overflow)
                &&& v2 == v
                &&& c2.wakes == c.wakes
                &&& tallied(c, c2, 1, 0)
            }
        },
        !(alive(v, handle) && v.slots[place(handle)].object is Semaphore) ==> {
            &&& res == Err::<u32, Error>(Error::Invalid)
            &&& v2 == v
            &&& c2 == c
        },
{
    if res is Ok {
        let o = place(handle);
        let obj = v.slots[o].object;
        let s = v.slots[o].with_object(
            Object::Semaphore {
                count: (obj->Semaphore_count + n) as u32,
                max: obj->Semaphore_max,
            },
        );
        lemma_change_and_signal(v, c.bumped(SIGNAL_OPS), o, s, v2, c2, true);
    }
}

/// Setting an event signals it and wakes all who wait on it, unless it was signaled
/// already; it gives the state that was there and keeps the reset mode.
pub proof fn law_set_signals(
    v: RegionView,
    c: CallerView,
    handle: u32,
    v2: RegionView,
    c2: CallerView,
    res: Result<u32, Error>,
)
    requires
        v.inv(),
        c.stats.len() == 13,
        signal::event_sets(v, c, handle, v2, c2, res),
    ensures
        alive(v, handle) && v.slots[place(handle)].object is Event ==> {
            let manual = v.slots[place(handle)].object->Event_manual;
            if v.slots[place(handle)].object->Event_signaled {
                res == Ok::<u32, Error>(1) && v2 == v && c2 == c
            } else {
                &&& res == Ok::<u32, Error>(0)
                &&& only_changed(
                    v,
                    place(handle),
                    Object::Event { manual, signaled: true },
                    v.slots[place(handle)].pulses as int,
                    v2,
                )
                &&& all_roused(v, c, place(handle), v2, c2)
                &&& tallied(
                    c,
                    c2,
                    0,
                    if v.waiters[place(handle)].len() > 0 {
                        1
                    } else {
                        0
                    },
                )
            }
        },
        !(alive(v, handle) && v.slots[place(handle)].object is Event) ==> {
            &&& res == Err::<u32, Error>(Error::Invalid)
            &&& v2 == v
            &&& c2 == c
        },
{
    let o = place(handle);
    if v.object_at(handle) is Some && v.slots[o].object is Event
        && !v.slots[o].object->Event_signaled {
        let s = v.slots[o].with_object(
            Object::Event { manual: v.slots[o].object->Event_manual, signaled: true },
        );
        lemma_change_and_signal(v, c, o, s, v2, c2, true);
    }
}

/// Resetting an event leaves it unsignaled, of the same reset mode, and wakes nobody; it
/// gives the state that was there.
pub proof fn law_reset_unsignals(
    v: RegionView,
    c: CallerView,
    handle: u32,
    v2: RegionView,
    res: Result<u32, Error>,
)
    requires
        v.inv(),
        signal::event_resets(v, handle, v2, res),
    ensures
        alive(v, handle) && v.slots[place(handle)].object is Event ==> {
            &&& res == Ok::<u32, Error>(
                if v.slots[place(handle)].object->Event_signaled {
                    1
                } else {
                    0
                },
            )
            &&& only_changed(
                v,
                place(handle),
                Object::Event {
                    manual: v.slots[place(handle)].object->Event_manual,
                    signaled: false,
                },
                v.slots[place(handle)].pulses as int,
                v2,
            )
            &&& none_roused(v, c, v2, c)
        },
        !(alive(v, handle) && v.slots[place(handle)].object is Event) ==> {
            &&& res == Err::<u32, Error>(Error::Invalid)
            &&& v2 == v
        },
{
}

/// Pulsing an event counts one more pulse, leaves the event unsignaled and of the same
/// reset mode, and wakes all who wait on it; it gives the state that was there.
pub proof fn law_pulse_wakes_and_unsignals(
    v: RegionView,
    c: CallerView,
    handle: u32,
    v2: RegionView,
    c2: CallerView,
    res: Result<u32, Error>,
)
    requires
        v.inv(),
        c.stats.len() == 13,
        signal::event_pulses(v, c, handle, v2, c2, res),
    ensures
        alive(v, handle) && v.slots[place(handle)].object is Event ==> {
            &&& res == Ok::<u32, Error>(
                if v.slots[place(handle)].object->Event_signaled {
                    1
                } else {
                    0
                },
            )
            &&& only_changed(
                v,
                place(handle),
                Object::Event {
                    manual: v.slots[place(handle)].object->Event_manual,
                    signaled: false,
                },
                if v.slots[place(handle)].pulses == u64::MAX {
                    0
                } else {
                    v.slots[place(handle)].pulses + 1
                },
                v2,
            )
            &&& all_roused(v, c, place(handle), v2, c2)
            &&& tallied(c, c2, 0, 0)
        },
        !(alive(v, handle) && v.slots[place(handle)].object is Event) ==> {
            &&& res == Err::<u32, Error>(Error::Invalid)
            &&& v2 == v
            &&& c2 == c
        },
{
    let o = place(handle);
    if v.object_at(handle) is Some && v.slots[o].object is Event {
        lemma_change_and_signal(v, c, o, v.pulsed(handle).slots[o], v2, c2, false);
    }
}

/// Unlocking a mutex is for its owner alone. It drops one level, and gives the
/// recursion count that was there; with the last level the mutex gets free, for
/// everybody who waits on it, who are woken. They are woken too when the owner can
/// acquire it again after the recursion limit was reached.
pub proof fn law_unlock_drops_one_level(
    v: RegionView,
    c: CallerView,
    handle: u32,
    owner: u32,
    v2: RegionView,
    c2: CallerView,
    res: Result<u32, Error>,
)
    requires
        v.inv(),
        c.stats.len() == 13,
        owner != 0,
        signal::mutex_unlocks(v, c, handle, owner, v2, c2, res),
    ensures
        alive(v, handle) && v.slots[place(handle)].object is Mutex ==> {
            let count = v.slots[place(handle)].object->Mutex_count;
            if v.slots[place(handle)].object->Mutex_owner == owner {
                &&& count > 0
                &&& res == Ok::<u32, Error>(count)
                &&& only_changed(
                    v,
                    place(handle),
                    Object::Mutex {
                        owner: if count > 1 {
                            owner
                        } else {
                            0
                        },
                        count: (count - 1) as u32,
                        abandoned: false,
                    },
                    v.slots[place(handle)].pulses as int,
                    v2,
                )
                &&& if count == 1 || count == 0x7fff_ffff {
                    &&& all_roused(v, c, place(handle), v2, c2)
                    &&& tallied(
                        c,
                        c2,
                        0,
                        if v.waiters[place(handle)].len() > 0 {
                            1
                        } else {
                            0
                        },
                    )
                } else {
                    none_roused(v, c, v2, c2) && c2 == c
                }
            } else {
                res == Err::<u32, Error>(Error::Perm) && v2 == v && c2 == c
            }
        },
        !(alive(v, handle) && v.slots[place(handle)].object is Mutex) ==> {
            &&& res == Err::<u32, Error>(Error::Invalid)
            &&& v2 == v
            &&& c2 == c
        },
{
    let o = place(handle);
    if v.object_at(handle) is Some && v.slots[o].object is Mutex {
        assert(o != 0);
        assert(v.slots[o].object.valid());
        let count = v.slots[o].object->Mutex_count;
        if v.slots[o].object->Mutex_owner == owner {
            let s = v.slots[o].with_object(signal::unlocked(owner, count, false));
            if count == 1 || count == 0x7fff_ffff {
                lemma_change_and_signal(v, c, o, s, v2, c2, true);
            } else {
                assert(v2 == v.with_slot(o, s));
            }
        }
    }
}

/// Its owner can abandon a mutex, however often it was acquired; nobody else can. The
/// mutex is then free and marked, and all who wait on it are woken.
pub proof fn law_kill_frees_and_marks(
    v: RegionView,
    c: CallerView,
    handle: u32,
    owner: u32,
    v2: RegionView,
    c2: CallerView,
    res: Result<(), Error>,
)
    requires
        v.inv(),
        c.stats.len() == 13,
        owner != 0,
        signal::mutex_kills(v, c, handle, owner, v2, c2, res),
    ensures
        alive(v, handle) && v.slots[place(handle)].object is Mutex ==> {
            if v.slots[place(handle)].object->Mutex_owner == owner {
                &&& res == Ok::<(), Error>(())
                &&& only_changed(
                    v,
                    place(handle),
                    Object::Mutex { owner: 0, count: 0, abandoned: true },
                    v.slots[place(handle)].pulses as int,
                    v2,
                )
                &&& all_roused(v, c, place(handle), v2, c2)
                &&& tallied(
                    c,
                    c2,
                    0,
                    if v.waiters[place(handle)].len() > 0 {
                        1
                    } else {
                        0
                    },
                )
            } else {
                res == Err::<(), Error>(Error::Perm) && v2 == v && c2 == c
            }
        },
        !(alive(v, handle) && v.slots[place(handle)].object is Mutex) ==> {
            &&& res == Err::<(), Error>(Error::Invalid)
            &&& v2 == v
            &&& c2 == c
        },
{
    let o = place(handle);
    if v.object_at(handle) is Some && v.slots[o].object is Mutex
        && v.slots[o].object->Mutex_owner == owner {
        let s = v.slots[o].with_object(Object::Mutex { owner: 0, count: 0, abandoned: true });
        lemma_change_and_signal(v, c, o, s, v2, c2, true);
    }
}

} // verus!
