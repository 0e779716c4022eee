//! What creating, closing and reading objects does, in terms of the tables alone.
use crate::caller::CallerView;
use crate::error::Error;
use crate::history::Call;
use crate::laws::plain::{alive, all_roused, lost, place, tallied, vacated};
use crate::laws::reaping;
use crate::laws::signals;
use crate::object::{Object, SlotView};
use crate::objects;
use crate::reclaim;
use crate::region;
use crate::region::RegionView;
use crate::sweep;
use crate::wakeup;
use crate::word;
use crate::word::SLOT_COUNT;
use vstd::prelude::*;

verus! {

/// Whether an object cannot be created in this state: a semaphore beyond its maximum,
/// and a mutex that is owned but not locked, locked but not owned, or locked too often.
pub open spec fn refused(object: Object) -> bool {
    match object {
        Object::Semaphore { count, max } => count > max,
        Object::Mutex { owner, count, abandoned } => {
            ||| owner == 0 && count > 0
            ||| owner != 0 && count == 0
            ||| count > 0x7fff_ffff
            ||| abandoned
        },
        Object::Event { .. } => false,
        Object::Reserved => true,
    }
}

/// Whether every slot is in use.
pub open spec fn full(v: RegionView) -> bool {
    forall|j: int| 0 <= j < 16384 ==> (#[trigger] v.slots[j]).used
}

/// What slot `j` holds when an object is to be created: a full table is swept first.
pub open spec fn cleared(v: RegionView, c: CallerView, j: int) -> SlotView {
    if full(v) && lost(v, c, j) {
        vacated(v.slots[j])
    } else {
        v.slots[j]
    }
}

/// Where the search for a free slot ends.
proof fn lemma_search(v: RegionView, k: nat)
    ensures
        v.scan(k) matches Some(i) ==> exists|d: int|
            k <= d < SLOT_COUNT && i == #[trigger] ((v.next_scan + d) % 16384) && !v.slots[i].used
                && forall|e: int|
                k <= e < d ==> v.slots[#[trigger] ((v.next_scan + e) % 16384)].used,
    decreases SLOT_COUNT - k,
{
    if k < SLOT_COUNT {
        lemma_search(v, k + 1);
        let at = (v.next_scan + k as int) % 16384;
        if v.slots[at].used {
            if let Some(i) = v.scan(k) {
                let d = choose|d: int|
                    k + 1 <= d < SLOT_COUNT && i == #[trigger] ((v.next_scan + d) % 16384)
                        && !v.slots[i].used && forall|e: int|
                        k + 1 <= e < d ==> v.slots[#[trigger] ((v.next_scan + e) % 16384)].used;
                assert forall|e: int| k <= e < d implies v.slots[#[trigger] ((v.next_scan + e)
                    % 16384)].used by {
                    if e == k {
                    }
                }
            }
        } else {
            let d = k as int;
            assert(v.scan(k) == Some((v.next_scan + d) % 16384));
        }
    }
}

/// The table as it is when the search starts.
proof fn lemma_cleared(v: RegionView, c: CallerView)
    requires
        v.inv(),
    ensures
        ({
            let (m, mc) = objects::room(v, c);
            &&& m.inv()
            &&& full(v) <==> v.free_slot() is None
            &&& forall|j: int| 0 <= j < 16384 ==> #[trigger] m.slots[j] == cleared(v, c, j)
            &&& m.next_scan == v.next_scan
            &&& !full(v) ==> m == v && mc == c
            &&& full(v) ==> m == sweep::swept(v, c).0 && mc == sweep::swept(v, c).1
        }),
{
    region::law_search_finds_free_slot(v);
    reaping::law_sweep_frees_what_the_dead_left(v, c);
    reclaim::law_sweep_frees_orphans(v, c);
    if let Some(i) = v.free_slot() {
        assert(!v.slots[i].used);
    }
}

/// Creating an object is refused exactly if it cannot be in that state, and fails
/// exactly if every slot is in use by a process that exists, or by none. Else the object
/// takes the first free slot from where the last search has ended, in the state that was
/// asked for, as the creator's; the handle leads to it, and no other slot is touched but
/// for the sweep of a full table.
pub proof fn law_create_takes_first_free_slot(
    v: RegionView,
    c: CallerView,
    object: Object,
    v2: RegionView,
    c2: CallerView,
    res: Result<u32, Error>,
)
    requires
        v.inv(),
        (Call::Create { object, res }).made(v, c, v2, c2),
    ensures
        refused(object) ==> res == Err::<u32, Error>(Error::Invalid) && v2 == v && c2 == c,
        !refused(object) ==> match res {
            Ok(handle) => {
                let i = place(handle);
                &&& 0 < i
                &&& !cleared(v, c, i).used
                &&& handle as int / 16384 == cleared(v, c, i).generation % 0x4_0000
                &&& v2.slots[i] == (SlotView {
                    used: true,
                    generation: cleared(v, c, i).generation,
                    pid: c.pid,
                    object,
                    pulses: 0,
                })
                &&& v2.slots.len() == 16384
                &&& forall|j: int|
                    0 <= j < 16384 && j != i ==> #[trigger] v2.slots[j] == cleared(v, c, j)
                &&& v2.next_scan == if i == 16383 {
                    0
                } else {
                    i + 1
                }
                &&& exists|d: int|
                    0 <= d < 16384 && i == #[trigger] ((v.next_scan + d) % 16384) && forall|e: int|
                        0 <= e < d ==> cleared(
                            v,
                            c,
                            #[trigger] ((v.next_scan + e) % 16384),
                        ).used
            },
            Err(e) => {
                &&& e == Error::Init(12)
                &&& full(v)
                &&& forall|j: int| 0 <= j < 16384 ==> !#[trigger] lost(v, c, j)
                &&& v2.slots == v.slots
            },
        },
        !refused(object) ==> {
            let m = if full(v) {
                sweep::swept(v, c).0
            } else {
                v
            };
            &&& v2 == (RegionView { slots: v2.slots, next_scan: v2.next_scan, ..m })
            &&& c2 == if full(v) {
                sweep::swept(v, c).1
            } else {
                c
            }
        },
{
    if !refused(object) {
        assert(objects::creatable(object));
        lemma_cleared(v, c);
        let m = objects::room(v, c).0;
        region::law_search_finds_free_slot(m);
        match m.free_slot() {
            Some(i) => {
                lemma_search(m, 0);
                let g = m.slots[i].generation;
                word::lemma_handle_fields(g, i as u32);
                let handle = word::handle_for(g, i as u32);
                assert(place(handle) == i);
                assert(handle as int / 16384 == g % 0x4_0000);
                let d = choose|d: int|
                    0 <= d < SLOT_COUNT && i == #[trigger] ((m.next_scan + d) % 16384)
                        && !m.slots[i].used && forall|e: int|
                        0 <= e < d ==> m.slots[#[trigger] ((m.next_scan + e) % 16384)].used;
                assert forall|e: int| 0 <= e < d implies cleared(
                    v,
                    c,
                    #[trigger] ((v.next_scan + e) % 16384),
                ).used by {
                    let at = (v.next_scan + e) % 16384;
                    assert(m.slots[at] == cleared(v, c, at));
                }
                assert(i == (v.next_scan + d) % 16384);
            },
            None => {
                assert forall|j: int| 0 <= j < 16384 implies !#[trigger] lost(v, c, j) && (
                #[trigger] v.slots[j]).used by {
                    assert(m.slots[j].used);
                    assert(m.slots[j] == cleared(v, c, j));
                }
                assert(v2.slots =~= v.slots);
            },
        }
    } else {
        assert(!objects::creatable(object));
    }
}

/// No two objects that are created one after the other have the same handle.
pub proof fn law_created_handles_differ(
    v: RegionView,
    c: CallerView,
    object: Object,
    v2: RegionView,
    c2: CallerView,
    first: u32,
    d: CallerView,
    other: Object,
    v3: RegionView,
    d2: CallerView,
    second: u32,
)
    requires
        v.inv(),
        v2.inv(),
        (Call::Create { object, res: Ok(first) }).made(v, c, v2, c2),
        (Call::Create { object: other, res: Ok(second) }).made(v2, d, v3, d2),
    ensures
        first != second,
{
    law_create_takes_first_free_slot(v, c, object, v2, c2, Ok(first));
    law_create_takes_first_free_slot(v2, d, other, v3, d2, Ok(second));
}

/// Closing succeeds exactly on the handle of an object that exists, of whatever kind and
/// whoever created it. The object's slot is free from then on, in the next generation,
/// all who wait on it are woken, and no other slot is touched.
pub proof fn law_close_frees_one_slot(
    v: RegionView,
    c: CallerView,
    handle: u32,
    v2: RegionView,
    c2: CallerView,
    ok: bool,
)
    requires
        v.inv(),
        c.stats.len() == 13,
        (Call::Close { handle, ok }).made(v, c, v2, c2),
    ensures
        ok <==> place(handle) != 0 && alive(v, handle),
        ok ==> {
            &&& v2.slots == v.slots.update(place(handle), vacated(v.slots[place(handle)]))
            &&& !alive(v2, handle)
            &&& all_roused(v, c, place(handle), v2, c2)
            &&& tallied(c, c2, 0, 0)
        },
        !ok ==> v2 == v && c2 == c,
{
    if ok {
        let o = place(handle);
        let s = v.slots[o].freed();
        let m = v.with_slot(o, s);
        wakeup::lemma_table_apart(v, m.slots, v.waiters[o], c.stamp());
        reclaim::lemma_closed_inv(v, c, o);
        assert(m.words(o) =~= v.words(o));
        assert((v2, c2) == region::woken(m, c, o));
        signals::lemma_change_and_signal(v, c, o, s, v2, c2, false);
    }
}

/// Reading gives the state of the object that the handle was given for, if that exists
/// and is of the kind that is read, and is refused else.
pub proof fn law_read_gives_state(v: RegionView, handle: u32)
    ensures
        objects::sem_state(v, handle) == if alive(v, handle)
            && v.slots[place(handle)].object is Semaphore {
            Ok::<(u32, u32), Error>(
                (
                    v.slots[place(handle)].object->Semaphore_count,
                    v.slots[place(handle)].object->Semaphore_max,
                ),
            )
        } else {
            Err(Error::Invalid)
        },
        objects::mutex_state(v, handle) == if alive(v, handle)
            && v.slots[place(handle)].object is Mutex {
            Ok::<(u32, u32, bool), Error>(
                (
                    v.slots[place(handle)].object->Mutex_count,
                    v.slots[place(handle)].object->Mutex_owner,
                    v.slots[place(handle)].object->Mutex_abandoned,
                ),
            )
        } else {
            Err(Error::Invalid)
        },
        objects::event_state(v, handle) == if alive(v, handle)
            && v.slots[place(handle)].object is Event {
            Ok::<(bool, bool), Error>(
                (
                    v.slots[place(handle)].object->Event_manual,
                    v.slots[place(handle)].object->Event_signaled,
                ),
            )
        } else {
            Err(Error::Invalid)
        },
{
}

/// What is created is what is read, as long as the handle can hold the generation of
/// the slot.
pub proof fn law_created_state_is_read(
    v: RegionView,
    c: CallerView,
    object: Object,
    v2: RegionView,
    c2: CallerView,
    handle: u32,
)
    requires
        v.inv(),
        (Call::Create { object, res: Ok(handle) }).made(v, c, v2, c2),
        v2.slots[place(handle)].generation < 0x4_0000,
    ensures
        object matches Object::Semaphore { count, max } ==> objects::sem_state(v2, handle) == Ok::<
            (u32, u32),
            Error,
        >((count, max)),
        object matches Object::Mutex { owner, count, abandoned } ==> objects::mutex_state(
            v2,
            handle,
        ) == Ok::<(u32, u32, bool), Error>((count, owner, abandoned)),
        object matches Object::Event { manual, signaled } ==> objects::event_state(v2, handle)
            == Ok::<(bool, bool), Error>((manual, signaled)),
{
    law_create_takes_first_free_slot(v, c, object, v2, c2, Ok(handle));
}

} // verus!
