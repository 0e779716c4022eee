//! Creating, closing and reading objects.
use crate::caller::{Caller, CallerView};
use crate::errno::{os_enomem, ENOMEM};
use crate::error::Error;
use crate::history::Call;
use crate::object;
use crate::object::{Object, SlotView, TYPE_EVENT, TYPE_MUTEX, TYPE_SEM};
use crate::region::{alloc_slot, slot_publish, Region, RegionView};
use crate::sweep;
use crate::sweep::{close_slot, sweep_dead_locked};
use crate::word;
use crate::word::{
    handle_index, hi32, lo32, mutex_abandoned, mutex_count, pack_event, pack_mutex, pack_sem,
    MAX_RECURSION, SLOT_COUNT,
};
use vstd::prelude::*;

verus! {

impl RegionView {
    /// The object that a handle names.
    pub open spec fn object_at(self, handle: u32) -> Option<Object> {
        match self.lookup(handle) {
            Some(i) => Some(self.slots[i].object),
            None => None,
        }
    }

    /// With the object that `handle` names in state `object`.
    pub open spec fn with_object(self, handle: u32, object: Object) -> RegionView {
        let i = word::index_of(handle);
        self.with_slot(i, self.slots[i].with_object(object))
    }

    /// After process `pid` has created an object in the free slot `i`.
    pub open spec fn created(self, i: int, object: Object, pid: u32) -> RegionView {
        RegionView {
            next_scan: ((i + 1) % (SLOT_COUNT as int)) as u32,
            ..self.with_slot(
                i,
                SlotView {
                    used: true,
                    generation: self.slots[i].generation,
                    pid,
                    object,
                    pulses: 0,
                },
            )
        }
    }
}

/// After room was made for an object: a full table is swept.
pub open spec fn room(v: RegionView, c: CallerView) -> (RegionView, CallerView) {
    if v.free_slot() is Some {
        (v, c)
    } else {
        let (v2, c2, _) = sweep::swept(v, c);
        (v2, c2)
    }
}

/// Whether an object can be created in this state.
pub open spec fn creatable(object: Object) -> bool {
    match object {
        Object::Semaphore { count, max } => count <= max,
        Object::Mutex { owner, count, abandoned } => (owner == 0) == (count == 0) && count
            <= MAX_RECURSION && !abandoned,
        Object::Event { .. } => true,
        Object::Reserved => false,
    }
}

/// What creating an object in state `object` amounts to: it gets the slot that
/// the search finds, once there is room, or else the table is full.
pub open spec fn creates(
    v: RegionView,
    c: CallerView,
    object: Object,
    v2: RegionView,
    c2: CallerView,
    res: Result<u32, Error>,
) -> bool {
    let (m, mc) = room(v, c);
    &&& c2 == mc
    &&& match m.free_slot() {
        Some(i) => {
            &&& res == Ok::<u32, Error>(word::handle_for(m.slots[i].generation, i as u32))
            &&& v2 == m.created(i, object, c.pid)
        },
        None => {
            &&& res == Err::<u32, Error>(Error::Init(ENOMEM))
            &&& v2 == m
        },
    }
}

/// A sweep that frees no object leaves the table as full as it was.
proof fn lemma_nothing_reaped(v: RegionView, c: CallerView, k: nat)
    requires
        sweep::reaped_upto(v, c, k).2 == 0,
    ensures
        sweep::reaped_upto(v, c, k).0 == v,
    decreases k,
{
    if k > 0 {
        lemma_nothing_reaped(v, c, (k - 1) as nat);
    }
}

proof fn lemma_scan_slots(v: RegionView, w: RegionView, k: nat)
    requires
        v.slots == w.slots,
        v.next_scan == w.next_scan,
    ensures
        v.scan(k) == w.scan(k),
    decreases SLOT_COUNT - k,
{
    if k < SLOT_COUNT {
        lemma_scan_slots(v, w, k + 1);
    }
}

/// Finds a slot for a new object, sweeping a full table first.
pub fn alloc_slot_or_sweep(r: &mut Region, cx: &mut Caller) -> (res: Option<u32>)
    requires
        old(r).wf(),
    ensures
        final(r).wf(),
        final(cx)@ == room(old(r)@, old(cx)@).1,
        ({
            let m = room(old(r)@, old(cx)@).0;
            match m.free_slot() {
                Some(i) => {
                    &&& 0 < i < SLOT_COUNT
                    &&& !m.slots[i].used
                    &&& res == Some(word::handle_for(m.slots[i].generation, i as u32))
                    &&& final(r)@ == (RegionView {
                        next_scan: ((i + 1) % (SLOT_COUNT as int)) as u32,
                        ..m
                    })
                },
                None => res is None && final(r)@ == m,
            }
        }),
{
    let first = alloc_slot(r);
    if first.is_some() {
        return first;
    }
    if sweep_dead_locked(r, cx) > 0 {
        alloc_slot(r)
    } else {
        proof {
            let p = old(r)@.purged(old(cx)@);
            lemma_nothing_reaped(p, old(cx)@, SLOT_COUNT as nat);
            lemma_scan_slots(old(r)@, p, 0);
        }
        None
    }
}

/// Creates an object, given its packed state.
fn create(r: &mut Region, cx: &mut Caller, obj_type: u32, w0: u64) -> (res: Result<u32, Error>)
    requires
        old(r).wf(),
        1 <= obj_type <= 3,
        object::word_valid(obj_type, w0),
    ensures
        final(r).wf(),
        creates(
            old(r)@,
            old(cx)@,
            object::object_of(obj_type, w0),
            final(r)@,
            final(cx)@,
            res,
        ),
{
    match alloc_slot_or_sweep(r, cx) {
        Some(handle) => {
            proof {
                let m = room(old(r)@, old(cx)@).0;
                let i = m.free_slot()->0;
                word::lemma_handle_fields(m.slots[i].generation, i as u32);
                lemma_pid_kept(old(r)@, old(cx)@);
            }
            let pid = cx.pid;
            slot_publish(r, handle_index(handle) as usize, obj_type, pid, w0);
            Ok(handle)
        },
        None => Err(Error::Init(os_enomem())),
    }
}

proof fn lemma_pid_kept(v: RegionView, c: CallerView)
    ensures
        room(v, c).1.pid == c.pid,
{
    sweep::lemma_reaped_caller(v.purged(c), c, SLOT_COUNT as nat);
}

/// Whether a semaphore can be created in this state.
pub fn check_semaphore(count: u32, max: u32) -> (res: Result<(), Error>)
    ensures
        res == if count <= max {
            Ok::<(), Error>(())
        } else {
            Err(Error::Invalid)
        },
{
    if count > max {
        return Err(Error::Invalid);
    }
    Ok(())
}

/// Whether a mutex can be created in this state.
pub fn check_mutex(owner: u32, count: u32) -> (res: Result<(), Error>)
    ensures
        res == if (owner == 0) == (count == 0) && count <= MAX_RECURSION {
            Ok::<(), Error>(())
        } else {
            Err(Error::Invalid)
        },
{
    if (owner == 0) != (count == 0) || count > MAX_RECURSION {
        return Err(Error::Invalid);
    }
    Ok(())
}

/// Creates a semaphore.
pub fn create_semaphore(r: &mut Region, cx: &mut Caller, count: u32, max: u32) -> (res: Result<
    u32,
    Error,
>)
    requires
        old(r).wf(),
    ensures
        final(r).wf(),
        count > max ==> res == Err::<u32, Error>(Error::Invalid) && final(r)@ == old(r)@
            && final(cx)@ == old(cx)@,
        count <= max ==> creates(
            old(r)@,
            old(cx)@,
            Object::Semaphore { count, max },
            final(r)@,
            final(cx)@,
            res,
        ),
        (Call::Create { object: Object::Semaphore { count, max }, res }).made(
            old(r)@,
            old(cx)@,
            final(r)@,
            final(cx)@,
        ),
{
    if let Err(e) = check_semaphore(count, max) {
        return Err(e);
    }
    proof {
        word::lemma_join_halves(max, count);
    }
    create(r, cx, TYPE_SEM, pack_sem(count, max))
}

/// Creates a mutex, owned by `owner` with recursion count `count`, or unowned
/// if both are zero.
pub fn create_mutex(r: &mut Region, cx: &mut Caller, owner: u32, count: u32) -> (res: Result<
    u32,
    Error,
>)
    requires
        old(r).wf(),
    ensures
        final(r).wf(),
        (owner == 0) != (count == 0) || count > MAX_RECURSION ==> res == Err::<u32, Error>(
            Error::Invalid,
        ) && final(r)@ == old(r)@ && final(cx)@ == old(cx)@,
        (owner == 0) == (count == 0) && count <= MAX_RECURSION ==> creates(
            old(r)@,
            old(cx)@,
            Object::Mutex { owner, count, abandoned: false },
            final(r)@,
            final(cx)@,
            res,
        ),
        (Call::Create { object: Object::Mutex { owner, count, abandoned: false }, res }).made(
            old(r)@,
            old(cx)@,
            final(r)@,
            final(cx)@,
        ),
{
    if let Err(e) = check_mutex(owner, count) {
        return Err(e);
    }
    proof {
        word::lemma_join_halves(word::mutex_hi(count, false), owner);
        word::lemma_mutex_hi_fields(count, false);
    }
    create(r, cx, TYPE_MUTEX, pack_mutex(owner, count, false))
}

/// Creates an event.
pub fn create_event(r: &mut Region, cx: &mut Caller, manual: bool, signaled: bool) -> (res: Result<
    u32,
    Error,
>)
    requires
        old(r).wf(),
    ensures
        final(r).wf(),
        creates(
            old(r)@,
            old(cx)@,
            Object::Event { manual, signaled },
            final(r)@,
            final(cx)@,
            res,
        ),
        (Call::Create { object: Object::Event { manual, signaled }, res }).made(
            old(r)@,
            old(cx)@,
            final(r)@,
            final(cx)@,
        ),
{
    let w0 = pack_event(signaled, manual);
    proof {
        word::lemma_join_halves(
            if manual {
                1
            } else {
                0
            },
            if signaled {
                1
            } else {
                0
            },
        );
    }
    create(r, cx, TYPE_EVENT, w0)
}

/// Closes an object. Those who wait on it are woken and will fail. Gives false
/// if the handle names no object; the reserved slot cannot be closed.
pub fn close(r: &mut Region, cx: &mut Caller, handle: u32) -> (res: bool)
    requires
        old(r).wf(),
    ensures
        final(r).wf(),
        res == (word::index_of(handle) != 0 && old(r)@.lookup(handle) is Some),
        res ==> (final(r)@, final(cx)@) == sweep::closed(
            old(r)@,
            old(cx)@,
            word::index_of(handle),
        ),
        !res ==> final(r)@ == old(r)@ && final(cx)@ == old(cx)@,
        (Call::Close { handle, ok: res }).made(old(r)@, old(cx)@, final(r)@, final(cx)@),
{
    if handle_index(handle) == 0 {
        return false;
    }
    if r.slot(handle).is_none() {
        return false;
    }
    close_slot(r, cx, handle_index(handle));
    true
}

/// What reading a semaphore gives.
pub open spec fn sem_state(v: RegionView, handle: u32) -> Result<(u32, u32), Error> {
    match v.object_at(handle) {
        Some(Object::Semaphore { count, max }) => Ok((count, max)),
        _ => Err(Error::Invalid),
    }
}

/// What reading a mutex gives.
pub open spec fn mutex_state(v: RegionView, handle: u32) -> Result<(u32, u32, bool), Error> {
    match v.object_at(handle) {
        Some(Object::Mutex { owner, count, abandoned }) => Ok((count, owner, abandoned)),
        _ => Err(Error::Invalid),
    }
}

/// What reading an event gives.
pub open spec fn event_state(v: RegionView, handle: u32) -> Result<(bool, bool), Error> {
    match v.object_at(handle) {
        Some(Object::Event { manual, signaled }) => Ok((manual, signaled)),
        _ => Err(Error::Invalid),
    }
}

/// Gives the count and the maximum of a semaphore.
pub fn read_sem(r: &Region, handle: u32) -> (res: Result<(u32, u32), Error>)
    requires
        r.wf(),
    ensures
        res == match r@.object_at(handle) {
            Some(Object::Semaphore { count, max }) => Ok::<(u32, u32), Error>((count, max)),
            _ => Err(Error::Invalid),
        },
        res == sem_state(r@, handle),
{
    proof {
        r.lemma_sizes();
    }
    match r.slot(handle) {
        Some(i) if r.slots[i].obj_type == TYPE_SEM => {
            let w = r.slots[i].w0;
            Ok((lo32(w), hi32(w)))
        },
        _ => Err(Error::Invalid),
    }
}

/// Gives the recursion count and the owner of a mutex, and whether it is
/// abandoned.
pub fn read_mutex(r: &Region, handle: u32) -> (res: Result<(u32, u32, bool), Error>)
    requires
        r.wf(),
    ensures
        res == match r@.object_at(handle) {
            Some(Object::Mutex { owner, count, abandoned }) => Ok::<(u32, u32, bool), Error>(
                (count, owner, abandoned),
            ),
            _ => Err(Error::Invalid),
        },
        res == mutex_state(r@, handle),
{
    proof {
        r.lemma_sizes();
    }
    match r.slot(handle) {
        Some(i) if r.slots[i].obj_type == TYPE_MUTEX => {
            let w = r.slots[i].w0;
            let hi = hi32(w);
            Ok((mutex_count(hi), lo32(w), mutex_abandoned(hi)))
        },
        _ => Err(Error::Invalid),
    }
}

/// Tells whether an event is manual-reset and whether it is signaled.
pub fn read_event(r: &Region, handle: u32) -> (res: Result<(bool, bool), Error>)
    requires
        r.wf(),
    ensures
        res == match r@.object_at(handle) {
            Some(Object::Event { manual, signaled }) => Ok::<(bool, bool), Error>(
                (manual, signaled),
            ),
            _ => Err(Error::Invalid),
        },
        res == event_state(r@, handle),
{
    proof {
        r.lemma_sizes();
    }
    match r.slot(handle) {
        Some(i) if r.slots[i].obj_type == TYPE_EVENT => {
            let w = r.slots[i].w0;
            Ok((hi32(w) != 0, lo32(w) != 0))
        },
        _ => Err(Error::Invalid),
    }
}

} // verus!
