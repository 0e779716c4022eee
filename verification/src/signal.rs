//! Operations that change the state of an object and wake those who wait on it.
//!
//! All of them but `mutex_kill` first see whether an automatic sweep is due.
use crate::caller::{Caller, CallerView};
use crate::error::Error;
use crate::history::Call;
use crate::object;
use crate::object::{event_cleared, event_raised, Object, TYPE_EVENT, TYPE_MUTEX, TYPE_SEM};
use crate::region;
use crate::region::{put_slot, wake_object, wake_waiters_if_any, Region, RegionView};
use crate::stats::{bump, SIGNAL_OPS};
use crate::sweep;
use crate::sweep::auto_sweep_dead;
use crate::word;
use crate::word::{
    hi32, lo32, mutex_abandoned, mutex_count, pack_mutex, pack_sem, MAX_RECURSION, SLOT_COUNT,
};
use vstd::prelude::*;

verus! {

/// What releasing `n` from the semaphore at `handle` amounts to. If that would
/// exceed the maximum nothing changes.
pub open spec fn sem_releases(
    v: RegionView,
    c: CallerView,
    handle: u32,
    n: u32,
    v2: RegionView,
    c2: CallerView,
    res: Result<u32, Error>,
) -> bool {
    match v.object_at(handle) {
        Some(Object::Semaphore { count, max }) => if count + n <= max {
            &&& res == Ok::<u32, Error>(count)
            &&& (v2, c2) == region::signaled(
                v.with_object(handle, Object::Semaphore { count: (count + n) as u32, max }),
                c.bumped(SIGNAL_OPS),
                word::index_of(handle),
            )
        } else {
            &&& res == Err::<u32, Error>(Error::Overflow)
            &&& v2 == v
            &&& c2 == c.bumped(SIGNAL_OPS)
        },
        _ => {
            &&& res == Err::<u32, Error>(Error::Invalid)
            &&& v2 == v
            &&& c2 == c
        },
    }
}

/// What setting the event at `handle` amounts to.
pub open spec fn event_sets(
    v: RegionView,
    c: CallerView,
    handle: u32,
    v2: RegionView,
    c2: CallerView,
    res: Result<u32, Error>,
) -> bool {
    match v.object_at(handle) {
        Some(Object::Event { manual, signaled }) => if signaled {
            &&& res == Ok::<u32, Error>(1)
            &&& v2 == v
            &&& c2 == c
        } else {
            &&& res == Ok::<u32, Error>(0)
            &&& (v2, c2) == region::signaled(
                v.with_object(handle, Object::Event { manual, signaled: true }),
                c,
                word::index_of(handle),
            )
        },
        _ => {
            &&& res == Err::<u32, Error>(Error::Invalid)
            &&& v2 == v
            &&& c2 == c
        },
    }
}

/// What resetting the event at `handle` amounts to.
pub open spec fn event_resets(
    v: RegionView,
    handle: u32,
    v2: RegionView,
    res: Result<u32, Error>,
) -> bool {
    match v.object_at(handle) {
        Some(Object::Event { manual, signaled }) => {
            &&& res == Ok::<u32, Error>(
                if signaled {
                    1
                } else {
                    0
                },
            )
            &&& v2 == v.with_object(handle, Object::Event { manual, signaled: false })
        },
        _ => {
            &&& res == Err::<u32, Error>(Error::Invalid)
            &&& v2 == v
        },
    }
}

impl RegionView {
    /// With the event that `handle` names unsignaled after one more pulse.
    pub open spec fn pulsed(self, handle: u32) -> RegionView {
        let i = word::index_of(handle);
        let s = self.slots[i];
        self.with_slot(
            i,
            crate::object::SlotView {
                object: match s.object {
                    Object::Event { manual, .. } => Object::Event { manual, signaled: false },
                    o => o,
                },
                pulses: ((s.pulses + 1) % 0x1_0000_0000_0000_0000) as u64,
                ..s
            },
        )
    }
}

/// What pulsing the event at `handle` amounts to.
pub open spec fn event_pulses(
    v: RegionView,
    c: CallerView,
    handle: u32,
    v2: RegionView,
    c2: CallerView,
    res: Result<u32, Error>,
) -> bool {
    match v.object_at(handle) {
        Some(Object::Event { signaled, .. }) => {
            &&& res == Ok::<u32, Error>(
                if signaled {
                    1
                } else {
                    0
                },
            )
            &&& (v2, c2) == region::woken(v.pulsed(handle), c, word::index_of(handle))
        },
        _ => {
            &&& res == Err::<u32, Error>(Error::Invalid)
            &&& v2 == v
            &&& c2 == c
        },
    }
}

/// A mutex after `owner` has dropped one of its `count` levels.
pub open spec fn unlocked(owner: u32, count: u32, abandoned: bool) -> Object {
    Object::Mutex {
        owner: if count == 1 {
            0
        } else {
            owner
        },
        count: (count - 1) as u32,
        abandoned,
    }
}

/// What unlocking the mutex at `handle` by `owner` amounts to. Waiters are woken when
/// the mutex gets free, and when its recursion count comes down from the limit, as
/// its owner can then acquire it again.
pub open spec fn mutex_unlocks(
    v: RegionView,
    c: CallerView,
    handle: u32,
    owner: u32,
    v2: RegionView,
    c2: CallerView,
    res: Result<u32, Error>,
) -> bool {
    match v.object_at(handle) {
        Some(Object::Mutex { owner: holder, count, abandoned }) => if holder != owner {
            &&& res == Err::<u32, Error>(Error::Perm)
            &&& v2 == v
            &&& c2 == c
        } else {
            let left = v.with_object(handle, unlocked(owner, count, abandoned));
            &&& res == Ok::<u32, Error>(count)
            &&& (v2, c2) == if count == 1 || count == MAX_RECURSION {
                region::signaled(left, c, word::index_of(handle))
            } else {
                (left, c)
            }
        },
        _ => {
            &&& res == Err::<u32, Error>(Error::Invalid)
            &&& v2 == v
            &&& c2 == c
        },
    }
}

/// What marking the mutex at `handle` abandoned by `owner` amounts to.
pub open spec fn mutex_kills(
    v: RegionView,
    c: CallerView,
    handle: u32,
    owner: u32,
    v2: RegionView,
    c2: CallerView,
    res: Result<(), Error>,
) -> bool {
    match v.object_at(handle) {
        Some(Object::Mutex { owner: holder, .. }) => if holder != owner {
            &&& res == Err::<(), Error>(Error::Perm)
            &&& v2 == v
            &&& c2 == c
        } else {
            &&& res == Ok::<(), Error>(())
            &&& (v2, c2) == region::signaled(
                v.with_object(handle, Object::Mutex { owner: 0, count: 0, abandoned: true }),
                c,
                word::index_of(handle),
            )
        },
        _ => {
            &&& res == Err::<(), Error>(Error::Invalid)
            &&& v2 == v
            &&& c2 == c
        },
    }
}

/// The slot that a handle names, if it holds an object of type `kind`.
pub fn typed_slot(r: &Region, handle: u32, kind: u32) -> (res: Option<usize>)
    requires
        r.wf(),
        1 <= kind <= 3,
    ensures
        match res {
            Some(i) => {
                &&& 0 < i < SLOT_COUNT
                &&& i == word::index_of(handle)
                &&& i < r.slots@.len()
                &&& r@.lookup(handle) == Some(i as int)
                &&& r.slots@[i as int].obj_type == kind
                &&& object::word_valid(kind, r.slots@[i as int].w0)
                &&& region::slot_valid(r.slots@[i as int], i as int)
                &&& r@.slots[i as int].used
            },
            None => match r@.object_at(handle) {
                Some(Object::Semaphore { .. }) => kind != TYPE_SEM,
                Some(Object::Mutex { .. }) => kind != TYPE_MUTEX,
                Some(Object::Event { .. }) => kind != TYPE_EVENT,
                _ => true,
            },
        },
{
    proof {
        r.lemma_sizes();
    }
    match r.slot(handle) {
        Some(i) => {
            proof {
                assert(region::slot_valid(r.slots@[i as int], i as int));
            }
            if r.slots[i].obj_type == kind {
                Some(i)
            } else {
                None
            }
        },
        None => None,
    }
}

/// Releases `count` from a semaphore and gives the previous count.
pub fn sem_release(r: &mut Region, cx: &mut Caller, handle: u32, count: u32) -> (res: Result<
    u32,
    Error,
>)
    requires
        old(r).wf(),
    ensures
        final(r).wf(),
        ({
            let (v, c) = sweep::auto_swept(old(r)@, old(cx)@);
            sem_releases(v, c, handle, count, final(r)@, final(cx)@, res)
        }),
        (Call::SemRelease { handle, n: count, res }).made(old(r)@, old(cx)@, final(r)@, final(cx)@),
{
    auto_sweep_dead(r, cx);
    let i = match typed_slot(r, handle, TYPE_SEM) {
        Some(i) => i,
        None => return Err(Error::Invalid),
    };
    let mut s = r.slots[i];
    let cur = lo32(s.w0);
    let max = hi32(s.w0);
    bump(&mut cx.stats, SIGNAL_OPS);
    let sum = match cur.checked_add(count) {
        Some(sum) => sum,
        None => return Err(Error::Overflow),
    };
    if sum > max {
        return Err(Error::Overflow);
    }
    s.w0 = pack_sem(sum, max);
    proof {
        word::lemma_join_halves(max, sum);
    }
    put_slot(r, i, s);
    wake_waiters_if_any(r, cx, i as u32);
    Ok(cur)
}

/// Signals an event and gives its previous state.
pub fn event_set(r: &mut Region, cx: &mut Caller, handle: u32) -> (res: Result<u32, Error>)
    requires
        old(r).wf(),
    ensures
        final(r).wf(),
        ({
            let (v, c) = sweep::auto_swept(old(r)@, old(cx)@.bumped(SIGNAL_OPS));
            event_sets(v, c, handle, final(r)@, final(cx)@, res)
        }),
        (Call::EventSet { handle, res }).made(old(r)@, old(cx)@, final(r)@, final(cx)@),
{
    bump(&mut cx.stats, SIGNAL_OPS);
    auto_sweep_dead(r, cx);
    let i = match typed_slot(r, handle, TYPE_EVENT) {
        Some(i) => i,
        None => return Err(Error::Invalid),
    };
    let mut s = r.slots[i];
    let prev = lo32(s.w0);
    if prev != 0 {
        return Ok(prev);
    }
    proof {
        word::lemma_join_halves(word::hi_of(s.w0), 1);
    }
    s.w0 = event_raised(s.w0);
    put_slot(r, i, s);
    wake_waiters_if_any(r, cx, i as u32);
    Ok(0)
}

/// Unsignals an event and gives its previous state.
pub fn event_reset(r: &mut Region, cx: &mut Caller, handle: u32) -> (res: Result<u32, Error>)
    requires
        old(r).wf(),
    ensures
        final(r).wf(),
        ({
            let (v, c) = sweep::auto_swept(old(r)@, old(cx)@.bumped(SIGNAL_OPS));
            event_resets(v, handle, final(r)@, res) && final(cx)@ == c
        }),
        (Call::EventReset { handle, res }).made(old(r)@, old(cx)@, final(r)@, final(cx)@),
{
    bump(&mut cx.stats, SIGNAL_OPS);
    auto_sweep_dead(r, cx);
    let i = match typed_slot(r, handle, TYPE_EVENT) {
        Some(i) => i,
        None => return Err(Error::Invalid),
    };
    let mut s = r.slots[i];
    let prev = lo32(s.w0);
    if prev == 0 {
        assert(r@ =~= r@.with_object(handle, r@.slots[i as int].object));
        return Ok(0);
    }
    proof {
        word::lemma_join_halves(word::hi_of(s.w0), 0);
    }
    s.w0 = event_cleared(s.w0);
    put_slot(r, i, s);
    Ok(prev)
}

/// Wakes all current waiters of an event, leaves it unsignaled, and gives its
/// previous state.
pub fn event_pulse(r: &mut Region, cx: &mut Caller, handle: u32) -> (res: Result<u32, Error>)
    requires
        old(r).wf(),
    ensures
        final(r).wf(),
        ({
            let (v, c) = sweep::auto_swept(old(r)@, old(cx)@);
            event_pulses(v, c, handle, final(r)@, final(cx)@, res)
        }),
        (Call::EventPulse { handle, res }).made(old(r)@, old(cx)@, final(r)@, final(cx)@),
{
    auto_sweep_dead(r, cx);
    let i = match typed_slot(r, handle, TYPE_EVENT) {
        Some(i) => i,
        None => return Err(Error::Invalid),
    };
    let mut s = r.slots[i];
    let prev = lo32(s.w0);
    proof {
        word::lemma_join_halves(word::hi_of(s.w0), 0);
    }
    s.d = s.d.wrapping_add(1);
    s.w0 = event_cleared(s.w0);
    put_slot(r, i, s);
    wake_object(r, cx, i as u32);
    Ok(prev)
}

/// Whether `owner` can own a mutex.
pub fn check_owner(owner: u32) -> (res: Result<(), Error>)
    ensures
        res == if owner != 0 {
            Ok::<(), Error>(())
        } else {
            Err(Error::Invalid)
        },
{
    if owner == 0 {
        return Err(Error::Invalid);
    }
    Ok(())
}

/// Unlocks a mutex held by `owner` and gives the previous recursion count.
pub fn mutex_unlock(r: &mut Region, cx: &mut Caller, handle: u32, owner: u32) -> (res: Result<
    u32,
    Error,
>)
    requires
        old(r).wf(),
    ensures
        final(r).wf(),
        owner == 0 ==> res == Err::<u32, Error>(Error::Invalid) && final(r)@ == old(r)@
            && final(cx)@ == old(cx)@.bumped(SIGNAL_OPS),
        owner != 0 ==> ({
            let (v, c) = sweep::auto_swept(old(r)@, old(cx)@.bumped(SIGNAL_OPS));
            mutex_unlocks(v, c, handle, owner, final(r)@, final(cx)@, res)
        }),
        (Call::MutexUnlock { handle, owner, res }).made(old(r)@, old(cx)@, final(r)@, final(cx)@),
{
    bump(&mut cx.stats, SIGNAL_OPS);
    if let Err(e) = check_owner(owner) {
        return Err(e);
    }
    auto_sweep_dead(r, cx);
    let i = match typed_slot(r, handle, TYPE_MUTEX) {
        Some(i) => i,
        None => return Err(Error::Invalid),
    };
    let mut s = r.slots[i];
    let cur_owner = lo32(s.w0);
    let hi = hi32(s.w0);
    let count = mutex_count(hi);
    let ownerdead = mutex_abandoned(hi);
    if cur_owner != owner {
        return Err(Error::Perm);
    }
    let freed = count == 1;
    let new_owner: u32 = if freed {
        0
    } else {
        owner
    };
    s.w0 = pack_mutex(new_owner, count - 1, ownerdead);
    proof {
        word::lemma_join_halves(word::mutex_hi((count - 1) as u32, ownerdead), new_owner);
        word::lemma_mutex_hi_fields((count - 1) as u32, ownerdead);
    }
    put_slot(r, i, s);
    if freed || count == MAX_RECURSION {
        wake_waiters_if_any(r, cx, i as u32);
    }
    Ok(count)
}

/// Marks a mutex held by `owner` abandoned and releases it.
pub fn mutex_kill(r: &mut Region, cx: &mut Caller, handle: u32, owner: u32) -> (res: Result<
    (),
    Error,
>)
    requires
        old(r).wf(),
    ensures
        final(r).wf(),
        owner == 0 ==> res == Err::<(), Error>(Error::Invalid) && final(r)@ == old(r)@
            && final(cx)@ == old(cx)@.bumped(SIGNAL_OPS),
        owner != 0 ==> mutex_kills(
            old(r)@,
            old(cx)@.bumped(SIGNAL_OPS),
            handle,
            owner,
            final(r)@,
            final(cx)@,
            res,
        ),
        (Call::MutexKill { handle, owner, done: res }).made(old(r)@, old(cx)@, final(r)@, final(cx)@),
{
    bump(&mut cx.stats, SIGNAL_OPS);
    if let Err(e) = check_owner(owner) {
        return Err(e);
    }
    let i = match typed_slot(r, handle, TYPE_MUTEX) {
        Some(i) => i,
        None => return Err(Error::Invalid),
    };
    let mut s = r.slots[i];
    if lo32(s.w0) != owner {
        return Err(Error::Perm);
    }
    s.w0 = pack_mutex(0, 0, true);
    proof {
        word::lemma_join_halves(word::mutex_hi(0, true), 0);
        word::lemma_mutex_hi_fields(0, true);
    }
    put_slot(r, i, s);
    wake_waiters_if_any(r, cx, i as u32);
    Ok(())
}

} // verus!
