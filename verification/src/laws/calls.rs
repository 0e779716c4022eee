//! What C callers get, in numbers.
use crate::caller::CallerView;
use crate::error::{Error, WaitOutcome};
use crate::ffi;
use crate::ffi::{
    ntsync_event_args, ntsync_mutex_args, ntsync_sem_args, ntsync_wait_args, WaitReply,
};
use crate::history::Call;
use crate::laws::effects;
use crate::laws::effects::{event_answer, release_answer, unlock_answer};
use crate::laws::plain::{alive, place, stays};
use crate::laws::table;
use crate::laws::table::refused;
use crate::laws::waiting;
use crate::laws::waiting::{interrupted, sensible, stands};
use crate::object::Object;
use crate::region::RegionView;
use crate::wait::StepView;
use vstd::prelude::*;

verus! {

/// The number that a caller gets for an answer.
pub open spec fn number(answer: Result<u32, Error>) -> int {
    match answer {
        Ok(_) => 0,
        Err(Error::Invalid) => -22,
        Err(Error::Perm) => -1,
        Err(Error::Overflow) => -75,
        Err(Error::Init(n)) => -n,
    }
}

/// What stands in a place where an answer is stored, and `before` stood before.
pub open spec fn kept_or_stored(answer: Result<u32, Error>, before: u32) -> u32 {
    match answer {
        Ok(x) => x,
        Err(_) => before,
    }
}

/// Without arguments, or a place for the handle, nothing is created. Else the object is
/// the one that the arguments describe; its handle is stored exactly if it was created.
pub proof fn law_create_call(
    v: RegionView,
    c: CallerView,
    sem: Option<ntsync_sem_args>,
    mutex: Option<ntsync_mutex_args>,
    event: ntsync_event_args,
    object: Option<Object>,
    out: Option<u32>,
    v2: RegionView,
    c2: CallerView,
    out2: Option<u32>,
    ret: i32,
)
    requires
        v.inv(),
        ffi::create_call(v, c, object, out, v2, c2, out2, ret),
    ensures
        object is None || out is None ==> ret == -14 && v2 == v && c2 == c && out2 == out,
        object is Some && out is Some ==> exists|res: Result<u32, Error>|
            {
                &&& #[trigger] (Call::Create { object: object->0, res }).made(v, c, v2, c2)
                &&& ret == number(res)
                &&& out2 == Some(kept_or_stored(res, out->0))
            },
        object is Some && out is Some ==> {
            &&& ret == -22 <==> refused(object->0)
            &&& ret == 0 || ret == -22 || ret == -12
            &&& ret == 0 ==> v2.slots[place(out2->0)].object == object->0
                && v2.slots[place(out2->0)].used && v2.slots[place(out2->0)].pid == c.pid
        },
        ffi::sem_asked(sem) == match sem {
            Some(a) => Some(Object::Semaphore { count: a.count, max: a.max }),
            None => None,
        },
        ffi::mutex_asked(mutex) == match mutex {
            Some(a) => Some(Object::Mutex { owner: a.owner, count: a.count, abandoned: false }),
            None => None,
        },
        ffi::event_asked(event) == (Object::Event {
            manual: event.manual > 0,
            signaled: event.signaled > 0,
        }),
{
    if object is Some && out is Some {
        let res = choose|res: Result<u32, Error>|
            {
                &&& #[trigger] (Call::Create { object: object->0, res }).made(v, c, v2, c2)
                &&& out2 matches Some(o2) && ffi::stored(res, out->0, o2, ret)
            };
        table::law_create_takes_first_free_slot(v, c, object->0, v2, c2, res);
        assert((Call::Create { object: object->0, res }).made(v, c, v2, c2) && ret == number(res)
            && out2 == Some(kept_or_stored(res, out->0)));
    }
}

/// Closing gives 0 exactly on the handle of an object that exists.
pub proof fn law_close_call(
    v: RegionView,
    c: CallerView,
    handle: u32,
    v2: RegionView,
    c2: CallerView,
    ret: i32,
)
    requires
        v.inv(),
        c.stats.len() == 13,
        ffi::close_call(v, c, handle, v2, c2, ret),
    ensures
        (Call::Close { handle, ok: ret == 0 }).made(v, c, v2, c2),
        ret == if place(handle) != 0 && alive(v, handle) {
            0int
        } else {
            -22
        },
{
    let ok = choose|ok: bool|
        {
            &&& #[trigger] (Call::Close { handle, ok }).made(v, c, v2, c2)
            &&& ret == if ok {
                0
            } else {
                -22
            }
        };
    table::law_close_frees_one_slot(v, c, handle, v2, c2, ok);
}

/// Releasing adds what stands in the caller's place, which then holds the previous
/// count; it is left alone on an error.
pub proof fn law_release_call(
    v: RegionView,
    c: CallerView,
    handle: u32,
    n: Option<u32>,
    v2: RegionView,
    c2: CallerView,
    n2: Option<u32>,
    ret: i32,
)
    requires
        v.inv(),
        c.stats.len() == 13,
        ffi::release_call(v, c, handle, n, v2, c2, n2, ret),
    ensures
        n is None ==> ret == -14 && v2 == v && c2 == c && n2 is None,
        n is Some ==> {
            let answer = release_answer(stays(v, c, handle), v.slots[place(handle)], n->0);
            &&& (Call::SemRelease { handle, n: n->0, res: answer }).made(v, c, v2, c2)
            &&& ret == number(answer)
            &&& n2 == Some(kept_or_stored(answer, n->0))
        },
{
    if let Some(x) = n {
        let res = choose|res: Result<u32, Error>|
            {
                &&& #[trigger] (Call::SemRelease { handle, n: x, res }).made(v, c, v2, c2)
                &&& n2 matches Some(y) && ffi::stored(res, x, y, ret)
            };
        effects::law_signal_calls_answer(Call::SemRelease { handle, n: x, res }, v, c, v2, c2);
    }
}

/// Unlocking is for the owner in the arguments; their count then holds the previous
/// recursion count. It is left alone on an error, and the owner always.
pub proof fn law_unlock_call(
    v: RegionView,
    c: CallerView,
    handle: u32,
    args: Option<ntsync_mutex_args>,
    v2: RegionView,
    c2: CallerView,
    args2: Option<ntsync_mutex_args>,
    ret: i32,
)
    requires
        v.inv(),
        c.stats.len() == 13,
        ffi::unlock_call(v, c, handle, args, v2, c2, args2, ret),
    ensures
        args is None ==> ret == -14 && v2 == v && c2 == c && args2 is None,
        args is Some ==> {
            let a = args->0;
            let answer = unlock_answer(stays(v, c, handle), v.slots[place(handle)], a.owner);
            &&& (Call::MutexUnlock { handle, owner: a.owner, res: answer }).made(v, c, v2, c2)
            &&& ret == number(answer)
            &&& args2 == Some(
                ntsync_mutex_args { owner: a.owner, count: kept_or_stored(answer, a.count) },
            )
        },
{
    if let Some(a) = args {
        let res = choose|res: Result<u32, Error>|
            {
                &&& #[trigger] (Call::MutexUnlock { handle, owner: a.owner, res }).made(
                    v,
                    c,
                    v2,
                    c2,
                )
                &&& args2 matches Some(b) && b.owner == a.owner && ffi::stored(
                    res,
                    a.count,
                    b.count,
                    ret,
                )
            };
        effects::law_signal_calls_answer(
            Call::MutexUnlock { handle, owner: a.owner, res },
            v,
            c,
            v2,
            c2,
        );
    }
}

/// Abandoning a mutex gives 0 exactly to its owner.
pub proof fn law_kill_call(
    v: RegionView,
    c: CallerView,
    handle: u32,
    owner: u32,
    v2: RegionView,
    c2: CallerView,
    ret: i32,
)
    requires
        v.inv(),
        c.stats.len() == 13,
        ffi::kill_call(v, c, handle, owner, v2, c2, ret),
    ensures
        ret == number(unlock_answer(alive(v, handle), v.slots[place(handle)], owner)),
        ret == 0 ==> (Call::MutexKill { handle, owner, done: Ok(()) }).made(v, c, v2, c2),
        ret != 0 ==> v2 == v,
{
    let done = choose|done: Result<(), Error>|
        {
            &&& #[trigger] (Call::MutexKill { handle, owner, done }).made(v, c, v2, c2)
            &&& ret == ffi::status(done)
        };
    effects::law_signal_calls_answer(Call::MutexKill { handle, owner, done }, v, c, v2, c2);
}

/// Setting, resetting and pulsing an event give 0 exactly on an event that exists, and
/// store its previous state if there is a place for it, which is left alone on an error.
pub proof fn law_event_calls(
    v: RegionView,
    c: CallerView,
    handle: u32,
    prev: Option<u32>,
    v2: RegionView,
    c2: CallerView,
    prev2: Option<u32>,
    ret: i32,
)
    requires
        v.inv(),
        c.stats.len() == 13,
    ensures
        ({
            let answer = event_answer(stays(v, c, handle), v.slots[place(handle)]);
            let told = ret == number(answer) && prev2 == match prev {
                Some(p) => Some(kept_or_stored(answer, p)),
                None => None,
            };
            &&& ffi::set_call(v, c, handle, prev, v2, c2, prev2, ret) ==> told && (Call::EventSet {
                handle,
                res: answer,
            }).made(v, c, v2, c2)
            &&& ffi::reset_call(v, c, handle, prev, v2, c2, prev2, ret) ==> told && (
            Call::EventReset { handle, res: answer }).made(v, c, v2, c2)
            &&& ffi::pulse_call(v, c, handle, prev, v2, c2, prev2, ret) ==> told && (
            Call::EventPulse { handle, res: answer }).made(v, c, v2, c2)
        }),
{
    if ffi::set_call(v, c, handle, prev, v2, c2, prev2, ret) {
        let res = choose|res: Result<u32, Error>|
            {
                &&& #[trigger] (Call::EventSet { handle, res }).made(v, c, v2, c2)
                &&& ffi::event_reply(res, prev, prev2, ret)
            };
        effects::law_signal_calls_answer(Call::EventSet { handle, res }, v, c, v2, c2);
    }
    if ffi::reset_call(v, c, handle, prev, v2, c2, prev2, ret) {
        let res = choose|res: Result<u32, Error>|
            {
                &&& #[trigger] (Call::EventReset { handle, res }).made(v, c, v2, c2)
                &&& ffi::event_reply(res, prev, prev2, ret)
            };
        effects::law_signal_calls_answer(Call::EventReset { handle, res }, v, c, v2, c2);
    }
    if ffi::pulse_call(v, c, handle, prev, v2, c2, prev2, ret) {
        let res = choose|res: Result<u32, Error>|
            {
                &&& #[trigger] (Call::EventPulse { handle, res }).made(v, c, v2, c2)
                &&& ffi::event_reply(res, prev, prev2, ret)
            };
        effects::law_signal_calls_answer(Call::EventPulse { handle, res }, v, c, v2, c2);
    }
}

/// Reading gives what the object's slot holds, if the handle leads to an object of the
/// kind that is read. An abandoned mutex is read, and reported by its number.
pub proof fn law_read_calls(
    v: RegionView,
    handle: u32,
    sem: Option<ntsync_sem_args>,
    sem2: Option<ntsync_sem_args>,
    mutex: Option<ntsync_mutex_args>,
    mutex2: Option<ntsync_mutex_args>,
    event: Option<ntsync_event_args>,
    event2: Option<ntsync_event_args>,
    ret: i32,
)
    ensures
        ffi::sem_read_call(v, handle, sem, sem2, ret) ==> if sem is None {
            ret == -14 && sem2 is None
        } else if alive(v, handle) && v.slots[place(handle)].object is Semaphore {
            &&& ret == 0
            &&& v.slots[place(handle)].object == (Object::Semaphore {
                count: sem2->0.count,
                max: sem2->0.max,
            })
            &&& sem2 is Some
        } else {
            ret == -22 && sem2 == sem
        },
        ffi::mutex_read_call(v, handle, mutex, mutex2, ret) ==> if mutex is None {
            ret == -14 && mutex2 is None
        } else if alive(v, handle) && v.slots[place(handle)].object is Mutex {
            &&& v.slots[place(handle)].object == (Object::Mutex {
                owner: mutex2->0.owner,
                count: mutex2->0.count,
                abandoned: ret == -130,
            })
            &&& ret == 0 || ret == -130
            &&& mutex2 is Some
        } else {
            ret == -22 && mutex2 == mutex
        },
        ffi::event_read_call(v, handle, event, event2, ret) ==> if event is None {
            ret == -14 && event2 is None
        } else if alive(v, handle) && v.slots[place(handle)].object is Event {
            &&& ret == 0
            &&& v.slots[place(handle)].object == (Object::Event {
                manual: event2->0.manual == 1,
                signaled: event2->0.signaled == 1,
            })
            &&& event2 is Some
            &&& event2->0.manual <= 1
            &&& event2->0.signaled <= 1
        } else {
            ret == -22 && event2 == event
        },
{
    table::law_read_gives_state(v, handle);
}

/// What the arguments of a wait are refused for.
pub open spec fn faulty(args: Option<ntsync_wait_args>) -> int {
    match args {
        None => -14,
        Some(a) => if a.count < 1 || a.count > 64 {
            -22
        } else if a.objs == 0 {
            -14
        } else {
            0
        },
    }
}

/// The time that a wait may take: none if its deadline has passed, and any if it has
/// none.
pub open spec fn allowed(timeout: u64, now: u64) -> Option<u128> {
    if timeout == 0xffff_ffff_ffff_ffff {
        None
    } else if now < timeout {
        Some((timeout - now) as u128)
    } else {
        Some(0)
    }
}

/// Arguments with another index.
pub open spec fn pointing_at(a: ntsync_wait_args, index: u32) -> ntsync_wait_args {
    ntsync_wait_args {
        timeout: a.timeout,
        objs: a.objs,
        count: a.count,
        index,
        flags: a.flags,
        owner: a.owner,
        alert: a.alert,
        pad: a.pad,
    }
}

/// The caller of a wait whose last step was `step` gets `reply`, and finds `after` where
/// there was `before`: 0, or -130 for an abandoned mutex, and the index of what has
/// satisfied the wait; -110 when the time is up; -22 when the wait has failed. The index
/// is left alone unless the wait was satisfied, and nothing else changes.
pub open spec fn answers(
    step: StepView,
    before: ntsync_wait_args,
    after: ntsync_wait_args,
    reply: WaitReply,
) -> bool {
    match step {
        StepView::Done(WaitOutcome::Signaled { index, owner_dead }) => {
            &&& reply matches WaitReply::Done(ret) && ret == (if owner_dead {
                -130int
            } else {
                0
            })
            &&& after == pointing_at(before, index)
        },
        StepView::Done(WaitOutcome::Timeout) => {
            &&& reply matches WaitReply::Done(ret) && ret == -110
            &&& after == before
        },
        StepView::Done(WaitOutcome::Invalid) => {
            &&& reply matches WaitReply::Done(ret) && ret == -22
            &&& after == before
        },
        StepView::Sleep(w) => {
            &&& reply matches WaitReply::Sleep(x) && x@ == w
            &&& after == before
        },
    }
}

/// A wait, for any object or for all, is started as its arguments say: with their owner,
/// their alert and the time up to their deadline. The caller gets 0 or, for an abandoned
/// mutex, -130, and the index of what has satisfied the wait; -110 when the time is up;
/// and -22 when it fails. The index is left alone unless the wait was satisfied, and
/// nothing else in the arguments changes.
pub proof fn law_wait_call(
    v: RegionView,
    c: CallerView,
    args: Option<ntsync_wait_args>,
    handles: Seq<u32>,
    now: u64,
    all: bool,
    v2: RegionView,
    c2: CallerView,
    args2: Option<ntsync_wait_args>,
    reply: WaitReply,
)
    requires
        ffi::wait_call(v, c, args, handles, now, all, v2, c2, args2, reply),
    ensures
        faulty(args) != 0 ==> reply == WaitReply::Done(faulty(args) as i32) && v2 == v && c2 == c
            && args2 == args,
        faulty(args) == 0 ==> exists|step: StepView|
            {
                &&& #[trigger] (Call::Wait {
                    handles,
                    owner: args->0.owner,
                    timeout: allowed(args->0.timeout, now),
                    all,
                    alert: args->0.alert,
                    step,
                }).made(v, c, v2, c2)
                &&& args2 matches Some(b) && answers(step, args->0, b, reply)
            },
{
    if faulty(args) == 0 {
        let a = args->0;
        let (m, mc, step) = crate::wait::started(
            v,
            c,
            handles,
            a.owner,
            allowed(a.timeout, now),
            all,
            a.alert,
        );
        assert(ffi::time_left(a.timeout, now) == allowed(a.timeout, now));
        assert((Call::Wait {
            handles,
            owner: a.owner,
            timeout: allowed(a.timeout, now),
            all,
            alert: a.alert,
            step,
        }).made(v, c, v2, c2));
    }
}

/// A wait for any object or for all is interrupted by its alert: if the arguments are in
/// order, all handles name objects and the alert is a signaled event, the caller gets 0
/// and an index just past the objects, and no object changes. A wait that sleeps is on
/// the handles, for the owner and with the alert that were given.
pub proof fn law_alert_interrupts_wait_call(
    v: RegionView,
    c: CallerView,
    a: ntsync_wait_args,
    handles: Seq<u32>,
    now: u64,
    all: bool,
    v2: RegionView,
    c2: CallerView,
    b: ntsync_wait_args,
    reply: WaitReply,
)
    requires
        v.inv(),
        c.stats.len() == 13,
        ffi::wait_call(v, c, Some(a), handles, now, all, v2, c2, Some(b), reply),
        1 <= a.count <= 64,
        a.objs != 0,
    ensures
        sensible(handles, a.owner) && stands(v, handles, a.alert) && interrupted(v, a.alert) ==> {
            &&& reply == WaitReply::Done(0)
            &&& b.index == handles.len()
            &&& v2 == v
        },
        reply matches WaitReply::Sleep(w) ==> {
            &&& w.handles@ == handles
            &&& w.owner == a.owner
            &&& w.alert == a.alert
            &&& w.all == all
            &&& !interrupted(v, a.alert)
            &&& v2.slots == v.slots
        },
{
    law_wait_call(v, c, Some(a), handles, now, all, v2, c2, Some(b), reply);
    let step = choose|step: StepView|
        {
            &&& #[trigger] (Call::Wait {
                handles,
                owner: a.owner,
                timeout: allowed(a.timeout, now),
                all,
                alert: a.alert,
                step,
            }).made(v, c, v2, c2)
            &&& answers(step, a, b, reply)
        };
    waiting::law_wait_starts(
        v,
        c,
        handles,
        a.owner,
        allowed(a.timeout, now),
        all,
        a.alert,
        v2,
        c2,
        step,
    );
}

/// A wait that is over answers as its last step says, whichever step that was.
pub proof fn law_followed_wait_answers(
    step: StepView,
    before: ntsync_wait_args,
    after: ntsync_wait_args,
    reply: WaitReply,
)
    requires
        ffi::follows(step, before, after, reply),
    ensures
        answers(step, before, after, reply),
{
}

} // verus!
