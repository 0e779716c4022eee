//! The operations as C callers see them, in the manner of the ioctls on
//! `/dev/ntsync`: each gives 0 on success or a negative error number, and a
//! pointer that may be null is an `Option`.
use crate::caller::{Caller, CallerView};
use crate::errno::{
    os_clock_monotonic, os_clock_realtime, CLOCK_MONOTONIC, CLOCK_REALTIME, EFAULT, EINVAL,
    EOVERFLOW, EOWNERDEAD, EPERM, ETIMEDOUT,
};
use crate::error::{Error, WaitOutcome};
use crate::history::Call;
use crate::object::Object;
use crate::objects;
use crate::objects::{
    close, create_event, create_mutex, create_semaphore, read_event, read_mutex, read_sem,
};
use crate::region::{Region, RegionView};
use crate::signal;
use crate::signal::{event_pulse, event_reset, event_set, mutex_kill, mutex_unlock, sem_release};
use crate::stats::SIGNAL_OPS;
use crate::sweep;
use crate::sweep::sweep_dead;
use crate::wait;
use crate::wait::{wait_all, wait_any, StepView, WaitStep, Waiter};
use crate::word;
use crate::word::MAX_RECURSION;
use vstd::prelude::*;

verus! {

/// The timeout of a wait counts on the realtime clock.
pub const NTSYNC_WAIT_REALTIME: u32 = 1;

/// Most objects that one wait can name.
pub const NTSYNC_MAX_WAIT_COUNT: u32 = 64;

/// State of a semaphore.
#[allow(non_camel_case_types)]
pub struct ntsync_sem_args {
    pub count: u32,
    pub max: u32,
}

/// State of a mutex.
#[allow(non_camel_case_types)]
pub struct ntsync_mutex_args {
    pub owner: u32,
    pub count: u32,
}

/// State of an event.
#[allow(non_camel_case_types)]
pub struct ntsync_event_args {
    pub manual: u32,
    pub signaled: u32,
}

/// A wait.
#[allow(non_camel_case_types)]
pub struct ntsync_wait_args {
    /// Absolute timeout in nanoseconds, on the monotonic clock or on the realtime
    /// clock if `NTSYNC_WAIT_REALTIME` is set; the largest number is forever.
    pub timeout: u64,
    /// Address of an array of `count` handles.
    pub objs: u64,
    pub count: u32,
    /// Receives the index of the object that satisfied the wait.
    pub index: u32,
    pub flags: u32,
    /// Owner by which mutexes are acquired.
    pub owner: u32,
    /// Event that interrupts the wait; 0 if there is none.
    pub alert: u32,
    pub pad: u32,
}

/// The number that stands for an error.
pub open spec fn errno_of(e: Error) -> int {
    match e {
        Error::Invalid => -EINVAL,
        Error::Perm => -EPERM,
        Error::Overflow => -EOVERFLOW,
        Error::Init(n) => -n,
    }
}

/// The number that stands for an error.
pub fn errno(e: Error) -> (n: i32)
    requires
        e matches Error::Init(n) ==> n > i32::MIN,
    ensures
        n == errno_of(e),
{
    match e {
        Error::Invalid => -EINVAL,
        Error::Perm => -EPERM,
        Error::Overflow => -EOVERFLOW,
        Error::Init(n) => -n,
    }
}

/// Every error is reported as a negative number: the error numbers of the
/// operating system are positive.
pub proof fn law_errors_are_negative(e: Error)
    requires
        e matches Error::Init(n) ==> n > 0,
    ensures
        errno_of(e) < 0,
{
}

/// What the caller of an operation that only succeeds or fails gets.
pub open spec fn status(q: Result<(), Error>) -> int {
    match q {
        Ok(_) => 0,
        Err(e) => errno_of(e),
    }
}

/// Status of an operation that only succeeds or fails.
pub fn reply(q: Result<(), Error>) -> (ret: i32)
    requires
        q matches Err(Error::Init(n)) ==> n > i32::MIN,
    ensures
        ret == status(q),
{
    match q {
        Ok(()) => 0,
        Err(e) => errno(e),
    }
}

/// What the caller of an operation with a result gets: 0, and the result stored
/// in place of `before`; or an error, and nothing stored.
pub open spec fn stored(q: Result<u32, Error>, before: u32, after: u32, ret: i32) -> bool {
    match q {
        Ok(x) => ret == 0 && after == x,
        Err(e) => ret == errno_of(e) && after == before,
    }
}

/// The value that a pointer leads to, if it leads anywhere.
pub open spec fn pointed<T>(p: Option<&T>) -> Option<T> {
    match p {
        Some(x) => Some(*x),
        None => None,
    }
}

/// The semaphore that arguments describe.
pub open spec fn sem_asked(args: Option<ntsync_sem_args>) -> Option<Object> {
    match args {
        Some(a) => Some(Object::Semaphore { count: a.count, max: a.max }),
        None => None,
    }
}

/// The mutex that arguments describe.
pub open spec fn mutex_asked(args: Option<ntsync_mutex_args>) -> Option<Object> {
    match args {
        Some(a) => Some(Object::Mutex { owner: a.owner, count: a.count, abandoned: false }),
        None => None,
    }
}

/// What a call comes to that creates `object` and stores the handle in place of `out`.
pub open spec fn create_call(
    v: RegionView,
    c: CallerView,
    object: Option<Object>,
    out: Option<u32>,
    v2: RegionView,
    c2: CallerView,
    out2: Option<u32>,
    ret: i32,
) -> bool {
    match (object, out) {
        (Some(object), Some(o)) => exists|res: Result<u32, Error>|
            {
                &&& #[trigger] (Call::Create { object, res }).made(v, c, v2, c2)
                &&& out2 matches Some(o2) && stored(res, o, o2, ret)
            },
        _ => ret == -EFAULT && v2 == v && c2 == c && out2 == out,
    }
}

/// What a call comes to that closes an object.
pub open spec fn close_call(
    v: RegionView,
    c: CallerView,
    handle: u32,
    v2: RegionView,
    c2: CallerView,
    ret: i32,
) -> bool {
    exists|ok: bool|
        {
            &&& #[trigger] (Call::Close { handle, ok }).made(v, c, v2, c2)
            &&& ret == if ok {
                0
            } else {
                -EINVAL
            }
        }
}

/// What a call comes to that releases what stands in place of `n`, and stores the
/// previous count there.
pub open spec fn release_call(
    v: RegionView,
    c: CallerView,
    handle: u32,
    n: Option<u32>,
    v2: RegionView,
    c2: CallerView,
    n2: Option<u32>,
    ret: i32,
) -> bool {
    match n {
        Some(n) => exists|res: Result<u32, Error>|
            {
                &&& #[trigger] (Call::SemRelease { handle, n, res }).made(v, c, v2, c2)
                &&& n2 matches Some(x) && stored(res, n, x, ret)
            },
        None => ret == -EFAULT && v2 == v && c2 == c && n2 is None,
    }
}

/// What a call comes to that unlocks a mutex for the owner in the arguments, and stores
/// the previous recursion count there.
pub open spec fn unlock_call(
    v: RegionView,
    c: CallerView,
    handle: u32,
    args: Option<ntsync_mutex_args>,
    v2: RegionView,
    c2: CallerView,
    args2: Option<ntsync_mutex_args>,
    ret: i32,
) -> bool {
    match args {
        Some(a) => exists|res: Result<u32, Error>|
            {
                &&& #[trigger] (Call::MutexUnlock { handle, owner: a.owner, res }).made(
                    v,
                    c,
                    v2,
                    c2,
                )
                &&& args2 matches Some(b) && b.owner == a.owner && stored(
                    res,
                    a.count,
                    b.count,
                    ret,
                )
            },
        None => ret == -EFAULT && v2 == v && c2 == c && args2 is None,
    }
}

/// What a call comes to that abandons a mutex.
pub open spec fn kill_call(
    v: RegionView,
    c: CallerView,
    handle: u32,
    owner: u32,
    v2: RegionView,
    c2: CallerView,
    ret: i32,
) -> bool {
    exists|done: Result<(), Error>|
        {
            &&& #[trigger] (Call::MutexKill { handle, owner, done }).made(v, c, v2, c2)
            &&& ret == status(done)
        }
}

/// What a call comes to that answers `res` about an event, and stores the previous state
/// in place of `prev`, if that is anywhere.
pub open spec fn event_reply(
    res: Result<u32, Error>,
    prev: Option<u32>,
    prev2: Option<u32>,
    ret: i32,
) -> bool {
    &&& told(res, ret)
    &&& match prev {
        Some(p) => prev2 matches Some(p2) && stored(res, p, p2, ret),
        None => prev2 is None,
    }
}

/// What a call comes to that sets an event.
pub open spec fn set_call(
    v: RegionView,
    c: CallerView,
    handle: u32,
    prev: Option<u32>,
    v2: RegionView,
    c2: CallerView,
    prev2: Option<u32>,
    ret: i32,
) -> bool {
    exists|res: Result<u32, Error>|
        {
            &&& #[trigger] (Call::EventSet { handle, res }).made(v, c, v2, c2)
            &&& event_reply(res, prev, prev2, ret)
        }
}

/// What a call comes to that resets an event.
pub open spec fn reset_call(
    v: RegionView,
    c: CallerView,
    handle: u32,
    prev: Option<u32>,
    v2: RegionView,
    c2: CallerView,
    prev2: Option<u32>,
    ret: i32,
) -> bool {
    exists|res: Result<u32, Error>|
        {
            &&& #[trigger] (Call::EventReset { handle, res }).made(v, c, v2, c2)
            &&& event_reply(res, prev, prev2, ret)
        }
}

/// What a call comes to that pulses an event.
pub open spec fn pulse_call(
    v: RegionView,
    c: CallerView,
    handle: u32,
    prev: Option<u32>,
    v2: RegionView,
    c2: CallerView,
    prev2: Option<u32>,
    ret: i32,
) -> bool {
    exists|res: Result<u32, Error>|
        {
            &&& #[trigger] (Call::EventPulse { handle, res }).made(v, c, v2, c2)
            &&& event_reply(res, prev, prev2, ret)
        }
}

/// What a call comes to that reads a semaphore into the arguments.
pub open spec fn sem_read_call(
    v: RegionView,
    handle: u32,
    args: Option<ntsync_sem_args>,
    args2: Option<ntsync_sem_args>,
    ret: i32,
) -> bool {
    match (args, objects::sem_state(v, handle)) {
        (None, _) => ret == -EFAULT && args2 is None,
        (Some(_), Ok((count, max))) => ret == 0 && args2 == Some(ntsync_sem_args { count, max }),
        (Some(_), Err(e)) => ret == errno_of(e) && args2 == args,
    }
}

/// What a call comes to that reads a mutex into the arguments.
pub open spec fn mutex_read_call(
    v: RegionView,
    handle: u32,
    args: Option<ntsync_mutex_args>,
    args2: Option<ntsync_mutex_args>,
    ret: i32,
) -> bool {
    match (args, objects::mutex_state(v, handle)) {
        (None, _) => ret == -EFAULT && args2 is None,
        (Some(_), Ok((count, owner, abandoned))) => {
            &&& ret == if abandoned {
                -EOWNERDEAD
            } else {
                0
            }
            &&& args2 == Some(ntsync_mutex_args { owner, count })
        },
        (Some(_), Err(e)) => ret == errno_of(e) && args2 == args,
    }
}

/// What a call comes to that reads an event into the arguments.
pub open spec fn event_read_call(
    v: RegionView,
    handle: u32,
    args: Option<ntsync_event_args>,
    args2: Option<ntsync_event_args>,
    ret: i32,
) -> bool {
    match (args, objects::event_state(v, handle)) {
        (None, _) => ret == -EFAULT && args2 is None,
        (Some(_), Ok((manual, signaled))) => {
            &&& ret == 0
            &&& args2 matches Some(a) && a.manual == (if manual {
                1int
            } else {
                0
            }) && a.signaled == (if signaled {
                1int
            } else {
                0
            })
        },
        (Some(_), Err(e)) => ret == errno_of(e) && args2 == args,
    }
}

/// What a call comes to that starts a wait.
pub open spec fn wait_call(
    v: RegionView,
    c: CallerView,
    args: Option<ntsync_wait_args>,
    handles: Seq<u32>,
    now: u64,
    all: bool,
    v2: RegionView,
    c2: CallerView,
    args2: Option<ntsync_wait_args>,
    reply: WaitReply,
) -> bool {
    match args {
        None => reply == WaitReply::Done((-EFAULT) as i32) && v2 == v && c2 == c && args2 is None,
        Some(a) => match wait_fault(Some(&a)) {
            Some(e) => reply == WaitReply::Done(e) && v2 == v && c2 == c && args2 == args,
            None => args2 matches Some(b) && waits(
                v,
                c,
                a,
                handles,
                now,
                all,
                v2,
                c2,
                b,
                reply,
            ),
        },
    }
}

/// Creates a semaphore and stores its handle.
pub fn ntsync_create_sem(
    r: &mut Region,
    cx: &mut Caller,
    out: Option<&mut u32>,
    args: Option<&ntsync_sem_args>,
) -> (ret: i32)
    requires
        old(r).wf(),
    ensures
        final(r).wf(),
        match (out, args) {
            (Some(o), Some(a)) => if a.count > a.max {
                &&& ret == -EINVAL
                &&& *final(o) == *o
                &&& final(r)@ == old(r)@
                &&& final(cx)@ == old(cx)@
            } else {
                exists|q: Result<u32, Error>|
                    {
                        &&& #[trigger] objects::creates(
                            old(r)@,
                            old(cx)@,
                            Object::Semaphore { count: a.count, max: a.max },
                            final(r)@,
                            final(cx)@,
                            q,
                        )
                        &&& stored(q, *o, *final(o), ret)
                    }
            },
            (Some(o), None) => {
                &&& ret == -EFAULT
                &&& *final(o) == *o
                &&& final(r)@ == old(r)@
                &&& final(cx)@ == old(cx)@
            },
            _ => {
                &&& ret == -EFAULT
                &&& final(r)@ == old(r)@
                &&& final(cx)@ == old(cx)@
            },
        },
        create_call(
            old(r)@,
            old(cx)@,
            sem_asked(pointed(args)),
            match out {
                Some(x) => Some(*x),
                None => None,
            },
            final(r)@,
            final(cx)@,
            match out {
                Some(x) => Some(*final(x)),
                None => None,
            },
            ret,
        ),
{
    match (out, args) {
        (Some(out), Some(args)) => match create_semaphore(r, cx, args.count, args.max) {
            Ok(h) => {
                *out = h;
                0
            },
            Err(e) => errno(e),
        },
        _ => -EFAULT,
    }
}

/// Creates a mutex and stores its handle.
pub fn ntsync_create_mutex(
    r: &mut Region,
    cx: &mut Caller,
    out: Option<&mut u32>,
    args: Option<&ntsync_mutex_args>,
) -> (ret: i32)
    requires
        old(r).wf(),
    ensures
        final(r).wf(),
        match (out, args) {
            (Some(o), Some(a)) => if (a.owner == 0) != (a.count == 0) || a.count > MAX_RECURSION {
                &&& ret == -EINVAL
                &&& *final(o) == *o
                &&& final(r)@ == old(r)@
                &&& final(cx)@ == old(cx)@
            } else {
                exists|q: Result<u32, Error>|
                    {
                        &&& #[trigger] objects::creates(
                            old(r)@,
                            old(cx)@,
                            Object::Mutex { owner: a.owner, count: a.count, abandoned: false },
                            final(r)@,
                            final(cx)@,
                            q,
                        )
                        &&& stored(q, *o, *final(o), ret)
                    }
            },
            (Some(o), None) => {
                &&& ret == -EFAULT
                &&& *final(o) == *o
                &&& final(r)@ == old(r)@
                &&& final(cx)@ == old(cx)@
            },
            _ => {
                &&& ret == -EFAULT
                &&& final(r)@ == old(r)@
                &&& final(cx)@ == old(cx)@
            },
        },
        create_call(
            old(r)@,
            old(cx)@,
            mutex_asked(pointed(args)),
            match out {
                Some(x) => Some(*x),
                None => None,
            },
            final(r)@,
            final(cx)@,
            match out {
                Some(x) => Some(*final(x)),
                None => None,
            },
            ret,
        ),
{
    match (out, args) {
        (Some(out), Some(args)) => match create_mutex(r, cx, args.owner, args.count) {
            Ok(h) => {
                *out = h;
                0
            },
            Err(e) => errno(e),
        },
        _ => -EFAULT,
    }
}

/// The event that arguments describe.
pub open spec fn event_asked(a: ntsync_event_args) -> Object {
    Object::Event { manual: a.manual != 0, signaled: a.signaled != 0 }
}

/// Creates an event and stores its handle.
pub fn ntsync_create_event(
    r: &mut Region,
    cx: &mut Caller,
    out: Option<&mut u32>,
    args: Option<&ntsync_event_args>,
) -> (ret: i32)
    requires
        old(r).wf(),
    ensures
        final(r).wf(),
        match (out, args) {
            (Some(o), Some(a)) => {
                exists|q: Result<u32, Error>|
                    {
                        &&& #[trigger] objects::creates(
                            old(r)@,
                            old(cx)@,
                            event_asked(*a),
                            final(r)@,
                            final(cx)@,
                            q,
                        )
                        &&& stored(q, *o, *final(o), ret)
                    }
            },
            (Some(o), None) => {
                &&& ret == -EFAULT
                &&& *final(o) == *o
                &&& final(r)@ == old(r)@
                &&& final(cx)@ == old(cx)@
            },
            _ => {
                &&& ret == -EFAULT
                &&& final(r)@ == old(r)@
                &&& final(cx)@ == old(cx)@
            },
        },
        create_call(
            old(r)@,
            old(cx)@,
            match args {
                Some(a) => Some(event_asked(*a)),
                None => None,
            },
            match out {
                Some(x) => Some(*x),
                None => None,
            },
            final(r)@,
            final(cx)@,
            match out {
                Some(x) => Some(*final(x)),
                None => None,
            },
            ret,
        ),
{
    match (out, args) {
        (Some(out), Some(args)) => match create_event(r, cx, args.manual != 0, args.signaled != 0) {
            Ok(h) => {
                *out = h;
                0
            },
            Err(e) => errno(e),
        },
        _ => -EFAULT,
    }
}

/// Closes an object.
pub fn ntsync_close(r: &mut Region, cx: &mut Caller, handle: u32) -> (ret: i32)
    requires
        old(r).wf(),
    ensures
        final(r).wf(),
        if word::index_of(handle) != 0 && old(r)@.lookup(handle) is Some {
            &&& ret == 0
            &&& (final(r)@, final(cx)@) == sweep::closed(
                old(r)@,
                old(cx)@,
                word::index_of(handle),
            )
        } else {
            &&& ret == -EINVAL
            &&& final(r)@ == old(r)@
            &&& final(cx)@ == old(cx)@
        },
        close_call(old(r)@, old(cx)@, handle, final(r)@, final(cx)@, ret),
{
    if close(r, cx, handle) {
        0
    } else {
        -EINVAL
    }
}

/// Frees the objects of processes that are gone. Gives the number of objects
/// freed.
pub fn ntsync_sweep_dead(r: &mut Region, cx: &mut Caller) -> (ret: i32)
    requires
        old(r).wf(),
    ensures
        final(r).wf(),
        ret >= 0,
        (final(r)@, final(cx)@, ret as nat) == sweep::swept(old(r)@, old(cx)@),
        (Call::Sweep { freed: ret as nat }).made(old(r)@, old(cx)@, final(r)@, final(cx)@),
{
    match sweep_dead(r, cx) {
        Ok(n) => n as i32,
        Err(e) => errno(e),
    }
}

/// Releases `*count` from a semaphore and stores the previous count there.
pub fn ntsync_sem_release(
    r: &mut Region,
    cx: &mut Caller,
    handle: u32,
    count: Option<&mut u32>,
) -> (ret: i32)
    requires
        old(r).wf(),
    ensures
        final(r).wf(),
        match count {
            Some(n) => {
                let (v, c) = sweep::auto_swept(old(r)@, old(cx)@);
                exists|q: Result<u32, Error>|
                    {
                        &&& #[trigger] signal::sem_releases(
                            v,
                            c,
                            handle,
                            *n,
                            final(r)@,
                            final(cx)@,
                            q,
                        )
                        &&& stored(q, *n, *final(n), ret)
                    }
            },
            None => ret == -EFAULT && final(r)@ == old(r)@ && final(cx)@ == old(cx)@,
        },
        release_call(
            old(r)@,
            old(cx)@,
            handle,
            match count {
                Some(x) => Some(*x),
                None => None,
            },
            final(r)@,
            final(cx)@,
            match count {
                Some(x) => Some(*final(x)),
                None => None,
            },
            ret,
        ),
{
    match count {
        Some(count) => match sem_release(r, cx, handle, *count) {
            Ok(prev) => {
                *count = prev;
                0
            },
            Err(e) => errno(e),
        },
        None => -EFAULT,
    }
}

/// Stores the state of a semaphore.
pub fn ntsync_sem_read(r: &Region, handle: u32, args: Option<&mut ntsync_sem_args>) -> (ret: i32)
    requires
        r.wf(),
    ensures
        match args {
            Some(a) => match r@.object_at(handle) {
                Some(Object::Semaphore { count, max }) => ret == 0 && *final(a)
                    == (ntsync_sem_args { count, max }),
                _ => ret == -EINVAL && *final(a) == *a,
            },
            None => ret == -EFAULT,
        },
        sem_read_call(
            r@,
            handle,
            match args {
                Some(x) => Some(*x),
                None => None,
            },
            match args {
                Some(x) => Some(*final(x)),
                None => None,
            },
            ret,
        ),
{
    match args {
        Some(args) => match read_sem(r, handle) {
            Ok((count, max)) => {
                *args = ntsync_sem_args { count, max };
                0
            },
            Err(e) => errno(e),
        },
        None => -EFAULT,
    }
}

/// Unlocks a mutex held by `args.owner` and stores the previous recursion count.
pub fn ntsync_mutex_unlock(
    r: &mut Region,
    cx: &mut Caller,
    handle: u32,
    args: Option<&mut ntsync_mutex_args>,
) -> (ret: i32)
    requires
        old(r).wf(),
    ensures
        final(r).wf(),
        match args {
            Some(a) => {
                &&& final(a).owner == a.owner
                &&& if a.owner == 0 {
                    &&& ret == -EINVAL
                    &&& final(a).count == a.count
                    &&& final(r)@ == old(r)@
                    &&& final(cx)@ == old(cx)@.bumped(SIGNAL_OPS)
                } else {
                    let (v, c) = sweep::auto_swept(old(r)@, old(cx)@.bumped(SIGNAL_OPS));
                    exists|q: Result<u32, Error>|
                        {
                            &&& #[trigger] signal::mutex_unlocks(
                                v,
                                c,
                                handle,
                                a.owner,
                                final(r)@,
                                final(cx)@,
                                q,
                            )
                            &&& stored(q, a.count, final(a).count, ret)
                        }
                }
            },
            None => ret == -EFAULT && final(r)@ == old(r)@ && final(cx)@ == old(cx)@,
        },
        unlock_call(
            old(r)@,
            old(cx)@,
            handle,
            match args {
                Some(x) => Some(*x),
                None => None,
            },
            final(r)@,
            final(cx)@,
            match args {
                Some(x) => Some(*final(x)),
                None => None,
            },
            ret,
        ),
{
    match args {
        Some(args) => match mutex_unlock(r, cx, handle, args.owner) {
            Ok(prev) => {
                args.count = prev;
                0
            },
            Err(e) => errno(e),
        },
        None => -EFAULT,
    }
}

/// Marks a mutex held by `owner` abandoned.
pub fn ntsync_mutex_kill(r: &mut Region, cx: &mut Caller, handle: u32, owner: u32) -> (ret: i32)
    requires
        old(r).wf(),
    ensures
        final(r).wf(),
        owner == 0 ==> ret == -EINVAL && final(r)@ == old(r)@ && final(cx)@ == old(cx)@.bumped(
            SIGNAL_OPS,
        ),
        owner != 0 ==> exists|q: Result<(), Error>|
            {
                &&& #[trigger] signal::mutex_kills(
                    old(r)@,
                    old(cx)@.bumped(SIGNAL_OPS),
                    handle,
                    owner,
                    final(r)@,
                    final(cx)@,
                    q,
                )
                &&& ret == status(q)
            },
        kill_call(old(r)@, old(cx)@, handle, owner, final(r)@, final(cx)@, ret),
{
    let q = mutex_kill(r, cx, handle, owner);
    reply(q)
}

/// Stores the state of a mutex. An abandoned mutex is reported by an error
/// number.
pub fn ntsync_mutex_read(r: &Region, handle: u32, args: Option<&mut ntsync_mutex_args>) -> (ret: i32)
    requires
        r.wf(),
    ensures
        match args {
            Some(a) => match r@.object_at(handle) {
                Some(Object::Mutex { owner, count, abandoned }) => {
                    &&& ret == if abandoned {
                        -EOWNERDEAD
                    } else {
                        0
                    }
                    &&& *final(a) == (ntsync_mutex_args { owner, count })
                },
                _ => ret == -EINVAL && *final(a) == *a,
            },
            None => ret == -EFAULT,
        },
        mutex_read_call(
            r@,
            handle,
            match args {
                Some(x) => Some(*x),
                None => None,
            },
            match args {
                Some(x) => Some(*final(x)),
                None => None,
            },
            ret,
        ),
{
    match args {
        Some(args) => match read_mutex(r, handle) {
            Ok((count, owner, ownerdead)) => {
                *args = ntsync_mutex_args { owner, count };
                if ownerdead {
                    -EOWNERDEAD
                } else {
                    0
                }
            },
            Err(e) => errno(e),
        },
        None => -EFAULT,
    }
}

/// Stores the state of an event.
pub fn ntsync_event_read(r: &Region, handle: u32, args: Option<&mut ntsync_event_args>) -> (ret: i32)
    requires
        r.wf(),
    ensures
        match args {
            Some(a) => match r@.object_at(handle) {
                Some(Object::Event { manual, signaled }) => {
                    &&& ret == 0
                    &&& final(a).manual == if manual {
                        1int
                    } else {
                        0
                    }
                    &&& final(a).signaled == if signaled {
                        1int
                    } else {
                        0
                    }
                },
                _ => ret == -EINVAL && *final(a) == *a,
            },
            None => ret == -EFAULT,
        },
        event_read_call(
            r@,
            handle,
            match args {
                Some(x) => Some(*x),
                None => None,
            },
            match args {
                Some(x) => Some(*final(x)),
                None => None,
            },
            ret,
        ),
{
    match args {
        Some(args) => match read_event(r, handle) {
            Ok((manual, signaled)) => {
                *args = ntsync_event_args {
                    manual: if manual {
                        1
                    } else {
                        0
                    },
                    signaled: if signaled {
                        1
                    } else {
                        0
                    },
                };
                0
            },
            Err(e) => errno(e),
        },
        None => -EFAULT,
    }
}

/// What the caller of an event operation gets: the previous state is stored if
/// there is a place for it.
pub open spec fn told(q: Result<u32, Error>, ret: i32) -> bool {
    match q {
        Ok(_) => ret == 0,
        Err(e) => ret == errno_of(e),
    }
}

/// Status of an event operation; stores the previous state in `*prev`, if given.
fn tell(q: Result<u32, Error>, prev: Option<&mut u32>) -> (ret: i32)
    requires
        q matches Err(Error::Init(n)) ==> n > i32::MIN,
    ensures
        told(q, ret),
        prev matches Some(p) ==> stored(q, *p, *final(p), ret),
{
    match q {
        Ok(x) => {
            if let Some(prev) = prev {
                *prev = x;
            }
            0
        },
        Err(e) => errno(e),
    }
}

/// Signals an event. Stores the previous state in `*prev`, if given.
pub fn ntsync_event_set(
    r: &mut Region,
    cx: &mut Caller,
    handle: u32,
    prev: Option<&mut u32>,
) -> (ret: i32)
    requires
        old(r).wf(),
    ensures
        final(r).wf(),
        ({
            let (v, c) = sweep::auto_swept(old(r)@, old(cx)@.bumped(SIGNAL_OPS));
            exists|q: Result<u32, Error>|
                {
                    &&& #[trigger] signal::event_sets(v, c, handle, final(r)@, final(cx)@, q)
                    &&& told(q, ret)
                    &&& prev matches Some(p) ==> stored(q, *p, *final(p), ret)
                }
        }),
        set_call(
            old(r)@,
            old(cx)@,
            handle,
            match prev {
                Some(x) => Some(*x),
                None => None,
            },
            final(r)@,
            final(cx)@,
            match prev {
                Some(x) => Some(*final(x)),
                None => None,
            },
            ret,
        ),
{
    let q = event_set(r, cx, handle);
    tell(q, prev)
}

/// Unsignals an event. Stores the previous state in `*prev`, if given.
pub fn ntsync_event_reset(
    r: &mut Region,
    cx: &mut Caller,
    handle: u32,
    prev: Option<&mut u32>,
) -> (ret: i32)
    requires
        old(r).wf(),
    ensures
        final(r).wf(),
        ({
            let (v, c) = sweep::auto_swept(old(r)@, old(cx)@.bumped(SIGNAL_OPS));
            exists|q: Result<u32, Error>|
                {
                    &&& #[trigger] signal::event_resets(v, handle, final(r)@, q)
                    &&& final(cx)@ == c
                    &&& told(q, ret)
                    &&& prev matches Some(p) ==> stored(q, *p, *final(p), ret)
                }
        }),
        reset_call(
            old(r)@,
            old(cx)@,
            handle,
            match prev {
                Some(x) => Some(*x),
                None => None,
            },
            final(r)@,
            final(cx)@,
            match prev {
                Some(x) => Some(*final(x)),
                None => None,
            },
            ret,
        ),
{
    let q = event_reset(r, cx, handle);
    tell(q, prev)
}

/// Pulses an event. Stores the previous state in `*prev`, if given.
pub fn ntsync_event_pulse(
    r: &mut Region,
    cx: &mut Caller,
    handle: u32,
    prev: Option<&mut u32>,
) -> (ret: i32)
    requires
        old(r).wf(),
    ensures
        final(r).wf(),
        ({
            let (v, c) = sweep::auto_swept(old(r)@, old(cx)@);
            exists|q: Result<u32, Error>|
                {
                    &&& #[trigger] signal::event_pulses(v, c, handle, final(r)@, final(cx)@, q)
                    &&& told(q, ret)
                    &&& prev matches Some(p) ==> stored(q, *p, *final(p), ret)
                }
        }),
        pulse_call(
            old(r)@,
            old(cx)@,
            handle,
            match prev {
                Some(x) => Some(*x),
                None => None,
            },
            final(r)@,
            final(cx)@,
            match prev {
                Some(x) => Some(*final(x)),
                None => None,
            },
            ret,
        ),
{
    let q = event_pulse(r, cx, handle);
    tell(q, prev)
}

/// The clock that the timeout of a wait with these flags counts on.
pub open spec fn clock_of(flags: u32) -> i32 {
    if flags % 2 == 1 {
        CLOCK_REALTIME
    } else {
        CLOCK_MONOTONIC
    }
}

/// The clock that the timeout of a wait counts on.
pub fn wait_clock(flags: u32) -> (clock: i32)
    ensures
        clock == if flags % 2 == 1 {
            CLOCK_REALTIME
        } else {
            CLOCK_MONOTONIC
        },
        clock == clock_of(flags),
{
    proof {
        assert(flags & 1 == flags % 2) by (bit_vector);
    }
    if flags & NTSYNC_WAIT_REALTIME != 0 {
        os_clock_realtime()
    } else {
        os_clock_monotonic()
    }
}

/// The time that a wait with the given absolute timeout has at time `now`, in
/// nanoseconds; `None` is forever.
pub open spec fn time_left(timeout: u64, now: u64) -> Option<u128> {
    if timeout == u64::MAX {
        None
    } else if timeout <= now {
        Some(0)
    } else {
        Some((timeout - now) as u128)
    }
}

/// The time that a wait with the given absolute timeout has at time `now`.
pub fn timeout_to_duration(timeout: u64, now: u64) -> (d: Option<u128>)
    ensures
        d == time_left(timeout, now),
{
    if timeout == u64::MAX {
        return None;
    }
    Some(timeout.saturating_sub(now) as u128)
}

/// What is wrong with the arguments of a wait, if anything: the error number.
pub open spec fn wait_fault(args: Option<&ntsync_wait_args>) -> Option<i32> {
    match args {
        None => Some((-EFAULT) as i32),
        Some(a) => if a.count == 0 || a.count > NTSYNC_MAX_WAIT_COUNT {
            Some((-EINVAL) as i32)
        } else if a.objs == 0 {
            Some((-EFAULT) as i32)
        } else {
            None
        },
    }
}

/// Checks the arguments of a wait. Gives the number of handles to be read.
pub fn read_wait(args: Option<&ntsync_wait_args>) -> (res: Result<usize, i32>)
    ensures
        match wait_fault(args) {
            Some(e) => res == Err::<usize, i32>(e),
            None => args matches Some(a) && res == Ok::<usize, i32>(a.count as usize),
        },
{
    match args {
        None => Err(-EFAULT),
        Some(args) => {
            if args.count == 0 || args.count > NTSYNC_MAX_WAIT_COUNT {
                return Err(-EINVAL);
            }
            if args.objs == 0 {
                return Err(-EFAULT);
            }
            Ok(args.count as usize)
        },
    }
}

/// What the caller of a wait that is over gets.
pub open spec fn wait_status(o: WaitOutcome) -> int {
    match o {
        WaitOutcome::Signaled { owner_dead, .. } => if owner_dead {
            -EOWNERDEAD
        } else {
            0
        },
        WaitOutcome::Timeout => -ETIMEDOUT,
        WaitOutcome::Invalid => -EINVAL,
    }
}

/// The index that the caller of a wait that is over finds, where there was
/// `before`.
pub open spec fn wait_index(o: WaitOutcome, before: u32) -> u32 {
    match o {
        WaitOutcome::Signaled { index, .. } => index,
        _ => before,
    }
}

/// Status of a wait that is over; stores the index of the object that satisfied
/// it.
pub fn wait_reply(args: &mut ntsync_wait_args, o: WaitOutcome) -> (ret: i32)
    ensures
        ret == wait_status(o),
        *final(args) == (ntsync_wait_args { index: wait_index(o, old(args).index), ..*old(args) }),
{
    match o {
        WaitOutcome::Signaled { index, owner_dead } => {
            args.index = index;
            if owner_dead {
                -EOWNERDEAD
            } else {
                0
            }
        },
        WaitOutcome::Timeout => -ETIMEDOUT,
        WaitOutcome::Invalid => -EINVAL,
    }
}

/// Where a wait stands.
pub enum WaitReply {
    /// It is over, with this status.
    Done(i32),
    /// The thread is to sleep.
    Sleep(Waiter),
}

/// A wait stands where `reply` says, after the step `step`; its caller finds
/// `after` where there was `before`.
pub open spec fn follows(
    step: StepView,
    before: ntsync_wait_args,
    after: ntsync_wait_args,
    reply: WaitReply,
) -> bool {
    match step {
        StepView::Done(o) => {
            &&& reply matches WaitReply::Done(ret) && ret == wait_status(o)
            &&& after == (ntsync_wait_args { index: wait_index(o, before.index), ..before })
        },
        StepView::Sleep(w) => {
            &&& reply matches WaitReply::Sleep(x) && x@ == w
            &&& after == before
        },
    }
}

/// Goes on from a step of a wait.
pub fn wait_follow(args: &mut ntsync_wait_args, step: WaitStep) -> (reply: WaitReply)
    ensures
        follows(step@, *old(args), *final(args), reply),
{
    match step {
        WaitStep::Done(o) => WaitReply::Done(wait_reply(args, o)),
        WaitStep::Sleep(w) => WaitReply::Sleep(w),
    }
}

/// What starting a wait amounts to.
pub open spec fn waits(
    v: RegionView,
    c: CallerView,
    before: ntsync_wait_args,
    handles: Seq<u32>,
    now: u64,
    all: bool,
    v2: RegionView,
    c2: CallerView,
    after: ntsync_wait_args,
    reply: WaitReply,
) -> bool {
    let (m, mc, step) = wait::started(
        v,
        c,
        handles,
        before.owner,
        time_left(before.timeout, now),
        all,
        before.alert,
    );
    &&& v2 == m
    &&& c2 == mc
    &&& follows(step, before, after, reply)
}

/// Starts a wait for any or all objects. `handles` are those that the arguments
/// point to, and `now` is the time on the clock that the timeout counts on.
fn do_wait(
    r: &mut Region,
    cx: &mut Caller,
    args: Option<&mut ntsync_wait_args>,
    handles: &[u32],
    now: u64,
    all: bool,
) -> (reply: WaitReply)
    requires
        old(r).wf(),
    ensures
        final(r).wf(),
        reply matches WaitReply::Sleep(w) ==> w@.slept(final(r)@),
        match args {
            None => {
                &&& reply == WaitReply::Done((-EFAULT) as i32)
                &&& final(r)@ == old(r)@
                &&& final(cx)@ == old(cx)@
            },
            Some(a) => match wait_fault(Some(&*a)) {
                Some(e) => {
                    &&& reply == WaitReply::Done(e)
                    &&& *final(a) == *a
                    &&& final(r)@ == old(r)@
                    &&& final(cx)@ == old(cx)@
                },
                None => waits(
                    old(r)@,
                    old(cx)@,
                    *a,
                    handles@,
                    now,
                    all,
                    final(r)@,
                    final(cx)@,
                    *final(a),
                    reply,
                ),
            },
        },
        wait_call(
            old(r)@,
            old(cx)@,
            match args {
                Some(x) => Some(*x),
                None => None,
            },
            handles@,
            now,
            all,
            final(r)@,
            final(cx)@,
            match args {
                Some(x) => Some(*final(x)),
                None => None,
            },
            reply,
        ),
{
    match args {
        None => WaitReply::Done(-EFAULT),
        Some(args) => {
            if let Err(e) = read_wait(Some(&*args)) {
                return WaitReply::Done(e);
            }
            let timeout = timeout_to_duration(args.timeout, now);
            let step = if all {
                wait_all(r, cx, handles, args.owner, timeout, args.alert)
            } else {
                wait_any(r, cx, handles, args.owner, timeout, args.alert)
            };
            wait_follow(args, step)
        },
    }
}

/// Starts a wait for any one of several objects. `handles` are those that the
/// arguments point to, and `now` is the time on the clock that the timeout counts
/// on.
pub fn ntsync_wait_any(
    r: &mut Region,
    cx: &mut Caller,
    args: Option<&mut ntsync_wait_args>,
    handles: &[u32],
    now: u64,
) -> (reply: WaitReply)
    requires
        old(r).wf(),
    ensures
        final(r).wf(),
        reply matches WaitReply::Sleep(w) ==> w@.slept(final(r)@),
        match args {
            None => {
                &&& reply == WaitReply::Done((-EFAULT) as i32)
                &&& final(r)@ == old(r)@
                &&& final(cx)@ == old(cx)@
            },
            Some(a) => match wait_fault(Some(&*a)) {
                Some(e) => {
                    &&& reply == WaitReply::Done(e)
                    &&& *final(a) == *a
                    &&& final(r)@ == old(r)@
                    &&& final(cx)@ == old(cx)@
                },
                None => waits(
                    old(r)@,
                    old(cx)@,
                    *a,
                    handles@,
                    now,
                    false,
                    final(r)@,
                    final(cx)@,
                    *final(a),
                    reply,
                ),
            },
        },
        wait_call(
            old(r)@,
            old(cx)@,
            match args {
                Some(x) => Some(*x),
                None => None,
            },
            handles@,
            now,
            false,
            final(r)@,
            final(cx)@,
            match args {
                Some(x) => Some(*final(x)),
                None => None,
            },
            reply,
        ),
{
    do_wait(r, cx, args, handles, now, false)
}

/// Starts a wait for all of several objects. `handles` are those that the
/// arguments point to, and `now` is the time on the clock that the timeout counts
/// on.
pub fn ntsync_wait_all(
    r: &mut Region,
    cx: &mut Caller,
    args: Option<&mut ntsync_wait_args>,
    handles: &[u32],
    now: u64,
) -> (reply: WaitReply)
    requires
        old(r).wf(),
    ensures
        final(r).wf(),
        reply matches WaitReply::Sleep(w) ==> w@.slept(final(r)@),
        match args {
            None => {
                &&& reply == WaitReply::Done((-EFAULT) as i32)
                &&& final(r)@ == old(r)@
                &&& final(cx)@ == old(cx)@
            },
            Some(a) => match wait_fault(Some(&*a)) {
                Some(e) => {
                    &&& reply == WaitReply::Done(e)
                    &&& *final(a) == *a
                    &&& final(r)@ == old(r)@
                    &&& final(cx)@ == old(cx)@
                },
                None => waits(
                    old(r)@,
                    old(cx)@,
                    *a,
                    handles@,
                    now,
                    true,
                    final(r)@,
                    final(cx)@,
                    *final(a),
                    reply,
                ),
            },
        },
        wait_call(
            old(r)@,
            old(cx)@,
            match args {
                Some(x) => Some(*x),
                None => None,
            },
            handles@,
            now,
            true,
            final(r)@,
            final(cx)@,
            match args {
                Some(x) => Some(*final(x)),
                None => None,
            },
            reply,
        ),
{
    do_wait(r, cx, args, handles, now, true)
}

} // verus!
