//! The operations as C callers see them.
use ntsync_android::caller::Caller;
use ntsync_android::error::{Error, WaitOutcome};
use ntsync_android::ffi::{
    errno, ntsync_close, ntsync_create_event, ntsync_create_mutex, ntsync_create_sem,
    ntsync_event_args, ntsync_event_pulse, ntsync_event_read, ntsync_event_reset, ntsync_event_set,
    ntsync_mutex_args, ntsync_mutex_kill, ntsync_mutex_read, ntsync_mutex_unlock, ntsync_sem_args,
    ntsync_sem_read, ntsync_sem_release, ntsync_sweep_dead, ntsync_wait_all, ntsync_wait_any,
    ntsync_wait_args, read_wait, reply, timeout_to_duration, wait_clock, wait_follow, wait_reply,
    WaitReply, NTSYNC_MAX_WAIT_COUNT, NTSYNC_WAIT_REALTIME,
};
use ntsync_android::region::Region;
use ntsync_android::wait::wait_resume;
use ntsync_android::MAX_WAIT_COUNT;

const EPERM: i32 = 1;
const EFAULT: i32 = 14;
const EINVAL: i32 = 22;
const EOVERFLOW: i32 = 75;
const ETIMEDOUT: i32 = 110;
const EOWNERDEAD: i32 = 130;

fn setup() -> (Region, Caller) {
    (Region::new(), Caller::new(1000, 0))
}

fn wait_args(count: u32, owner: u32, timeout: u64, alert: u32) -> ntsync_wait_args {
    ntsync_wait_args {
        timeout,
        objs: 0x1000,
        count,
        index: 77,
        flags: 0,
        owner,
        alert,
        pad: 0,
    }
}

fn status(reply: WaitReply) -> i32 {
    match reply {
        WaitReply::Done(ret) => ret,
        WaitReply::Sleep(_) => panic!("expected a status, got a sleep"),
    }
}

#[test]
fn semaphore_calls() {
    let (mut r, mut cx) = setup();
    let mut h = 0;
    let args = ntsync_sem_args { count: 0, max: 4 };
    assert_eq!(ntsync_create_sem(&mut r, &mut cx, Some(&mut h), Some(&args)), 0);
    assert_eq!(h, 1);
    let mut n = 3;
    assert_eq!(ntsync_sem_release(&mut r, &mut cx, h, Some(&mut n)), 0);
    assert_eq!(n, 0);
    n = 2;
    assert_eq!(ntsync_sem_release(&mut r, &mut cx, h, Some(&mut n)), -EOVERFLOW);
    assert_eq!(n, 2);
    let mut out = ntsync_sem_args { count: 9, max: 9 };
    assert_eq!(ntsync_sem_read(&r, h, Some(&mut out)), 0);
    assert_eq!((out.count, out.max), (3, 4));
    assert_eq!(ntsync_sem_read(&r, 99, Some(&mut out)), -EINVAL);
    assert_eq!((out.count, out.max), (3, 4));
    let bad = ntsync_sem_args { count: 5, max: 4 };
    assert_eq!(ntsync_create_sem(&mut r, &mut cx, Some(&mut h), Some(&bad)), -EINVAL);
    assert_eq!(h, 1);
    assert_eq!(ntsync_close(&mut r, &mut cx, h), 0);
    assert_eq!(ntsync_close(&mut r, &mut cx, h), -EINVAL);
}

#[test]
fn mutex_calls() {
    let (mut r, mut cx) = setup();
    let mut h = 0;
    let args = ntsync_mutex_args { owner: 5, count: 2 };
    assert_eq!(ntsync_create_mutex(&mut r, &mut cx, Some(&mut h), Some(&args)), 0);
    let mut a = ntsync_mutex_args { owner: 6, count: 0 };
    assert_eq!(ntsync_mutex_unlock(&mut r, &mut cx, h, Some(&mut a)), -EPERM);
    a.owner = 5;
    assert_eq!(ntsync_mutex_unlock(&mut r, &mut cx, h, Some(&mut a)), 0);
    assert_eq!((a.owner, a.count), (5, 2));
    a.owner = 0;
    assert_eq!(ntsync_mutex_unlock(&mut r, &mut cx, h, Some(&mut a)), -EINVAL);
    assert_eq!(ntsync_mutex_kill(&mut r, &mut cx, h, 4), -EPERM);
    assert_eq!(ntsync_mutex_kill(&mut r, &mut cx, h, 5), 0);
    assert_eq!(ntsync_mutex_read(&r, h, Some(&mut a)), -EOWNERDEAD);
    assert_eq!((a.owner, a.count), (0, 0));
    let mut w = wait_args(1, 8, 0, 0);
    let reply = ntsync_wait_any(&mut r, &mut cx, Some(&mut w), &[h], 0);
    assert_eq!(status(reply), -EOWNERDEAD);
    assert_eq!(w.index, 0);
    assert_eq!(ntsync_mutex_read(&r, h, Some(&mut a)), 0);
    assert_eq!((a.owner, a.count), (8, 1));
    let bad = ntsync_mutex_args { owner: 5, count: 0 };
    assert_eq!(ntsync_create_mutex(&mut r, &mut cx, Some(&mut h), Some(&bad)), -EINVAL);
}

#[test]
fn event_calls() {
    let (mut r, mut cx) = setup();
    let mut h = 0;
    let args = ntsync_event_args { manual: 2, signaled: 0 };
    assert_eq!(ntsync_create_event(&mut r, &mut cx, Some(&mut h), Some(&args)), 0);
    let mut prev = 9;
    assert_eq!(ntsync_event_set(&mut r, &mut cx, h, Some(&mut prev)), 0);
    assert_eq!(prev, 0);
    assert_eq!(ntsync_event_set(&mut r, &mut cx, h, None), 0);
    let mut out = ntsync_event_args { manual: 9, signaled: 9 };
    assert_eq!(ntsync_event_read(&r, h, Some(&mut out)), 0);
    assert_eq!((out.manual, out.signaled), (1, 1));
    assert_eq!(ntsync_event_pulse(&mut r, &mut cx, h, Some(&mut prev)), 0);
    assert_eq!(prev, 1);
    assert_eq!(ntsync_event_reset(&mut r, &mut cx, h, Some(&mut prev)), 0);
    assert_eq!(prev, 0);
    prev = 5;
    assert_eq!(ntsync_event_set(&mut r, &mut cx, 99, Some(&mut prev)), -EINVAL);
    assert_eq!(prev, 5);
    assert_eq!(ntsync_event_read(&r, h, Some(&mut out)), 0);
    assert_eq!((out.manual, out.signaled), (1, 0));
}

#[test]
fn null_pointers_fault() {
    let (mut r, mut cx) = setup();
    let mut h = 3;
    assert_eq!(ntsync_create_sem(&mut r, &mut cx, Some(&mut h), None), -EFAULT);
    assert_eq!(h, 3);
    let args = ntsync_event_args { manual: 0, signaled: 0 };
    assert_eq!(ntsync_create_event(&mut r, &mut cx, None, Some(&args)), -EFAULT);
    assert_eq!(ntsync_create_mutex(&mut r, &mut cx, None, None), -EFAULT);
    assert_eq!(ntsync_sem_release(&mut r, &mut cx, 1, None), -EFAULT);
    assert_eq!(ntsync_sem_read(&r, 1, None), -EFAULT);
    assert_eq!(ntsync_mutex_unlock(&mut r, &mut cx, 1, None), -EFAULT);
    assert_eq!(ntsync_mutex_read(&r, 1, None), -EFAULT);
    assert_eq!(ntsync_event_read(&r, 1, None), -EFAULT);
    assert_eq!(status(ntsync_wait_any(&mut r, &mut cx, None, &[], 0)), -EFAULT);
    assert_eq!(status(ntsync_wait_all(&mut r, &mut cx, None, &[], 0)), -EFAULT);
}

#[test]
fn wait_arguments_are_checked() {
    assert_eq!(read_wait(None), Err(-EFAULT));
    assert_eq!(read_wait(Some(&wait_args(0, 1, 0, 0))), Err(-EINVAL));
    assert_eq!(read_wait(Some(&wait_args(65, 1, 0, 0))), Err(-EINVAL));
    assert_eq!(read_wait(Some(&wait_args(64, 1, 0, 0))), Ok(64));
    let mut a = wait_args(1, 1, 0, 0);
    a.objs = 0;
    assert_eq!(read_wait(Some(&a)), Err(-EFAULT));
    a.count = 0;
    assert_eq!(read_wait(Some(&a)), Err(-EINVAL));
    let (mut r, mut cx) = setup();
    assert_eq!(status(ntsync_wait_any(&mut r, &mut cx, Some(&mut a), &[], 0)), -EINVAL);
    assert_eq!(a.index, 77);
    assert_eq!(NTSYNC_MAX_WAIT_COUNT as usize, MAX_WAIT_COUNT);
}

#[test]
fn waits_report_time_and_index() {
    let (mut r, mut cx) = setup();
    let mut s = 0;
    let args = ntsync_sem_args { count: 0, max: 4 };
    ntsync_create_sem(&mut r, &mut cx, Some(&mut s), Some(&args));
    let mut e = 0;
    let args = ntsync_event_args { manual: 1, signaled: 1 };
    ntsync_create_event(&mut r, &mut cx, Some(&mut e), Some(&args));
    let mut w = wait_args(2, 1, u64::MAX, 0);
    assert_eq!(status(ntsync_wait_any(&mut r, &mut cx, Some(&mut w), &[s, e], 0)), 0);
    assert_eq!(w.index, 1);
    // The deadline has passed on the clock that it counts on.
    let mut w = wait_args(2, 1, 500, 0);
    let reply = ntsync_wait_all(&mut r, &mut cx, Some(&mut w), &[s, e], 500);
    assert_eq!(status(reply), -ETIMEDOUT);
    assert_eq!(w.index, 77);
    // An alert gives the number of objects as index.
    let mut w = wait_args(1, 1, u64::MAX, e);
    assert_eq!(status(ntsync_wait_any(&mut r, &mut cx, Some(&mut w), &[s], 0)), 0);
    assert_eq!(w.index, 1);
    // A wait by nobody is invalid.
    let mut w = wait_args(1, 0, u64::MAX, 0);
    let reply = ntsync_wait_any(&mut r, &mut cx, Some(&mut w), &[s], 0);
    assert_eq!(status(reply), -EINVAL);
}

#[test]
fn sleeping_wait_is_followed_to_its_end() {
    let (mut r, mut cx) = setup();
    let mut s = 0;
    let args = ntsync_sem_args { count: 0, max: 4 };
    ntsync_create_sem(&mut r, &mut cx, Some(&mut s), Some(&args));
    let mut w = wait_args(1, 1, 1_000, 0);
    let x = match ntsync_wait_any(&mut r, &mut cx, Some(&mut w), &[s], 400) {
        WaitReply::Sleep(x) => x,
        WaitReply::Done(ret) => panic!("expected a sleep, got {}", ret),
    };
    assert_eq!(x.timeout, Some(600));
    assert_eq!(w.index, 77);
    let mut n = 1;
    ntsync_sem_release(&mut r, &mut cx, s, Some(&mut n));
    let step = wait_resume(&mut r, &mut cx, x);
    assert_eq!(status(wait_follow(&mut w, step)), 0);
    assert_eq!(w.index, 0);
}

#[test]
fn outcomes_as_numbers() {
    let mut w = wait_args(1, 1, 0, 0);
    let o = WaitOutcome::Signaled { index: 3, owner_dead: true };
    assert_eq!(wait_reply(&mut w, o), -EOWNERDEAD);
    assert_eq!(w.index, 3);
    assert_eq!(wait_reply(&mut w, WaitOutcome::Timeout), -ETIMEDOUT);
    assert_eq!(wait_reply(&mut w, WaitOutcome::Invalid), -EINVAL);
    assert_eq!(w.index, 3);
    assert_eq!(errno(Error::Invalid), -EINVAL);
    assert_eq!(errno(Error::Perm), -EPERM);
    assert_eq!(errno(Error::Overflow), -EOVERFLOW);
    assert_eq!(errno(Error::Init(12)), -12);
    assert_eq!(reply(Ok(())), 0);
    assert_eq!(reply(Err(Error::Init(116))), -116);
}

#[test]
fn timeouts_are_absolute() {
    assert_eq!(timeout_to_duration(u64::MAX, 5), None);
    assert_eq!(timeout_to_duration(1_000, 400), Some(600));
    assert_eq!(timeout_to_duration(400, 1_000), Some(0));
    assert_eq!(wait_clock(NTSYNC_WAIT_REALTIME), 0);
    assert_eq!(wait_clock(0), 1);
    assert_eq!(wait_clock(2), 1);
    assert_eq!(wait_clock(3), 0);
}

#[test]
fn sweep_call_gives_the_number_freed() {
    let (mut r, mut cx) = setup();
    let mut other = Caller::new(2000, 0);
    for _ in 0..3 {
        let mut h = 0;
        let args = ntsync_event_args { manual: 0, signaled: 0 };
        ntsync_create_event(&mut r, &mut other, Some(&mut h), Some(&args));
    }
    assert_eq!(ntsync_sweep_dead(&mut r, &mut cx), 0);
    cx.dead = vec![2000];
    assert_eq!(ntsync_sweep_dead(&mut r, &mut cx), 3);
}
