//! The semantics of objects and waits.
use ntsync_android::caller::Caller;
use ntsync_android::error::{Error, WaitOutcome};
use ntsync_android::objects::{
    close, create_event, create_mutex, create_semaphore, read_event, read_mutex, read_sem,
};
use ntsync_android::region::{set_sweep_ns, Region};
use ntsync_android::signal::{
    event_pulse, event_reset, event_set, mutex_kill, mutex_unlock, sem_release,
};
use ntsync_android::sweep::sweep_dead;
use ntsync_android::wait::{
    sleep_word, wait_all, wait_any, wait_resume, wait_wakeup, WaitStep, Waiter,
};

const MS: u128 = 1_000_000;
const SEC: u128 = 1_000_000_000;
const ETIMEDOUT: i32 = 110;

fn setup() -> (Region, Caller) {
    (Region::new(), Caller::new(1000, 30_000_000_000))
}

/// Runs a wait to its end, letting time pass.
fn run(r: &mut Region, cx: &mut Caller, step: WaitStep) -> WaitOutcome {
    let mut step = step;
    loop {
        match step {
            WaitStep::Done(o) => return o,
            WaitStep::Sleep(mut w) => {
                let left = w.timeout.expect("the wait never ends");
                cx.now += left as u64;
                wait_wakeup(r, cx, &mut w, -ETIMEDOUT);
                step = wait_resume(r, cx, w);
            }
        }
    }
}

/// The wait, which has to sleep.
fn asleep(step: WaitStep) -> Waiter {
    match step {
        WaitStep::Sleep(w) => w,
        WaitStep::Done(o) => panic!("expected a sleep, got {:?}", o),
    }
}

/// The outcome of a wait that is over.
fn over(step: WaitStep) -> WaitOutcome {
    match step {
        WaitStep::Done(o) => o,
        WaitStep::Sleep(_) => panic!("expected an outcome, got a sleep"),
    }
}

/// Whether somebody has woken the wait.
fn woken(r: &Region, cx: &Caller, w: &Waiter) -> bool {
    let n = sleep_word(w);
    r.nodes[n as usize].seq != w.seq && cx.wakes.contains(&n)
}

fn is_signaled(outcome: WaitOutcome, index: u32) -> bool {
    matches!(outcome, WaitOutcome::Signaled { index: i, .. } if i == index)
}

#[test]
fn semaphore_basic() {
    let (mut r, mut cx) = setup();
    let h = create_semaphore(&mut r, &mut cx, 2, 5).unwrap();
    assert!(create_semaphore(&mut r, &mut cx, 6, 5).is_err());
    let s = wait_any(&mut r, &mut cx, &[h], 1, Some(0), 0);
    assert!(is_signaled(over(s), 0));
    let s = wait_any(&mut r, &mut cx, &[h], 1, Some(0), 0);
    assert!(is_signaled(over(s), 0));
    let s = wait_any(&mut r, &mut cx, &[h], 1, Some(10 * MS), 0);
    assert_eq!(run(&mut r, &mut cx, s), WaitOutcome::Timeout);
    assert_eq!(sem_release(&mut r, &mut cx, h, 3).unwrap(), 0);
    assert_eq!(read_sem(&r, h).unwrap(), (3, 5));
    // Overflow: error, state unchanged.
    assert_eq!(sem_release(&mut r, &mut cx, h, 3), Err(Error::Overflow));
    assert_eq!(read_sem(&r, h).unwrap(), (3, 5));
    assert!(close(&mut r, &mut cx, h));
}

#[test]
fn handle_zero_is_never_allocated() {
    let (mut r, mut cx) = setup();
    let h = create_event(&mut r, &mut cx, false, false).unwrap();
    assert_ne!(h & ((1 << 14) - 1), 0);
    assert!(!close(&mut r, &mut cx, 0));
    assert!(close(&mut r, &mut cx, h));
}

#[test]
fn semaphore_blocks_and_wakes() {
    let (mut r, mut cx) = setup();
    let h = create_semaphore(&mut r, &mut cx, 0, 1).unwrap();
    let s = wait_any(&mut r, &mut cx, &[h], 1, None, 0);
    let w = asleep(s);
    let mut other = Caller::new(1000, 30_000_000_000);
    other.now = (50 * MS) as u64;
    assert!(!woken(&r, &other, &w));
    sem_release(&mut r, &mut other, h, 1).unwrap();
    assert!(woken(&r, &other, &w));
    let s = wait_resume(&mut r, &mut cx, w);
    assert!(is_signaled(over(s), 0));
    assert!(close(&mut r, &mut cx, h));
}

#[test]
fn mutex_recursion_and_ownership() {
    let (mut r, mut cx) = setup();
    let h = create_mutex(&mut r, &mut cx, 0, 0).unwrap();
    // An owner without a count is invalid.
    assert_eq!(create_mutex(&mut r, &mut cx, 5, 0), Err(Error::Invalid));
    let s = wait_any(&mut r, &mut cx, &[h], 7, Some(0), 0);
    assert!(is_signaled(over(s), 0));
    let s = wait_any(&mut r, &mut cx, &[h], 7, Some(0), 0);
    assert!(is_signaled(over(s), 0));
    assert_eq!(read_mutex(&r, h).unwrap(), (2, 7, false));
    // Not the owner: cannot wait or unlock.
    let s = wait_any(&mut r, &mut cx, &[h], 8, Some(10 * MS), 0);
    assert_eq!(run(&mut r, &mut cx, s), WaitOutcome::Timeout);
    assert_eq!(mutex_unlock(&mut r, &mut cx, h, 8), Err(Error::Perm));
    // Unlock returns previous count.
    assert_eq!(mutex_unlock(&mut r, &mut cx, h, 7).unwrap(), 2);
    assert_eq!(mutex_unlock(&mut r, &mut cx, h, 7).unwrap(), 1);
    assert_eq!(read_mutex(&r, h).unwrap(), (0, 0, false));
    assert!(close(&mut r, &mut cx, h));
}

#[test]
fn mutex_abandoned() {
    let (mut r, mut cx) = setup();
    let h = create_mutex(&mut r, &mut cx, 0, 0).unwrap();
    let s = wait_any(&mut r, &mut cx, &[h], 1, Some(0), 0);
    assert!(is_signaled(over(s), 0));
    assert_eq!(mutex_kill(&mut r, &mut cx, h, 2), Err(Error::Perm));
    mutex_kill(&mut r, &mut cx, h, 1).unwrap();
    assert_eq!(read_mutex(&r, h).unwrap(), (0, 0, true));
    match over(wait_any(&mut r, &mut cx, &[h], 2, Some(0), 0)) {
        WaitOutcome::Signaled { index, owner_dead } => {
            assert_eq!(index, 0);
            assert!(owner_dead);
        }
        o => panic!("expected signal, got {o:?}"),
    }
    // Abandoned flag is cleared on acquisition.
    assert_eq!(read_mutex(&r, h).unwrap(), (1, 2, false));
    assert!(close(&mut r, &mut cx, h));
}

#[test]
fn event_auto_and_manual_reset() {
    let (mut r, mut cx) = setup();
    let auto = create_event(&mut r, &mut cx, false, true).unwrap();
    let s = wait_any(&mut r, &mut cx, &[auto], 1, Some(0), 0);
    assert!(is_signaled(over(s), 0));
    // Auto-reset: consumed after wait.
    assert!(!read_event(&r, auto).unwrap().1);

    let manual = create_event(&mut r, &mut cx, true, true).unwrap();
    let s = wait_any(&mut r, &mut cx, &[manual], 1, Some(0), 0);
    assert!(is_signaled(over(s), 0));
    let s = wait_any(&mut r, &mut cx, &[manual], 1, Some(0), 0);
    assert!(is_signaled(over(s), 0));
    event_reset(&mut r, &mut cx, manual).unwrap();
    let s = wait_any(&mut r, &mut cx, &[manual], 1, Some(10 * MS), 0);
    assert_eq!(run(&mut r, &mut cx, s), WaitOutcome::Timeout);
    assert!(close(&mut r, &mut cx, auto));
    assert!(close(&mut r, &mut cx, manual));
}

#[test]
fn event_pulse_wakes_waiters() {
    let (mut r, mut cx) = setup();
    let h = create_event(&mut r, &mut cx, true, false).unwrap();
    let mut waiters = Vec::new();
    for i in 0..3 {
        let s = wait_any(&mut r, &mut cx, &[h], 10 + i, None, 0);
        waiters.push(asleep(s));
    }
    cx.now = (50 * MS) as u64;
    event_pulse(&mut r, &mut cx, h).unwrap();
    for w in waiters {
        assert!(woken(&r, &cx, &w));
        let s = wait_resume(&mut r, &mut cx, w);
        assert!(matches!(over(s), WaitOutcome::Signaled { .. }));
    }
    assert!(!read_event(&r, h).unwrap().1);
    assert!(close(&mut r, &mut cx, h));
}

#[test]
fn wait_all_semantics() {
    let (mut r, mut cx) = setup();
    let sem = create_semaphore(&mut r, &mut cx, 1, 1).unwrap();
    let ev = create_event(&mut r, &mut cx, true, false).unwrap();
    let s = wait_all(&mut r, &mut cx, &[sem, ev], 1, Some(10 * MS), 0);
    assert_eq!(run(&mut r, &mut cx, s), WaitOutcome::Timeout);
    event_set(&mut r, &mut cx, ev).unwrap();
    let s = wait_all(&mut r, &mut cx, &[sem, ev], 1, Some(0), 0);
    assert!(is_signaled(over(s), 0));
    assert_eq!(read_sem(&r, sem).unwrap(), (0, 1));
    assert!(read_event(&r, ev).unwrap().1); // manual event stays signaled
    assert!(close(&mut r, &mut cx, sem));
    assert!(close(&mut r, &mut cx, ev));
}

#[test]
fn wait_any_index_selection() {
    let (mut r, mut cx) = setup();
    let s1 = create_semaphore(&mut r, &mut cx, 0, 1).unwrap();
    let s2 = create_semaphore(&mut r, &mut cx, 1, 1).unwrap();
    let s = wait_any(&mut r, &mut cx, &[s1, s2], 1, Some(0), 0);
    assert!(is_signaled(over(s), 1));
    assert!(close(&mut r, &mut cx, s1));
    assert!(close(&mut r, &mut cx, s2));
}

#[test]
fn invalid_handles() {
    let (mut r, mut cx) = setup();
    let s = wait_any(&mut r, &mut cx, &[0xDEADBEEF], 1, Some(0), 0);
    assert_eq!(over(s), WaitOutcome::Invalid);
    let s = wait_any(&mut r, &mut cx, &[], 1, None, 0);
    assert_eq!(over(s), WaitOutcome::Invalid);
    let s = wait_any(&mut r, &mut cx, &[1], 0, None, 0);
    assert_eq!(over(s), WaitOutcome::Invalid);
    assert_eq!(sem_release(&mut r, &mut cx, 0xDEADBEEF, 1), Err(Error::Invalid));
    assert_eq!(event_set(&mut r, &mut cx, 0xDEADBEEF), Err(Error::Invalid));
    assert!(!close(&mut r, &mut cx, 0xDEADBEEF));
}

#[test]
fn cross_process_semaphore() {
    let (mut r, mut cx) = setup();
    let h = create_semaphore(&mut r, &mut cx, 0, 1).unwrap();
    let mut child = Caller::new(1001, 30_000_000_000);
    let s = wait_any(&mut r, &mut child, &[h], 42, None, 0);
    let w = asleep(s);
    cx.now = (50 * MS) as u64;
    sem_release(&mut r, &mut cx, h, 1).unwrap();
    assert!(woken(&r, &cx, &w));
    let s = wait_resume(&mut r, &mut child, w);
    assert!(matches!(over(s), WaitOutcome::Signaled { index: 0, .. }));
    assert!(close(&mut r, &mut cx, h));
}

#[test]
fn many_waiters_targeted_wake() {
    // 32 waits, each on its own event; signaling one event wakes exactly its
    // waiter.
    let (mut r, mut cx) = setup();
    let events: Vec<u32> =
        (0..32).map(|_| create_event(&mut r, &mut cx, false, false).unwrap()).collect();
    let mut waiters: Vec<Waiter> = Vec::new();
    for &e in &events {
        let s = wait_any(&mut r, &mut cx, &[e], 42, Some(10 * SEC), 0);
        waiters.push(asleep(s));
    }
    cx.now = (50 * MS) as u64;
    for (i, &e) in events.iter().enumerate() {
        cx.wakes.clear();
        event_set(&mut r, &mut cx, e).unwrap();
        assert_eq!(cx.wakes, vec![sleep_word(&waiters[i])]);
    }
    for w in waiters {
        let s = wait_resume(&mut r, &mut cx, w);
        assert!(matches!(over(s), WaitOutcome::Signaled { .. }));
    }
    for e in events {
        assert!(close(&mut r, &mut cx, e));
    }
}

#[test]
fn cross_process_multi_object_wait() {
    let (mut r, mut cx) = setup();
    let sem = create_semaphore(&mut r, &mut cx, 0, 1).unwrap();
    let ev = create_event(&mut r, &mut cx, true, false).unwrap();
    let mut child = Caller::new(1001, 30_000_000_000);
    let s = wait_all(&mut r, &mut child, &[sem, ev], 42, Some(10 * SEC), 0);
    let w = asleep(s);
    cx.now = (50 * MS) as u64;
    sem_release(&mut r, &mut cx, sem, 1).unwrap();
    assert!(woken(&r, &cx, &w));
    child.now = cx.now;
    let s = wait_resume(&mut r, &mut child, w);
    let w = asleep(s);
    cx.now = (100 * MS) as u64;
    event_set(&mut r, &mut cx, ev).unwrap();
    assert!(woken(&r, &cx, &w));
    child.now = cx.now;
    let s = wait_resume(&mut r, &mut child, w);
    assert!(matches!(over(s), WaitOutcome::Signaled { .. }));
    assert!(close(&mut r, &mut cx, sem));
    assert!(close(&mut r, &mut cx, ev));
}

#[test]
fn sweep_dead_frees_orphans() {
    let (mut r, mut cx) = setup();
    let h = create_event(&mut r, &mut cx, false, false).unwrap();
    // The creator lives, so nothing is freed.
    assert_eq!(sweep_dead(&mut r, &mut cx).unwrap(), 0);
    assert!(read_event(&r, h).is_ok());
    assert!(close(&mut r, &mut cx, h));
}

#[test]
fn auto_sweep_reaps_dead_creator() {
    let (mut r, mut cx) = setup();
    let mine = create_event(&mut r, &mut cx, false, false).unwrap();
    // Another process creates an object and dies without closing it.
    let mut child = Caller::new(1001, 30_000_000_000);
    let orphan = create_event(&mut r, &mut child, false, false).unwrap();
    cx.dead = vec![1001];
    cx.now = (31 * SEC) as u64;
    // An ordinary signal op reaps the orphan.
    set_sweep_ns(&mut r, 0);
    event_set(&mut r, &mut cx, mine).unwrap();
    assert_eq!(
        sweep_dead(&mut r, &mut cx).unwrap(),
        0,
        "auto-sweep should have reaped the orphan"
    );
    assert!(read_event(&r, orphan).is_err());
    assert!(close(&mut r, &mut cx, mine));
}
