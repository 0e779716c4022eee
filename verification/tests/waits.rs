//! Waits in detail: order, alerts, time, nodes, reports.
use ntsync_android::caller::Caller;
use ntsync_android::error::WaitOutcome;
use ntsync_android::object::{is_locked, is_signaled, rollback_acquire, try_acquire, Slot};
use ntsync_android::objects::{
    close, create_event, create_mutex, create_semaphore, read_event, read_mutex, read_sem,
};
use ntsync_android::pool::NodeSet;
use ntsync_android::region::{Region, NODE_COUNT};
use ntsync_android::signal::{event_pulse, event_set, mutex_kill, mutex_unlock, sem_release};
use ntsync_android::stats::{
    FUTEX_SLEEPS, NODES_REGISTERED, WAIT_BLOCKED, WAIT_CALLS, WAIT_FAST_OK, WAKE_LAT_CNT,
    WAKE_LAT_US_MAX, WAKE_LAT_US_SUM,
};
use ntsync_android::wait::{
    check_wait, kind_name, sleep_slice, sleep_word, stuck_report, wait_abandon, wait_all, wait_any,
    wait_resume, wait_wakeup, StuckObject, WaitStep, Waiter,
};
use ntsync_android::word::{pack_event, pack_mutex, pack_sem, MAX_RECURSION};

const ETIMEDOUT: i32 = 110;
const EINTR: i32 = 4;

fn setup() -> (Region, Caller) {
    (Region::new(), Caller::new(1000, 0))
}

fn asleep(step: WaitStep) -> Waiter {
    match step {
        WaitStep::Sleep(w) => w,
        WaitStep::Done(o) => panic!("expected a sleep, got {:?}", o),
    }
}

fn over(step: WaitStep) -> WaitOutcome {
    match step {
        WaitStep::Done(o) => o,
        WaitStep::Sleep(_) => panic!("expected an outcome, got a sleep"),
    }
}

fn signaled(index: u32) -> WaitOutcome {
    WaitOutcome::Signaled { index, owner_dead: false }
}

#[test]
fn wait_any_takes_only_the_first_ready_object() {
    let (mut r, mut cx) = setup();
    let a = create_semaphore(&mut r, &mut cx, 0, 9).unwrap();
    let b = create_semaphore(&mut r, &mut cx, 4, 9).unwrap();
    let c = create_semaphore(&mut r, &mut cx, 5, 9).unwrap();
    let s = wait_any(&mut r, &mut cx, &[a, b, c], 1, None, 0);
    assert_eq!(over(s), signaled(1));
    assert_eq!(read_sem(&r, a).unwrap(), (0, 9));
    assert_eq!(read_sem(&r, b).unwrap(), (3, 9));
    assert_eq!(read_sem(&r, c).unwrap(), (5, 9));
}

#[test]
fn wait_all_takes_all_or_nothing() {
    let (mut r, mut cx) = setup();
    let sem = create_semaphore(&mut r, &mut cx, 2, 2).unwrap();
    let mtx = create_mutex(&mut r, &mut cx, 0, 0).unwrap();
    let auto = create_event(&mut r, &mut cx, false, true).unwrap();
    let last = create_semaphore(&mut r, &mut cx, 0, 1).unwrap();
    let s = wait_all(&mut r, &mut cx, &[sem, mtx, auto, last], 7, Some(0), 0);
    assert_eq!(over(s), WaitOutcome::Timeout);
    assert_eq!(read_sem(&r, sem).unwrap(), (2, 2));
    assert_eq!(read_mutex(&r, mtx).unwrap(), (0, 0, false));
    assert_eq!(read_event(&r, auto).unwrap(), (false, true));
    sem_release(&mut r, &mut cx, last, 1).unwrap();
    let s = wait_all(&mut r, &mut cx, &[sem, mtx, auto, last], 7, Some(0), 0);
    assert_eq!(over(s), signaled(0));
    assert_eq!(read_sem(&r, sem).unwrap(), (1, 2));
    assert_eq!(read_mutex(&r, mtx).unwrap(), (1, 7, false));
    assert_eq!(read_event(&r, auto).unwrap(), (false, false));
    assert_eq!(read_sem(&r, last).unwrap(), (0, 1));
}

#[test]
fn wait_all_restores_recursion_and_abandonment() {
    let (mut r, mut cx) = setup();
    let own = create_mutex(&mut r, &mut cx, 7, 3).unwrap();
    let lost = create_mutex(&mut r, &mut cx, 9, 1).unwrap();
    mutex_kill(&mut r, &mut cx, lost, 9).unwrap();
    let never = create_event(&mut r, &mut cx, true, false).unwrap();
    let s = wait_all(&mut r, &mut cx, &[own, lost, never], 7, Some(0), 0);
    assert_eq!(over(s), WaitOutcome::Timeout);
    assert_eq!(read_mutex(&r, own).unwrap(), (3, 7, false));
    assert_eq!(read_mutex(&r, lost).unwrap(), (0, 0, true));
    event_set(&mut r, &mut cx, never).unwrap();
    let s = wait_all(&mut r, &mut cx, &[own, lost, never], 7, Some(0), 0);
    assert_eq!(over(s), WaitOutcome::Signaled { index: 0, owner_dead: true });
    assert_eq!(read_mutex(&r, own).unwrap(), (4, 7, false));
    assert_eq!(read_mutex(&r, lost).unwrap(), (1, 7, false));
}

#[test]
fn failed_wait_all_after_pulse_leaves_event_unsignaled() {
    let (mut r, mut cx) = setup();
    let auto = create_event(&mut r, &mut cx, false, false).unwrap();
    let sem = create_semaphore(&mut r, &mut cx, 0, 1).unwrap();
    let s = wait_all(&mut r, &mut cx, &[auto, sem], 1, None, 0);
    let w = asleep(s);
    event_pulse(&mut r, &mut cx, auto).unwrap();
    assert_eq!(read_event(&r, auto).unwrap(), (false, false));
    let s = wait_resume(&mut r, &mut cx, w);
    let w = asleep(s);
    assert_eq!(read_event(&r, auto).unwrap(), (false, false));
    // Nobody who waits on the event alone has reason to go on.
    let s = wait_any(&mut r, &mut cx, &[auto], 2, Some(0), 0);
    assert_eq!(over(s), WaitOutcome::Timeout);
    // The pulse still counts for the wait that it came to.
    sem_release(&mut r, &mut cx, sem, 1).unwrap();
    let s = wait_resume(&mut r, &mut cx, w);
    assert_eq!(over(s), signaled(0));
    assert_eq!(read_event(&r, auto).unwrap(), (false, false));
    assert_eq!(read_sem(&r, sem).unwrap(), (0, 1));
}

#[test]
fn alert_interrupts_and_acquires_nothing() {
    let (mut r, mut cx) = setup();
    let sem = create_semaphore(&mut r, &mut cx, 1, 1).unwrap();
    let alert = create_event(&mut r, &mut cx, false, true).unwrap();
    let s = wait_any(&mut r, &mut cx, &[sem], 1, None, alert);
    assert_eq!(over(s), signaled(1));
    assert_eq!(read_sem(&r, sem).unwrap(), (1, 1));
    // The alert is only tested.
    assert_eq!(read_event(&r, alert).unwrap(), (false, true));
}

#[test]
fn alert_wakes_a_sleeping_wait() {
    let (mut r, mut cx) = setup();
    let a = create_semaphore(&mut r, &mut cx, 0, 1).unwrap();
    let b = create_semaphore(&mut r, &mut cx, 0, 1).unwrap();
    let alert = create_event(&mut r, &mut cx, true, false).unwrap();
    let s = wait_all(&mut r, &mut cx, &[a, b], 1, None, alert);
    let w = asleep(s);
    assert_eq!(w.nodes.len(), 3);
    event_set(&mut r, &mut cx, alert).unwrap();
    assert_eq!(cx.wakes, vec![sleep_word(&w)]);
    let s = wait_resume(&mut r, &mut cx, w);
    assert_eq!(over(s), signaled(2));
}

#[test]
fn alert_must_be_an_event() {
    let (mut r, mut cx) = setup();
    let sem = create_semaphore(&mut r, &mut cx, 1, 1).unwrap();
    let s = wait_any(&mut r, &mut cx, &[sem], 1, None, sem);
    assert_eq!(over(s), WaitOutcome::Invalid);
    assert_eq!(read_sem(&r, sem).unwrap(), (1, 1));
}

#[test]
fn malformed_waits_are_refused() {
    let (mut r, mut cx) = setup();
    let sem = create_semaphore(&mut r, &mut cx, 5, 5).unwrap();
    let s = wait_any(&mut r, &mut cx, &[sem, sem], 1, None, 0);
    assert_eq!(over(s), WaitOutcome::Invalid);
    let many: Vec<u32> = (1..66).collect();
    assert!(!check_wait(&many, 1));
    assert!(check_wait(&many[..64], 1));
    assert!(!check_wait(&[], 1));
    assert!(!check_wait(&[sem], 0));
    let s = wait_all(&mut r, &mut cx, &many, 1, None, 0);
    assert_eq!(over(s), WaitOutcome::Invalid);
    // Refused before anything is counted.
    assert_eq!(cx.stats.counters[WAIT_CALLS], 0);
    // The reserved slot exists but cannot be waited on.
    let s = wait_any(&mut r, &mut cx, &[0], 1, None, 0);
    assert_eq!(over(s), WaitOutcome::Invalid);
    assert_eq!(cx.stats.counters[WAIT_CALLS], 1);
}

#[test]
fn sixty_four_objects_can_be_waited_on() {
    let (mut r, mut cx) = setup();
    let hs: Vec<u32> =
        (0..64).map(|_| create_event(&mut r, &mut cx, true, false).unwrap()).collect();
    let alert = create_event(&mut r, &mut cx, true, false).unwrap();
    let s = wait_any(&mut r, &mut cx, &hs, 1, None, alert);
    let w = asleep(s);
    assert_eq!(w.nodes.len(), 65);
    event_set(&mut r, &mut cx, hs[63]).unwrap();
    let s = wait_resume(&mut r, &mut cx, w);
    assert_eq!(over(s), signaled(63));
    assert_eq!(r.header.node_fresh, 65);
}

#[test]
fn a_wait_sleeps_exactly_as_long_as_asked() {
    let (mut r, mut cx) = setup();
    cx.now = 1_000;
    let sem = create_semaphore(&mut r, &mut cx, 0, 1).unwrap();
    let s = wait_any(&mut r, &mut cx, &[sem], 1, Some(500), 0);
    let w = asleep(s);
    assert_eq!(sleep_slice(&w, &cx), Some(500));
    cx.now = 1_499;
    assert_eq!(sleep_slice(&w, &cx), Some(1));
    let s = wait_resume(&mut r, &mut cx, w);
    let w = asleep(s);
    cx.now = 1_500;
    assert_eq!(sleep_slice(&w, &cx), Some(0));
    let s = wait_resume(&mut r, &mut cx, w);
    assert_eq!(over(s), WaitOutcome::Timeout);
}

#[test]
fn a_signal_at_the_deadline_still_counts() {
    let (mut r, mut cx) = setup();
    let sem = create_semaphore(&mut r, &mut cx, 0, 1).unwrap();
    let s = wait_any(&mut r, &mut cx, &[sem], 1, Some(10), 0);
    let mut w = asleep(s);
    cx.now = 10;
    sem_release(&mut r, &mut cx, sem, 1).unwrap();
    wait_wakeup(&mut r, &mut cx, &mut w, -ETIMEDOUT);
    let s = wait_resume(&mut r, &mut cx, w);
    assert_eq!(over(s), signaled(0));
}

#[test]
fn interrupted_sleep_resumes() {
    let (mut r, mut cx) = setup();
    let sem = create_semaphore(&mut r, &mut cx, 0, 1).unwrap();
    let s = wait_any(&mut r, &mut cx, &[sem], 1, None, 0);
    let mut w = asleep(s);
    assert!(wait_wakeup(&mut r, &mut cx, &mut w, -EINTR).is_none());
    let s = wait_resume(&mut r, &mut cx, w);
    let w = asleep(s);
    sem_release(&mut r, &mut cx, sem, 1).unwrap();
    let s = wait_resume(&mut r, &mut cx, w);
    assert_eq!(over(s), signaled(0));
}

#[test]
fn infinite_slice_is_capped_only_in_debug() {
    let (mut r, mut cx) = setup();
    let sem = create_semaphore(&mut r, &mut cx, 0, 1).unwrap();
    let s = wait_any(&mut r, &mut cx, &[sem], 1, None, 0);
    let w = asleep(s);
    assert_eq!(sleep_slice(&w, &cx), None);
    cx.debug = true;
    assert_eq!(sleep_slice(&w, &cx), Some(5_000_000_000));
    let s = wait_any(&mut r, &mut cx, &[sem], 1, Some(7_000_000_000), 0);
    let w = asleep(s);
    assert_eq!(sleep_slice(&w, &cx), Some(5_000_000_000));
    cx.now = 3_000_000_000;
    assert_eq!(sleep_slice(&w, &cx), Some(4_000_000_000));
}

#[test]
fn nodes_are_given_back_and_reused() {
    let (mut r, mut cx) = setup();
    let a = create_semaphore(&mut r, &mut cx, 0, 1).unwrap();
    let b = create_semaphore(&mut r, &mut cx, 0, 1).unwrap();
    let s = wait_any(&mut r, &mut cx, &[a, b], 1, None, 0);
    let w = asleep(s);
    assert_eq!((w.nodes.get(0), w.nodes.get(1)), (0, 1));
    sem_release(&mut r, &mut cx, b, 1).unwrap();
    let s = wait_resume(&mut r, &mut cx, w);
    assert_eq!(over(s), signaled(1));
    let s = wait_any(&mut r, &mut cx, &[a, b], 1, None, 0);
    let w = asleep(s);
    // The last one given back is handed out first.
    assert_eq!((w.nodes.get(0), w.nodes.get(1)), (1, 0));
    assert_eq!(r.header.node_fresh, 2);
    wait_abandon(&mut r, w);
    assert_eq!(r.header.node_free_head, 0);
}

#[test]
fn exhausted_pool_fails_the_wait() {
    let (mut r, mut cx) = setup();
    let sem = create_semaphore(&mut r, &mut cx, 0, 1).unwrap();
    let other = create_semaphore(&mut r, &mut cx, 0, 1).unwrap();
    let mut waiters = Vec::new();
    for _ in 0..NODE_COUNT - 1 {
        let s = wait_any(&mut r, &mut cx, &[sem], 1, None, 0);
        waiters.push(asleep(s));
    }
    // One node is left, two are needed.
    let s = wait_any(&mut r, &mut cx, &[sem, other], 1, None, 0);
    assert_eq!(over(s), WaitOutcome::Invalid);
    // A wait that needs no sleep needs no node.
    sem_release(&mut r, &mut cx, other, 1).unwrap();
    let s = wait_any(&mut r, &mut cx, &[sem, other], 1, None, 0);
    assert_eq!(over(s), signaled(1));
    // One that needs one gets the last.
    let s = wait_any(&mut r, &mut cx, &[sem], 1, None, 0);
    assert_eq!(sleep_word(&asleep(s)), NODE_COUNT - 1);
}

#[test]
fn counters_follow_a_wait() {
    let (mut r, mut cx) = setup();
    let a = create_semaphore(&mut r, &mut cx, 1, 1).unwrap();
    let b = create_semaphore(&mut r, &mut cx, 0, 1).unwrap();
    let s = wait_any(&mut r, &mut cx, &[a], 1, None, 0);
    assert_eq!(over(s), signaled(0));
    assert_eq!(cx.stats.counters[WAIT_CALLS], 1);
    assert_eq!(cx.stats.counters[WAIT_FAST_OK], 1);
    let s = wait_any(&mut r, &mut cx, &[a, b], 1, None, 0);
    let w = asleep(s);
    assert_eq!(cx.stats.counters[WAIT_CALLS], 2);
    assert_eq!(cx.stats.counters[WAIT_BLOCKED], 1);
    assert_eq!(cx.stats.counters[NODES_REGISTERED], 2);
    assert_eq!(cx.stats.counters[FUTEX_SLEEPS], 1);
    sem_release(&mut r, &mut cx, a, 1).unwrap();
    let s = wait_resume(&mut r, &mut cx, w);
    assert_eq!(over(s), signaled(0));
    // Only waits that never slept count as fast.
    assert_eq!(cx.stats.counters[WAIT_FAST_OK], 1);
}

#[test]
fn wake_latency_is_sampled_in_debug() {
    let (mut r, mut cx) = setup();
    cx.debug = true;
    let sem = create_semaphore(&mut r, &mut cx, 0, 1).unwrap();
    let s = wait_any(&mut r, &mut cx, &[sem], 1, None, 0);
    let mut w = asleep(s);
    cx.now = 7_000_000;
    sem_release(&mut r, &mut cx, sem, 1).unwrap();
    cx.now = 7_042_999;
    assert!(wait_wakeup(&mut r, &mut cx, &mut w, 0).is_none());
    assert_eq!(cx.stats.counters[WAKE_LAT_CNT], 1);
    assert_eq!(cx.stats.counters[WAKE_LAT_US_SUM], 42);
    assert_eq!(cx.stats.counters[WAKE_LAT_US_MAX], 42);
}

#[test]
fn stuck_wait_is_reported() {
    let (mut r, mut cx) = setup();
    cx.debug = true;
    let sem = create_semaphore(&mut r, &mut cx, 0, 3).unwrap();
    let gone = create_event(&mut r, &mut cx, true, false).unwrap();
    let alert = create_event(&mut r, &mut cx, true, false).unwrap();
    let s = wait_all(&mut r, &mut cx, &[sem, gone], 1, None, alert);
    let mut w = asleep(s);
    cx.now = 4_999_999_999;
    assert!(wait_wakeup(&mut r, &mut cx, &mut w, -ETIMEDOUT).is_none());
    cx.now = 5_000_000_000;
    close(&mut r, &mut cx, gone);
    let report = wait_wakeup(&mut r, &mut cx, &mut w, -ETIMEDOUT).unwrap();
    assert_eq!(report.len(), 3);
    match &report[0] {
        StuckObject::Open { handle, slot, waiters, signaled } => {
            assert_eq!(*handle, sem);
            assert_eq!(kind_name(slot.obj_type), "sem");
            assert_eq!(slot.w0, pack_sem(0, 3));
            assert!(*waiters);
            assert!(!*signaled);
        }
        StuckObject::Closed { .. } => panic!("the semaphore exists"),
    }
    assert!(matches!(report[1], StuckObject::Closed { handle } if handle == gone));
    assert!(matches!(report[2], StuckObject::Open { handle, .. } if handle == alert));
    // Not again before as much time has passed.
    assert!(wait_wakeup(&mut r, &mut cx, &mut w, -ETIMEDOUT).is_none());
    assert_eq!(stuck_report(&r, &w).len(), 3);
    assert_eq!(kind_name(2), "mutex");
    assert_eq!(kind_name(3), "event");
    assert_eq!(kind_name(4), "?");
}

#[test]
fn pulse_does_not_satisfy_later_waits() {
    let (mut r, mut cx) = setup();
    let ev = create_event(&mut r, &mut cx, false, false).unwrap();
    event_pulse(&mut r, &mut cx, ev).unwrap();
    let s = wait_any(&mut r, &mut cx, &[ev], 1, Some(0), 0);
    assert_eq!(over(s), WaitOutcome::Timeout);
}

#[test]
fn unlock_hands_the_mutex_over() {
    let (mut r, mut cx) = setup();
    let m = create_mutex(&mut r, &mut cx, 3, 2).unwrap();
    let s = wait_any(&mut r, &mut cx, &[m], 4, None, 0);
    let w = asleep(s);
    assert_eq!(mutex_unlock(&mut r, &mut cx, m, 3).unwrap(), 2);
    assert!(cx.wakes.is_empty());
    assert_eq!(mutex_unlock(&mut r, &mut cx, m, 3).unwrap(), 1);
    assert_eq!(cx.wakes, vec![sleep_word(&w)]);
    let s = wait_resume(&mut r, &mut cx, w);
    assert_eq!(over(s), signaled(0));
    assert_eq!(read_mutex(&r, m).unwrap(), (1, 4, false));
}

#[test]
fn unlock_from_the_recursion_limit_wakes_the_owner() {
    let (mut r, mut cx) = setup();
    let m = create_mutex(&mut r, &mut cx, 3, MAX_RECURSION).unwrap();
    let s = wait_any(&mut r, &mut cx, &[m], 3, None, 0);
    let w = asleep(s);
    assert_eq!(mutex_unlock(&mut r, &mut cx, m, 3).unwrap(), MAX_RECURSION);
    assert_eq!(cx.wakes, vec![sleep_word(&w)]);
    let s = wait_resume(&mut r, &mut cx, w);
    assert_eq!(over(s), signaled(0));
    assert_eq!(read_mutex(&r, m).unwrap(), (MAX_RECURSION, 3, false));
}

#[test]
fn sleeper_is_woken_by_the_call_that_lets_it_go_on() {
    let (mut r, mut cx) = setup();
    let sem = create_semaphore(&mut r, &mut cx, 0, 2).unwrap();
    let ev = create_event(&mut r, &mut cx, false, false).unwrap();
    let other = create_event(&mut r, &mut cx, false, false).unwrap();
    let s = wait_all(&mut r, &mut cx, &[sem, ev], 1, None, 0);
    let w = asleep(s);
    let s = wait_any(&mut r, &mut cx, &[other], 2, None, 0);
    let u = asleep(s);
    // Woken too early, the wait goes back to sleep and is woken again.
    sem_release(&mut r, &mut cx, sem, 1).unwrap();
    assert_eq!(cx.wakes, vec![sleep_word(&w)]);
    assert_ne!(r.nodes[sleep_word(&w) as usize].seq, w.seq);
    let s = wait_resume(&mut r, &mut cx, w);
    let w = asleep(s);
    assert_eq!(r.nodes[sleep_word(&w) as usize].seq, w.seq);
    cx.wakes.clear();
    // Nothing that leaves the wait unsatisfiable changes its futex word.
    let s = wait_any(&mut r, &mut cx, &[sem], 3, Some(0), 0);
    assert_eq!(over(s), signaled(0));
    event_set(&mut r, &mut cx, other).unwrap();
    assert_eq!(cx.wakes, vec![sleep_word(&u)]);
    let s = wait_resume(&mut r, &mut cx, u);
    assert_eq!(over(s), signaled(0));
    assert_eq!(r.nodes[sleep_word(&w) as usize].seq, w.seq);
    cx.wakes.clear();
    sem_release(&mut r, &mut cx, sem, 1).unwrap();
    event_set(&mut r, &mut cx, ev).unwrap();
    assert!(cx.wakes.contains(&sleep_word(&w)));
    assert_ne!(r.nodes[sleep_word(&w) as usize].seq, w.seq);
    let s = wait_resume(&mut r, &mut cx, w);
    assert_eq!(over(s), signaled(0));
}

fn slot(obj_type: u32, w0: u64, d: u64) -> Slot {
    Slot { state: 1, generation: 0, obj_type, pid: 1, waiter_head: u32::MAX, w0, d }
}

#[test]
fn acquire_and_roll_back() {
    let mut s = slot(1, pack_sem(2, 5), 0);
    assert!(is_locked(&s, 1, 0));
    assert_eq!(try_acquire(&mut s, 1, 0), Some(false));
    assert_eq!(s.w0, pack_sem(1, 5));
    rollback_acquire(&mut s, 1, false, false);
    assert_eq!(s.w0, pack_sem(2, 5));

    let mut s = slot(2, pack_mutex(0, 0, true), 0);
    assert_eq!(try_acquire(&mut s, 9, 0), Some(true));
    assert_eq!(s.w0, pack_mutex(9, 1, false));
    assert!(!is_locked(&s, 8, 0));
    assert_eq!(try_acquire(&mut s, 8, 0), None);
    rollback_acquire(&mut s, 9, true, false);
    assert_eq!(s.w0, pack_mutex(0, 0, true));

    let mut s = slot(2, pack_mutex(9, 3, false), 0);
    assert_eq!(try_acquire(&mut s, 9, 0), Some(false));
    assert_eq!(s.w0, pack_mutex(9, 4, false));
    rollback_acquire(&mut s, 9, false, false);
    assert_eq!(s.w0, pack_mutex(9, 3, false));

    let mut s = slot(2, pack_mutex(9, 0x7fff_ffff, false), 0);
    assert!(!is_locked(&s, 9, 0));
    assert_eq!(try_acquire(&mut s, 9, 0), None);

    let mut s = slot(3, pack_event(true, false), 4);
    assert!(is_signaled(&s));
    assert_eq!(try_acquire(&mut s, 1, 4), Some(false));
    assert_eq!(s.w0, pack_event(false, false));
    assert_eq!(try_acquire(&mut s, 1, 4), None);
    rollback_acquire(&mut s, 1, false, true);
    assert_eq!(s.w0, pack_event(true, false));

    // Satisfied by a pulse alone: there is nothing to signal again.
    let mut s = slot(3, pack_event(false, false), 4);
    assert!(!is_signaled(&s));
    assert_eq!(try_acquire(&mut s, 1, 3), Some(false));
    assert_eq!(s.w0, pack_event(false, false));
    rollback_acquire(&mut s, 1, false, false);
    assert_eq!(s.w0, pack_event(false, false));

    let mut s = slot(3, pack_event(true, true), 0);
    assert_eq!(try_acquire(&mut s, 1, 0), Some(false));
    assert_eq!(s.w0, pack_event(true, true));
    rollback_acquire(&mut s, 1, false, true);
    assert_eq!(s.w0, pack_event(true, true));

    let mut s = slot(4, 0, 0);
    assert!(!is_locked(&s, 1, 0));
    assert_eq!(try_acquire(&mut s, 1, 0), None);
}

#[test]
fn acquire_from_any_word() {
    // Held and abandoned: the flag stays, and nobody is told.
    let mut s = slot(2, pack_mutex(9, 1, true), 0);
    assert_eq!(try_acquire(&mut s, 9, 0), Some(false));
    assert_eq!(s.w0, pack_mutex(9, 2, true));
    // Free with a count.
    let mut s = slot(2, pack_mutex(0, 5, true), 0);
    assert_eq!(try_acquire(&mut s, 9, 0), Some(true));
    assert_eq!(s.w0, pack_mutex(9, 6, false));
    // Only the lowest bit of an event's flag is cleared.
    let mut s = slot(3, 3, 0);
    assert_eq!(try_acquire(&mut s, 1, 0), Some(false));
    assert_eq!(s.w0, 2);
    assert_eq!(try_acquire(&mut s, 1, 0), Some(false));
    assert_eq!(s.w0, 2);
    // More than the maximum.
    let mut s = slot(1, pack_sem(7, 5), 0);
    assert_eq!(try_acquire(&mut s, 1, 0), Some(false));
    assert_eq!(s.w0, pack_sem(6, 5));
}

#[test]
fn node_set_holds_what_was_pushed() {
    let mut s = NodeSet::new();
    assert!(s.is_empty());
    for n in 0..65 {
        s.push(100 + n);
    }
    assert_eq!(s.len(), 65);
    assert_eq!(s.get(0), 100);
    assert_eq!(s.get(64), 164);
    s.clear();
    assert!(s.is_empty());
}
