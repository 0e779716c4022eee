//! Creating, closing, filling the table, and sweeping.
use ntsync_android::caller::Caller;
use ntsync_android::errno::ENOMEM;
use ntsync_android::error::{Error, WaitOutcome};
use ntsync_android::objects::{
    check_mutex, check_semaphore, close, create_event, create_mutex, create_semaphore, read_event,
    read_mutex, read_sem,
};
use ntsync_android::region::{Region, NIL};
use ntsync_android::signal::{
    check_owner, event_pulse, event_reset, event_set, mutex_kill, mutex_unlock, sem_release,
};
use ntsync_android::stats::{SIGNAL_OPS, WAKE_WALKS};
use ntsync_android::sweep::{
    auto_sweep_dead, has_room, is_sweep_due, probe_pids, probe_says_gone, sweep_dead,
    sweep_interval_ns,
};
use ntsync_android::wait::{sleep_word, wait_all, wait_any, wait_resume, WaitStep, Waiter};
use ntsync_android::word::{HANDLE_GENERATIONS, SLOT_COUNT};

fn setup() -> (Region, Caller) {
    (Region::new(), Caller::new(1000, 30_000_000_000))
}

fn asleep(step: WaitStep) -> Waiter {
    match step {
        WaitStep::Sleep(w) => w,
        WaitStep::Done(o) => panic!("expected a sleep, got {:?}", o),
    }
}

fn over(step: WaitStep) -> WaitOutcome {
    match step {
        WaitStep::Done(o) => o,
        WaitStep::Sleep(_) => panic!("expected an outcome, got a sleep"),
    }
}

#[test]
fn created_objects_read_back() {
    let (mut r, mut cx) = setup();
    let s = create_semaphore(&mut r, &mut cx, 3, 4).unwrap();
    let m = create_mutex(&mut r, &mut cx, 6, 2).unwrap();
    let e = create_event(&mut r, &mut cx, true, false).unwrap();
    assert_eq!((s, m, e), (1, 2, 3));
    assert_eq!(read_sem(&r, s), Ok((3, 4)));
    assert_eq!(read_mutex(&r, m), Ok((2, 6, false)));
    assert_eq!(read_event(&r, e), Ok((true, false)));
    // Only as what they are.
    assert_eq!(read_sem(&r, m), Err(Error::Invalid));
    assert_eq!(read_mutex(&r, e), Err(Error::Invalid));
    assert_eq!(read_event(&r, s), Err(Error::Invalid));
    assert_eq!(read_event(&r, 0), Err(Error::Invalid));
}

#[test]
fn impossible_states_are_refused() {
    assert_eq!(check_semaphore(5, 5), Ok(()));
    assert_eq!(check_semaphore(6, 5), Err(Error::Invalid));
    assert_eq!(check_mutex(0, 0), Ok(()));
    assert_eq!(check_mutex(1, 0x7fff_ffff), Ok(()));
    assert_eq!(check_mutex(1, 0x8000_0000), Err(Error::Invalid));
    assert_eq!(check_mutex(0, 1), Err(Error::Invalid));
    assert_eq!(check_owner(1), Ok(()));
    assert_eq!(check_owner(0), Err(Error::Invalid));
}

#[test]
fn operations_check_the_object_type() {
    let (mut r, mut cx) = setup();
    let s = create_semaphore(&mut r, &mut cx, 0, 1).unwrap();
    let m = create_mutex(&mut r, &mut cx, 1, 1).unwrap();
    let e = create_event(&mut r, &mut cx, true, false).unwrap();
    assert_eq!(sem_release(&mut r, &mut cx, e, 1), Err(Error::Invalid));
    assert_eq!(event_set(&mut r, &mut cx, m), Err(Error::Invalid));
    assert_eq!(event_reset(&mut r, &mut cx, s), Err(Error::Invalid));
    assert_eq!(event_pulse(&mut r, &mut cx, s), Err(Error::Invalid));
    assert_eq!(mutex_unlock(&mut r, &mut cx, s, 1), Err(Error::Invalid));
    assert_eq!(mutex_unlock(&mut r, &mut cx, m, 0), Err(Error::Invalid));
    assert_eq!(mutex_kill(&mut r, &mut cx, e, 1), Err(Error::Invalid));
    assert_eq!(mutex_kill(&mut r, &mut cx, m, 0), Err(Error::Invalid));
    assert_eq!(read_mutex(&r, m), Ok((1, 1, false)));
}

#[test]
fn events_give_their_previous_state() {
    let (mut r, mut cx) = setup();
    let e = create_event(&mut r, &mut cx, true, false).unwrap();
    assert_eq!(event_set(&mut r, &mut cx, e), Ok(0));
    assert_eq!(event_set(&mut r, &mut cx, e), Ok(1));
    assert_eq!(event_pulse(&mut r, &mut cx, e), Ok(1));
    assert_eq!(event_pulse(&mut r, &mut cx, e), Ok(0));
    assert_eq!(event_reset(&mut r, &mut cx, e), Ok(0));
    assert_eq!(event_set(&mut r, &mut cx, e), Ok(0));
    assert_eq!(event_reset(&mut r, &mut cx, e), Ok(1));
    // Sets and resets are counted, pulses are not.
    assert_eq!(cx.stats.counters[SIGNAL_OPS], 5);
}

#[test]
fn release_up_to_the_maximum() {
    let (mut r, mut cx) = setup();
    let s = create_semaphore(&mut r, &mut cx, 1, u32::MAX).unwrap();
    assert_eq!(sem_release(&mut r, &mut cx, s, u32::MAX), Err(Error::Overflow));
    assert_eq!(sem_release(&mut r, &mut cx, s, u32::MAX - 1), Ok(1));
    assert_eq!(sem_release(&mut r, &mut cx, s, 0), Ok(u32::MAX));
    assert_eq!(read_sem(&r, s), Ok((u32::MAX, u32::MAX)));
}

#[test]
fn closed_handle_stays_dead() {
    let (mut r, mut cx) = setup();
    let a = create_event(&mut r, &mut cx, false, false).unwrap();
    assert!(close(&mut r, &mut cx, a));
    assert!(!close(&mut r, &mut cx, a));
    assert_eq!(read_event(&r, a), Err(Error::Invalid));
    // The slot is used again, under another handle.
    r.header.next_scan = 0;
    let b = create_event(&mut r, &mut cx, true, true).unwrap();
    assert_eq!(b, a + SLOT_COUNT);
    assert_eq!(read_event(&r, a), Err(Error::Invalid));
    assert_eq!(read_event(&r, b), Ok((true, true)));
}

#[test]
fn closed_handle_stays_dead_however_often_the_slot_is_used() {
    let (mut r, mut cx) = setup();
    let mut other = Caller::new(2000, 0);
    let a = create_event(&mut r, &mut cx, false, false).unwrap();
    assert!(close(&mut r, &mut cx, a));
    for i in 1..100 {
        r.header.next_scan = 0;
        let b = create_semaphore(&mut r, &mut other, 1, 1).unwrap();
        assert_eq!(b, a + i * SLOT_COUNT);
        assert_eq!(r.slots[a as usize].generation, i);
        assert_eq!(read_event(&r, a), Err(Error::Invalid));
        assert_eq!(event_set(&mut r, &mut cx, a), Err(Error::Invalid));
        assert!(!close(&mut r, &mut cx, a));
        let s = wait_any(&mut r, &mut cx, &[b, a], 1, None, 0);
        assert_eq!(over(s), WaitOutcome::Invalid);
        assert_eq!(read_sem(&r, b), Ok((1, 1)));
        if i % 2 == 0 {
            assert!(close(&mut r, &mut cx, b));
        } else {
            cx.dead = vec![2000];
            assert_eq!(sweep_dead(&mut r, &mut cx), Ok(1));
            cx.dead.clear();
        }
    }
}

#[test]
fn semaphore_count_adds_up() {
    let (mut r, mut cx) = setup();
    let h = create_semaphore(&mut r, &mut cx, 4, 20).unwrap();
    let ev = create_event(&mut r, &mut cx, true, true).unwrap();
    let no = create_event(&mut r, &mut cx, true, false).unwrap();
    let (mut released, mut acquired) = (0, 0);
    for i in 0..60u32 {
        match i % 5 {
            0 => {
                if sem_release(&mut r, &mut cx, h, i % 4).is_ok() {
                    released += i % 4;
                }
            }
            1 => {
                let s = wait_any(&mut r, &mut cx, &[no, h], 1, Some(0), 0);
                if matches!(over(s), WaitOutcome::Signaled { index: 1, .. }) {
                    acquired += 1;
                }
            }
            2 => {
                let s = wait_all(&mut r, &mut cx, &[ev, h], 1, Some(0), 0);
                if matches!(over(s), WaitOutcome::Signaled { .. }) {
                    acquired += 1;
                }
            }
            3 => {
                // In vain, so nothing is taken.
                let s = wait_all(&mut r, &mut cx, &[h, no], 1, Some(0), 0);
                assert_eq!(over(s), WaitOutcome::Timeout);
            }
            _ => assert_eq!(sem_release(&mut r, &mut cx, h, 100), Err(Error::Overflow)),
        }
        assert_eq!(read_sem(&r, h), Ok((4 + released - acquired, 20)));
    }
    assert!(released > 0 && acquired > 0);
}

#[test]
fn generations_beyond_the_handle_do_not_resolve() {
    let (mut r, mut cx) = setup();
    r.slots[1].generation = HANDLE_GENERATIONS;
    let h = create_event(&mut r, &mut cx, true, true).unwrap();
    assert_eq!(h, 1);
    assert_eq!(read_event(&r, h), Err(Error::Invalid));
}

#[test]
fn closing_fails_waits() {
    let (mut r, mut cx) = setup();
    let a = create_event(&mut r, &mut cx, false, false).unwrap();
    let b = create_event(&mut r, &mut cx, false, false).unwrap();
    let s = wait_any(&mut r, &mut cx, &[a, b], 1, None, 0);
    let w = asleep(s);
    assert!(close(&mut r, &mut cx, b));
    assert_eq!(cx.wakes, vec![sleep_word(&w)]);
    let s = wait_resume(&mut r, &mut cx, w);
    assert_eq!(over(s), WaitOutcome::Invalid);
    // Nobody is left on the other object's list.
    assert_eq!(r.slots[a as usize].waiter_head, NIL);
}

#[test]
fn full_table_is_swept_once() {
    let (mut r, mut cx) = setup();
    let mut other = Caller::new(2000, 0);
    let first = create_event(&mut r, &mut other, false, false).unwrap();
    assert!(has_room(&r));
    for _ in 2..SLOT_COUNT {
        create_event(&mut r, &mut cx, false, false).unwrap();
    }
    assert!(!has_room(&r));
    assert_eq!(
        create_semaphore(&mut r, &mut cx, 0, 1),
        Err(Error::Init(ENOMEM))
    );
    assert_eq!(ENOMEM, 12);
    // Once the other process is gone its object makes room.
    cx.dead = vec![2000];
    let h = create_semaphore(&mut r, &mut cx, 0, 1).unwrap();
    assert_eq!(h, first + SLOT_COUNT);
    assert_eq!(create_mutex(&mut r, &mut cx, 0, 0), Err(Error::Init(12)));
}

#[test]
fn sweep_frees_exactly_the_orphans() {
    let (mut r, mut cx) = setup();
    let mut dead = Caller::new(2000, 0);
    let mine = create_event(&mut r, &mut cx, false, false).unwrap();
    let lost = create_event(&mut r, &mut dead, false, false).unwrap();
    let lost2 = create_semaphore(&mut r, &mut dead, 0, 1).unwrap();
    // A living process waits on an orphan, the dead one waits on a living object.
    let s = wait_any(&mut r, &mut cx, &[lost], 1, None, 0);
    let w = asleep(s);
    let s = wait_any(&mut r, &mut dead, &[mine], 2, None, 0);
    asleep(s);
    let mut pids = probe_pids(&r);
    pids.sort();
    assert_eq!(pids, vec![1000, 2000]);
    cx.dead = vec![2000];
    assert_eq!(sweep_dead(&mut r, &mut cx), Ok(2));
    assert_eq!(cx.wakes, vec![sleep_word(&w)]);
    assert_eq!(read_event(&r, mine), Ok((false, false)));
    assert_eq!(read_event(&r, lost), Err(Error::Invalid));
    assert_eq!(read_sem(&r, lost2), Err(Error::Invalid));
    assert_eq!(r.slots[mine as usize].waiter_head, NIL);
    // A second sweep finds nothing.
    assert_eq!(sweep_dead(&mut r, &mut cx), Ok(0));
    let s = wait_resume(&mut r, &mut cx, w);
    assert_eq!(over(s), WaitOutcome::Invalid);
}

#[test]
fn automatic_sweep_is_rate_limited() {
    let (mut r, mut cx) = setup();
    let mut dead = Caller::new(2000, 0);
    let mine = create_event(&mut r, &mut cx, true, false).unwrap();
    let lost = create_event(&mut r, &mut dead, false, false).unwrap();
    cx.dead = vec![2000];
    cx.now = 29_999_999_999;
    assert!(!is_sweep_due(&r, &cx));
    event_set(&mut r, &mut cx, mine).unwrap();
    assert!(read_event(&r, lost).is_ok());
    // The interval has passed, but only every 256th operation looks.
    cx.now = 30_000_000_000;
    for _ in 1..256 {
        event_set(&mut r, &mut cx, mine).unwrap();
        assert!(read_event(&r, lost).is_ok());
    }
    assert!(is_sweep_due(&r, &cx));
    assert_eq!(cx.reclaimed, 0);
    event_set(&mut r, &mut cx, mine).unwrap();
    assert_eq!(cx.reclaimed, 1);
    assert_eq!(read_event(&r, lost), Err(Error::Invalid));
    assert_eq!(r.header.sweep_ns, 30_000_000_000);
}

#[test]
fn automatic_sweep_can_be_turned_off() {
    let mut r = Region::new();
    let mut cx = Caller::new(1000, sweep_interval_ns(Some(0)));
    let mut dead = Caller::new(2000, 0);
    let lost = create_event(&mut r, &mut dead, false, false).unwrap();
    cx.dead = vec![2000];
    cx.now = u64::MAX;
    assert_eq!(auto_sweep_dead(&mut r, &mut cx), 0);
    assert!(read_event(&r, lost).is_ok());
    cx.interval = sweep_interval_ns(None);
    assert_eq!(cx.interval, 30_000_000_000);
    cx.calls = 256;
    assert_eq!(auto_sweep_dead(&mut r, &mut cx), 1);
    assert_eq!(sweep_interval_ns(Some(7)), 7_000_000_000);
}

#[test]
fn probes_are_read_right() {
    assert!(probe_says_gone(-1, 3));
    assert!(!probe_says_gone(-1, 1));
    assert!(!probe_says_gone(0, 3));
}

#[test]
fn only_signals_with_waiters_walk() {
    let (mut r, mut cx) = setup();
    let s = create_semaphore(&mut r, &mut cx, 0, 9).unwrap();
    sem_release(&mut r, &mut cx, s, 1).unwrap();
    assert_eq!(cx.stats.counters[WAKE_WALKS], 0);
    let st = wait_any(&mut r, &mut cx, &[s], 1, None, 0);
    assert!(matches!(over(st), WaitOutcome::Signaled { index: 0, .. }));
    let st = wait_any(&mut r, &mut cx, &[s], 1, None, 0);
    asleep(st);
    sem_release(&mut r, &mut cx, s, 1).unwrap();
    assert_eq!(cx.stats.counters[WAKE_WALKS], 1);
}

#[test]
fn waiters_are_woken_most_recent_first() {
    let (mut r, mut cx) = setup();
    let e = create_event(&mut r, &mut cx, true, false).unwrap();
    let mut words = Vec::new();
    for i in 0..4 {
        let s = wait_any(&mut r, &mut cx, &[e], 1 + i, None, 0);
        words.push(sleep_word(&asleep(s)));
    }
    event_set(&mut r, &mut cx, e).unwrap();
    words.reverse();
    assert_eq!(cx.wakes, words);
}
