//! Packed state words, handles and counters.
use ntsync_android::caller::Caller;
use ntsync_android::stats::{
    add, bump, record_wake_latency, Stats, STAT_COUNT, WAKE_LAT_CNT, WAKE_LAT_US_MAX,
    WAKE_LAT_US_SUM,
};
use ntsync_android::word::{
    handle_generation, handle_index, hi32, lo32, make_handle, mutex_abandoned, mutex_count,
    pack_event, pack_mutex, pack_sem,
};

#[test]
fn state_words() {
    assert_eq!(pack_sem(3, 5), 0x5_0000_0003);
    assert_eq!(pack_mutex(7, 2, false), 0x2_0000_0007);
    assert_eq!(pack_mutex(0, 0, true), 0x8000_0000_0000_0000);
    assert_eq!(pack_event(true, false), 1);
    assert_eq!(pack_event(false, true), 0x1_0000_0000);
    assert_eq!(lo32(0x1234_5678_9abc_def0), 0x9abc_def0);
    assert_eq!(hi32(0x1234_5678_9abc_def0), 0x1234_5678);
    assert_eq!(mutex_count(0xffff_ffff), 0x7fff_ffff);
    assert!(mutex_abandoned(0x8000_0000));
    assert!(!mutex_abandoned(0x7fff_ffff));
}

#[test]
fn handles() {
    assert_eq!(make_handle(0, 1), 1);
    assert_eq!(make_handle(1, 1), 0x4001);
    assert_eq!(make_handle(0x3ffff, 0x3fff), 0xffff_ffff);
    assert_eq!(make_handle(0x40000, 5), 5);
    assert_eq!(handle_index(0xDEADBEEF), 0x3EEF);
    assert_eq!(handle_generation(0xDEADBEEF), 0x37AB6);
}

#[test]
fn counters() {
    let mut s = Stats::new();
    for i in 0..STAT_COUNT {
        assert_eq!(s.counters[i], 0);
    }
    bump(&mut s, 3);
    add(&mut s, 3, 4);
    assert_eq!(s.counters[3], 5);
    add(&mut s, 3, u64::MAX);
    assert_eq!(s.counters[3], 4);
    record_wake_latency(&mut s, 1_000, 9_000);
    record_wake_latency(&mut s, 1_000, 3_999);
    record_wake_latency(&mut s, 1_000, 500);
    assert_eq!(s.counters[WAKE_LAT_CNT], 3);
    assert_eq!(s.counters[WAKE_LAT_US_SUM], 10);
    assert_eq!(s.counters[WAKE_LAT_US_MAX], 8);
    assert_eq!(Stats::name(0), "wait_calls");
    assert_eq!(Stats::name(6), "cas_retries");
    assert_eq!(Stats::name(12), "wake_lat_us_max");
}

#[test]
fn callers_know_who_is_gone() {
    let mut cx = Caller::new(5, 0);
    assert!(cx.is_gone(0));
    assert!(!cx.is_gone(9));
    cx.dead = vec![3, 9];
    assert!(cx.is_gone(9));
    assert!(!cx.is_gone(5));
}
