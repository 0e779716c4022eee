//! Paths, opening and locking the region, settings.
use ntsync_android::caller::Caller;
use ntsync_android::error::Error;
use ntsync_android::init::{
    debug_enabled, futex_result, init, lock_guard, needs_layout, nodes_offset, ns_timespec,
    open_and_map, parse_u64, region_size, resolve_path, sigusr1_block_enabled, timespec_ns,
    try_open_and_map, versioned_path, InitStep, LockProgress, LockStep, MapAction, MapEvent,
    MapState, OpenStep, Startup,
};
use ntsync_android::region::{check_header, format_region, Header, Region, MAGIC, NODE_COUNT};
use ntsync_android::stats::{LOCK_ACQ, LOCK_CONTENDED};
use ntsync_android::word::SLOT_COUNT;

const ESTALE: i32 = 116;

#[test]
fn path_precedence() {
    let p = resolve_path(Some("/a"), Some("/b"), Some("/c"));
    assert_eq!(p, Ok("/a".to_string()));
    let p = resolve_path(None, Some("/b"), Some("/c"));
    assert_eq!(p, Ok("/b".to_string()));
    let p = resolve_path(None, Some(""), Some("/c"));
    assert_eq!(p, Ok("/c/ntsync_userspace.shm".to_string()));
    assert_eq!(resolve_path(None, None, Some("")), Err(22));
    assert_eq!(resolve_path(None, None, None), Err(22));
    assert_eq!(resolve_path(Some(""), None, None), Ok("".to_string()));
}

#[test]
fn layout_version_is_part_of_the_name() {
    assert_eq!(versioned_path("/t/ntsync_userspace.shm"), "/t/ntsync_userspace.v9.shm");
    assert_eq!(versioned_path("/t/region"), "/t/region.v9");
    assert_eq!(versioned_path("/t.shm/region"), "/t.shm/region.v9");
    assert_eq!(versioned_path(".shm"), ".v9.shm");
    assert_eq!(versioned_path("shm"), "shm.v9");
    assert_eq!(versioned_path("a.SHM"), "a.SHM.v9");
    assert_eq!(versioned_path("\u{e9}.shm"), "\u{e9}.v9.shm");
}

#[test]
fn first_initialization_counts() {
    let mut st = Startup::new();
    match init(&mut st, Some("/x.shm"), None, None) {
        InitStep::Open(p) => assert_eq!(p, "/x.v9.shm"),
        InitStep::Done(_) => panic!("nothing was opened yet"),
    }
    assert!(matches!(open_and_map(&mut st, Ok(())), OpenStep::Done(Ok(()))));
    // Later calls give the same result, whatever they ask for.
    assert!(matches!(init(&mut st, None, None, None), InitStep::Done(Ok(()))));

    let mut st = Startup::new();
    let step = init(&mut st, None, None, None);
    assert!(matches!(step, InitStep::Done(Err(Error::Init(22)))));
    let step = init(&mut st, Some("/x"), None, None);
    assert!(matches!(step, InitStep::Done(Err(Error::Init(22)))));

    let mut st = Startup::new();
    let step = init(&mut st, Some("a\0b"), None, None);
    assert!(matches!(step, InitStep::Done(Err(Error::Init(22)))));
}

#[test]
fn stale_files_are_replaced_four_times() {
    let mut st = Startup::new();
    for _ in 0..3 {
        assert!(matches!(open_and_map(&mut st, Err(ESTALE)), OpenStep::Retry));
    }
    let step = open_and_map(&mut st, Err(ESTALE));
    assert!(matches!(step, OpenStep::GiveUp(Error::Init(ESTALE))));
    assert!(matches!(
        init(&mut st, Some("/x"), None, None),
        InitStep::Done(Err(Error::Init(ESTALE)))
    ));
    let mut st = Startup::new();
    assert!(matches!(open_and_map(&mut st, Err(ESTALE)), OpenStep::Retry));
    let step = open_and_map(&mut st, Err(13));
    assert!(matches!(step, OpenStep::Done(Err(Error::Init(13)))));
}

fn done(unmap: bool, unlock: bool, close: bool, result: Result<(), i32>) -> MapAction {
    MapAction::Finish { unmap, unlock, close, result }
}

#[test]
fn new_file_is_laid_out() {
    let n = 4096;
    let (s, a) = try_open_and_map(MapState::Start, MapEvent::Did, n);
    assert_eq!(a, MapAction::Open);
    let (s, a) = try_open_and_map(s, MapEvent::Did, n);
    assert_eq!(a, MapAction::Lock);
    let (s, a) = try_open_and_map(s, MapEvent::Did, n);
    assert_eq!(a, MapAction::Stat);
    let (s, a) = try_open_and_map(s, MapEvent::Size(0), n);
    assert_eq!(a, MapAction::Grow);
    let (s, a) = try_open_and_map(s, MapEvent::Did, n);
    assert_eq!(a, MapAction::Attach);
    let (s, a) = try_open_and_map(s, MapEvent::Did, n);
    assert_eq!(a, MapAction::Layout);
    let (s, a) = try_open_and_map(s, MapEvent::Did, n);
    assert_eq!(a, done(false, true, true, Ok(())));
    assert_eq!(s, MapState::Over);
}

#[test]
fn existing_file_is_inspected() {
    let (s, a) = try_open_and_map(MapState::Sizing, MapEvent::Size(4096), 4096);
    assert_eq!(a, MapAction::Attach);
    let (s, a) = try_open_and_map(s, MapEvent::Did, 4096);
    assert_eq!(a, MapAction::Inspect);
    let (_, a) = try_open_and_map(s, MapEvent::Header(true), 4096);
    assert_eq!(a, done(false, true, true, Ok(())));
    let (_, a) = try_open_and_map(s, MapEvent::Header(false), 4096);
    assert_eq!(a, done(true, true, true, Err(ESTALE)));
}

#[test]
fn failures_undo_what_was_done() {
    let n = 4096;
    let f = MapEvent::Failed(5);
    let (_, a) = try_open_and_map(MapState::Opening, f, n);
    assert_eq!(a, done(false, false, false, Err(5)));
    let (_, a) = try_open_and_map(MapState::Locking, f, n);
    assert_eq!(a, done(false, false, true, Err(5)));
    let (_, a) = try_open_and_map(MapState::Sizing, f, n);
    assert_eq!(a, done(false, true, true, Err(5)));
    let (_, a) = try_open_and_map(MapState::Sizing, MapEvent::Size(4095), n);
    assert_eq!(a, done(false, true, true, Err(ESTALE)));
    let (_, a) = try_open_and_map(MapState::Growing, f, n);
    assert_eq!(a, done(false, true, true, Err(5)));
    let (_, a) = try_open_and_map(MapState::Mapping { fresh: true }, f, n);
    assert_eq!(a, done(false, true, true, Err(5)));
}

#[test]
fn sizes_add_up() {
    assert_eq!(needs_layout(0, 100), Ok(true));
    assert_eq!(needs_layout(100, 100), Ok(false));
    assert_eq!(needs_layout(99, 100), Err(ESTALE));
    assert_eq!(needs_layout(-1, 100), Err(ESTALE));
    assert_eq!(nodes_offset(96, 40), 96 + 16384 * 40);
    assert_eq!(region_size(96, 40, 40), 96 + 16384 * 40 + 8192 * 40);
}

#[test]
fn fresh_region_is_formatted() {
    let mut r = Region::new();
    assert!(check_header(&r.header));
    assert_eq!(r.header.magic, 0x6E7473796E635F75);
    assert_eq!(r.header.magic, MAGIC);
    assert_eq!((r.slots.len(), r.nodes.len()), (16384, 8192));
    assert_eq!((r.header.capacity, r.header.node_capacity), (SLOT_COUNT, NODE_COUNT));
    assert_eq!((r.slots[0].state, r.slots[0].obj_type, r.slots[0].pid), (1, 4, 0));
    assert_eq!(r.slots[1].state, 0);
    // Laying out again from zeros gives the same.
    r.slots[0].state = 0;
    r.slots[0].obj_type = 0;
    r.slots[0].waiter_head = 0;
    r.header.magic = 1;
    assert!(!check_header(&r.header));
    format_region(&mut r);
    assert!(check_header(&r.header));
    assert_eq!((r.slots[0].state, r.slots[0].obj_type), (1, 4));
}

#[test]
fn foreign_headers_are_rejected() {
    let good = || Header {
        magic: MAGIC,
        version: 9,
        capacity: 16384,
        node_capacity: 8192,
        node_free_head: u32::MAX,
        node_fresh: 0,
        next_scan: 0,
        sweep_ns: 0,
    };
    assert!(check_header(&good()));
    assert!(!check_header(&Header { magic: 0, ..good() }));
    assert!(!check_header(&Header { version: 8, ..good() }));
    assert!(!check_header(&Header { capacity: 1, ..good() }));
    assert!(!check_header(&Header { node_capacity: 1, ..good() }));
}

#[test]
fn lock_attempts() {
    let mut cx = Caller::new(1, 0);
    let mut p = LockProgress::new();
    assert!(matches!(
        lock_guard(&mut p, &mut cx, 0),
        LockStep::Acquired { recover: false }
    ));
    assert_eq!(cx.stats.counters[LOCK_ACQ], 1);
    assert_eq!(cx.stats.counters[LOCK_CONTENDED], 0);
    let mut p = LockProgress::new();
    assert!(matches!(lock_guard(&mut p, &mut cx, 4), LockStep::Retry));
    assert!(matches!(lock_guard(&mut p, &mut cx, 110), LockStep::Blocked { waited: 5 }));
    assert!(matches!(lock_guard(&mut p, &mut cx, 110), LockStep::Blocked { waited: 10 }));
    assert!(matches!(
        lock_guard(&mut p, &mut cx, 130),
        LockStep::Acquired { recover: true }
    ));
    assert_eq!(p.tries, 4);
    assert_eq!(cx.stats.counters[LOCK_ACQ], 2);
    assert_eq!(cx.stats.counters[LOCK_CONTENDED], 1);
    assert!(matches!(
        lock_guard(&mut p, &mut cx, 22),
        LockStep::Failed(Error::Init(22))
    ));
}

#[test]
fn flags_from_the_environment() {
    assert!(!debug_enabled(None));
    assert!(!debug_enabled(Some(b"")));
    assert!(!debug_enabled(Some(b"0")));
    assert!(debug_enabled(Some(b"1")));
    assert!(debug_enabled(Some(b"00")));
    assert!(sigusr1_block_enabled(None));
    assert!(sigusr1_block_enabled(Some(b"")));
    assert!(sigusr1_block_enabled(Some(b"0")));
    assert!(!sigusr1_block_enabled(Some(b"1")));
}

#[test]
fn numbers_are_parsed() {
    assert_eq!(parse_u64(b"30"), Some(30));
    assert_eq!(parse_u64(b"+7"), Some(7));
    assert_eq!(parse_u64(b"007"), Some(7));
    assert_eq!(parse_u64(b"18446744073709551615"), Some(u64::MAX));
    assert_eq!(parse_u64(b"18446744073709551616"), None);
    assert_eq!(parse_u64(b"184467440737095516150"), None);
    assert_eq!(parse_u64(b""), None);
    assert_eq!(parse_u64(b"+"), None);
    assert_eq!(parse_u64(b"-1"), None);
    assert_eq!(parse_u64(b" 1"), None);
    assert_eq!(parse_u64(b"1_0"), None);
    assert_eq!(parse_u64(b"++1"), None);
    for s in ["0", "12", "+12", "", "+", "x", "1x", "99999999999999999999"] {
        assert_eq!(parse_u64(s.as_bytes()), s.parse::<u64>().ok());
    }
}

#[test]
fn times_convert() {
    assert_eq!(timespec_ns(3, 250), 3_000_000_250);
    assert_eq!(ns_timespec(3_000_000_250), (3, 250));
    assert_eq!(ns_timespec(999_999_999), (0, 999_999_999));
    assert_eq!(futex_result(0, 11), 0);
    assert_eq!(futex_result(-1, 11), -11);
}
