//! What opening and locking the region, and reading the settings, comes to.
use crate::caller::CallerView;
use crate::error::Error;
use crate::init;
use crate::init::{InitStep, LockProgress, LockStep, MapAction, MapEvent, MapState, Startup};
use crate::region;
use crate::region::Header;
use vstd::prelude::*;

verus! {

/// An explicit path is taken whatever the environment says; then `$NTSYNC_SHM`, if it is
/// not empty; then the file in `$TMPDIR`, if that is not empty; and without any of them
/// there is no path.
pub proof fn law_path_is_looked_for_in_order(
    path: Option<Seq<char>>,
    shm: Option<Seq<char>>,
    tmpdir: Option<Seq<char>>,
)
    ensures
        path matches Some(p) ==> init::resolved(path, shm, tmpdir) == Ok::<Seq<char>, i32>(p),
        path is None && shm is Some && shm->0.len() > 0 ==> init::resolved(path, shm, tmpdir)
            == Ok::<Seq<char>, i32>(shm->0),
        path is None && (shm is None || shm->0.len() == 0) && tmpdir is Some && tmpdir->0.len() > 0
            ==> init::resolved(path, shm, tmpdir) == Ok::<Seq<char>, i32>(
            tmpdir->0 + "/ntsync_userspace.shm"@,
        ),
        path is None && (shm is None || shm->0.len() == 0) && (tmpdir is None || tmpdir->0.len()
            == 0) ==> init::resolved(path, shm, tmpdir) == Err::<Seq<char>, i32>(22),
{
}

/// The version goes before the extension ".shm", and else at the end.
pub proof fn law_file_name_holds_version(p: Seq<char>)
    ensures
        init::versioned(p + seq!['.', 's', 'h', 'm']) == p + seq![
            '.',
            'v',
            '9',
            '.',
            's',
            'h',
            'm',
        ],
        !(p.len() >= 4 && p[p.len() - 4] == '.' && p[p.len() - 3] == 's' && p[p.len() - 2] == 'h'
            && p[p.len() - 1] == 'm') ==> init::versioned(p) == p + seq!['.', 'v', '9'],
{
    reveal_strlit(".shm");
    reveal_strlit(".v9.shm");
    reveal_strlit(".v9");
    let ext = seq!['.', 's', 'h', 'm'];
    let q = p + ext;
    assert(".shm"@ =~= ext);
    assert(".v9"@ =~= seq!['.', 'v', '9']);
    assert(".v9.shm"@ =~= seq!['.', 'v', '9', '.', 's', 'h', 'm']);
    assert(q.skip(q.len() - 4) =~= ext);
    assert(q.take(q.len() - 4) =~= p);
    if init::shm_extension(p) {
        let t = p.skip(p.len() - 4);
        assert(t == ext);
        assert(t[0] == p[p.len() - 4] && t[1] == p[p.len() - 3] && t[2] == p[p.len() - 2] && t[3]
            == p[p.len() - 1]);
    }
}

/// Only the first initialization matters: once there is a result, it is given again,
/// whatever path is asked for. Before that the file for the path is to be opened, unless
/// there is no path or no file can have its name, which settles the result.
pub proof fn law_first_initialization_settles(
    st: Startup,
    path: Option<Seq<char>>,
    shm: Option<Seq<char>>,
    tmpdir: Option<Seq<char>>,
    st2: Startup,
    step: InitStep,
)
    requires
        init::init_call(st, path, shm, tmpdir, st2, step),
    ensures
        st.outcome matches Some(Ok(_)) ==> step == InitStep::Done(Ok(())) && st2 == st,
        st.outcome matches Some(Err(e)) ==> step == InitStep::Done(Err(Error::Init(e))) && st2
            == st,
        st.outcome is None ==> {
            let p = init::resolved(path, shm, tmpdir);
            &&& p is Err ==> step == InitStep::Done(Err(Error::Init(22))) && st2.outcome == Some(
                Err::<(), i32>(22),
            )
            &&& p is Ok && init::versioned(p->Ok_0).contains('\0') ==> step == InitStep::Done(
                Err(Error::Init(22)),
            ) && st2.outcome == Some(Err::<(), i32>(22))
            &&& p is Ok && !init::versioned(p->Ok_0).contains('\0') ==> step is Open
                && step->Open_0@ == init::versioned(p->Ok_0) && st2 == st
        },
{
}

/// Splitting a time loses nothing, and leaves less than a second of nanoseconds.
pub proof fn law_split_time_is_the_same(ns: int, sec: int, nsec: int)
    requires
        0 <= ns,
    ensures
        init::joined_ns(init::split_ns(ns).0, init::split_ns(ns).1) == ns,
        0 <= init::split_ns(ns).1 < 1_000_000_000,
        0 <= nsec < 1_000_000_000 ==> init::split_ns(init::joined_ns(sec, nsec)) == (sec, nsec),
{
}

/// An attempt to open the file that did not find it unfit ends initialization, with its
/// own result. A file that does not fit is removed and the attempt repeated, three
/// times; the fourth such file ends it with an error.
pub proof fn law_unfit_file_is_replaced_three_times(st: Startup, attempt: Result<(), i32>)
    requires
        st.outcome is None,
        st.stale < 4,
    ensures
        attempt != Err::<(), i32>(116) ==> {
            let (st2, step) = init::opening(st, attempt);
            &&& st2.outcome == Some(attempt)
            &&& st2.stale == st.stale
            &&& step is Done
            &&& attempt is Ok ==> step->Done_0 == Ok::<(), Error>(())
            &&& attempt is Err ==> step->Done_0 == Err::<(), Error>(Error::Init(attempt->Err_0))
        },
        attempt == Err::<(), i32>(116) && st.stale < 3 ==> {
            let (st2, step) = init::opening(st, attempt);
            &&& st2.outcome is None
            &&& st2.stale == st.stale + 1
            &&& step is Retry
        },
        attempt == Err::<(), i32>(116) && st.stale == 3 ==> {
            let (st2, step) = init::opening(st, attempt);
            &&& st2.outcome == Some(Err::<(), i32>(116))
            &&& step is GiveUp
            &&& step->GiveUp_0 == Error::Init(116)
        },
{
}

/// A file of no bytes is new, one of the size of a region is old, and any other is unfit.
pub proof fn law_size_tells_new_from_old(size: i64, wanted: usize)
    ensures
        size == 0 ==> init::fit(size, wanted) == Ok::<bool, i32>(true),
        size > 0 && size == wanted ==> init::fit(size, wanted) == Ok::<bool, i32>(false),
        size < 0 || size > 0 && size != wanted ==> init::fit(size, wanted) == Err::<bool, i32>(
            116,
        ),
{
}

/// Ending the opening of a file undoes what was done and no more: what is open is
/// closed, what is locked is unlocked, and what is mapped is unmapped, unless the region
/// is taken into use.
pub open spec fn undone(state: MapState, result: Result<(), i32>) -> MapAction {
    match state {
        MapState::Start => MapAction::Finish { unmap: false, unlock: false, close: false, result },
        MapState::Opening => MapAction::Finish {
            unmap: false,
            unlock: false,
            close: false,
            result,
        },
        MapState::Locking => MapAction::Finish { unmap: false, unlock: false, close: true, result },
        MapState::Sizing => MapAction::Finish { unmap: false, unlock: true, close: true, result },
        MapState::Growing => MapAction::Finish { unmap: false, unlock: true, close: true, result },
        MapState::Mapping { .. } => MapAction::Finish {
            unmap: false,
            unlock: true,
            close: true,
            result,
        },
        MapState::LayingOut => MapAction::Finish {
            unmap: result is Err,
            unlock: true,
            close: true,
            result,
        },
        MapState::Inspecting => MapAction::Finish {
            unmap: result is Err,
            unlock: true,
            close: true,
            result,
        },
        MapState::Over => MapAction::Finish { unmap: false, unlock: false, close: false, result },
    }
}

/// Whatever fails ends the opening of a file with its own error number, and what was
/// done is undone.
pub proof fn law_failure_is_passed_on(state: MapState, e: i32, wanted: usize)
    ensures
        state.next(MapEvent::Failed(e), wanted).0 == MapState::Over,
        state.next(MapEvent::Failed(e), wanted).1 == undone(state, Err(e)),
{
}

/// An answer that is none ends the opening of a file as one of an unfit file does.
pub proof fn law_no_answer_is_unfit(state: MapState, e: MapEvent, wanted: usize)
    requires
        !(e is Failed),
        ({
            ||| state is Sizing && !(e is Size)
            ||| state is Inspecting && e != MapEvent::Header(true)
            ||| state is Over
        }),
    ensures
        state.next(e, wanted).0 == MapState::Over,
        state.next(e, wanted).1 == undone(state, Err(116)),
{
}

/// A new file is opened, locked, sized, grown, mapped and laid out, in this order, and
/// then stays mapped, unlocked and closed; `e` is any answer but a failure.
pub proof fn law_new_file_is_laid_out(e: MapEvent, wanted: usize)
    requires
        !(e is Failed),
    ensures
        ({
            let (s1, a1) = MapState::Start.next(e, wanted);
            let (s2, a2) = s1.next(e, wanted);
            let (s3, a3) = s2.next(e, wanted);
            let (s4, a4) = s3.next(MapEvent::Size(0), wanted);
            let (s5, a5) = s4.next(e, wanted);
            let (s6, a6) = s5.next(e, wanted);
            let (s7, a7) = s6.next(e, wanted);
            &&& a1 == MapAction::Open
            &&& a2 == MapAction::Lock
            &&& a3 == MapAction::Stat
            &&& a4 == MapAction::Grow
            &&& a5 == MapAction::Attach
            &&& a6 == MapAction::Layout
            &&& a7 == (MapAction::Finish {
                unmap: false,
                unlock: true,
                close: true,
                result: Ok(()),
            })
        }),
{
}

/// An old file is opened, locked, sized, mapped and inspected, in this order. It is
/// taken into use exactly if it has the size of a region and the header of one; it is
/// never laid out. `e` is any answer but a failure.
pub proof fn law_old_file_is_inspected(e: MapEvent, size: i64, wanted: usize, fits: bool)
    requires
        size != 0,
        !(e is Failed),
    ensures
        ({
            let (s1, a1) = MapState::Start.next(e, wanted);
            let (s2, a2) = s1.next(e, wanted);
            let (s3, a3) = s2.next(e, wanted);
            let (s4, a4) = s3.next(MapEvent::Size(size), wanted);
            let (s5, a5) = s4.next(e, wanted);
            let (s6, a6) = s5.next(MapEvent::Header(fits), wanted);
            &&& a1 == MapAction::Open
            &&& a2 == MapAction::Lock
            &&& a3 == MapAction::Stat
            &&& size == wanted ==> a4 == MapAction::Attach && a5 == MapAction::Inspect && a6
                == if fits {
                MapAction::Finish { unmap: false, unlock: true, close: true, result: Ok(()) }
            } else {
                MapAction::Finish { unmap: true, unlock: true, close: true, result: Err(116) }
            }
            &&& size != wanted ==> a4 == (MapAction::Finish {
                unmap: false,
                unlock: true,
                close: true,
                result: Err(116),
            })
        }),
{
}

/// The region holds the header, then 16384 slots, then 8192 nodes, and nothing between.
pub proof fn law_region_holds_its_parts(header_size: int, slot_size: int, node_size: int)
    ensures
        init::pool_at(header_size, slot_size) == header_size + 16384 * slot_size,
        init::region_bytes(header_size, slot_size, node_size) == init::pool_at(
            header_size,
            slot_size,
        ) + 8192 * node_size,
{
}

/// A header is that of a region exactly if all four of its marks are right.
pub proof fn law_header_has_four_marks(h: Header)
    ensures
        region::header_valid(h) <==> h.magic == 0x6E7473796E635F75 && h.version == 9 && h.capacity
            == 16384 && h.node_capacity == 8192,
{
}

/// The lock is held after success, and after its last holder has died with it, which is
/// then to be repaired. A wait for it that ran out of time or was interrupted is
/// repeated, as often as it takes; any other failure is final. The time spent is what
/// ran out, five seconds each time.
pub proof fn law_lock_is_taken_over_from_the_dead(p: LockProgress, c: CallerView, ret: i32)
    requires
        c.stats.len() == 13,
    ensures
        ({
            let q = init::attempted(p, ret);
            let step = init::lock_answer(ret, q.waited);
            let c2 = init::lock_counted(c, ret, q.tries);
            &&& ret == 0 ==> step == (LockStep::Acquired { recover: false })
            &&& ret == 130 ==> step == (LockStep::Acquired { recover: true })
            &&& ret == 110 ==> step == (LockStep::Blocked { waited: q.waited })
            &&& ret == 4 ==> step is Retry
            &&& ret != 0 && ret != 130 && ret != 110 && ret != 4 ==> step == LockStep::Failed(
                Error::Init(ret),
            )
            &&& p.tries < u32::MAX ==> q.tries == p.tries + 1
            &&& p.tries == u32::MAX ==> q.tries == u32::MAX
            &&& ret == 110 && p.waited + 5 <= u64::MAX ==> q.waited == p.waited + 5
            &&& ret == 110 && p.waited + 5 > u64::MAX ==> q.waited == u64::MAX
            &&& ret != 110 ==> q.waited == p.waited
            &&& c2 == (CallerView { stats: c2.stats, ..c })
            &&& c2.stats.len() == 13
            &&& forall|k: int|
                0 <= k < 13 ==> #[trigger] c2.stats[k] == if (ret == 0 || ret == 130) && (k == 4
                    || k == 5 && p.tries >= 1) {
                    (c.stats[k] + 1) % 0x1_0000_0000_0000_0000
                } else {
                    c.stats[k] as int
                }
        }),
{
}

/// A switch is off if it is absent, empty or "0", and on else.
pub proof fn law_switch_is_off_by_zero(v: Seq<u8>)
    ensures
        !init::switched_on(None),
        init::switched_on(Some(v)) <==> v.len() > 1 || v.len() == 1 && v[0] != 48,
{
    if v.len() == 1 && v[0] == 48 {
        assert(v =~= init::zero_text());
    }
}

/// Ten to the power `n`.
pub open spec fn ten_to(n: nat) -> nat
    decreases n,
{
    if n == 0 {
        1
    } else {
        10 * ten_to((n - 1) as nat)
    }
}

/// A digit counts ten times as much for each digit behind it: the number of a text is
/// that of its front part, followed by zeros, and that of its rest.
pub proof fn law_digits_have_places(s: Seq<u8>, t: Seq<u8>)
    requires
        forall|i: int| 0 <= i < s.len() ==> 48 <= #[trigger] s[i] <= 57,
        forall|i: int| 0 <= i < t.len() ==> 48 <= #[trigger] t[i] <= 57,
    ensures
        init::decimal(s + t) == init::decimal(s) * ten_to(t.len()) + init::decimal(t),
        s.len() == 1 ==> init::decimal(s) == s[0] - 48,
    decreases t.len(),
{
    if s.len() == 1 {
        assert(s.drop_last() =~= Seq::empty());
        assert(init::decimal(s.drop_last()) == 0);
        assert(s.last() == s[0]);
    }
    if t.len() == 0 {
        assert(s + t =~= s);
        assert(init::decimal(s) * 1 == init::decimal(s));
    } else {
        let r = t.drop_last();
        assert((s + t).drop_last() =~= s + r);
        assert((s + t).last() == t.last());
        assert(t.last() == t[t.len() - 1]);
        law_digits_have_places(s, r);
        let a = init::decimal(s);
        let p = ten_to(r.len());
        assert((a * p) * 10 == a * (10 * p)) by (nonlinear_arith);
    }
}

/// A text is read as a number exactly if it is digits, after a plus sign or not, and the
/// number is in range.
pub proof fn law_number_is_read(s: Seq<u8>)
    ensures
        s.len() == 0 ==> init::parsed(s) is None,
        s.len() > 0 && (forall|i: int| 0 <= i < s.len() ==> 48 <= #[trigger] s[i] <= 57) ==> {
            &&& init::parsed(s) == if init::decimal(s) <= u64::MAX {
                Some(init::decimal(s) as u64)
            } else {
                None
            }
            &&& init::parsed(seq![43u8] + s) == init::parsed(s)
        },
        s.len() > 0 && !(48 <= s[0] <= 57) && s[0] != 43 ==> init::parsed(s) is None,
        (exists|i: int| 1 <= i < s.len() && !(48 <= #[trigger] s[i] <= 57)) ==> init::parsed(
            s,
        ) is None,
        s == seq![43u8] ==> init::parsed(s) is None,
{
    let t = seq![43u8] + s;
    if s.len() > 0 {
        assert(t.skip(1) =~= s);
        if forall|i: int| 0 <= i < s.len() ==> 48 <= #[trigger] s[i] <= 57 {
            assert(s[0] != 43);
            assert(init::unsigned(s) == s);
            assert(init::unsigned(t) == s);
        }
        if exists|i: int| 1 <= i < s.len() && !(48 <= #[trigger] s[i] <= 57) {
            let i = choose|i: int| 1 <= i < s.len() && !(48 <= #[trigger] s[i] <= 57);
            let u = init::unsigned(s);
            if s[0] == 43 {
                assert(u[i - 1] == s[i]);
            } else {
                assert(u[i] == s[i]);
            }
        }
        if !(48 <= s[0] <= 57) {
            let u = init::unsigned(s);
            if s[0] != 43 || s.len() == 1 {
                assert(u[0] == s[0]);
            }
        }
    }
}

/// A futex sleep that was woken gives 0, and any other its error number, negated.
pub proof fn law_sleep_result_is_negated(ret: i64, errno: i32)
    ensures
        ret == 0 ==> init::slept_result(ret, errno) == 0,
        ret != 0 ==> init::slept_result(ret, errno) + errno == 0,
{
}

} // verus!
