//! Finding, opening and laying out the shared region, and the settings that
//! the environment gives.
use crate::caller::{Caller, CallerView};
use crate::errno::{
    os_einval, os_eintr, os_eownerdead, os_estale, os_etimedout, EINTR, EINVAL, EOWNERDEAD, ESTALE,
    ETIMEDOUT,
};
use crate::error::Error;
use crate::region::NODE_COUNT;
use crate::stats::{bump, LOCK_ACQ, LOCK_CONTENDED};
use crate::word::SLOT_COUNT;
use vstd::prelude::*;
use vstd::string::{StrSliceExecFns, StringExecFns};

verus! {

/// How often a region file that does not fit is replaced before giving up.
pub const OPEN_TRIES: u32 = 4;

/// The characters of a string that may be absent.
pub open spec fn chars(s: Option<&str>) -> Option<Seq<char>> {
    match s {
        Some(s) => Some(s@),
        None => None,
    }
}

/// Whether a setting is present and not empty.
pub open spec fn given(s: Option<Seq<char>>) -> bool {
    s matches Some(s) && s.len() > 0
}

/// The path of the region: the explicit one, else the one that `$NTSYNC_SHM`
/// gives, else a file in `$TMPDIR`.
pub open spec fn resolved(
    path: Option<Seq<char>>,
    shm: Option<Seq<char>>,
    tmpdir: Option<Seq<char>>,
) -> Result<Seq<char>, i32> {
    if path is Some {
        Ok(path->0)
    } else if given(shm) {
        Ok(shm->0)
    } else if given(tmpdir) {
        Ok(tmpdir->0 + "/ntsync_userspace.shm"@)
    } else {
        Err(EINVAL)
    }
}

/// Resolves the path of the region from the explicit path and the values of
/// `$NTSYNC_SHM` and `$TMPDIR`.
pub fn resolve_path(path: Option<&str>, shm: Option<&str>, tmpdir: Option<&str>) -> (res: Result<
    String,
    i32,
>)
    ensures
        match resolved(chars(path), chars(shm), chars(tmpdir)) {
            Ok(p) => res matches Ok(s) && s@ == p,
            Err(e) => res == Err::<String, i32>(e),
        },
{
    if let Some(p) = path {
        return Ok(p.to_owned());
    }
    if let Some(shm) = shm {
        if !shm.is_empty() {
            return Ok(shm.to_owned());
        }
    }
    if let Some(tmp) = tmpdir {
        if !tmp.is_empty() {
            let mut s = tmp.to_owned();
            s.append("/ntsync_userspace.shm");
            return Ok(s);
        }
    }
    Err(os_einval())
}

/// The file that holds the region for path `p`: the layout version is part of
/// its name, before the extension if that is ".shm", so that distinct layouts
/// never share a file.
pub open spec fn versioned(p: Seq<char>) -> Seq<char> {
    if shm_extension(p) {
        p.take(p.len() - 4) + ".v9.shm"@
    } else {
        p + ".v9"@
    }
}

/// Whether a path ends in ".shm".
fn has_shm_extension(p: &str) -> (b: bool)
    ensures
        b == shm_extension(p@),
{
    let n = p.unicode_len();
    if n < 4 {
        return false;
    }
    proof {
        reveal_strlit(".shm");
    }
    let b = p.get_char(n - 4) == '.' && p.get_char(n - 3) == 's' && p.get_char(n - 2) == 'h'
        && p.get_char(n - 1) == 'm';
    proof {
        let t = p@.skip(p@.len() - 4);
        assert(t[0] == p@[n - 4] && t[1] == p@[n - 3] && t[2] == p@[n - 2] && t[3] == p@[n - 1]);
        if b {
            assert(t =~= ".shm"@);
        }
    }
    b
}

/// The file that holds the region for path `p`.
pub fn versioned_path(p: &str) -> (s: String)
    ensures
        s@ == versioned(p@),
{
    if has_shm_extension(p) {
        let n = p.unicode_len();
        let mut s = p.substring_char(0, n - 4).to_owned();
        s.append(".v9.shm");
        assert(p@.take(p@.len() - 4) =~= p@.subrange(0, p@.len() - 4));
        s
    } else {
        let mut s = p.to_owned();
        s.append(".v9");
        s
    }
}

/// Whether a path ends in ".shm".
pub open spec fn shm_extension(p: Seq<char>) -> bool {
    p.len() >= 4 && p.skip(p.len() - 4) == ".shm"@
}

proof fn lemma_versioned(p: Seq<char>)
    ensures
        ({
            let v = versioned(p);
            &&& v.len() == p.len() + 3
            &&& shm_extension(p) ==> v.last() == 'm' && p == v.take(p.len() - 4) + ".shm"@
            &&& !shm_extension(p) ==> v.last() == '9' && p == v.take(p.len() as int)
        }),
{
    reveal_strlit(".shm");
    reveal_strlit(".v9.shm");
    reveal_strlit(".v9");
    let v = versioned(p);
    if shm_extension(p) {
        assert(p =~= p.take(p.len() - 4) + p.skip(p.len() - 4));
        assert(v.take(p.len() - 4) =~= p.take(p.len() - 4));
    } else {
        assert(p =~= v.take(p.len() as int));
    }
}

/// Distinct paths have distinct region files.
pub proof fn law_versioned_path_tells_paths_apart(p: Seq<char>, q: Seq<char>)
    requires
        versioned(p) == versioned(q),
    ensures
        p == q,
{
    lemma_versioned(p);
    lemma_versioned(q);
}

/// Whether a path holds a NUL character, which no file name can.
fn has_nul(p: &str) -> (b: bool)
    ensures
        b == p@.contains('\0'),
{
    let n = p.unicode_len();
    let mut i: usize = 0;
    while i < n
        invariant
            i <= n,
            n == p@.len(),
            forall|k: int| 0 <= k < i ==> p@[k] != '\0',
        decreases n - i,
    {
        if p.get_char(i) == '\0' {
            assert(p@[i as int] == '\0');
            return true;
        }
        i = i + 1;
    }
    false
}

/// How far initialization has got.
pub struct Startup {
    /// Its result, once there is one.
    pub outcome: Option<Result<(), i32>>,
    /// How many files that did not fit were found.
    pub stale: u32,
}

/// What is to be done to initialize.
pub enum InitStep {
    /// Nothing more: this is the result.
    Done(Result<(), Error>),
    /// Open the region file.
    Open(String),
}

/// What is to be done after an attempt to open the region file.
pub enum OpenStep {
    /// Nothing more: this is the result.
    Done(Result<(), Error>),
    /// Remove the file, and try again.
    Retry,
    /// Remove the file, and give up with this error.
    GiveUp(Error),
}

/// The result that callers of `init` see.
pub open spec fn seen(outcome: Result<(), i32>) -> Result<(), Error> {
    match outcome {
        Ok(_) => Ok(()),
        Err(e) => Err(Error::Init(e)),
    }
}

impl Startup {
    /// Nothing was tried yet.
    pub fn new() -> (s: Startup)
        ensures
            s.outcome is None,
            s.stale == 0,
    {
        Startup { outcome: None, stale: 0 }
    }

    /// Ends initialization with result `outcome`.
    fn settle(&mut self, outcome: Result<(), i32>) -> (res: Result<(), Error>)
        ensures
            *final(self) == (Startup { outcome: Some(outcome), ..*old(self) }),
            res == seen(outcome),
    {
        self.outcome = Some(outcome);
        match outcome {
            Ok(()) => Ok(()),
            Err(e) => Err(Error::Init(e)),
        }
    }
}

/// What initialization comes to: the result of an earlier one, an error, or a file to be
/// opened.
pub open spec fn init_call(
    st: Startup,
    path: Option<Seq<char>>,
    shm: Option<Seq<char>>,
    tmpdir: Option<Seq<char>>,
    st2: Startup,
    step: InitStep,
) -> bool {
    match st.outcome {
        Some(outcome) => step == InitStep::Done(seen(outcome)) && st2 == st,
        None => match resolved(path, shm, tmpdir) {
            Ok(p) if !versioned(p).contains('\0') => {
                &&& step matches InitStep::Open(file) && file@ == versioned(p)
                &&& st2 == st
            },
            Ok(_) => {
                &&& step == InitStep::Done(Err(Error::Init(EINVAL)))
                &&& st2 == (Startup { outcome: Some(Err(EINVAL)), stale: st.stale })
            },
            Err(e) => {
                &&& step == InitStep::Done(Err(Error::Init(e)))
                &&& st2 == (Startup { outcome: Some(Err(e)), stale: st.stale })
            },
        },
    }
}

/// Initializes the library, with the region at `path` or else where the values
/// of `$NTSYNC_SHM` and `$TMPDIR` say. Only the first call matters: later ones
/// give its result.
pub fn init(
    st: &mut Startup,
    path: Option<&str>,
    shm: Option<&str>,
    tmpdir: Option<&str>,
) -> (step: InitStep)
    ensures
        match old(st).outcome {
            Some(outcome) => step == InitStep::Done(seen(outcome)) && *final(st) == *old(st),
            None => match resolved(chars(path), chars(shm), chars(tmpdir)) {
                Err(e) => {
                    &&& step == InitStep::Done(Err(Error::Init(e)))
                    &&& *final(st) == (Startup { outcome: Some(Err(e)), ..*old(st) })
                },
                Ok(p) => if versioned(p).contains('\0') {
                    &&& step == InitStep::Done(Err(Error::Init(EINVAL)))
                    &&& *final(st) == (Startup { outcome: Some(Err(EINVAL)), ..*old(st) })
                } else {
                    &&& step matches InitStep::Open(file) && file@ == versioned(p)
                    &&& *final(st) == *old(st)
                },
            },
        },
        init_call(*old(st), chars(path), chars(shm), chars(tmpdir), *final(st), step),
{
    if let Some(outcome) = st.outcome {
        return InitStep::Done(st.settle(outcome));
    }
    match resolve_path(path, shm, tmpdir) {
        Err(e) => InitStep::Done(st.settle(Err(e))),
        Ok(p) => {
            let file = versioned_path(p.as_str());
            if has_nul(file.as_str()) {
                InitStep::Done(st.settle(Err(os_einval())))
            } else {
                InitStep::Open(file)
            }
        },
    }
}

/// Where initialization stands after an attempt to open the region file, and what is to
/// be done.
pub open spec fn opening(st: Startup, attempt: Result<(), i32>) -> (Startup, OpenStep) {
    if attempt != Err::<(), i32>(ESTALE) {
        (Startup { outcome: Some(attempt), stale: st.stale }, OpenStep::Done(seen(attempt)))
    } else if st.stale + 1 < OPEN_TRIES {
        (Startup { outcome: None, stale: (st.stale + 1) as u32 }, OpenStep::Retry)
    } else {
        (
            Startup { outcome: Some(Err(ESTALE)), stale: OPEN_TRIES },
            OpenStep::GiveUp(Error::Init(ESTALE)),
        )
    }
}

/// Deals with the result of an attempt to open the region file. A file that
/// does not fit is removed, and the attempt repeated a few times: processes that
/// still have it mapped keep it, unharmed.
pub fn open_and_map(st: &mut Startup, attempt: Result<(), i32>) -> (step: OpenStep)
    requires
        old(st).outcome is None,
        old(st).stale < OPEN_TRIES,
    ensures
        attempt != Err::<(), i32>(ESTALE) ==> {
            &&& step == OpenStep::Done(seen(attempt))
            &&& *final(st) == (Startup { outcome: Some(attempt), ..*old(st) })
        },
        attempt == Err::<(), i32>(ESTALE) && old(st).stale + 1 < OPEN_TRIES ==> {
            &&& step is Retry
            &&& *final(st) == (Startup { outcome: None, stale: (old(st).stale + 1) as u32 })
        },
        attempt == Err::<(), i32>(ESTALE) && old(st).stale + 1 == OPEN_TRIES ==> {
            &&& step == OpenStep::GiveUp(Error::Init(ESTALE))
            &&& *final(st) == (Startup { outcome: Some(Err(ESTALE)), stale: OPEN_TRIES })
        },
        (*final(st), step) == opening(*old(st), attempt),
{
    let stale = match attempt {
        Err(e) => e == os_estale(),
        Ok(()) => false,
    };
    if !stale {
        return OpenStep::Done(st.settle(attempt));
    }
    st.stale = st.stale + 1;
    if st.stale < OPEN_TRIES {
        return OpenStep::Retry;
    }
    let e = os_estale();
    let _ = st.settle(Err(e));
    OpenStep::GiveUp(Error::Init(e))
}

/// Where the waiter pool starts in the region.
pub open spec fn pool_at(header_size: int, slot_size: int) -> int {
    header_size + SLOT_COUNT * slot_size
}

/// How many bytes the region takes.
pub open spec fn region_bytes(header_size: int, slot_size: int, node_size: int) -> int {
    header_size + SLOT_COUNT * slot_size + NODE_COUNT * node_size
}

/// Offset of the waiter pool in the region, given the sizes of the header and
/// of a slot.
pub fn nodes_offset(header_size: usize, slot_size: usize) -> (n: usize)
    requires
        header_size + SLOT_COUNT * slot_size <= usize::MAX,
    ensures
        n == header_size + SLOT_COUNT * slot_size,
        n == pool_at(header_size as int, slot_size as int),
{
    assert(SLOT_COUNT as int * slot_size >= 0) by (nonlinear_arith)
        requires
            SLOT_COUNT >= 0,
            slot_size >= 0,
    ;
    header_size + SLOT_COUNT as usize * slot_size
}

/// Size of the region, given the sizes of the header, of a slot and of a node.
pub fn region_size(header_size: usize, slot_size: usize, node_size: usize) -> (n: usize)
    requires
        header_size + SLOT_COUNT * slot_size + NODE_COUNT * node_size <= usize::MAX,
    ensures
        n == header_size + SLOT_COUNT * slot_size + NODE_COUNT * node_size,
        n == region_bytes(header_size as int, slot_size as int, node_size as int),
{
    assert(NODE_COUNT as int * node_size >= 0) by (nonlinear_arith)
        requires
            NODE_COUNT >= 0,
            node_size >= 0,
    ;
    nodes_offset(header_size, slot_size) + NODE_COUNT as usize * node_size
}

/// Whether a region file of `size` bytes is new and has to be laid out, when a
/// region takes `wanted` bytes. A file of any other size does not fit.
pub open spec fn fit(size: i64, wanted: usize) -> Result<bool, i32> {
    if size == 0 {
        Ok(true)
    } else if size == wanted {
        Ok(false)
    } else {
        Err(ESTALE)
    }
}

/// Whether a region file of `size` bytes is new and has to be laid out.
pub fn needs_layout(size: i64, wanted: usize) -> (res: Result<bool, i32>)
    ensures
        res == fit(size, wanted),
{
    if size == 0 {
        Ok(true)
    } else if size > 0 && size as u64 == wanted as u64 {
        Ok(false)
    } else {
        Err(os_estale())
    }
}

/// How the opening of a region file stands: what was asked for last.
#[derive(Debug, Clone, Copy, PartialEq, Eq, Structural)]
pub enum MapState {
    /// Nothing yet.
    Start,
    /// To open the file.
    Opening,
    /// To lock it, so that one process at a time lays it out.
    Locking,
    /// To tell its size.
    Sizing,
    /// To give a new file its full size.
    Growing,
    /// To map it; `fresh` tells that it is new.
    Mapping { fresh: bool },
    /// To lay out a new region.
    LayingOut,
    /// To look at the header of an existing region.
    Inspecting,
    /// Nothing more.
    Over,
}

/// What came of the last thing that was asked for.
#[derive(Debug, Clone, Copy, PartialEq, Eq, Structural)]
pub enum MapEvent {
    /// It was done.
    Did,
    /// It failed with this error number.
    Failed(i32),
    /// The file has this size.
    Size(i64),
    /// The header is, or is not, that of a region of this library.
    Header(bool),
}

/// What is asked for next.
#[derive(Debug, Clone, Copy, PartialEq, Eq)]
pub enum MapAction {
    Open,
    Lock,
    Stat,
    Grow,
    Attach,
    Layout,
    Inspect,
    /// Undo what is listed, and end with this result.
    Finish { unmap: bool, unlock: bool, close: bool, result: Result<(), i32> },
}

impl MapState {
    /// Whether the file is open.
    pub open spec fn opened(self) -> bool {
        !(self is Start || self is Opening || self is Over)
    }

    /// Whether the file is locked.
    pub open spec fn locked(self) -> bool {
        self.opened() && !(self is Locking)
    }

    /// Whether the file is mapped.
    pub open spec fn mapped(self) -> bool {
        self is LayingOut || self is Inspecting
    }

    /// How the opening ends here. The file is unlocked and closed, and stays
    /// mapped only on success.
    pub open spec fn ends(self, result: Result<(), i32>) -> (MapState, MapAction) {
        (
            MapState::Over,
            MapAction::Finish {
                unmap: self.mapped() && result is Err,
                unlock: self.locked(),
                close: self.opened(),
                result,
            },
        )
    }

    /// What comes after `event`, for regions of `wanted` bytes.
    pub open spec fn next(self, event: MapEvent, wanted: usize) -> (MapState, MapAction) {
        match (self, event) {
            (_, MapEvent::Failed(e)) => self.ends(Err(e)),
            (MapState::Start, _) => (MapState::Opening, MapAction::Open),
            (MapState::Opening, _) => (MapState::Locking, MapAction::Lock),
            (MapState::Locking, _) => (MapState::Sizing, MapAction::Stat),
            (MapState::Sizing, MapEvent::Size(size)) => match fit(size, wanted) {
                Ok(true) => (MapState::Growing, MapAction::Grow),
                Ok(false) => (MapState::Mapping { fresh: false }, MapAction::Attach),
                Err(e) => self.ends(Err(e)),
            },
            (MapState::Growing, _) => (MapState::Mapping { fresh: true }, MapAction::Attach),
            (MapState::Mapping { fresh: true }, _) => (MapState::LayingOut, MapAction::Layout),
            (MapState::Mapping { fresh: false }, _) => (MapState::Inspecting, MapAction::Inspect),
            (MapState::LayingOut, _) => self.ends(Ok(())),
            (MapState::Inspecting, MapEvent::Header(true)) => self.ends(Ok(())),
            (_, _) => self.ends(Err(ESTALE)),
        }
    }
}

/// Ends the opening of a region file.
fn end_mapping(state: MapState, result: Result<(), i32>) -> (res: (MapState, MapAction))
    ensures
        res == state.ends(result),
{
    let opened = match state {
        MapState::Start | MapState::Opening | MapState::Over => false,
        _ => true,
    };
    let locked = match state {
        MapState::Locking => false,
        _ => opened,
    };
    let mapped = match state {
        MapState::LayingOut | MapState::Inspecting => true,
        _ => false,
    };
    let failed = match result {
        Ok(()) => false,
        Err(_) => true,
    };
    (
        MapState::Over,
        MapAction::Finish { unmap: mapped && failed, unlock: locked, close: opened, result },
    )
}

/// Opens and maps a region file, step by step: says what is to be done next,
/// given what came of the last thing. A file that is neither new nor a region of
/// this library ends it with `ESTALE`.
pub fn try_open_and_map(state: MapState, event: MapEvent, wanted: usize) -> (res: (
    MapState,
    MapAction,
))
    ensures
        res == state.next(event, wanted),
{
    if let MapEvent::Failed(e) = event {
        return end_mapping(state, Err(e));
    }
    match state {
        MapState::Start => (MapState::Opening, MapAction::Open),
        MapState::Opening => (MapState::Locking, MapAction::Lock),
        MapState::Locking => (MapState::Sizing, MapAction::Stat),
        MapState::Sizing => match event {
            MapEvent::Size(size) => match needs_layout(size, wanted) {
                Ok(true) => (MapState::Growing, MapAction::Grow),
                Ok(false) => (MapState::Mapping { fresh: false }, MapAction::Attach),
                Err(e) => end_mapping(state, Err(e)),
            },
            _ => end_mapping(state, Err(os_estale())),
        },
        MapState::Growing => (MapState::Mapping { fresh: true }, MapAction::Attach),
        MapState::Mapping { fresh: true } => (MapState::LayingOut, MapAction::Layout),
        MapState::Mapping { fresh: false } => (MapState::Inspecting, MapAction::Inspect),
        MapState::LayingOut => end_mapping(state, Ok(())),
        MapState::Inspecting => match event {
            MapEvent::Header(true) => end_mapping(state, Ok(())),
            _ => end_mapping(state, Err(os_estale())),
        },
        MapState::Over => end_mapping(state, Err(os_estale())),
    }
}

/// Where the opening of a region file stands after `events`, and what was asked
/// for last.
pub open spec fn mapping_run(events: Seq<MapEvent>, wanted: usize) -> (MapState, MapAction)
    decreases events.len(),
{
    if events.len() == 0 {
        MapState::Start.next(MapEvent::Did, wanted)
    } else {
        mapping_run(events.drop_last(), wanted).0.next(events.last(), wanted)
    }
}

/// The file is laid out only if it was new, and mapped only once it was locked
/// and found to have the right size.
pub proof fn law_layout_only_of_new_file(state: MapState, event: MapEvent, wanted: usize)
    ensures
        state.next(event, wanted).1 == MapAction::Layout ==> state == (MapState::Mapping {
            fresh: true,
        }),
        state.next(event, wanted).0 == (MapState::Mapping { fresh: true }) ==> state
            == MapState::Growing,
        state.next(event, wanted).0 == MapState::Growing ==> event == MapEvent::Size(0),
        state.next(event, wanted).0 == (MapState::Mapping { fresh: false }) ==> {
            &&& event matches MapEvent::Size(size) && size == wanted && size != 0
            &&& state.locked()
        },
{
}

/// Opening a region file takes at most six answers, whatever they are.
pub proof fn law_mapping_ends(events: Seq<MapEvent>, wanted: usize)
    requires
        events.len() >= 6,
    ensures
        mapping_run(events, wanted).1 is Finish,
{
    lemma_mapping_rank(events, wanted);
}

spec fn rank(state: MapState) -> nat {
    match state {
        MapState::Start => 0,
        MapState::Opening => 1,
        MapState::Locking => 2,
        MapState::Sizing => 3,
        MapState::Growing => 4,
        MapState::Mapping { .. } => 5,
        MapState::LayingOut => 6,
        MapState::Inspecting => 6,
        MapState::Over => 7,
    }
}

proof fn lemma_mapping_rank(events: Seq<MapEvent>, wanted: usize)
    ensures
        ({
            let (state, action) = mapping_run(events, wanted);
            &&& rank(state) >= if events.len() < 6 {
                events.len() + 1
            } else {
                7
            }
            &&& state is Over <==> action is Finish
        }),
    decreases events.len(),
{
    if events.len() > 0 {
        lemma_mapping_rank(events.drop_last(), wanted);
    }
}

/// A region file that was not taken into use is left neither open, nor locked,
/// nor mapped; one that was stays mapped only.
pub proof fn law_mapping_cleans_up(state: MapState, event: MapEvent, wanted: usize)
    requires
        state.next(event, wanted).1 is Finish,
    ensures
        state.next(event, wanted).1 matches MapAction::Finish { unmap, unlock, close, result } && {
            &&& close == state.opened()
            &&& unlock == state.locked()
            &&& unmap == (state.mapped() && result is Err)
            &&& result is Ok ==> state.mapped()
        },
{
}

/// A region file is taken into use exactly if everything that was asked for was
/// done, and the file was new or held a region of this library.
pub proof fn law_mapping_succeeds(state: MapState, event: MapEvent, wanted: usize)
    requires
        !(state is Over),
    ensures
        (state.next(event, wanted).1 matches MapAction::Finish { result, .. } && result is Ok)
            <==> {
            ||| state is LayingOut && !(event is Failed)
            ||| state is Inspecting && event == MapEvent::Header(true)
        },
{
}

/// Seconds after which an attempt to take the region lock gives up and reports
/// who holds it, with diagnostics on.
pub const LOCK_POLL_SEC: u64 = 5;

/// How the taking of the region lock stands.
pub struct LockProgress {
    /// Attempts made.
    pub tries: u32,
    /// Seconds spent in attempts that ran out of time.
    pub waited: u64,
}

/// What an attempt to take the region lock means.
pub enum LockStep {
    /// The lock is held; `recover` tells that its last holder died with it.
    Acquired { recover: bool },
    /// Somebody has held the lock for `waited` seconds; report that and try
    /// again.
    Blocked { waited: u64 },
    /// Try again.
    Retry,
    /// The lock cannot be had.
    Failed(Error),
}

impl LockProgress {
    /// No attempt was made yet.
    pub fn new() -> (p: LockProgress)
        ensures
            p.tries == 0,
            p.waited == 0,
    {
        LockProgress { tries: 0, waited: 0 }
    }
}

/// After one more attempt to take the region lock, which returned `ret`.
pub open spec fn attempted(p: LockProgress, ret: i32) -> LockProgress {
    LockProgress {
        tries: if p.tries < u32::MAX {
            (p.tries + 1) as u32
        } else {
            p.tries
        },
        waited: if ret != ETIMEDOUT {
            p.waited
        } else if p.waited + LOCK_POLL_SEC <= u64::MAX {
            (p.waited + LOCK_POLL_SEC) as u64
        } else {
            u64::MAX
        },
    }
}

/// What an attempt to take the region lock means that returned `ret`, after which
/// `waited` seconds were spent.
pub open spec fn lock_answer(ret: i32, waited: u64) -> LockStep {
    if ret == 0 {
        LockStep::Acquired { recover: false }
    } else if ret == EOWNERDEAD {
        LockStep::Acquired { recover: true }
    } else if ret == ETIMEDOUT {
        LockStep::Blocked { waited }
    } else if ret == EINTR {
        LockStep::Retry
    } else {
        LockStep::Failed(Error::Init(ret))
    }
}

/// What an attempt to take the region lock counts, when it was the `tries`-th.
pub open spec fn lock_counted(c: CallerView, ret: i32, tries: u32) -> CallerView {
    if ret != 0 && ret != EOWNERDEAD {
        c
    } else if tries > 1 {
        c.bumped(LOCK_ACQ).bumped(LOCK_CONTENDED)
    } else {
        c.bumped(LOCK_ACQ)
    }
}

/// Deals with one more attempt to take the region lock, which returned `ret`.
/// Taking it over from a holder that died counts as success.
pub fn lock_guard(p: &mut LockProgress, cx: &mut Caller, ret: i32) -> (step: LockStep)
    ensures
        *final(p) == attempted(*old(p), ret),
        ret == 0 || ret == EOWNERDEAD ==> {
            &&& step == (LockStep::Acquired { recover: ret == EOWNERDEAD })
            &&& final(cx)@ == if final(p).tries > 1 {
                old(cx)@.bumped(LOCK_ACQ).bumped(LOCK_CONTENDED)
            } else {
                old(cx)@.bumped(LOCK_ACQ)
            }
        },
        !(ret == 0 || ret == EOWNERDEAD) ==> final(cx)@ == old(cx)@,
        ret == ETIMEDOUT ==> step == (LockStep::Blocked { waited: final(p).waited }),
        ret == EINTR ==> step is Retry,
        ret != 0 && ret != EOWNERDEAD && ret != ETIMEDOUT && ret != EINTR ==> step
            == LockStep::Failed(Error::Init(ret)),
        step == lock_answer(ret, final(p).waited),
        final(cx)@ == lock_counted(old(cx)@, ret, final(p).tries),
{
    p.tries = p.tries.saturating_add(1);
    if ret == 0 || ret == os_eownerdead() {
        bump(&mut cx.stats, LOCK_ACQ);
        if p.tries > 1 {
            bump(&mut cx.stats, LOCK_CONTENDED);
        }
        return LockStep::Acquired { recover: ret == os_eownerdead() };
    }
    if ret == os_etimedout() {
        p.waited = p.waited.saturating_add(LOCK_POLL_SEC);
        return LockStep::Blocked { waited: p.waited };
    }
    if ret == os_eintr() {
        return LockStep::Retry;
    }
    LockStep::Failed(Error::Init(ret))
}

/// The result of a futex sleep.
pub open spec fn slept_result(ret: i64, errno: i32) -> int {
    if ret == 0 {
        0
    } else {
        -errno
    }
}

/// The result of a futex sleep, from what the system call returned and the error
/// number that it left: 0 or a negative error number.
pub fn futex_result(ret: i64, errno: i32) -> (res: i32)
    requires
        errno > i32::MIN,
    ensures
        res == if ret == 0 {
            0
        } else {
            -errno
        },
        res == slept_result(ret, errno),
{
    if ret == 0 {
        0
    } else {
        -errno
    }
}

/// The value "0".
pub open spec fn zero_text() -> Seq<u8> {
    seq![48u8]
}

/// Whether a setting is the text "0".
fn is_zero(v: &[u8]) -> (b: bool)
    ensures
        b == (v@ == zero_text()),
{
    let b = v.len() == 1 && v[0] == 48;
    assert(b ==> v@ =~= zero_text());
    b
}

/// The bytes of a setting that may be absent.
pub open spec fn bytes(v: Option<&[u8]>) -> Option<Seq<u8>> {
    match v {
        Some(v) => Some(v@),
        None => None,
    }
}

/// Whether a setting switches something on: it is present, not empty and not "0".
pub open spec fn switched_on(v: Option<Seq<u8>>) -> bool {
    v matches Some(v) && v.len() > 0 && v != zero_text()
}

/// Whether diagnostics are on, given the value of `$NTSYNC_DEBUG`: they are
/// unless that is absent, empty or "0".
pub fn debug_enabled(v: Option<&[u8]>) -> (on: bool)
    ensures
        on == (v matches Some(v) && v@.len() > 0 && v@ != zero_text()),
        on == switched_on(bytes(v)),
{
    match v {
        Some(v) => v.len() > 0 && !is_zero(v),
        None => false,
    }
}

/// Whether SIGUSR1 is to be deferred while the region lock is held, given the
/// value of `$NTSYNC_NO_SIGUSR1_BLOCK`: it is if that is absent, empty or "0".
pub fn sigusr1_block_enabled(v: Option<&[u8]>) -> (on: bool)
    ensures
        on == (v matches Some(v) ==> v@.len() == 0 || v@ == zero_text()),
        on == !switched_on(bytes(v)),
{
    match v {
        Some(v) => v.len() == 0 || is_zero(v),
        None => true,
    }
}

/// The number that decimal digits denote.
pub open spec fn decimal(s: Seq<u8>) -> nat
    decreases s.len(),
{
    if s.len() == 0 {
        0
    } else {
        decimal(s.drop_last()) * 10 + (s.last() - 48) as nat
    }
}

/// Whether a text is a nonempty sequence of decimal digits.
pub open spec fn all_digits(s: Seq<u8>) -> bool {
    s.len() > 0 && forall|i: int| 0 <= i < s.len() ==> 48 <= #[trigger] s[i] <= 57
}

/// A text without its leading plus sign, if it has one and more follows.
pub open spec fn unsigned(s: Seq<u8>) -> Seq<u8> {
    if s.len() > 1 && s[0] == 43 {
        s.skip(1)
    } else {
        s
    }
}

/// The number that a text denotes, if it is an optional plus sign and digits, and the
/// number is in range.
pub open spec fn parsed(s: Seq<u8>) -> Option<u64> {
    if all_digits(unsigned(s)) && decimal(unsigned(s)) <= u64::MAX {
        Some(decimal(unsigned(s)) as u64)
    } else {
        None
    }
}

/// Reads an unsigned decimal number: an optional plus sign and digits, nothing
/// else.
pub fn parse_u64(s: &[u8]) -> (res: Option<u64>)
    ensures
        match res {
            Some(n) => all_digits(unsigned(s@)) && n == decimal(unsigned(s@)),
            None => !(all_digits(unsigned(s@)) && decimal(unsigned(s@)) <= u64::MAX),
        },
        res == parsed(s@),
{
    let ghost t = unsigned(s@);
    let first: usize = if s.len() > 1 && s[0] == 43 {
        1
    } else {
        0
    };
    if s.len() == 0 {
        return None;
    }
    let mut n: u64 = 0;
    let mut i: usize = first;
    assert(t.take(0) =~= Seq::empty());
    while i < s.len()
        invariant
            first <= i <= s@.len(),
            first <= 1,
            t == unsigned(s@),
            first == if s@.len() > 1 && s@[0] == 43 {
                1int
            } else {
                0
            },
            forall|k: int| 0 <= k < i - first ==> 48 <= #[trigger] t[k] <= 57,
            n == decimal(t.take(i - first)),
        decreases s@.len() - i,
    {
        let c = s[i];
        assert(t[i - first] == c);
        if c < 48 || c > 57 {
            return None;
        }
        proof {
            let a = t.take(i + 1 - first);
            assert(a.drop_last() =~= t.take(i - first));
            assert(a.last() == c);
            lemma_decimal_grows(t, i + 1 - first);
        }
        match n.checked_mul(10) {
            Some(m) => match m.checked_add((c - 48) as u64) {
                Some(m) => {
                    n = m;
                },
                None => return None,
            },
            None => return None,
        }
        i = i + 1;
    }
    assert(t.take(t.len() as int) =~= t);
    Some(n)
}

/// More digits never denote a smaller number.
proof fn lemma_decimal_grows(s: Seq<u8>, k: int)
    requires
        0 <= k <= s.len(),
    ensures
        decimal(s.take(k)) <= decimal(s),
    decreases s.len() - k,
{
    if k == s.len() {
        assert(s.take(k) =~= s);
    } else {
        lemma_decimal_grows(s, k + 1);
        assert(s.take(k + 1).drop_last() =~= s.take(k));
    }
}

/// Seconds and nanoseconds as nanoseconds.
pub open spec fn joined_ns(sec: int, nsec: int) -> int {
    sec * 1_000_000_000 + nsec
}

/// Nanoseconds as seconds and nanoseconds.
pub open spec fn split_ns(ns: int) -> (int, int) {
    (ns / 1_000_000_000, ns % 1_000_000_000)
}

/// Seconds and nanoseconds as nanoseconds.
pub fn timespec_ns(sec: u64, nsec: u64) -> (ns: u64)
    requires
        sec * 1_000_000_000 + nsec <= u64::MAX,
    ensures
        ns == sec * 1_000_000_000 + nsec,
        ns == joined_ns(sec as int, nsec as int),
{
    sec * 1_000_000_000 + nsec
}

/// Nanoseconds as seconds and nanoseconds.
pub fn ns_timespec(ns: u128) -> (res: (u128, u32))
    ensures
        res.0 == ns / 1_000_000_000,
        res.1 == ns % 1_000_000_000,
        (res.0 as int, res.1 as int) == split_ns(ns as int),
{
    (ns / 1_000_000_000, (ns % 1_000_000_000) as u32)
}

} // verus!
