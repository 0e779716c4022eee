//! Deciding whether a set of objects satisfies a wait right now, and acquiring
//! them if so.
use crate::error::WaitOutcome;
use crate::object;
use crate::object::{is_signaled, rollback_acquire, try_acquire, SlotView};
use crate::region;
use crate::region::{put_slot, Region, RegionView};
use crate::word;
use crate::word::{handle_index, SLOT_COUNT};
use vstd::prelude::*;

verus! {

/// Most objects that one wait can name.
pub const MAX_WAIT_COUNT: usize = 64;

/// A slot that one of `handles` refers to.
pub open spec fn names(handles: Seq<u32>, j: int) -> bool {
    exists|i: int| 0 <= i < handles.len() && word::index_of(#[trigger] handles[i]) == j
}

impl RegionView {
    /// Whether a handle names an object that can be waited on.
    pub open spec fn waitable(self, handle: u32) -> bool {
        self.object_at(handle) matches Some(o) && !(o is Reserved)
    }

    /// Whether each of `handles` names an object, no two the same one.
    pub open spec fn all_waitable(self, handles: Seq<u32>) -> bool {
        &&& handles.no_duplicates()
        &&& forall|i: int| 0 <= i < handles.len() ==> self.waitable(#[trigger] handles[i])
    }

    /// The slot that a handle refers to.
    pub open spec fn slot_at(self, handle: u32) -> SlotView {
        self.slots[word::index_of(handle)]
    }

    /// After `owner` has acquired the objects that `handles` name.
    pub open spec fn acquired(self, handles: Seq<u32>, owner: u32) -> RegionView {
        RegionView {
            slots: Seq::new(
                self.slots.len(),
                |j: int|
                    if names(handles, j) {
                        self.slots[j].acquired(owner)
                    } else {
                        self.slots[j]
                    },
            ),
            ..self
        }
    }
}

/// What a wait asks for.
#[verifier::ext_equal]
pub struct Demand {
    /// The objects waited on.
    pub handles: Seq<u32>,
    /// Who waits: the owner of mutexes that get acquired.
    pub owner: u32,
    /// For each object, how many pulses it had seen when the wait started.
    pub entry: Seq<u64>,
    /// Whether all objects are needed, or any one of them.
    pub all: bool,
}

impl Demand {
    /// Whether the demand's `i`-th object could be acquired right now.
    pub open spec fn ready(self, v: RegionView, i: int) -> bool {
        v.slot_at(self.handles[i]).acquirable(self.owner, self.entry[i])
    }

    /// The first object is `i` of those that are ready (`which`), or of those
    /// that are not (`!which`).
    pub open spec fn is_first(self, v: RegionView, which: bool, i: int) -> bool {
        &&& 0 <= i < self.handles.len()
        &&& self.ready(v, i) == which
        &&& forall|j: int| 0 <= j < i ==> #[trigger] self.ready(v, j) != which
    }

    /// The first object that is ready (`which`), or that is not (`!which`).
    pub open spec fn first(self, v: RegionView, which: bool) -> Option<int> {
        if exists|i: int| self.is_first(v, which, i) {
            Some(choose|i: int| self.is_first(v, which, i))
        } else {
            None
        }
    }

    /// Whether the demand could be met right now.
    pub open spec fn satisfiable(self, v: RegionView) -> bool {
        if self.all {
            forall|i: int| 0 <= i < self.handles.len() ==> #[trigger] self.ready(v, i)
        } else {
            exists|i: int| 0 <= i < self.handles.len() && #[trigger] self.ready(v, i)
        }
    }

    /// Whether one of the objects is an abandoned mutex.
    pub open spec fn any_abandoned(self, v: RegionView) -> bool {
        exists|i: int|
            0 <= i < self.handles.len() && v.slot_at(#[trigger] self.handles[i]).is_abandoned()
    }

    /// What an attempt to meet the demand comes to. Any one object: the first
    /// that is ready is acquired, and no other touched. All objects: they are all
    /// acquired if all are ready, and else none.
    pub open spec fn attempt(self, v: RegionView) -> (RegionView, Option<WaitOutcome>) {
        if self.all {
            match self.first(v, false) {
                Some(_) => (v, None),
                None => (
                    v.acquired(self.handles, self.owner),
                    Some(WaitOutcome::Signaled { index: 0, owner_dead: self.any_abandoned(v) }),
                ),
            }
        } else {
            match self.first(v, true) {
                Some(i) => (
                    v.acquired(seq![self.handles[i]], self.owner),
                    Some(
                        WaitOutcome::Signaled {
                            index: i as u32,
                            owner_dead: v.slot_at(self.handles[i]).is_abandoned(),
                        },
                    ),
                ),
                None => (v, None),
            }
        }
    }
}

/// The first object of a kind is found by looking at them in turn.
pub proof fn lemma_first(d: Demand, v: RegionView, which: bool)
    ensures
        forall|i: int| d.is_first(v, which, i) ==> d.first(v, which) == Some(i),
        d.first(v, which) matches Some(i) ==> d.is_first(v, which, i),
        d.first(v, which) is None ==> forall|i: int|
            0 <= i < d.handles.len() ==> #[trigger] d.ready(v, i) != which,
{
    assert forall|i: int| d.is_first(v, which, i) implies d.first(v, which) == Some(i) by {
        let k = choose|k: int| d.is_first(v, which, k);
        assert(d.is_first(v, which, k));
        if i < k {
            assert(d.ready(v, i) != which);
        } else if k < i {
            assert(d.ready(v, k) != which);
        }
    }
    if d.first(v, which) is None {
        lemma_none_before(d, v, which, d.handles.len());
    }
}

proof fn lemma_none_before(d: Demand, v: RegionView, which: bool, k: nat)
    requires
        d.first(v, which) is None,
        k <= d.handles.len(),
    ensures
        forall|i: int| 0 <= i < k ==> #[trigger] d.ready(v, i) != which,
    decreases k,
{
    if k > 0 {
        lemma_none_before(d, v, which, (k - 1) as nat);
        if d.ready(v, k - 1) == which {
            assert(d.is_first(v, which, k - 1));
        }
    }
}

/// An attempt succeeds exactly if the demand could be met.
pub proof fn law_attempt_succeeds_iff_satisfiable(d: Demand, v: RegionView)
    ensures
        d.attempt(v).1 is Some <==> d.satisfiable(v),
{
    lemma_first(d, v, true);
    lemma_first(d, v, false);
    if d.all {
        if d.first(v, false) is None {
            assert forall|i: int| 0 <= i < d.handles.len() implies #[trigger] d.ready(v, i) by {}
        }
    } else if let Some(i) = d.first(v, true) {
        assert(d.ready(v, i));
    }
}

/// Handles of existing objects that refer to one slot are the same handle.
pub proof fn lemma_same_slot(v: RegionView, a: u32, b: u32)
    requires
        v.lookup(a) is Some,
        v.lookup(b) is Some,
        word::index_of(a) == word::index_of(b),
    ensures
        a == b,
{
}

proof fn lemma_names_take(handles: Seq<u32>, k: int, j: int)
    requires
        0 <= k < handles.len(),
    ensures
        names(handles.take(k + 1), j) <==> names(handles.take(k), j) || word::index_of(handles[k])
            == j,
{
    if names(handles.take(k), j) {
        let i = choose|i: int|
            0 <= i < k && word::index_of(#[trigger] handles.take(k)[i]) == j;
        assert(handles.take(k + 1)[i] == handles.take(k)[i]);
    }
    if word::index_of(handles[k]) == j {
        assert(handles.take(k + 1)[k] == handles[k]);
    }
    if names(handles.take(k + 1), j) {
        let i = choose|i: int|
            0 <= i < k + 1 && word::index_of(#[trigger] handles.take(k + 1)[i]) == j;
        if i < k {
            assert(handles.take(k)[i] == handles.take(k + 1)[i]);
        }
    }
}

/// No handle refers to the slot of one that comes later.
proof fn lemma_not_named_before(v: RegionView, handles: Seq<u32>, k: int)
    requires
        v.all_waitable(handles),
        0 <= k < handles.len(),
    ensures
        !names(handles.take(k), word::index_of(handles[k])),
{
    if names(handles.take(k), word::index_of(handles[k])) {
        let i = choose|i: int|
            0 <= i < k && word::index_of(#[trigger] handles.take(k)[i]) == word::index_of(
                handles[k],
            );
        assert(handles.take(k)[i] == handles[i]);
        assert(v.waitable(handles[i]) && v.waitable(handles[k]));
        lemma_same_slot(v, handles[i], handles[k]);
    }
}

/// Acquiring one object after others.
proof fn lemma_acquired_step(v: RegionView, handles: Seq<u32>, owner: u32, k: int)
    requires
        v.inv(),
        v.all_waitable(handles),
        0 <= k < handles.len(),
    ensures
        ({
            let j = word::index_of(handles[k]);
            let m = v.acquired(handles.take(k), owner);
            &&& m.slots[j] == v.slots[j]
            &&& v.acquired(handles.take(k + 1), owner) == m.with_slot(
                j,
                v.slots[j].acquired(owner),
            )
        }),
{
    let j = word::index_of(handles[k]);
    lemma_not_named_before(v, handles, k);
    let m = v.acquired(handles.take(k), owner);
    let n = v.acquired(handles.take(k + 1), owner);
    assert forall|i: int| 0 <= i < SLOT_COUNT implies #[trigger] n.slots[i] == m.with_slot(
        j,
        v.slots[j].acquired(owner),
    ).slots[i] by {
        lemma_names_take(handles, k, i);
    }
    assert(n =~= m.with_slot(j, v.slots[j].acquired(owner)));
}

proof fn lemma_nothing_named(v: RegionView, owner: u32)
    ensures
        v.acquired(Seq::empty(), owner) == v,
{
    assert(v.acquired(Seq::empty(), owner) =~= v);
}

/// A table in which the first `k` objects are acquired, but for the first `j`
/// of them, where that was taken back already.
spec fn half_restored(v: RegionView, handles: Seq<u32>, owner: u32, j: int, k: int) -> RegionView {
    RegionView {
        slots: Seq::new(
            v.slots.len(),
            |i: int|
                if names(handles.take(j), i) {
                    v.slots[i]
                } else if names(handles.take(k), i) {
                    v.slots[i].acquired(owner)
                } else {
                    v.slots[i]
                },
        ),
        ..v
    }
}

proof fn lemma_undo_step(v: RegionView, handles: Seq<u32>, owner: u32, j: int, k: int)
    requires
        v.inv(),
        v.all_waitable(handles),
        0 <= j < k <= handles.len(),
    ensures
        ({
            let i = word::index_of(handles[j]);
            let m = half_restored(v, handles, owner, j, k);
            &&& m.slots[i] == v.slots[i].acquired(owner)
            &&& half_restored(v, handles, owner, j + 1, k) == m.with_slot(i, v.slots[i])
        }),
{
    let i = word::index_of(handles[j]);
    lemma_not_named_before(v, handles, j);
    assert(handles.take(k)[j] == handles[j]);
    let m = half_restored(v, handles, owner, j, k);
    let n = half_restored(v, handles, owner, j + 1, k);
    assert forall|x: int| 0 <= x < SLOT_COUNT implies #[trigger] n.slots[x] == m.with_slot(
        i,
        v.slots[i],
    ).slots[x] by {
        lemma_names_take(handles, j, x);
    }
    assert(n =~= m.with_slot(i, v.slots[i]));
}

proof fn lemma_undo_ends(v: RegionView, handles: Seq<u32>, owner: u32, k: int)
    requires
        0 <= k <= handles.len(),
    ensures
        half_restored(v, handles, owner, 0, k) == v.acquired(handles.take(k), owner),
        half_restored(v, handles, owner, k, k) == v,
{
    assert(half_restored(v, handles, owner, 0, k) =~= v.acquired(handles.take(k), owner));
    assert(half_restored(v, handles, owner, k, k) =~= v);
}

/// Attempts to acquire the object that `handle` names. On success tells what is
/// needed to take that back: whether an abandoned mutex was taken over, and whether
/// a signaled event was found.
fn acquire_at(r: &mut Region, handle: u32, owner: u32, entry_seq: u64) -> (res: Option<
    (bool, bool),
>)
    requires
        old(r).wf(),
        owner != 0,
        old(r)@.slot_at(handle).used,
        !(old(r)@.slot_at(handle).object is Reserved),
    ensures
        final(r).wf(),
        ({
            let i = word::index_of(handle);
            let s = old(r)@.slots[i];
            if s.acquirable(owner, entry_seq) {
                &&& res == Some((s.is_abandoned(), s.is_signaled()))
                &&& final(r)@ == old(r)@.with_slot(i, s.acquired(owner))
            } else {
                &&& res is None
                &&& final(r)@ == old(r)@
            }
        }),
{
    proof {
        r.lemma_sizes();
        r.lemma_inv();
    }
    let i = handle_index(handle) as usize;
    let mut s = r.slots[i];
    assert(s@ == r@.slots[i as int]);
    let signaled = is_signaled(&s);
    match try_acquire(&mut s, owner, entry_seq) {
        Some(owner_dead) => {
            put_slot(r, i, s);
            Some((owner_dead, signaled))
        },
        None => None,
    }
}

/// Takes back the acquisition of the object that `handle` names. What the slot
/// held before the acquisition is `before`.
fn rollback_at(
    r: &mut Region,
    handle: u32,
    owner: u32,
    dead: bool,
    signaled: bool,
    Ghost(before): Ghost<SlotView>,
)
    requires
        old(r).wf(),
        owner != 0,
        old(r)@.slot_at(handle).used,
        !(old(r)@.slot_at(handle).object is Reserved),
        before.object.valid(),
        exists|e: u64| before.acquirable(owner, e),
        old(r)@.slot_at(handle) == before.acquired(owner),
        dead == before.is_abandoned(),
        signaled == before.is_signaled(),
    ensures
        final(r).wf(),
        final(r)@ == old(r)@.with_slot(word::index_of(handle), before),
{
    proof {
        r.lemma_sizes();
        r.lemma_inv();
        let e = choose|e: u64| before.acquirable(owner, e);
        object::law_rollback_undoes_acquire(before, owner, e);
    }
    let i = handle_index(handle) as usize;
    let mut s = r.slots[i];
    assert(s@ == r@.slots[i as int]);
    rollback_acquire(&mut s, owner, dead, signaled);
    put_slot(r, i, s);
}

/// Regions that look alike have the same state words.
proof fn lemma_words_kept(r: Region, r2: Region, handles: Seq<u32>)
    requires
        r.wf(),
        r2.wf(),
        r2@ == r@,
        r@.all_waitable(handles),
    ensures
        forall|i: int|
            0 <= i < handles.len() ==> r2.slots@[word::index_of(#[trigger] handles[i])].w0
                == r.slots@[word::index_of(handles[i])].w0,
{
    r.lemma_sizes();
    r2.lemma_sizes();
    r.lemma_inv();
    assert forall|i: int| 0 <= i < handles.len() implies r2.slots@[word::index_of(
        #[trigger] handles[i],
    )].w0 == r.slots@[word::index_of(handles[i])].w0 by {
        assert(r@.waitable(handles[i]));
        let j = word::index_of(handles[i]);
        let a = r.slots@[j];
        let b = r2.slots@[j];
        assert(a@ == r@.slots[j]);
        assert(b@ == r2@.slots[j]);
        assert(region::slot_valid(a, j) && region::slot_valid(b, j));
        object::lemma_word_of_object(a.obj_type, a.w0, b.w0);
    }
}

/// Tries to satisfy a wait right now: any one of the objects, or all of them.
/// Gives `None` if that is not possible; then everything is as it was.
pub fn try_satisfy(
    r: &mut Region,
    handles: &Vec<u32>,
    owner: u32,
    entry_seqs: &Vec<u64>,
    all: bool,
) -> (res: Option<WaitOutcome>)
    requires
        old(r).wf(),
        owner != 0,
        handles@.len() <= MAX_WAIT_COUNT,
        entry_seqs@.len() == handles@.len(),
        old(r)@.all_waitable(handles@),
    ensures
        final(r).wf(),
        (final(r)@, res) == (Demand {
            handles: handles@,
            owner,
            entry: entry_seqs@,
            all,
        }).attempt(old(r)@),
        res is None ==> final(r)@ == old(r)@,
        res is None ==> forall|i: int|
            0 <= i < handles@.len() ==> final(r).slots@[word::index_of(#[trigger] handles@[i])].w0
                == old(r).slots@[word::index_of(handles@[i])].w0,
{
    let ghost v = r@;
    let ghost d = Demand { handles: handles@, owner, entry: entry_seqs@, all };
    proof {
        r.lemma_inv();
        lemma_first(d, v, true);
        lemma_first(d, v, false);
        lemma_nothing_named(v, owner);
    }
    if !all {
        let mut i: usize = 0;
        while i < handles.len()
            invariant
                r.wf(),
                r@ == v,
                v == old(r)@,
                !all,
                owner != 0,
                i <= handles@.len() <= MAX_WAIT_COUNT,
                entry_seqs@.len() == handles@.len(),
                v.inv(),
                v.all_waitable(handles@),
                d == (Demand { handles: handles@, owner, entry: entry_seqs@, all: false }),
                forall|j: int| 0 <= j < i ==> !#[trigger] d.ready(v, j),
                forall|j: int| d.is_first(v, true, j) ==> d.first(v, true) == Some(j),
            decreases handles@.len() - i,
        {
            assert(v.waitable(handles@[i as int]));
            if let Some((owner_dead, _)) = acquire_at(r, handles[i], owner, entry_seqs[i]) {
                proof {
                    assert(d.ready(v, i as int));
                    assert(d.is_first(v, true, i as int));
                    let one = seq![handles@[i as int]];
                    lemma_acquired_step(v, one, owner, 0);
                    assert(one.take(0) =~= Seq::empty());
                    assert(one.take(1) =~= one);
                    lemma_nothing_named(v, owner);
                }
                return Some(WaitOutcome::Signaled { index: i as u32, owner_dead });
            }
            assert(!d.ready(v, i as int));
            i = i + 1;
        }
        proof {
            if let Some(k) = d.first(v, true) {
                assert(d.ready(v, k));
            }
            lemma_words_kept(*old(r), *r, handles@);
        }
        None
    } else {
        let mut dead: Vec<bool> = Vec::new();
        let mut lit: Vec<bool> = Vec::new();
        let mut owner_dead = false;
        let mut i: usize = 0;
        assert(handles@.take(0) =~= Seq::empty());
        while i < handles.len()
            invariant
                r.wf(),
                r@ == v.acquired(handles@.take(i as int), owner),
                v == old(r)@,
                old(r).wf(),
                all,
                owner != 0,
                i <= handles@.len() <= MAX_WAIT_COUNT,
                entry_seqs@.len() == handles@.len(),
                v.inv(),
                v.all_waitable(handles@),
                d == (Demand { handles: handles@, owner, entry: entry_seqs@, all: true }),
                forall|j: int| 0 <= j < i ==> #[trigger] d.ready(v, j),
                forall|j: int| d.is_first(v, false, j) ==> d.first(v, false) == Some(j),
                dead@.len() == i,
                forall|j: int|
                    0 <= j < i ==> #[trigger] dead@[j] == v.slot_at(handles@[j]).is_abandoned(),
                lit@.len() == i,
                forall|j: int|
                    0 <= j < i ==> #[trigger] lit@[j] == v.slot_at(handles@[j]).is_signaled(),
                owner_dead == exists|j: int|
                    0 <= j < i && v.slot_at(#[trigger] handles@[j]).is_abandoned(),
            decreases handles@.len() - i,
        {
            assert(v.waitable(handles@[i as int]));
            proof {
                lemma_acquired_step(v, handles@, owner, i as int);
            }
            match acquire_at(r, handles[i], owner, entry_seqs[i]) {
                Some((od, signaled)) => {
                    assert(d.ready(v, i as int));
                    proof {
                        if od {
                            assert(v.slot_at(handles@[i as int]).is_abandoned());
                        }
                    }
                    owner_dead = owner_dead || od;
                    dead.push(od);
                    lit.push(signaled);
                },
                None => {
                    proof {
                        assert(!d.ready(v, i as int));
                        assert(d.is_first(v, false, i as int));
                        lemma_undo_ends(v, handles@, owner, i as int);
                    }
                    let mut j: usize = 0;
                    while j < i
                        invariant
                            r.wf(),
                            j <= i <= handles@.len(),
                            owner != 0,
                            r@ == half_restored(v, handles@, owner, j as int, i as int),
                            v.inv(),
                            v.all_waitable(handles@),
                            entry_seqs@.len() == handles@.len(),
                            d == (Demand { handles: handles@, owner, entry: entry_seqs@, all: true }),
                            forall|k: int| 0 <= k < i ==> #[trigger] d.ready(v, k),
                            dead@.len() == i,
                            forall|k: int|
                                0 <= k < i ==> #[trigger] dead@[k] == v.slot_at(
                                    handles@[k],
                                ).is_abandoned(),
                            lit@.len() == i,
                            forall|k: int|
                                0 <= k < i ==> #[trigger] lit@[k] == v.slot_at(
                                    handles@[k],
                                ).is_signaled(),
                        decreases i - j,
                    {
                        let ghost before = v.slot_at(handles@[j as int]);
                        proof {
                            assert(v.waitable(handles@[j as int]));
                            lemma_undo_step(v, handles@, owner, j as int, i as int);
                            assert(d.ready(v, j as int));
                            assert(before.acquirable(owner, entry_seqs@[j as int]));
                            assert(dead@[j as int] == before.is_abandoned());
                            assert(lit@[j as int] == before.is_signaled());
                        }
                        rollback_at(r, handles[j], owner, dead[j], lit[j], Ghost(before));
                        j = j + 1;
                    }
                    proof {
                        lemma_words_kept(*old(r), *r, handles@);
                    }
                    return None;
                },
            }
            i = i + 1;
        }
        proof {
            assert(handles@.take(handles@.len() as int) =~= handles@);
            if let Some(k) = d.first(v, false) {
                assert(d.ready(v, k));
            }
        }
        Some(WaitOutcome::Signaled { index: 0, owner_dead })
    }
}

} // verus!
