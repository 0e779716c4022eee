//! The objects themselves: what a slot's state word means, and how a waiter
//! acquires an object and gives it back.
use crate::word;
use crate::word::{hi32, lo32, mutex_abandoned, mutex_count, pack_mutex, pack_sem, MAX_RECURSION};
use vstd::prelude::*;

verus! {

pub const SLOT_FREE: u32 = 0;

pub const SLOT_USED: u32 = 1;

pub const TYPE_SEM: u32 = 1;

pub const TYPE_MUTEX: u32 = 2;

pub const TYPE_EVENT: u32 = 3;

/// Slot 0 is permanently reserved: handle 0 means "no alert" in a wait, so it
/// is never handed out as an object.
pub const TYPE_RESERVED: u32 = 4;

/// One object slot of the table.
#[derive(Clone, Copy)]
pub struct Slot {
    /// `SLOT_FREE` or `SLOT_USED`.
    pub state: u32,
    /// Bumped each time the slot is freed.
    pub generation: u32,
    /// One of the `TYPE_*` constants.
    pub obj_type: u32,
    /// Process that created the object.
    pub pid: u32,
    /// First node of the object's waiter list.
    pub waiter_head: u32,
    /// Packed object state.
    pub w0: u64,
    /// Number of pulses of an event.
    pub d: u64,
}

/// The state of a synchronization object.
pub enum Object {
    Semaphore { count: u32, max: u32 },
    Mutex { owner: u32, count: u32, abandoned: bool },
    Event { manual: bool, signaled: bool },
    /// No object: the reserved slot.
    Reserved,
}

/// What a slot holds, apart from its waiters.
pub struct SlotView {
    pub used: bool,
    pub generation: u32,
    pub pid: u32,
    pub object: Object,
    pub pulses: u64,
}

/// The object that state word `w` describes for object type `kind`.
pub open spec fn object_of(kind: u32, w: u64) -> Object {
    if kind == TYPE_SEM {
        Object::Semaphore { count: word::lo_of(w), max: word::hi_of(w) }
    } else if kind == TYPE_MUTEX {
        Object::Mutex {
            owner: word::lo_of(w),
            count: (word::hi_of(w) % 0x8000_0000) as u32,
            abandoned: word::hi_of(w) / 0x8000_0000 != 0,
        }
    } else if kind == TYPE_EVENT {
        Object::Event { manual: word::hi_of(w) != 0, signaled: word::lo_of(w) != 0 }
    } else {
        Object::Reserved
    }
}

impl Object {
    /// What every object state satisfies: a semaphore stays within its
    /// maximum; a mutex is owned exactly while its recursion count is nonzero,
    /// and only an unowned one is abandoned.
    pub open spec fn valid(self) -> bool {
        match self {
            Object::Semaphore { count, max } => count <= max,
            Object::Mutex { owner, count, abandoned } => {
                &&& count <= MAX_RECURSION
                &&& (owner == 0 <==> count == 0)
                &&& (abandoned ==> owner == 0)
            },
            Object::Event { .. } => true,
            Object::Reserved => true,
        }
    }
}

/// A state word that some valid object state packs to.
pub open spec fn word_valid(kind: u32, w: u64) -> bool {
    &&& object_of(kind, w).valid()
    &&& kind == TYPE_EVENT ==> word::hi_of(w) <= 1 && word::lo_of(w) <= 1
}

impl View for Slot {
    type V = SlotView;

    open spec fn view(&self) -> SlotView {
        SlotView {
            used: self.state == SLOT_USED,
            generation: self.generation,
            pid: self.pid,
            object: object_of(self.obj_type, self.w0),
            pulses: self.d,
        }
    }
}

impl SlotView {
    /// The slot with another object state.
    pub open spec fn with_object(self, object: Object) -> SlotView {
        SlotView { object, ..self }
    }

    /// The slot once its object has ceased to exist.
    pub open spec fn freed(self) -> SlotView {
        SlotView {
            used: false,
            generation: ((self.generation + 1) % 0x1_0000_0000) as u32,
            ..self
        }
    }

    /// Whether `owner` could acquire the object right now. A waiter that
    /// started when the event had seen `entry_seq` pulses is also satisfied by
    /// any later pulse.
    pub open spec fn acquirable(self, owner: u32, entry_seq: u64) -> bool {
        match self.object {
            Object::Semaphore { count, .. } => count > 0,
            Object::Mutex { owner: holder, count, .. } => (holder == 0 || holder == owner)
                && count < MAX_RECURSION,
            Object::Event { signaled, .. } => signaled || self.pulses != entry_seq,
            Object::Reserved => false,
        }
    }

    /// The slot once `owner` has acquired the object.
    pub open spec fn acquired(self, owner: u32) -> SlotView {
        match self.object {
            Object::Semaphore { count, max } => self.with_object(
                Object::Semaphore { count: (count - 1) as u32, max },
            ),
            Object::Mutex { count, .. } => self.with_object(
                Object::Mutex { owner, count: (count + 1) as u32, abandoned: false },
            ),
            Object::Event { manual, signaled } => self.with_object(
                Object::Event { manual, signaled: manual && signaled },
            ),
            Object::Reserved => self,
        }
    }

    /// Whether acquiring the object means taking over an abandoned mutex.
    pub open spec fn is_abandoned(self) -> bool {
        self.object matches Object::Mutex { abandoned, .. } && abandoned
    }

    /// Whether the slot holds a signaled event.
    pub open spec fn is_signaled(self) -> bool {
        self.object matches Object::Event { signaled, .. } && signaled
    }

    /// The slot after an acquisition by `owner` is taken back; `dead` tells
    /// whether that acquisition took over an abandoned mutex, and `lit` whether
    /// it found a signaled event.
    pub open spec fn rolled_back(self, owner: u32, dead: bool, lit: bool) -> SlotView {
        match self.object {
            Object::Semaphore { count, max } => self.with_object(
                Object::Semaphore { count: (count + 1) as u32, max },
            ),
            Object::Mutex { count, abandoned, .. } => self.with_object(
                if count == 1 {
                    Object::Mutex { owner: 0, count: 0, abandoned: dead }
                } else {
                    Object::Mutex { owner, count: (count - 1) as u32, abandoned }
                },
            ),
            Object::Event { manual, signaled } => self.with_object(
                Object::Event { manual, signaled: signaled || lit },
            ),
            Object::Reserved => self,
        }
    }
}

/// Taking back an acquisition restores the slot.
pub proof fn law_rollback_undoes_acquire(s: SlotView, owner: u32, entry_seq: u64)
    requires
        s.object.valid(),
        owner != 0,
        s.acquirable(owner, entry_seq),
    ensures
        s.acquired(owner).rolled_back(owner, s.is_abandoned(), s.is_signaled()) == s,
{
}

/// Acquiring leads from valid object states to valid ones.
pub proof fn law_acquire_keeps_validity(s: SlotView, owner: u32, entry_seq: u64)
    requires
        s.object.valid(),
        owner != 0,
        s.acquirable(owner, entry_seq),
    ensures
        s.acquired(owner).object.valid(),
{
}

/// Each acquisition of a semaphore takes exactly one from its count, and it can
/// be acquired exactly while the count is nonzero.
pub proof fn law_semaphore_counts_down(s: SlotView, owner: u32, entry_seq: u64, count: u32, max: u32)
    requires
        s.object == (Object::Semaphore { count, max }),
    ensures
        s.acquirable(owner, entry_seq) <==> count > 0,
        count > 0 ==> s.acquired(owner).object == (Object::Semaphore {
            count: (count - 1) as u32,
            max,
        }),
{
}

/// A mutex is recursive for its owner and excludes everybody else.
pub proof fn law_mutex_excludes_others(
    s: SlotView,
    owner: u32,
    other: u32,
    entry_seq: u64,
)
    requires
        s.object is Mutex,
        s.object.valid(),
        owner != 0,
        other != 0,
        other != owner,
        s.acquirable(owner, entry_seq),
    ensures
        s.acquired(owner).object->Mutex_owner == owner,
        s.acquired(owner).object->Mutex_count == s.object->Mutex_count + 1,
        !s.acquired(owner).acquirable(other, entry_seq),
        s.acquired(owner).acquirable(owner, entry_seq) <==> s.object->Mutex_count + 1
            < MAX_RECURSION,
{
}

/// Whoever acquires an abandoned mutex is told so once: the acquisition clears
/// the flag.
pub proof fn law_abandoned_reported_once(s: SlotView, owner: u32, entry_seq: u64)
    requires
        s.object.valid(),
        owner != 0,
        s.is_abandoned(),
    ensures
        s.acquirable(owner, entry_seq),
        !s.acquired(owner).is_abandoned(),
{
}

/// A signaled auto-reset event satisfies one waiter and is then unsignaled; a
/// signaled manual-reset event stays as it is.
pub proof fn law_event_reset_modes(s: SlotView, owner: u32, manual: bool)
    requires
        s.object == (Object::Event { manual, signaled: true }),
    ensures
        s.acquirable(owner, s.pulses),
        manual ==> s.acquired(owner) == s,
        !manual ==> !s.acquired(owner).acquirable(owner, s.pulses),
{
}

/// Checks whether an object is acquirable without changing it.
pub fn is_locked(slot: &Slot, owner: u32, entry_seq: u64) -> (r: bool)
    ensures
        r == slot@.acquirable(owner, entry_seq),
{
    let w = slot.w0;
    if slot.obj_type == TYPE_SEM {
        lo32(w) > 0
    } else if slot.obj_type == TYPE_MUTEX {
        let cur_owner = lo32(w);
        let count = mutex_count(hi32(w));
        (cur_owner == 0 || cur_owner == owner) && count < MAX_RECURSION
    } else if slot.obj_type == TYPE_EVENT {
        lo32(w) != 0 || slot.d != entry_seq
    } else {
        false
    }
}

/// Whether the slot holds a signaled event.
pub fn is_signaled(slot: &Slot) -> (r: bool)
    ensures
        r == slot@.is_signaled(),
{
    slot.obj_type == TYPE_EVENT && lo32(slot.w0) != 0
}

/// Clears the signaled flag of an event word.
pub fn event_cleared(w: u64) -> (r: u64)
    ensures
        r == w - w % 2,
        word_valid(TYPE_EVENT, w) ==> r == word::join(word::hi_of(w), 0),
{
    proof {
        assert(w & !1u64 == w - (w % 2)) by (bit_vector);
        word::lemma_halves_join(w);
    }
    w & !1u64
}

/// Sets the signaled flag of an event word.
pub fn event_raised(w: u64) -> (r: u64)
    requires
        word_valid(TYPE_EVENT, w),
    ensures
        r == word::join(word::hi_of(w), 1),
{
    proof {
        assert(w | 1u64 == w - (w % 2) + 1) by (bit_vector);
        word::lemma_halves_join(w);
    }
    w | 1u64
}

/// The state word after `owner` has acquired the object that `w` describes for object
/// type `kind`: a semaphore has one less; a mutex has one level more, and is no longer
/// abandoned if it was free; an auto-reset event loses its signaled flag.
pub open spec fn acquired_word(kind: u32, w: u64, owner: u32) -> u64 {
    match object_of(kind, w) {
        Object::Semaphore { count, max } => word::join(max, (count - 1) as u32),
        Object::Mutex { owner: holder, count, abandoned } => word::join(
            word::mutex_hi((count + 1) as u32, abandoned && holder != 0),
            owner,
        ),
        Object::Event { manual, signaled } => if signaled && !manual {
            (w - w % 2) as u64
        } else {
            w
        },
        Object::Reserved => w,
    }
}

/// Attempts to acquire an object. Gives `Some(owner_dead)` on success, where
/// `owner_dead` tells that an abandoned mutex was taken over, and `None`
/// if the object is not acquirable. It succeeds exactly when `is_locked` says so.
pub fn try_acquire(slot: &mut Slot, owner: u32, entry_seq: u64) -> (res: Option<bool>)
    ensures
        res == if old(slot)@.acquirable(owner, entry_seq) {
            Some(
                old(slot)@.object matches Object::Mutex { owner: holder, abandoned, .. } && holder
                    == 0 && abandoned,
            )
        } else {
            None
        },
        *final(slot) == if res is Some {
            (Slot { w0: acquired_word(old(slot).obj_type, old(slot).w0, owner), ..*old(slot) })
        } else {
            *old(slot)
        },
        word_valid(old(slot).obj_type, old(slot).w0) && res is Some ==> {
            &&& res == Some(old(slot)@.is_abandoned())
            &&& final(slot)@ == old(slot)@.acquired(owner)
        },
        word_valid(old(slot).obj_type, old(slot).w0) && owner != 0 ==> word_valid(
            final(slot).obj_type,
            final(slot).w0,
        ),
{
    let w = slot.w0;
    if slot.obj_type == TYPE_SEM {
        let count = lo32(w);
        if count == 0 {
            return None;
        }
        let max = hi32(w);
        slot.w0 = pack_sem(count - 1, max);
        proof {
            word::lemma_join_halves(max, (count - 1) as u32);
        }
        Some(false)
    } else if slot.obj_type == TYPE_MUTEX {
        let cur_owner = lo32(w);
        let hi = hi32(w);
        let count = mutex_count(hi);
        let ownerdead = mutex_abandoned(hi);
        if count >= MAX_RECURSION {
            return None;
        }
        if cur_owner == 0 {
            slot.w0 = pack_mutex(owner, count + 1, false);
            proof {
                word::lemma_join_halves(word::mutex_hi((count + 1) as u32, false), owner);
                word::lemma_mutex_hi_fields((count + 1) as u32, false);
            }
            Some(ownerdead)
        } else if cur_owner == owner {
            slot.w0 = pack_mutex(owner, count + 1, ownerdead);
            proof {
                word::lemma_join_halves(word::mutex_hi((count + 1) as u32, ownerdead), owner);
                word::lemma_mutex_hi_fields((count + 1) as u32, ownerdead);
            }
            Some(false)
        } else {
            None
        }
    } else if slot.obj_type == TYPE_EVENT {
        if lo32(w) != 0 {
            if hi32(w) == 0 {
                // Auto-reset: claim it.
                slot.w0 = event_cleared(w);
                proof {
                    word::lemma_join_halves(word::hi_of(w), 0);
                }
            }
            return Some(false);
        }
        if slot.d != entry_seq {
            // Pulsed during the wait. A pulse leaves the event unsignaled, so
            // there is nothing to reset.
            return Some(false);
        }
        None
    } else {
        None
    }
}

/// A valid state word is determined by the object that it describes.
pub proof fn lemma_word_of_object(kind: u32, a: u64, b: u64)
    requires
        1 <= kind <= 3,
        word_valid(kind, a),
        word_valid(kind, b),
        object_of(kind, a) == object_of(kind, b),
    ensures
        a == b,
{
    word::lemma_halves_join(a);
    word::lemma_halves_join(b);
}

/// The slot `before` was acquired by `owner`, which gave `after`; the acquisition
/// took over an abandoned mutex (`dead`) or found a signaled event (`lit`).
pub open spec fn acquisition(before: Slot, after: Slot, owner: u32, dead: bool, lit: bool) -> bool {
    &&& word_valid(before.obj_type, before.w0)
    &&& exists|entry_seq: u64| before@.acquirable(owner, entry_seq)
    &&& after@ == before@.acquired(owner)
    &&& after == (Slot { w0: after.w0, ..before })
    &&& dead == before@.is_abandoned()
    &&& lit == before@.is_signaled()
}

/// Takes back an acquisition by `owner`: the slot is again what it was before. A
/// mutex drops one level, and is abandoned again if it was (`owner_dead_was`); a
/// semaphore gets its count back; an event is signaled again if it was
/// (`signaled_was`), but not if only a pulse had satisfied the acquisition.
pub fn rollback_acquire(slot: &mut Slot, owner: u32, owner_dead_was: bool, signaled_was: bool)
    requires
        owner != 0,
        word_valid(old(slot).obj_type, old(slot).w0),
        old(slot)@.object matches Object::Semaphore { count, max } ==> count < max,
        old(slot)@.object matches Object::Mutex { owner: holder, .. } ==> holder == owner,
    ensures
        final(slot)@ == old(slot)@.rolled_back(owner, owner_dead_was, signaled_was),
        *final(slot) == (Slot { w0: final(slot).w0, ..*old(slot) }),
        word_valid(final(slot).obj_type, final(slot).w0),
        forall|before: Slot| #[trigger]
            acquisition(before, *old(slot), owner, owner_dead_was, signaled_was) ==> *final(slot)
                == before,
{
    let w = slot.w0;
    if slot.obj_type == TYPE_SEM {
        let count = lo32(w);
        let max = hi32(w);
        slot.w0 = pack_sem(count + 1, max);
        proof {
            word::lemma_join_halves(max, (count + 1) as u32);
        }
    } else if slot.obj_type == TYPE_MUTEX {
        let hi = hi32(w);
        let count = mutex_count(hi);
        if count == 1 {
            // The only reference: restore the unowned state.
            slot.w0 = pack_mutex(0, 0, owner_dead_was);
            proof {
                word::lemma_join_halves(word::mutex_hi(0, owner_dead_was), 0);
                word::lemma_mutex_hi_fields(0, owner_dead_was);
            }
        } else {
            // Recursive acquisition: drop one level.
            let od = mutex_abandoned(hi);
            slot.w0 = pack_mutex(owner, count - 1, od);
            proof {
                word::lemma_join_halves(word::mutex_hi((count - 1) as u32, od), owner);
                word::lemma_mutex_hi_fields((count - 1) as u32, od);
            }
        }
    } else if slot.obj_type == TYPE_EVENT {
        if signaled_was && lo32(w) == 0 {
            slot.w0 = event_raised(w);
            proof {
                word::lemma_join_halves(word::hi_of(w), 1);
            }
        }
    }
    proof {
        assert forall|before: Slot| #[trigger]
            acquisition(before, *old(slot), owner, owner_dead_was, signaled_was) implies *slot
            == before by {
            let e = choose|e: u64| before@.acquirable(owner, e);
            law_rollback_undoes_acquire(before@, owner, e);
            assert(slot@ == before@);
            lemma_word_of_object(before.obj_type, slot.w0, before.w0);
        }
    }
}

} // verus!
