use vstd::prelude::*;

verus! {

/// The lock word of a tree bin combines three independent conditions in
/// non-overlapping bit ranges: bit 0 is the writer bit (exclusive structural
/// lock held), bit 1 the waiter bit (a thread is parked waiting for the
/// writer lock), and the bits from 2 up count the readers of the tree-search
/// fallback path, in units of `READER_UNIT`.
pub const WRITER_BIT: u64 = 1;

pub const WAITER_BIT: u64 = 2;

pub const READER_UNIT: u64 = 4;

/// The symbolic conditions a lock word combines.
#[derive(Clone, Copy, Debug, PartialEq, Eq, Structural)]
pub enum State {
    Free,
    Waiter,
    Reader,
    Writer,
}

impl State {
    /// The bit pattern a condition contributes to the lock word.
    pub fn bits(self) -> (r: u64)
        ensures
            r == self.bits_spec(),
    {
        match self {
            State::Free => 0,
            State::Waiter => WAITER_BIT,
            State::Reader => READER_UNIT,
            State::Writer => WRITER_BIT,
        }
    }

    pub open spec fn bits_spec(self) -> u64 {
        match self {
            State::Free => 0,
            State::Waiter => WAITER_BIT,
            State::Reader => READER_UNIT,
            State::Writer => WRITER_BIT,
        }
    }
}

/// The count of readers a lock word records.
pub open spec fn reader_count(s: u64) -> u64 {
    s >> 2
}

/// What a thread contending for the writer lock does next, given the lock
/// word it observed and whether it has already registered itself as the
/// waiter. The concurrent runner performs the action — a compare-and-swap,
/// a park, or a spin hint — and comes back with the next observation.
#[derive(Clone, Copy, Debug, PartialEq, Eq, Structural)]
pub enum LockAction {
    /// Try to swap the word for the bare writer bit, clearing the waiter
    /// bit; on success the thread holds the lock, and if it was the
    /// registered waiter it retires its parked handle.
    Acquire,
    /// Try to set the waiter bit and register this thread's handle as the
    /// one remembered waiter.
    RegisterWaiter,
    /// Park until the last leaving reader unparks the registered waiter.
    Park,
    /// Spin and observe again.
    Spin,
}

/// One decision of the contended writer-acquisition loop: with nothing but
/// the waiter bit set the lock is free to take; otherwise, while no writer
/// holds it, the thread registers as the waiter; once registered it parks
/// while the lock stays busy; and in every other case it spins.
pub fn contended_lock_step(state: u64, waiting: bool) -> (a: LockAction)
    ensures
        state == 0 || state == WAITER_BIT ==> a == LockAction::Acquire,
        !(state == 0 || state == WAITER_BIT) && state & WRITER_BIT == 0 ==> a
            == LockAction::RegisterWaiter,
        !(state == 0 || state == WAITER_BIT) && state & WRITER_BIT != 0 && waiting ==> a
            == LockAction::Park,
        !(state == 0 || state == WAITER_BIT) && state & WRITER_BIT != 0 && !waiting ==> a
            == LockAction::Spin,
{
    proof {
        assert(forall|s: u64| s & !2u64 == 0 <==> (s == 0 || s == 2)) by (bit_vector);
    }
    if state & !WAITER_BIT == 0 {
        LockAction::Acquire
    } else if state & WRITER_BIT == 0 {
        LockAction::RegisterWaiter
    } else if waiting {
        LockAction::Park
    } else {
        LockAction::Spin
    }
}

/// A lookup takes the lock-free list walk exactly while the lock word shows
/// neither the waiter nor the writer bit.
pub fn use_fast_path(state: u64) -> (b: bool)
    ensures
        b <==> state & (WAITER_BIT | WRITER_BIT) == 0,
{
    state & (WAITER_BIT | WRITER_BIT) == 0
}

/// The word a fallback reader installs when it enters the tree search: one
/// more reader.
pub fn reader_enter(state: u64) -> (s2: u64)
    requires
        state <= u64::MAX - READER_UNIT,
    ensures
        s2 == state + READER_UNIT,
{
    state + READER_UNIT
}

/// The word a fallback reader leaves behind, and whether it must unpark the
/// registered waiter: exactly when it was the last reader out while a writer
/// waits with no other bit set, so the pending writer proceeds promptly
/// instead of starving behind new readers.
pub fn reader_exit(state: u64) -> (r: (u64, bool))
    requires
        state >= READER_UNIT,
    ensures
        r.0 == state - READER_UNIT,
        r.1 <==> state == READER_UNIT | WRITER_BIT,
        r.1 <==> (reader_count(state) == 1 && state & WRITER_BIT != 0 && state & WAITER_BIT == 0),
{
    proof {
        assert(4u64 | 1u64 == 5u64) by (bit_vector);
        assert(forall|s: u64|
            s == 5u64 <==> (s >> 2 == 1 && s & 1 != 0 && s & 2 == 0)) by (bit_vector);
    }
    (state - READER_UNIT, state == READER_UNIT | WRITER_BIT)
}

/// The three conditions never alias: any count of readers leaves the writer
/// and waiter bits untouched, so no combination of the three symbolic values
/// can corrupt another. A sequential enumeration of the states would not
/// satisfy this.
pub proof fn lemma_state_bits_disjoint(n: u64)
    requires
        n <= u64::MAX / READER_UNIT,
    ensures
        WRITER_BIT & WAITER_BIT == 0,
        ((n * READER_UNIT) as u64) & WRITER_BIT == 0,
        ((n * READER_UNIT) as u64) & WAITER_BIT == 0,
        reader_count((n * READER_UNIT) as u64) == n,
{
    assert(1u64 & 2u64 == 0) by (bit_vector);
    assert((n * 4) as u64 == n << 2) by (bit_vector)
        requires
            n <= u64::MAX / 4,
    ;
    assert((n << 2) & 1u64 == 0 && (n << 2) & 2u64 == 0 && (n << 2) >> 2 == n) by (bit_vector)
        requires
            n <= u64::MAX / 4,
    ;
}

} // verus!
