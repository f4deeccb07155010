//! A tail thread's self-reported liveness, packed into one atomic word.
//!
//! Silence has two causes: a tail wedged in a system call, and a tail that
//! returned for good. The pulse makes the tail say which it is, and makes the
//! second report impossible to forget: a guard publishes it on every way out,
//! a panic among them.
//!
//! State and time share one word, tag in the top two bits and seconds below, so
//! that a reader always sees a pair that belongs together.

use std::sync::atomic::AtomicU64;
use std::time::SystemTime;
use vstd::prelude::*;

verus! {

/// Where the tag stands in the word.
pub const TAG_SHIFT: u64 = 62;

/// The bits of the word that hold seconds.
pub const SECS_MASK: u64 = 0x3FFF_FFFF_FFFF_FFFF;

/// The loop is turning.
pub const TAG_BEAT: u64 = 0;

/// A long operation is under way.
pub const TAG_BUSY: u64 = 1;

/// The thread returned.
pub const TAG_RETIRED: u64 = 2;

/// One observation of a pulse.
#[derive(Clone, Copy, Debug, PartialEq, Eq, Structural)]
pub enum Pulse {
    /// The tail loop is turning; the second of its last stamp.
    Beat(u64),
    /// The tail is in a long operation that does not stamp; the second it
    /// began.
    Busy(u64),
    /// The tail thread returned, and will not come back on its own.
    Retired,
}

/// A tag and seconds as one word.
pub open spec fn packed(tag: u64, secs: u64) -> u64 {
    (tag << TAG_SHIFT) | (secs & SECS_MASK)
}

/// What a word says.
pub open spec fn unpacked(word: u64) -> Pulse {
    if word >> TAG_SHIFT == TAG_BUSY {
        Pulse::Busy(word & SECS_MASK)
    } else if word >> TAG_SHIFT == TAG_RETIRED {
        Pulse::Retired
    } else {
        Pulse::Beat(word & SECS_MASK)
    }
}

/// A tag and seconds as one word.
pub fn pack(tag: u64, secs: u64) -> (word: u64)
    ensures
        word == packed(tag, secs),
{
    (tag << TAG_SHIFT) | (secs & SECS_MASK)
}

/// What a word says.
pub fn unpack(word: u64) -> (pulse: Pulse)
    ensures
        pulse == unpacked(word),
{
    let secs = word & SECS_MASK;
    let tag = word >> TAG_SHIFT;
    if tag == TAG_BUSY {
        Pulse::Busy(secs)
    } else if tag == TAG_RETIRED {
        Pulse::Retired
    } else {
        Pulse::Beat(secs)
    }
}

/// What is packed comes out again: the tag never touches the seconds, for any
/// time that fits beside it.
pub proof fn lemma_unpack_pack(secs: u64)
    requires
        secs <= SECS_MASK,
    ensures
        unpacked(packed(TAG_BEAT, secs)) == Pulse::Beat(secs),
        unpacked(packed(TAG_BUSY, secs)) == Pulse::Busy(secs),
        unpacked(packed(TAG_RETIRED, secs)) == Pulse::Retired,
        packed(TAG_BEAT, secs) & SECS_MASK == secs,
        packed(TAG_BUSY, secs) >> TAG_SHIFT == TAG_BUSY,
{
    assert(((0u64 << 62u64) | (secs & 0x3FFF_FFFF_FFFF_FFFF)) >> 62u64 == 0 && ((0u64 << 62u64) | (
    secs & 0x3FFF_FFFF_FFFF_FFFF)) & 0x3FFF_FFFF_FFFF_FFFF == secs) by (bit_vector)
        requires
            secs <= 0x3FFF_FFFF_FFFF_FFFFu64,
    ;
    assert(((1u64 << 62u64) | (secs & 0x3FFF_FFFF_FFFF_FFFF)) >> 62u64 == 1 && ((1u64 << 62u64) | (
    secs & 0x3FFF_FFFF_FFFF_FFFF)) & 0x3FFF_FFFF_FFFF_FFFF == secs) by (bit_vector)
        requires
            secs <= 0x3FFF_FFFF_FFFF_FFFFu64,
    ;
    assert(((2u64 << 62u64) | (secs & 0x3FFF_FFFF_FFFF_FFFF)) >> 62u64 == 2) by (bit_vector);
}

/// The word of a beat at the second `now`.
pub fn beat_word(now: u64) -> (word: u64)
    ensures
        unpacked(word) == Pulse::Beat(now & SECS_MASK),
        now <= SECS_MASK ==> unpacked(word) == Pulse::Beat(now),
    opens_invariants none
    no_unwind
{
    proof {
        lemma_masked(now);
        lemma_unpack_pack(now & SECS_MASK);
    }
    (TAG_BEAT << TAG_SHIFT) | (now & SECS_MASK)
}

/// The word of a long operation begun at the second `now`.
pub fn busy_word(now: u64) -> (word: u64)
    ensures
        unpacked(word) == Pulse::Busy(now & SECS_MASK),
        now <= SECS_MASK ==> unpacked(word) == Pulse::Busy(now),
    opens_invariants none
    no_unwind
{
    proof {
        lemma_masked(now);
        lemma_unpack_pack(now & SECS_MASK);
    }
    (TAG_BUSY << TAG_SHIFT) | (now & SECS_MASK)
}

/// The word of a tail that returned.
pub fn retired_word() -> (word: u64)
    ensures
        unpacked(word) == Pulse::Retired,
    opens_invariants none
    no_unwind
{
    proof {
        lemma_masked(0);
        lemma_unpack_pack(0);
    }
    (TAG_RETIRED << TAG_SHIFT) | (0 & SECS_MASK)
}

/// Masking twice is masking once.
proof fn lemma_masked(now: u64)
    ensures
        now & SECS_MASK <= SECS_MASK,
        (now & SECS_MASK) & SECS_MASK == now & SECS_MASK,
        now <= SECS_MASK ==> now & SECS_MASK == now,
{
    assert(now & 0x3FFF_FFFF_FFFF_FFFF <= 0x3FFF_FFFF_FFFF_FFFF) by (bit_vector);
    assert((now & 0x3FFF_FFFF_FFFF_FFFF) & 0x3FFF_FFFF_FFFF_FFFF == now & 0x3FFF_FFFF_FFFF_FFFF)
        by (bit_vector);
    assert(now <= 0x3FFF_FFFF_FFFF_FFFF ==> now & 0x3FFF_FFFF_FFFF_FFFF == now) by (bit_vector);
}

/// A moment on the system's clock.
#[verifier::external_type_specification]
#[verifier::external_body]
pub struct ExSystemTime(std::time::SystemTime);

/// The whole seconds from the start of 1970 to a moment, as
/// `SystemTime::duration_since` gives them; none for a moment before.
pub uninterp spec fn epoch_seconds(moment: SystemTime) -> Option<u64>;

/// What the clock says, from `SystemTime::now`. Nothing is promised of it.
#[verifier::external_body]
fn clock() -> (moment: SystemTime)
    opens_invariants none
    no_unwind
{
    SystemTime::now()
}

/// The whole seconds since the start of 1970, from `SystemTime::duration_since`;
/// none for a moment before, where that fails.
#[verifier::external_body]
fn seconds_since_epoch(moment: SystemTime) -> (secs: Option<u64>)
    ensures
        secs == epoch_seconds(moment),
    opens_invariants none
    no_unwind
{
    moment.duration_since(std::time::UNIX_EPOCH).ok().map(|d| d.as_secs())
}

/// A moment's seconds since 1970, 0 for one before.
pub open spec fn unix_seconds(moment: SystemTime) -> u64 {
    match epoch_seconds(moment) {
        Some(secs) => secs,
        None => 0,
    }
}

/// The seconds, 0 where there are none.
pub fn seconds_or_zero(secs: Option<u64>) -> (n: u64)
    ensures
        n == (match secs {
            Some(s) => s,
            None => 0,
        }),
    opens_invariants none
    no_unwind
{
    match secs {
        Some(s) => s,
        None => 0,
    }
}

/// The clock's seconds since 1970, 0 where it stands before. Which moment the
/// clock stands at is left open.
pub fn now_unix() -> (secs: u64)
    ensures
        exists|moment: SystemTime| secs == #[trigger] unix_seconds(moment),
    opens_invariants none
    no_unwind
{
    let moment = clock();
    let secs = seconds_or_zero(seconds_since_epoch(moment));
    assert(secs == unix_seconds(moment));
    secs
}

/// Writes a word with a relaxed `AtomicU64::store`, which cannot fail.
#[verifier::external_body]
fn put(word: &AtomicU64, value: u64)
    opens_invariants none
    no_unwind
{
    word.store(value, std::sync::atomic::Ordering::Relaxed);
}

/// The word a tail writes and its supervisor reads.
///
/// `Retired` has to be the last value stored. That is so by construction: busy
/// scopes lie within the tail's loop, and the retire guard lies around all of
/// it, so that it goes last.
pub struct TailPulse {
    word: AtomicU64,
}

impl TailPulse {
    /// A pulse that beats as of now.
    pub fn new() -> TailPulse {
        TailPulse { word: AtomicU64::new(beat_word(now_unix())) }
    }

    /// Stamps liveness.
    pub fn beat(&self)
        opens_invariants none
        no_unwind
    {
        put(&self.word, beat_word(now_unix()));
    }

    /// The current observation.
    pub fn load(&self) -> (pulse: Pulse)
        ensures
            match pulse {
                Pulse::Beat(secs) => secs <= SECS_MASK,
                Pulse::Busy(secs) => secs <= SECS_MASK,
                Pulse::Retired => true,
            },
    {
        let word: u64 = self.word.load(std::sync::atomic::Ordering::Relaxed);
        proof {
            lemma_masked(word);
        }
        unpack(word)
    }

    /// Marks the tail busy until the guard goes, which restores a fresh beat.
    /// Scopes must not nest.
    pub fn busy_scope(&self) -> (guard: BusyGuard<'_>)
        ensures
            guard.watched() == *self,
    {
        put(&self.word, busy_word(now_unix()));
        BusyGuard { pulse: self }
    }

    /// Publishes `Retired` when the guard goes.
    pub fn retire_on_drop(&self) -> (guard: RetireGuard<'_>)
        ensures
            guard.watched() == *self,
    {
        RetireGuard { pulse: self }
    }
}

/// Restores a fresh beat when it goes.
pub struct BusyGuard<'a> {
    pulse: &'a TailPulse,
}

impl BusyGuard<'_> {
    /// The pulse that the guard restores.
    pub closed spec fn watched(&self) -> TailPulse {
        *self.pulse
    }
}

impl Drop for BusyGuard<'_> {
    fn drop(&mut self)
        opens_invariants none
        no_unwind
    {
        self.pulse.beat();
    }
}

/// Publishes [`Pulse::Retired`] when it goes.
pub struct RetireGuard<'a> {
    pulse: &'a TailPulse,
}

impl RetireGuard<'_> {
    /// The pulse that the guard retires.
    pub closed spec fn watched(&self) -> TailPulse {
        *self.pulse
    }
}

impl Drop for RetireGuard<'_> {
    fn drop(&mut self)
        opens_invariants none
        no_unwind
    {
        put(&self.pulse.word, retired_word());
    }
}

} // verus!
