//! Tail liveness.

use goz::daemon::pulse::{
    beat_word, busy_word, now_unix, pack, retired_word, seconds_or_zero, unpack, Pulse, TailPulse,
    SECS_MASK, TAG_BEAT, TAG_BUSY, TAG_SHIFT,
};

#[test]
fn new_pulse_beats_now() {
    let p = TailPulse::new();
    let before = now_unix();
    match p.load() {
        Pulse::Beat(at) => assert!(at <= before && before - at <= 1),
        other => panic!("fresh pulse must beat, got {other:?}"),
    }
}

#[test]
fn busy_scope_restores_a_fresh_beat() {
    let p = TailPulse::new();
    {
        let _busy = p.busy_scope();
        assert!(matches!(p.load(), Pulse::Busy(_)));
    }
    assert!(matches!(p.load(), Pulse::Beat(_)));
}

#[test]
fn retire_wins_over_an_unwinding_busy_scope() {
    let p = TailPulse::new();
    {
        let _retired = p.retire_on_drop();
        let _busy = p.busy_scope();
    }
    assert_eq!(p.load(), Pulse::Retired);
}

#[test]
fn tag_bits_never_corrupt_the_seconds() {
    for secs in [0u64, 1, 1_752_800_000, SECS_MASK] {
        assert_eq!(pack(TAG_BEAT, secs) & SECS_MASK, secs);
        assert_eq!(pack(TAG_BUSY, secs) >> TAG_SHIFT, TAG_BUSY);
    }
}

#[test]
fn words_say_what_was_packed() {
    for secs in [0u64, 1, 1_752_800_000, SECS_MASK] {
        assert_eq!(unpack(beat_word(secs)), Pulse::Beat(secs));
        assert_eq!(unpack(busy_word(secs)), Pulse::Busy(secs));
    }
    assert_eq!(unpack(retired_word()), Pulse::Retired);
    assert_eq!(unpack(beat_word(u64::MAX)), Pulse::Beat(SECS_MASK));
}

#[test]
fn a_beat_follows_a_beat() {
    let p = TailPulse::new();
    p.beat();
    assert!(matches!(p.load(), Pulse::Beat(at) if at <= now_unix()));
}

#[test]
fn the_clock_is_past_the_year_2020() {
    assert!(now_unix() > 1_577_836_800);
}

#[test]
fn a_clock_before_1970_reads_as_zero() {
    assert_eq!(seconds_or_zero(None), 0);
    assert_eq!(seconds_or_zero(Some(0)), 0);
    assert_eq!(seconds_or_zero(Some(1_752_800_000)), 1_752_800_000);
}
