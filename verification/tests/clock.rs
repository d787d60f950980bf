use music_syn::midisyn::MidiSyn;
use music_syn::piano::Piano;
use music_syn::types::{Payload, TrackEvent};

fn engine() -> MidiSyn {
    MidiSyn::new(Piano::new())
}

#[test]
fn whole_advance_emits_exact_samples() {
    // 480 ticks at 500000 us/beat and 480 ticks/beat is one half second:
    // 22050 samples at 44100 Hz, exactly.
    let mut ms = engine();
    ms.track_state.tempo = 500_000;
    ms.elapse_ticks(480);
    assert_eq!(ms.output().len(), 22050);
}

#[test]
fn split_advance_does_not_drift() {
    let mut ms = engine();
    ms.track_state.tempo = 500_000;
    ms.elapse_ticks(240);
    ms.elapse_ticks(240);
    assert_eq!(ms.output().len(), 22050);
}

#[test]
fn many_small_advances_do_not_drift() {
    let mut ms = engine();
    ms.track_state.tempo = 500_000;
    for _ in 0..480 {
        ms.elapse_ticks(1);
    }
    let mut whole = engine();
    whole.track_state.tempo = 500_000;
    whole.elapse_ticks(480);
    assert_eq!(ms.output().len(), whole.output().len());
    assert_eq!(ms.sample_ix, whole.sample_ix);
}

#[test]
fn zero_ticks_is_a_no_op() {
    let mut ms = engine();
    ms.track_state.tempo = 500_000;
    ms.elapse_ticks(241);
    let len = ms.output().len();
    let frac = ms.sample_ix;
    ms.elapse_ticks(0);
    assert_eq!(ms.output().len(), len);
    assert_eq!(ms.sample_ix, frac);
}

#[test]
fn tempo_event_changes_sample_count() {
    // A tempo change mid-track halves the samples of the second advance.
    let events = vec![
        TrackEvent { vtime: 0, payload: Payload::TempoSet { micros_per_beat: 500_000 } },
        TrackEvent { vtime: 480, payload: Payload::TempoSet { micros_per_beat: 250_000 } },
        TrackEvent { vtime: 480, payload: Payload::EndOfTrack },
    ];
    let mut ms = engine();
    ms.syn(&events);
    assert_eq!(ms.output().len(), 22050 + 11025);
}

#[test]
fn division_scales_tick_length() {
    let mut ms = engine();
    ms.set_division(240);
    ms.track_state.tempo = 500_000;
    ms.elapse_ticks(240);
    assert_eq!(ms.output().len(), 22050);
}

#[test]
fn fractional_remainder_carries_across_events() {
    // At 434000 us/beat and division 480, one tick is 39.88125 samples:
    // fractions must accumulate, never be dropped.
    let mut one = engine();
    for _ in 0..97 {
        one.elapse_ticks(1);
    }
    let mut whole = engine();
    whole.elapse_ticks(97);
    assert_eq!(one.output().len(), whole.output().len());
    assert_eq!(one.sample_ix, whole.sample_ix);
}
