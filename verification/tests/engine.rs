use music_syn::midisyn::{ChunkedProducer, MidiSyn};
use music_syn::piano::{Layer, Piano};
use music_syn::types::{Payload, TrackEvent};

/// A piano with one recording per layer at pitches 60 and 62 (keys 0 and 2
/// relative to middle C).
fn small_piano() -> Piano {
    let mut p = Piano::new();
    for key in [0i32, 2] {
        p.add_note(Layer::Soft, key, vec![100; 200]);
        p.add_note(Layer::Medium, key, vec![500; 200]);
        p.add_note(Layer::Loud, key, vec![1000; 200]);
    }
    p
}

fn engine() -> MidiSyn {
    MidiSyn::new(small_piano())
}

#[test]
fn note_on_presses_a_pitch() {
    let mut ms = engine();
    ms.do_note_on(60, 100);
    assert_eq!(ms.sounds.len(), 1);
    assert_eq!(ms.sounds[0].0, 60);
    assert_eq!(ms.released_sounds.len(), 0);
}

#[test]
fn note_off_moves_the_note_to_releasing() {
    let mut ms = engine();
    ms.do_note_on(60, 100);
    ms.do_note_off(60);
    assert_eq!(ms.sounds.len(), 0);
    assert_eq!(ms.released_sounds.len(), 1);
}

#[test]
fn note_off_for_unpressed_pitch_is_a_no_op() {
    let mut ms = engine();
    ms.do_note_off(61);
    assert_eq!(ms.sounds.len(), 0);
    assert_eq!(ms.released_sounds.len(), 0);
}

#[test]
fn note_on_with_zero_velocity_acts_as_note_off() {
    let mut ms = engine();
    ms.do_note_on(60, 100);
    ms.do_note_on(60, 0);
    assert_eq!(ms.sounds.len(), 0);
    assert_eq!(ms.released_sounds.len(), 1);
}

#[test]
fn retrigger_releases_prior_producer_and_starts_anew() {
    // Re-pressing pitch 60 while already pressed raises no error: the
    // prior producer moves to releasing and a fresh one takes its place.
    let mut ms = engine();
    ms.do_note_on(60, 100);
    ms.do_note_on(60, 90);
    assert_eq!(ms.sounds.len(), 1);
    assert_eq!(ms.sounds[0].0, 60);
    assert_eq!(ms.released_sounds.len(), 1);
}

#[test]
fn pedal_holds_released_notes() {
    let mut ms = engine();
    ms.do_ctrl_change(64, 127);
    ms.do_note_on(60, 100);
    ms.do_note_on(62, 100);
    ms.do_note_off(60);
    ms.do_note_off(62);
    assert_eq!(ms.sounds.len(), 0);
    assert_eq!(ms.dampered_sounds.len(), 2);
    assert_eq!(ms.released_sounds.len(), 0);
}

#[test]
fn pedal_release_moves_all_held_notes_to_releasing() {
    // Releasing the damper pedal (controller 64, value 0) after holding
    // two notes moves both into releasing and empties held-by-pedal.
    let mut ms = engine();
    ms.do_ctrl_change(64, 127);
    ms.do_note_on(60, 100);
    ms.do_note_on(62, 100);
    ms.do_note_off(60);
    ms.do_note_off(62);
    ms.do_ctrl_change(64, 0);
    assert_eq!(ms.dampered_sounds.len(), 0);
    assert_eq!(ms.released_sounds.len(), 2);
    assert!(!ms.track_state.damper_pedal);
}

#[test]
fn other_controllers_are_ignored() {
    let mut ms = engine();
    ms.do_ctrl_change(7, 100);
    assert!(!ms.track_state.damper_pedal);
}

#[test]
fn unsupported_preset_selects_silence() {
    let mut ms = engine();
    ms.do_prog_change(20);
    ms.do_note_on(60, 100);
    // The placeholder instrument produces an empty producer.
    assert_eq!(ms.sounds.len(), 1);
    assert_eq!(ms.sounds[0].1.samples.len(), 0);
}

#[test]
fn low_presets_select_the_piano() {
    let mut ms = engine();
    ms.do_prog_change(20);
    ms.do_prog_change(3);
    ms.do_note_on(60, 100);
    assert!(ms.sounds[0].1.samples.len() > 0);
}

#[test]
fn synthesis_mixes_the_note_into_the_output() {
    // Velocity 127 is full amplitude 1000: pure loud layer (constant
    // 1000), fast-release envelope over 200 samples (phases 2/0/180/18).
    let events = vec![
        TrackEvent { vtime: 0, payload: Payload::NoteOn { key: 60, velocity: 127 } },
        TrackEvent { vtime: 480, payload: Payload::NoteOff { key: 60 } },
        TrackEvent { vtime: 0, payload: Payload::EndOfTrack },
    ];
    let mut ms = engine();
    ms.track_state.tempo = 500_000;
    ms.syn(&events);
    let out = ms.output();
    assert_eq!(out.len(), 22050);
    // Attack: samples 0 and 1 ramp from 0; plateau afterwards.
    assert_eq!(out[0], 0);
    assert_eq!(out[1], 1000 * (1000 / 2) / 1000);
    assert_eq!(out[2], 1000);
    assert_eq!(out[100], 1000);
    // The producer is 200 samples long; past it the mix is silence.
    assert_eq!(out[200], 0);
    assert_eq!(out[22049], 0);
}

#[test]
fn two_notes_superpose_in_the_mix() {
    let events = vec![
        TrackEvent { vtime: 0, payload: Payload::NoteOn { key: 60, velocity: 127 } },
        TrackEvent { vtime: 0, payload: Payload::NoteOn { key: 62, velocity: 127 } },
        TrackEvent { vtime: 480, payload: Payload::EndOfTrack },
    ];
    let mut ms = engine();
    ms.track_state.tempo = 500_000;
    ms.syn(&events);
    assert_eq!(ms.output()[2], 2 * 1000);
}

#[test]
fn chunked_and_materialized_runs_agree() {
    let events = vec![
        TrackEvent { vtime: 0, payload: Payload::NoteOn { key: 60, velocity: 127 } },
        TrackEvent { vtime: 120, payload: Payload::NoteOn { key: 62, velocity: 80 } },
        TrackEvent { vtime: 120, payload: Payload::NoteOff { key: 60 } },
        TrackEvent { vtime: 240, payload: Payload::NoteOff { key: 62 } },
        TrackEvent { vtime: 60, payload: Payload::EndOfTrack },
    ];
    let mut whole = engine();
    whole.syn(&events);

    let mut chunks = ChunkedProducer::new(engine(), events.clone());
    let mut streamed: Vec<i32> = Vec::new();
    let mut n_chunks = 0;
    while let Some(c) = chunks.produce_next_chunk() {
        streamed.extend_from_slice(&c);
        n_chunks += 1;
    }
    assert_eq!(&streamed, whole.output());
    // One chunk per nonzero-delta event.
    assert_eq!(n_chunks, 4);
}

#[test]
fn producer_lives_across_chunks() {
    // A 200-sample note crosses a 120-tick chunk boundary (~109 samples at
    // 500000 us/beat): its tail must continue in the next chunk.
    let events = vec![
        TrackEvent { vtime: 0, payload: Payload::NoteOn { key: 60, velocity: 127 } },
        TrackEvent { vtime: 120, payload: Payload::EndOfTrack },
        TrackEvent { vtime: 120, payload: Payload::EndOfTrack },
    ];
    let mut ms = engine();
    ms.track_state.tempo = 500_000;
    let mut chunks = ChunkedProducer::new(ms, events);
    let c1 = chunks.produce_next_chunk().unwrap();
    let c2 = chunks.produce_next_chunk().unwrap();
    assert!(chunks.produce_next_chunk().is_none());
    // 120 ticks at 500000/480 is 5512.5 samples: chunks of 5512 and 5513.
    assert_eq!(c1.len(), 5512);
    assert_eq!(c2.len(), 5513);
    assert_eq!(c1[2], 1000);
    // The note's release tail (sample 150 of the producer) lands in the
    // first chunk; past 200 samples both chunks are silent.
    assert_eq!(c1[250], 0);
    assert_eq!(c2[0], 0);
}

#[test]
fn state_defaults_match_a_fresh_track() {
    let ms = engine();
    assert_eq!(ms.track_state.div, 480);
    assert_eq!(ms.track_state.tempo, 434_000);
    assert!(!ms.track_state.damper_pedal);
    assert_eq!(ms.sample_ix, 0);
    assert_eq!(ms.output().len(), 0);
}

#[test]
fn empty_event_list_synthesizes_nothing() {
    let mut ms = engine();
    ms.syn(&Vec::new());
    assert_eq!(ms.output().len(), 0);
}

#[test]
fn end_of_track_does_not_drain_release_tails() {
    // A note still decaying past the last event is not flushed: the output
    // ends with the last time advance.
    let events = vec![
        TrackEvent { vtime: 0, payload: Payload::NoteOn { key: 60, velocity: 127 } },
        TrackEvent { vtime: 1, payload: Payload::NoteOff { key: 60 } },
        TrackEvent { vtime: 0, payload: Payload::EndOfTrack },
    ];
    let mut ms = engine();
    ms.track_state.tempo = 500_000;
    ms.syn(&events);
    // One tick is 45.9375 samples: 45 emitted, nothing more.
    assert_eq!(ms.output().len(), 45);
    assert_eq!(ms.released_sounds.len(), 1);
}

#[test]
fn side_effect_of_yielding_event_waits_for_resume() {
    // The suspension point lies between the time advance and the event's
    // side effect: the chunk for a tempo event is computed at the old
    // tempo, and the new tempo takes effect only when the producer is
    // resumed.
    let events = vec![
        TrackEvent { vtime: 480, payload: Payload::TempoSet { micros_per_beat: 250_000 } },
    ];
    let mut chunks = ChunkedProducer::new(engine(), events);
    let c = chunks.produce_next_chunk().unwrap();
    // 480 ticks at the default 434000 us/beat: floor(44100 * 0.434).
    assert_eq!(c.len(), 19139);
    assert_eq!(chunks.syn.track_state.tempo, 434_000);
    assert!(chunks.produce_next_chunk().is_none());
    assert_eq!(chunks.syn.track_state.tempo, 250_000);
}
