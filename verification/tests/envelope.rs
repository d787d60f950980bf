use music_syn::soundprim::{mult, superpos, Envelope};

#[test]
fn default_envelope_phase_lengths() {
    // duration 1.0 s at 44100 Hz with fractions 0.1/0.05/0.7/0.15: each
    // phase is floor(duration * fraction * rate) samples and the total is
    // their sum; the curve starts at gain 0.
    let env = Envelope::default();
    let g = env.make(44100);
    assert_eq!(g.len(), 4410 + 2205 + 30870 + 6615);
    assert_eq!(g[0], 0);
}

#[test]
fn attack_ramps_toward_target() {
    let env = Envelope::default();
    let g = env.make(44100);
    // Attack runs from 0 toward 1200 per-mille over 4410 samples.
    assert_eq!(g[0], 0);
    assert_eq!(g[2205], 2205 * 1200 / 4410);
    // First decay sample starts at the attack target.
    assert_eq!(g[4410], 1200);
}

#[test]
fn phase_that_rounds_to_zero_contributes_no_samples() {
    let mut env = Envelope::default();
    env.attack = 0;
    env.decay = 0;
    let g = env.make(44100);
    assert_eq!(g.len(), 30870 + 6615);
}

#[test]
fn short_duration_rounds_each_phase_down() {
    let env = Envelope::default();
    // duration 7 samples: phase lengths 0, 0, 4, 1.
    let g = env.make(7);
    assert_eq!(g.len(), 0 + 0 + 4 + 1);
}

#[test]
fn just_release_is_one_fade_to_silence() {
    let env = Envelope::just_release();
    let g = env.make(4410);
    assert_eq!(g.len(), 4410);
    assert_eq!(g[0], 1000);
    assert_eq!(g[4409], 1000 - 4409 * 1000 / 4410);
    assert_eq!(g[4409], 1);
}

#[test]
fn fast_release_has_unity_plateau() {
    let env = Envelope::fast_release();
    let g = env.make(1000);
    // Lengths: attack 10, decay 0, sustain 900, release 90.
    assert_eq!(g.len(), 10 + 900 + 90);
    assert_eq!(g[0], 0);
    assert_eq!(g[10], 1000);
    assert_eq!(g[909], 1000);
}

#[test]
fn envelope_mult_applies_gain_per_sample() {
    let env = Envelope::just_release();
    let sound = vec![2000i32; 8000];
    let shaped = env.mult(&sound, 4410);
    // The shorter operand (the envelope) ends the result.
    assert_eq!(shaped.len(), 4410);
    assert_eq!(shaped[0], 2000);
    // Halfway through the fade the gain is 1000 - 2205*1000/4410 = 500.
    assert_eq!(shaped[2205], 2000 * 500 / 1000);
}

#[test]
fn mult_truncates_to_shorter_operand() {
    let a = vec![1000, 500, 250];
    let b = vec![100, 100];
    let r = mult(&a, &b);
    assert_eq!(r, vec![100, 50]);
}

#[test]
fn mult_truncates_toward_zero_on_negative_samples() {
    let a = vec![-1500i32];
    let b = vec![999];
    let r = mult(&a, &b);
    assert_eq!(r, vec![-1498]);
}

#[test]
fn superpos_passes_longer_tail_through() {
    // Lengths 5 and 3: output length 5; positions 3 and 4 are a's values
    // unchanged.
    let a = vec![1, 2, 3, 4, 5];
    let b = vec![10, 20, 30];
    let r = superpos(&a, &b);
    assert_eq!(r.len(), 5);
    assert_eq!(r, vec![11, 22, 33, 4, 5]);
    assert_eq!(r[3], a[3]);
    assert_eq!(r[4], a[4]);
}

#[test]
fn superpos_is_symmetric_in_length() {
    let a = vec![1, 2];
    let b = vec![10, 20, 30, 40];
    let r = superpos(&a, &b);
    assert_eq!(r, vec![11, 22, 30, 40]);
}

#[test]
fn superpos_saturates_instead_of_wrapping() {
    let a = vec![i32::MAX];
    let b = vec![1];
    let r = superpos(&a, &b);
    assert_eq!(r, vec![i32::MAX]);
    let c = vec![i32::MIN];
    let d = vec![-1];
    assert_eq!(superpos(&c, &d), vec![i32::MIN]);
}
