use music_syn::piano::{key_to_name, layer_weights, Layer, Piano};

#[test]
fn raw_velocity_32_is_pure_soft() {
    // Raw value 32 of 127 is per-mille amplitude 251: weight (1.0, 0, 0).
    let (s, m, l) = layer_weights(32 * 1000 / 127);
    assert_eq!((s, m, l), (1000, 0, 0));
}

#[test]
fn raw_velocity_80_is_pure_medium() {
    let (s, m, l) = layer_weights(80 * 1000 / 127);
    assert_eq!((s, m, l), (0, 1000, 0));
}

#[test]
fn raw_velocity_96_blends_medium_and_loud() {
    // Raw 96 is amplitude 755, halfway between the 629 and 881 breakpoints.
    let (s, m, l) = layer_weights(96 * 1000 / 127);
    assert_eq!((s, m, l), (0, 500, 500));
}

#[test]
fn raw_velocity_112_and_above_is_pure_loud() {
    let (s, m, l) = layer_weights(112 * 1000 / 127);
    assert_eq!((s, m, l), (0, 0, 1000));
    assert_eq!(layer_weights(1000), (0, 0, 1000));
}

#[test]
fn weights_sum_to_unity_at_every_amplitude() {
    for amp in 0..=1000u32 {
        let (s, m, l) = layer_weights(amp);
        assert_eq!(s + m + l, 1000, "amplitude {}", amp);
    }
}

#[test]
fn soft_medium_crossfade_is_linear() {
    // At amplitude 400: soft (629-400)*1000/378 = 605, medium 395.
    assert_eq!(layer_weights(400), (605, 395, 0));
}

#[test]
fn missing_pitch_synthesizes_silence() {
    let p = Piano::new();
    assert_eq!(p.syn(0, 500), Vec::<i32>::new());
}

#[test]
fn pitch_missing_from_one_layer_synthesizes_silence() {
    let mut p = Piano::new();
    p.add_note(Layer::Soft, 0, vec![100; 50]);
    p.add_note(Layer::Medium, 0, vec![100; 50]);
    assert_eq!(p.syn(0, 500), Vec::<i32>::new());
}

#[test]
fn loud_velocity_plays_the_loud_layer() {
    let mut p = Piano::new();
    p.add_note(Layer::Soft, 0, vec![111; 100]);
    p.add_note(Layer::Medium, 0, vec![222; 100]);
    p.add_note(Layer::Loud, 0, vec![1000; 100]);
    // Amplitude 1000 (full velocity 127) is pure loud; the fast-release
    // envelope over 100 samples has phase lengths 1/0/90/9, plateau 1000.
    let out = p.syn(0, 1000);
    assert_eq!(out.len(), 100);
    assert_eq!(out[0], 0); // one-sample attack starts at gain 0
    assert_eq!(out[1], 1000); // plateau: 1000 * 1000 / 1000
    assert_eq!(out[90], 1000);
    // Release sample at index 99 is t=8 of 9: gain 1000 - 8*1000/9 = 112.
    assert_eq!(out[99], 112);
}

#[test]
fn crossfade_mixes_layers_proportionally() {
    let mut p = Piano::new();
    p.add_note(Layer::Soft, 5, vec![1000; 100]);
    p.add_note(Layer::Medium, 5, vec![3000; 100]);
    p.add_note(Layer::Loud, 5, vec![5000; 100]);
    // Amplitude 400: weights (605, 395, 0); blend = (1000*605+3000*395)/1000
    // = 1790; fast-release plateau gain is 400, so 1790*400/1000 = 716.
    let out = p.syn(5, 400);
    assert_eq!(out[1], 716);
}

#[test]
fn blend_truncates_to_shortest_layer() {
    let mut p = Piano::new();
    p.add_note(Layer::Soft, 0, vec![100; 80]);
    p.add_note(Layer::Medium, 0, vec![100; 60]);
    p.add_note(Layer::Loud, 0, vec![100; 100]);
    // The blend is 60 samples (the shortest layer); the fast-release
    // envelope over 60 samples has phase lengths 0/0/54/5, so 59 survive.
    let out = p.syn(0, 992);
    assert_eq!(out.len(), 59);
}

#[test]
fn replacing_a_recording_takes_effect() {
    let mut p = Piano::new();
    p.add_note(Layer::Soft, 0, vec![1; 10]);
    p.add_note(Layer::Medium, 0, vec![1; 10]);
    p.add_note(Layer::Loud, 0, vec![1; 10]);
    p.add_note(Layer::Loud, 0, vec![2000; 10]);
    // Pure loud at amplitude 1000; plateau of the 10-sample envelope:
    // lengths 0/0/9/0, gains all 1000, so samples 0..9 keep the value.
    let out = p.syn(0, 1000);
    assert_eq!(out.len(), 9);
    assert_eq!(out[0], 2000);
}

#[test]
fn key_names_follow_pitch_classes_and_octaves() {
    assert_eq!(key_to_name(0), "C4");
    assert_eq!(key_to_name(1), "Db4");
    assert_eq!(key_to_name(-36), "C1");
    assert_eq!(key_to_name(-35), "Db1");
    assert_eq!(key_to_name(-1), "B3");
    assert_eq!(key_to_name(9), "A4");
    assert_eq!(key_to_name(47), "B7");
}

#[test]
fn key_names_reach_past_the_loaded_octaves() {
    assert_eq!(key_to_name(48), "C8");
    assert_eq!(key_to_name(100), "E12");
    assert_eq!(key_to_name(1164), "C101");
}
