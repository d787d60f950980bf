//! The sampled-piano instrument: per-pitch recordings at three dynamics
//! layers (soft/medium/loud), blended by a piecewise-linear velocity
//! crossfade and shaped by a fast-release envelope.
//!
//! The crossfade is defined over per-mille amplitudes with breakpoints at
//! the amplitudes of raw MIDI velocities 32, 80 and 112 (out of 127):
//! below the first breakpoint the soft layer sounds alone, between
//! breakpoints adjacent layers fade linearly into one another, and above the
//! last the loud layer sounds alone.  The three weights sum to exactly 1000
//! at every amplitude.

use vstd::prelude::*;
use vstd::string::StringExecFns;
use std::collections::HashMap;
use crate::types::{tdiv, clamp_s, div1000, clamp_i32};
use crate::soundprim::{
    Envelope, fast_release_env, env_gains, mult_s, mult, min_len, MAX_DUR,
};

verus! {

broadcast use vstd::std_specs::hash::group_hash_axioms;

/// One of the three dynamics layers a note is recorded at.
#[derive(Clone, Copy, Debug)]
pub enum Layer {
    Soft,
    Medium,
    Loud,
}

/// Per-mille amplitude of raw velocity 32 out of 127.
pub const SOFT_TOP: u32 = 251;

/// Per-mille amplitude of raw velocity 80 out of 127.
pub const MEDIUM_TOP: u32 = 629;

/// Per-mille amplitude of raw velocity 112 out of 127.
pub const LOUD_BOTTOM: u32 = 881;

/// Per-mille weight of the soft layer at a per-mille amplitude.
pub open spec fn soft_weight(amp: nat) -> int {
    if amp < 251 {
        1000
    } else if amp < 629 {
        (((629 - amp) * 1000) / 378) as int
    } else {
        0
    }
}

/// Per-mille weight of the medium layer at a per-mille amplitude.
pub open spec fn medium_weight(amp: nat) -> int {
    if amp < 251 {
        0
    } else if amp < 629 {
        1000 - soft_weight(amp)
    } else if amp < 881 {
        (((881 - amp) * 1000) / 252) as int
    } else {
        0
    }
}

/// Per-mille weight of the loud layer at a per-mille amplitude.
pub open spec fn loud_weight(amp: nat) -> int {
    if amp < 629 {
        0
    } else if amp < 881 {
        1000 - medium_weight(amp)
    } else {
        1000
    }
}

/// At every amplitude the three layer weights are nonnegative and sum to
/// exactly one (1000 per-mille): the crossfade conserves total level.
pub proof fn lemma_layer_weights_sum(amp: nat)
    ensures
        soft_weight(amp) + medium_weight(amp) + loud_weight(amp) == 1000,
        0 <= soft_weight(amp) <= 1000,
        0 <= medium_weight(amp) <= 1000,
        0 <= loud_weight(amp) <= 1000,
{
    if 251 <= amp < 629 {
        lemma_fade_bound((629 - amp) as nat, 378);
    } else if 629 <= amp < 881 {
        lemma_fade_bound((881 - amp) as nat, 252);
    }
}

/// A linear fade quotient `(d * 1000) / span` stays within per-mille range
/// while `d` stays within the span.
proof fn lemma_fade_bound(d: nat, span: nat)
    requires
        0 < d <= span,
    ensures
        0 <= (d * 1000) / span <= 1000,
{
    assert(d * 1000 <= span * 1000) by (nonlinear_arith)
        requires
            d <= span,
    ;
    vstd::arithmetic::div_mod::lemma_div_is_ordered(
        (d * 1000) as int,
        (span * 1000) as int,
        span as int,
    );
    assert((span * 1000) / span == 1000) by (nonlinear_arith)
        requires
            span > 0,
    ;
}

/// The three per-mille layer weights at a per-mille amplitude.
pub fn layer_weights(amp_pm: u32) -> (r: (u32, u32, u32))
    requires
        amp_pm <= 1000,
    ensures
        r.0 == soft_weight(amp_pm as nat),
        r.1 == medium_weight(amp_pm as nat),
        r.2 == loud_weight(amp_pm as nat),
        r.0 <= 1000,
        r.1 <= 1000,
        r.2 <= 1000,
{
    proof {
        lemma_layer_weights_sum(amp_pm as nat);
    }
    if amp_pm < SOFT_TOP {
        (1000, 0, 0)
    } else if amp_pm < MEDIUM_TOP {
        let soft: u32 = (MEDIUM_TOP - amp_pm) * 1000 / 378;
        (soft, 1000 - soft, 0)
    } else if amp_pm < LOUD_BOTTOM {
        let med: u32 = (LOUD_BOTTOM - amp_pm) * 1000 / 252;
        (0, med, 1000 - med)
    } else {
        (0, 0, 1000)
    }
}

/// The letters of the pitch class `i` semitones above C.
pub open spec fn note_letters(i: int) -> Seq<char> {
    if i == 0 {
        seq!['C']
    } else if i == 1 {
        seq!['D', 'b']
    } else if i == 2 {
        seq!['D']
    } else if i == 3 {
        seq!['E', 'b']
    } else if i == 4 {
        seq!['E']
    } else if i == 5 {
        seq!['F']
    } else if i == 6 {
        seq!['G', 'b']
    } else if i == 7 {
        seq!['G']
    } else if i == 8 {
        seq!['A', 'b']
    } else if i == 9 {
        seq!['A']
    } else if i == 10 {
        seq!['B', 'b']
    } else {
        seq!['B']
    }
}

/// The decimal digit `d` as a character.
pub open spec fn digit_char(d: int) -> char {
    if d == 0 {
        '0'
    } else if d == 1 {
        '1'
    } else if d == 2 {
        '2'
    } else if d == 3 {
        '3'
    } else if d == 4 {
        '4'
    } else if d == 5 {
        '5'
    } else if d == 6 {
        '6'
    } else if d == 7 {
        '7'
    } else if d == 8 {
        '8'
    } else {
        '9'
    }
}

/// The decimal digits of a number, most significant first.
pub open spec fn dec_str(n: nat) -> Seq<char>
    decreases n,
{
    if n < 10 {
        seq![digit_char(n as int)]
    } else {
        dec_str(n / 10) + seq![digit_char((n % 10) as int)]
    }
}

/// The pitch name of a key `k` semitones from middle C, named so that key
/// -36 is C1: the pitch-class letters followed by the octave number.
pub open spec fn key_name_spec(k: int) -> Seq<char> {
    note_letters((k + 36) % 12) + dec_str((1 + (k + 36) / 12) as nat)
}

fn note_letters_str(idx: u32) -> (r: &'static str)
    requires
        idx < 12,
    ensures
        r@ == note_letters(idx as int),
{
    if idx == 0 {
        proof { reveal_strlit("C"); }
        "C"
    } else if idx == 1 {
        proof { reveal_strlit("Db"); }
        "Db"
    } else if idx == 2 {
        proof { reveal_strlit("D"); }
        "D"
    } else if idx == 3 {
        proof { reveal_strlit("Eb"); }
        "Eb"
    } else if idx == 4 {
        proof { reveal_strlit("E"); }
        "E"
    } else if idx == 5 {
        proof { reveal_strlit("F"); }
        "F"
    } else if idx == 6 {
        proof { reveal_strlit("Gb"); }
        "Gb"
    } else if idx == 7 {
        proof { reveal_strlit("G"); }
        "G"
    } else if idx == 8 {
        proof { reveal_strlit("Ab"); }
        "Ab"
    } else if idx == 9 {
        proof { reveal_strlit("A"); }
        "A"
    } else if idx == 10 {
        proof { reveal_strlit("Bb"); }
        "Bb"
    } else {
        proof { reveal_strlit("B"); }
        "B"
    }
}

fn digit_str(d: u32) -> (r: &'static str)
    requires
        d < 10,
    ensures
        r@ == seq![digit_char(d as int)],
{
    if d == 0 {
        proof { reveal_strlit("0"); }
        "0"
    } else if d == 1 {
        proof { reveal_strlit("1"); }
        "1"
    } else if d == 2 {
        proof { reveal_strlit("2"); }
        "2"
    } else if d == 3 {
        proof { reveal_strlit("3"); }
        "3"
    } else if d == 4 {
        proof { reveal_strlit("4"); }
        "4"
    } else if d == 5 {
        proof { reveal_strlit("5"); }
        "5"
    } else if d == 6 {
        proof { reveal_strlit("6"); }
        "6"
    } else if d == 7 {
        proof { reveal_strlit("7"); }
        "7"
    } else if d == 8 {
        proof { reveal_strlit("8"); }
        "8"
    } else {
        proof { reveal_strlit("9"); }
        "9"
    }
}

/// Appends the decimal digits of `n` to a string.
fn push_decimal(s: &mut String, n: u32)
    ensures
        final(s)@ == old(s)@ + dec_str(n as nat),
    decreases n,
{
    if n >= 10 {
        push_decimal(s, n / 10);
    }
    s.append(digit_str(n % 10));
    proof {
        if n >= 10 {
            assert(old(s)@ + dec_str((n / 10) as nat) + seq![digit_char((n % 10) as int)]
                =~= old(s)@ + dec_str(n as nat));
        } else {
            assert(old(s)@ + seq![digit_char(n as int)] =~= old(s)@ + dec_str(n as nat));
        }
    }
}

/// The pitch name of a key given in semitones relative to middle C (so key
/// 0 is C4 and key -36, the lowest key, is C1).
pub fn key_to_name(k: i32) -> (r: String)
    requires
        k >= -36,
    ensures
        r@ == key_name_spec(k as int),
{
    let k2: u32 = ((k as i64) + 36) as u32;
    let idx: u32 = k2 % 12;
    let oct: u32 = 1 + k2 / 12;
    let name = note_letters_str(idx);
    let mut s = String::from_str(name);
    push_decimal(&mut s, oct);
    s
}

/// The clamped per-mille blend of three samples under three weights.
pub open spec fn mix3_s(a: int, wa: int, b: int, wb: int, c: int, wc: int) -> int {
    clamp_s(tdiv(a * wa + b * wb + c * wc, 1000))
}

/// Blends three layer samples under per-mille weights.
fn mix3(a: i32, wa: u32, b: i32, wb: u32, c: i32, wc: u32) -> (r: i32)
    requires
        wa <= 1000,
        wb <= 1000,
        wc <= 1000,
    ensures
        r as int == mix3_s(a as int, wa as int, b as int, wb as int, c as int, wc as int),
{
    proof {
        lemma_weighted_bound(a as int, wa as int);
        lemma_weighted_bound(b as int, wb as int);
        lemma_weighted_bound(c as int, wc as int);
    }
    let s: i64 = a as i64 * wa as i64 + b as i64 * wb as i64 + c as i64 * wc as i64;
    clamp_i32(div1000(s))
}

/// A sample weighted by a per-mille factor stays far within a wide word.
proof fn lemma_weighted_bound(a: int, w: int)
    requires
        i32::MIN <= a <= i32::MAX,
        0 <= w <= 1000,
    ensures
        -0x800_0000_0000_0000 <= a * w <= 0x800_0000_0000_0000,
{
    assert(-0x800_0000_0000_0000 <= a * w <= 0x800_0000_0000_0000) by (nonlinear_arith)
        requires
            i32::MIN <= a <= i32::MAX,
            0 <= w <= 1000,
    ;
}

/// The recordings one `Piano` channel holds: for each pitch (in semitones
/// relative to middle C) and dynamics layer, a PCM sample sequence.
#[verifier::ext_equal]
pub struct PianoModel {
    pub soft: Map<i32, Seq<i32>>,
    pub medium: Map<i32, Seq<i32>>,
    pub loud: Map<i32, Seq<i32>>,
}

/// A sampled piano: one map of per-pitch recordings per dynamics layer.
pub struct Piano {
    pub soft: HashMap<i32, Vec<i32>>,
    pub medium: HashMap<i32, Vec<i32>>,
    pub loud: HashMap<i32, Vec<i32>>,
}

impl View for Piano {
    type V = PianoModel;

    open spec fn view(&self) -> PianoModel {
        PianoModel {
            soft: self.soft@.map_values(|v: Vec<i32>| v@),
            medium: self.medium@.map_values(|v: Vec<i32>| v@),
            loud: self.loud@.map_values(|v: Vec<i32>| v@),
        }
    }
}

/// What the piano synthesizes for a pitch at a per-mille amplitude: the
/// three layer recordings blended by the velocity crossfade, truncated to
/// the shortest recording, then shaped by the fast-release envelope at that
/// amplitude.  A pitch missing from any layer synthesizes silence.
pub open spec fn piano_syn_s(p: PianoModel, key: int, amp: nat) -> Seq<i32> {
    if p.soft.contains_key(key as i32) && p.medium.contains_key(key as i32) && p.loud.contains_key(
        key as i32,
    ) {
        let pp = p.soft[key as i32];
        let mf = p.medium[key as i32];
        let ff = p.loud[key as i32];
        let n = min_len(min_len(pp.len(), mf.len()), ff.len());
        let mixed = Seq::new(
            n,
            |i: int|
                mix3_s(
                    pp[i] as int,
                    soft_weight(amp),
                    mf[i] as int,
                    medium_weight(amp),
                    ff[i] as int,
                    loud_weight(amp),
                ) as i32,
        );
        mult_s(env_gains(fast_release_with(amp), n), mixed)
    } else {
        Seq::empty()
    }
}

/// The fast-release envelope preset at a given per-mille amplitude.
pub open spec fn fast_release_with(amp: nat) -> Envelope {
    Envelope { amp: amp as u32, ..fast_release_env() }
}

impl Piano {
    /// Every stored recording fits the largest envelope duration.
    pub open spec fn wf(&self) -> bool {
        &&& forall|k: i32|
            #[trigger] self@.soft.contains_key(k) ==> self@.soft[k].len() <= MAX_DUR
        &&& forall|k: i32|
            #[trigger] self@.medium.contains_key(k) ==> self@.medium[k].len() <= MAX_DUR
        &&& forall|k: i32|
            #[trigger] self@.loud.contains_key(k) ==> self@.loud[k].len() <= MAX_DUR
    }

    /// A piano with no recordings loaded yet.
    pub fn new() -> (r: Self)
        ensures
            r.wf(),
            r@.soft == Map::<i32, Seq<i32>>::empty(),
            r@.medium == Map::<i32, Seq<i32>>::empty(),
            r@.loud == Map::<i32, Seq<i32>>::empty(),
    {
        let r = Piano { soft: HashMap::new(), medium: HashMap::new(), loud: HashMap::new() };
        proof {
            assert(r@.soft =~= Map::<i32, Seq<i32>>::empty());
            assert(r@.medium =~= Map::<i32, Seq<i32>>::empty());
            assert(r@.loud =~= Map::<i32, Seq<i32>>::empty());
        }
        r
    }

    /// Stores one recording for a pitch at a dynamics layer, replacing any
    /// previous recording there.
    pub fn add_note(&mut self, layer: Layer, key: i32, samples: Vec<i32>)
        requires
            old(self).wf(),
            samples@.len() <= MAX_DUR,
        ensures
            final(self).wf(),
            final(self)@ == (match layer {
                Layer::Soft => (PianoModel {
                    soft: old(self)@.soft.insert(key, samples@),
                    ..old(self)@
                }),
                Layer::Medium => (PianoModel {
                    medium: old(self)@.medium.insert(key, samples@),
                    ..old(self)@
                }),
                Layer::Loud => (PianoModel {
                    loud: old(self)@.loud.insert(key, samples@),
                    ..old(self)@
                }),
            }),
    {
        let ghost prev = self@;
        let ghost s = samples@;
        match layer {
            Layer::Soft => {
                self.soft.insert(key, samples);
                proof {
                    assert(self@.soft =~= prev.soft.insert(key, s));
                    assert(self@.medium =~= prev.medium);
                    assert(self@.loud =~= prev.loud);
                }
            },
            Layer::Medium => {
                self.medium.insert(key, samples);
                proof {
                    assert(self@.medium =~= prev.medium.insert(key, s));
                    assert(self@.soft =~= prev.soft);
                    assert(self@.loud =~= prev.loud);
                }
            },
            Layer::Loud => {
                self.loud.insert(key, samples);
                proof {
                    assert(self@.loud =~= prev.loud.insert(key, s));
                    assert(self@.soft =~= prev.soft);
                    assert(self@.medium =~= prev.medium);
                }
            },
        }
    }

    /// Synthesizes one note: `key` is in semitones relative to middle C,
    /// `amp_pm` a per-mille amplitude.
    pub fn syn(&self, key: i32, amp_pm: u32) -> (r: Vec<i32>)
        requires
            self.wf(),
            amp_pm <= 1000,
        ensures
            r@ == piano_syn_s(self@, key as int, amp_pm as nat),
    {
        let po = self.soft.get(&key);
        let mo = self.medium.get(&key);
        let lo = self.loud.get(&key);
        match (po, mo, lo) {
            (Some(pp), Some(mf), Some(ff)) => {
                let (wp, wm, wl) = layer_weights(amp_pm);
                let n0 = if pp.len() <= mf.len() {
                    pp.len()
                } else {
                    mf.len()
                };
                let n = if n0 <= ff.len() {
                    n0
                } else {
                    ff.len()
                };
                let ghost mixed_s = Seq::new(
                    n as nat,
                    |i: int|
                        mix3_s(
                            pp@[i] as int,
                            soft_weight(amp_pm as nat),
                            mf@[i] as int,
                            medium_weight(amp_pm as nat),
                            ff@[i] as int,
                            loud_weight(amp_pm as nat),
                        ) as i32,
                );
                let mut mixed: Vec<i32> = Vec::new();
                let mut i: usize = 0;
                while i < n
                    invariant
                        i <= n,
                        n <= pp@.len(),
                        n <= mf@.len(),
                        n <= ff@.len(),
                        wp == soft_weight(amp_pm as nat),
                        wm == medium_weight(amp_pm as nat),
                        wl == loud_weight(amp_pm as nat),
                        wp <= 1000,
                        wm <= 1000,
                        wl <= 1000,
                        mixed_s == Seq::new(
                            n as nat,
                            |j: int|
                                mix3_s(
                                    pp@[j] as int,
                                    soft_weight(amp_pm as nat),
                                    mf@[j] as int,
                                    medium_weight(amp_pm as nat),
                                    ff@[j] as int,
                                    loud_weight(amp_pm as nat),
                                ) as i32,
                        ),
                        mixed@.len() == i,
                        forall|j: int| 0 <= j < i ==> mixed@[j] == mixed_s[j],
                    decreases n - i,
                {
                    mixed.push(mix3(pp[i], wp, mf[i], wm, ff[i], wl));
                    i = i + 1;
                }
                proof {
                    assert(mixed@ =~= mixed_s);
                }
                let mut env = Envelope::fast_release();
                env.amp = amp_pm;
                proof {
                    assert(env == fast_release_with(amp_pm as nat));
                    assert(env.wf());
                    assert(self@.soft.contains_key(key));
                    assert(self@.soft[key] == pp@);
                    assert(n <= MAX_DUR);
                }
                env.mult(&mixed, n)
            },
            _ => {
                Vec::new()
            },
        }
    }
}

} // verus!
