//! Sound primitives: elementwise stream combinators and the four-phase
//! piecewise-linear envelope generator.

use vstd::prelude::*;
use crate::types::{tdiv, sat_add_s, scale_s, sat_add, scale, SAMPLE_RATE};

verus! {

pub open spec fn min_len(a: nat, b: nat) -> nat {
    if a <= b {
        a
    } else {
        b
    }
}

pub open spec fn max_len(a: nat, b: nat) -> nat {
    if a <= b {
        b
    } else {
        a
    }
}

/// Elementwise fixed-point product; the shorter operand ends the result.
pub open spec fn mult_s(x: Seq<i32>, y: Seq<i32>) -> Seq<i32> {
    Seq::new(min_len(x.len(), y.len()), |i: int| scale_s(x[i] as int, y[i] as int) as i32)
}

/// Elementwise saturating sum tolerating unequal lengths: positions beyond
/// the shorter sequence pass the longer sequence's value through unchanged.
pub open spec fn superpos_s(x: Seq<i32>, y: Seq<i32>) -> Seq<i32> {
    Seq::new(
        max_len(x.len(), y.len()),
        |i: int|
            if i < x.len() && i < y.len() {
                sat_add_s(x[i] as int, y[i] as int) as i32
            } else if i < x.len() {
                x[i]
            } else {
                y[i]
            },
    )
}

/// Elementwise fixed-point product of two sample streams (a gain stream is a
/// stream of per-mille values); the result is as long as the shorter operand.
pub fn mult(x: &Vec<i32>, y: &Vec<i32>) -> (r: Vec<i32>)
    ensures
        r@ == mult_s(x@, y@),
{
    let n: usize = if x.len() <= y.len() {
        x.len()
    } else {
        y.len()
    };
    let mut r: Vec<i32> = Vec::new();
    let mut i: usize = 0;
    while i < n
        invariant
            i <= n,
            n == min_len(x@.len(), y@.len()),
            r@.len() == i,
            forall|j: int| 0 <= j < i ==> r@[j] == mult_s(x@, y@)[j],
        decreases n - i,
    {
        r.push(scale(x[i], y[i]));
        i = i + 1;
    }
    proof {
        assert(r@ =~= mult_s(x@, y@));
    }
    r
}

/// Elementwise saturating sum of two sample streams; output length is the
/// longer operand's, whose tail passes through unchanged.
pub fn superpos(x: &Vec<i32>, y: &Vec<i32>) -> (r: Vec<i32>)
    ensures
        r@ == superpos_s(x@, y@),
{
    let n: usize = if x.len() <= y.len() {
        y.len()
    } else {
        x.len()
    };
    let mut r: Vec<i32> = Vec::new();
    let mut i: usize = 0;
    while i < n
        invariant
            i <= n,
            n == max_len(x@.len(), y@.len()),
            r@.len() == i,
            forall|j: int| 0 <= j < i ==> r@[j] == superpos_s(x@, y@)[j],
        decreases n - i,
    {
        let v: i32 = if i < x.len() && i < y.len() {
            sat_add(x[i], y[i])
        } else if i < x.len() {
            x[i]
        } else {
            y[i]
        };
        r.push(v);
        i = i + 1;
    }
    proof {
        assert(r@ =~= superpos_s(x@, y@));
    }
    r
}

/// Superposition is the exact elementwise sum wherever that sum stays
/// within the sample range; only beyond the range does it saturate.  The
/// length and pass-through clauses of `superpos_s` need no such bound.
pub proof fn lemma_superpos_exact(x: Seq<i32>, y: Seq<i32>, i: int)
    requires
        0 <= i < x.len(),
        i < y.len(),
        i32::MIN <= x[i] + y[i] <= i32::MAX,
    ensures
        superpos_s(x, y)[i] == x[i] + y[i],
{
}

/// Splits an interleaved stereo buffer into (left, right) sample pairs.
pub fn stereo_channels_iter(v: &Vec<i16>) -> (r: Vec<(i16, i16)>)
    requires
        v@.len() % 2 == 0,
    ensures
        r@.len() == v@.len() / 2,
        forall|i: int| 0 <= i < r@.len() ==> #[trigger] r@[i] == (v@[2 * i], v@[2 * i + 1]),
{
    let n: usize = v.len() / 2;
    let mut r: Vec<(i16, i16)> = Vec::new();
    let mut i: usize = 0;
    while i < n
        invariant
            i <= n,
            n == v@.len() / 2,
            v@.len() % 2 == 0,
            r@.len() == i,
            forall|j: int| 0 <= j < i ==> #[trigger] r@[j] == (v@[2 * j], v@[2 * j + 1]),
        decreases n - i,
    {
        proof {
            vstd::arithmetic::div_mod::lemma_fundamental_div_mod(v@.len() as int, 2);
            assert(v@.len() == 2 * n);
            assert(v.len() == v@.len());
            assert(2 * (i as int) + 1 < v@.len());
        }
        let j: usize = i * 2;
        r.push((v[j], v[j + 1]));
        i = i + 1;
    }
    r
}

/// A four-phase (attack/decay/sustain/release) envelope specification.
/// Phase lengths are per-mille fractions of a duration; `*_plier` values are
/// per-mille gain targets, pre-multiplied by the per-mille amplitude `amp`.
#[derive(Clone, Copy, Debug, PartialEq, Eq, Structural)]
pub struct Envelope {
    pub attack: u32,
    pub attack_plier: u32,
    pub decay: u32,
    pub decay_plier: u32,
    pub sustain: u32,
    pub sustain_plier: u32,
    pub release: u32,
    pub sample_rate: u32,
    pub amp: u32,
}

/// Largest duration, in samples, an envelope may be generated for.
pub const MAX_DUR: u64 = 0x1_0000_0000;

/// Number of samples of the short fade applied to a released note (0.1 s).
pub const RELEASE_SAMPLES: usize = 4410;

pub open spec fn phase_len(frac_pm: nat, duration: nat) -> nat {
    (duration * frac_pm) / 1000
}

pub open spec fn gain_target(plier_pm: nat, amp_pm: nat) -> int {
    ((plier_pm * amp_pm) / 1000) as int
}

/// A linear ramp of `len` samples from gain `y0` toward gain `y1`, with the
/// interpolation division truncated toward zero.
pub open spec fn ramp_s(y0: int, y1: int, len: nat) -> Seq<i32> {
    Seq::new(len, |t: int| (y0 + tdiv(t * (y1 - y0), len as int)) as i32)
}

/// The whole gain curve an envelope generates over `duration` samples:
/// the four phase ramps concatenated, starting from gain 0.
pub open spec fn env_gains(e: Envelope, duration: nat) -> Seq<i32> {
    let g1 = gain_target(e.attack_plier as nat, e.amp as nat);
    let g2 = gain_target(e.decay_plier as nat, e.amp as nat);
    let g3 = gain_target(e.sustain_plier as nat, e.amp as nat);
    ramp_s(0, g1, phase_len(e.attack as nat, duration)) + ramp_s(
        g1,
        g2,
        phase_len(e.decay as nat, duration),
    ) + ramp_s(g2, g3, phase_len(e.sustain as nat, duration)) + ramp_s(
        g3,
        0,
        phase_len(e.release as nat, duration),
    )
}

pub open spec fn default_env() -> Envelope {
    Envelope {
        attack: 100,
        attack_plier: 1200,
        decay: 50,
        decay_plier: 1000,
        sustain: 700,
        sustain_plier: 700,
        release: 150,
        sample_rate: 44100,
        amp: 1000,
    }
}

pub open spec fn just_release_env() -> Envelope {
    Envelope { attack: 0, decay: 0, sustain: 0, sustain_plier: 1000, release: 1000, ..default_env() }
}

pub open spec fn fast_release_env() -> Envelope {
    Envelope {
        attack: 10,
        attack_plier: 1000,
        decay: 0,
        decay_plier: 1000,
        sustain: 900,
        sustain_plier: 1000,
        release: 90,
        ..default_env()
    }
}

impl Envelope {
    /// Every phase fraction at most the whole duration, pliers and amplitude
    /// bounded so gain targets stay within per-mille range.
    pub open spec fn wf(&self) -> bool {
        &&& self.attack <= 1000
        &&& self.decay <= 1000
        &&& self.sustain <= 1000
        &&& self.release <= 1000
        &&& self.attack_plier <= 10000
        &&& self.decay_plier <= 10000
        &&& self.sustain_plier <= 10000
        &&& self.amp <= 1000
    }

    /// The voice-style preset: audible attack overshoot, then decay to a
    /// sustained plateau and a gentle release.
    pub fn default() -> (r: Self)
        ensures
            r == default_env(),
            r.wf(),
    {
        Envelope {
            attack: 100,
            attack_plier: 1200,
            decay: 50,
            decay_plier: 1000,
            sustain: 700,
            sustain_plier: 700,
            release: 150,
            sample_rate: SAMPLE_RATE,
            amp: 1000,
        }
    }

    /// Release-only preset: the whole duration is one fade from unity gain to
    /// silence, used to fade out an already-sounding note.
    pub fn just_release() -> (r: Self)
        ensures
            r == just_release_env(),
            r.wf(),
    {
        let mut s = Self::default();
        s.attack = 0;
        s.decay = 0;
        s.sustain = 0;
        s.sustain_plier = 1000;
        s.release = 1000;
        s
    }

    /// Near-instant attack, long unity plateau, short release: shapes raw
    /// sampled-instrument playback without altering its natural decay.
    pub fn fast_release() -> (r: Self)
        ensures
            r == fast_release_env(),
            r.wf(),
    {
        let mut s = Self::default();
        s.attack = 10;
        s.attack_plier = 1000;
        s.decay = 0;
        s.decay_plier = 1000;
        s.sustain = 900;
        s.sustain_plier = 1000;
        s.release = 90;
        s
    }

    /// Applies this envelope, generated over `duration` samples, to a sound.
    pub fn mult(&self, s: &Vec<i32>, duration: usize) -> (r: Vec<i32>)
        requires
            self.wf(),
            duration <= MAX_DUR,
        ensures
            r@ == mult_s(env_gains(*self, duration as nat), s@),
    {
        let g = self.make(duration);
        mult(&g, s)
    }

    /// Generates the gain curve over `duration` samples.  The four phase
    /// lengths are each `duration * fraction / 1000` rounded down; a phase
    /// whose length rounds to zero contributes no samples.  The curve starts
    /// at gain 0.
    pub fn make(&self, duration: usize) -> (r: Vec<i32>)
        requires
            self.wf(),
            duration <= MAX_DUR,
        ensures
            r@ == env_gains(*self, duration as nat),
            r@.len() == phase_len(self.attack as nat, duration as nat) + phase_len(
                self.decay as nat,
                duration as nat,
            ) + phase_len(self.sustain as nat, duration as nat) + phase_len(
                self.release as nat,
                duration as nat,
            ),
    {
        let g1: u32 = gain_of(self.attack_plier, self.amp);
        let g2: u32 = gain_of(self.decay_plier, self.amp);
        let g3: u32 = gain_of(self.sustain_plier, self.amp);
        let l1 = phase_samples(self.attack, duration);
        let l2 = phase_samples(self.decay, duration);
        let l3 = phase_samples(self.sustain, duration);
        let l4 = phase_samples(self.release, duration);
        let mut r = interpolate_to(0, g1, l1);
        let mut p2 = interpolate_to(g1, g2, l2);
        let mut p3 = interpolate_to(g2, g3, l3);
        let mut p4 = interpolate_to(g3, 0, l4);
        r.append(&mut p2);
        r.append(&mut p3);
        r.append(&mut p4);
        r
    }
}

/// A gain target: a per-mille plier pre-multiplied by a per-mille amplitude.
fn gain_of(plier_pm: u32, amp_pm: u32) -> (r: u32)
    requires
        plier_pm <= 10000,
        amp_pm <= 1000,
    ensures
        r == gain_target(plier_pm as nat, amp_pm as nat),
        r <= 10000,
{
    proof {
        assert((plier_pm as int) * (amp_pm as int) <= 10000 * 1000) by (nonlinear_arith)
            requires
                plier_pm <= 10000,
                amp_pm <= 1000,
        ;
    }
    let p: u64 = (plier_pm as u64) * (amp_pm as u64);
    (p / 1000) as u32
}

/// The number of samples a phase occupies: `duration * frac_pm / 1000`.
fn phase_samples(frac_pm: u32, duration: usize) -> (r: usize)
    requires
        frac_pm <= 1000,
        duration <= MAX_DUR,
    ensures
        r == phase_len(frac_pm as nat, duration as nat),
        r <= duration,
{
    proof {
        assert((duration as int) * (frac_pm as int) <= (duration as int) * 1000)
            by (nonlinear_arith)
            requires
                frac_pm <= 1000,
                duration >= 0,
        ;
        assert(MAX_DUR * 1000 < u64::MAX);
        assert(((duration as int) * 1000) / 1000 == duration as int) by (nonlinear_arith);
        vstd::arithmetic::div_mod::lemma_div_is_ordered(
            (duration as int) * (frac_pm as int),
            (duration as int) * 1000,
            1000,
        );
    }
    let l: u64 = (duration as u64) * (frac_pm as u64) / 1000;
    l as usize
}

/// One linear phase: `len` gain samples running from `y0` toward `y1`.
fn interpolate_to(y0: u32, y1: u32, len: usize) -> (r: Vec<i32>)
    requires
        y0 <= 10000,
        y1 <= 10000,
        len <= MAX_DUR,
    ensures
        r@ == ramp_s(y0 as int, y1 as int, len as nat),
{
    let mut r: Vec<i32> = Vec::new();
    let mut t: usize = 0;
    while t < len
        invariant
            t <= len,
            len <= MAX_DUR,
            y0 <= 10000,
            y1 <= 10000,
            r@.len() == t,
            forall|j: int| 0 <= j < t ==> r@[j] == ramp_s(y0 as int, y1 as int, len as nat)[j],
        decreases len - t,
    {
        let ghost a: int = (t as int) * ((y1 as int) - (y0 as int));
        let v: i32 = if y1 >= y0 {
            let dy: u64 = (y1 - y0) as u64;
            proof {
                lemma_interp_mul_bound(t as nat, dy as nat);
                lemma_interp_bound(t as nat, dy as nat, len as nat);
                assert(a == (t as int) * (dy as int));
                assert(a >= 0) by (nonlinear_arith)
                    requires
                        a == (t as int) * (dy as int),
                        t >= 0,
                        dy >= 0,
                ;
            }
            let q: u64 = (t as u64) * dy / (len as u64);
            (y0 as i32) + (q as i32)
        } else {
            let dy: u64 = (y0 - y1) as u64;
            proof {
                lemma_interp_mul_bound(t as nat, dy as nat);
                lemma_interp_bound(t as nat, dy as nat, len as nat);
                assert(a == -((t as int) * (dy as int))) by (nonlinear_arith)
                    requires
                        a == (t as int) * ((y1 as int) - (y0 as int)),
                        dy == (y0 as int) - (y1 as int),
                ;
                assert((t as int) * (dy as int) >= 0) by (nonlinear_arith)
                    requires
                        t >= 0,
                        dy >= 0,
                ;
            }
            let q: u64 = (t as u64) * dy / (len as u64);
            (y0 as i32) - (q as i32)
        };
        proof {
            assert(v as int == (y0 as int) + tdiv(a, len as int));
        }
        r.push(v);
        t = t + 1;
    }
    proof {
        assert(r@ =~= ramp_s(y0 as int, y1 as int, len as nat));
    }
    r
}

/// The interpolation product of a sample index and a gain difference fits in
/// a machine word.
proof fn lemma_interp_mul_bound(t: nat, dy: nat)
    requires
        t <= 0x1_0000_0000,
        dy <= 10000,
    ensures
        t * dy <= 0x1_0000_0000 * 10000,
{
    assert(t * dy <= 0x1_0000_0000 * 10000) by (nonlinear_arith)
        requires
            t <= 0x1_0000_0000,
            dy <= 10000,
    ;
}

/// For `t < len`, the interpolation quotient `t * dy / len` stays below `dy`.
proof fn lemma_interp_bound(t: nat, dy: nat, len: nat)
    requires
        t < len,
    ensures
        (t * dy) / len <= dy,
{
    assert(t * dy <= len * dy) by (nonlinear_arith)
        requires
            t < len,
    ;
    vstd::arithmetic::div_mod::lemma_div_is_ordered(
        (t * dy) as int,
        (len * dy) as int,
        len as int,
    );
    assert((len * dy) / len == dy) by (nonlinear_arith)
        requires
            len > 0,
    ;
}

} // verus!
