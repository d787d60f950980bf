//! The synthesis engine: walks a track's event list, converts each event's
//! delta-ticks into an exact sample count, advances every live note by that
//! many samples while mixing them into the output, then applies the event's
//! side effect to the note-lifecycle state.
//!
//! Every public operation is specified against a functional model
//! ([`SynModel`]): the engine's exec state refines the model step for step,
//! and the whole synthesis pass equals a fold of the model over the events.

use vstd::prelude::*;
use crate::types::{TrackEvent, Payload, sat_add_s, event_wf, events_wf, MAX_VTIME};
use crate::soundprim::{mult_s, mult, env_gains, just_release_env, Envelope, RELEASE_SAMPLES};
use crate::streamop::{Op, Stream, IterStream};
use crate::piano::{Piano, PianoModel, piano_syn_s};

verus! {

/// The instrument selector a program change picks: presets 0..=7 select the
/// sampled piano; any other preset selects a silent placeholder.
#[derive(Clone, Copy, Debug)]
pub enum Instrument {
    Piano,
    NoImpl,
}

/// Per-engine mutable state: ticks per beat (set once for a track), current
/// tempo in microseconds per beat, current instrument, and the damper pedal.
pub struct TrackState {
    pub div: u32,
    pub tempo: u32,
    pub instrument: Instrument,
    pub damper_pedal: bool,
}

impl TrackState {
    pub fn new() -> (r: Self)
        ensures
            r.div == 480,
            r.tempo == 434000,
            r.instrument is Piano,
            r.damper_pedal == false,
    {
        TrackState { div: 480, tempo: 434_000, instrument: Instrument::Piano, damper_pedal: false }
    }
}

/// The functional model of the engine: plain mathematical state that every
/// engine operation is specified against.  A producer is modelled by the
/// samples it has not yet handed out.
#[verifier::ext_equal]
pub struct SynModel {
    pub sample_rate: nat,
    pub div: nat,
    pub tempo: nat,
    pub instrument: Instrument,
    pub damper_pedal: bool,
    /// Numerator of the fractional sample remainder, over `den`.
    pub sample_ix: nat,
    pub pressed: Seq<(u8, Seq<i32>)>,
    pub dampered: Seq<Seq<i32>>,
    pub released: Seq<Seq<i32>>,
    pub output: Seq<i32>,
    pub piano: PianoModel,
}

/// Samples per tick, as the exact rational `spt(m) / den(m)`.
pub open spec fn spt(m: SynModel) -> nat {
    m.sample_rate * m.tempo
}

pub open spec fn den(m: SynModel) -> nat {
    1_000_000 * m.div
}

/// Whole samples emitted when the clock advances by `vt` ticks.
pub open spec fn emit_of(m: SynModel, vt: nat) -> nat {
    (m.sample_ix + vt * spt(m)) / den(m)
}

/// Fractional remainder numerator after the clock advances by `vt` ticks.
pub open spec fn frac_after(m: SynModel, vt: nat) -> nat {
    (m.sample_ix + vt * spt(m)) % den(m)
}

/// `chunk` with `p`'s first samples mixed in (saturating); where `p` is
/// shorter than the chunk, the chunk passes through.
pub open spec fn mix_one(chunk: Seq<i32>, p: Seq<i32>) -> Seq<i32> {
    Seq::new(
        chunk.len(),
        |i: int|
            if i < p.len() {
                sat_add_s(chunk[i] as int, p[i] as int) as i32
            } else {
                chunk[i]
            },
    )
}

/// Mixes a row of producers into a chunk, in order.  Returns the mixed
/// chunk and the surviving producers: one that cannot fill the whole chunk
/// is exhausted and dropped; a survivor has the consumed samples skipped.
pub open spec fn mix_vec(ps: Seq<Seq<i32>>, chunk: Seq<i32>) -> (Seq<i32>, Seq<Seq<i32>>)
    decreases ps.len(),
{
    if ps.len() == 0 {
        (chunk, Seq::empty())
    } else {
        let p = ps[0];
        let c1 = mix_one(chunk, p);
        let r = mix_vec(ps.drop_first(), c1);
        if p.len() >= chunk.len() {
            (r.0, seq![p.skip(chunk.len() as int)] + r.1)
        } else {
            r
        }
    }
}

/// As `mix_vec`, for the pressed row, which keys each producer by pitch.
pub open spec fn mix_map(ps: Seq<(u8, Seq<i32>)>, chunk: Seq<i32>) -> (
    Seq<i32>,
    Seq<(u8, Seq<i32>)>,
)
    decreases ps.len(),
{
    if ps.len() == 0 {
        (chunk, Seq::empty())
    } else {
        let p = ps[0].1;
        let c1 = mix_one(chunk, p);
        let r = mix_map(ps.drop_first(), c1);
        if p.len() >= chunk.len() {
            (r.0, seq![(ps[0].0, p.skip(chunk.len() as int))] + r.1)
        } else {
            r
        }
    }
}

/// Mixing never changes the chunk's length.
pub proof fn lemma_mix_vec_len(ps: Seq<Seq<i32>>, chunk: Seq<i32>)
    ensures
        mix_vec(ps, chunk).0.len() == chunk.len(),
    decreases ps.len(),
{
    if ps.len() > 0 {
        lemma_mix_vec_len(ps.drop_first(), mix_one(chunk, ps[0]));
    }
}

pub proof fn lemma_mix_map_len(ps: Seq<(u8, Seq<i32>)>, chunk: Seq<i32>)
    ensures
        mix_map(ps, chunk).0.len() == chunk.len(),
    decreases ps.len(),
{
    if ps.len() > 0 {
        lemma_mix_map_len(ps.drop_first(), mix_one(chunk, ps[0].1));
    }
}

/// Mixing into an empty chunk consumes nothing: every producer survives
/// unchanged.
pub proof fn lemma_mix_vec_empty(ps: Seq<Seq<i32>>, chunk: Seq<i32>)
    requires
        chunk.len() == 0,
    ensures
        mix_vec(ps, chunk).0 == chunk,
        mix_vec(ps, chunk).1 == ps,
    decreases ps.len(),
{
    if ps.len() == 0 {
        assert(mix_vec(ps, chunk).1 =~= ps);
    } else {
        let c1 = mix_one(chunk, ps[0]);
        assert(c1 =~= chunk);
        lemma_mix_vec_empty(ps.drop_first(), c1);
        assert(ps[0].skip(0) =~= ps[0]);
        assert(mix_vec(ps, chunk).1 =~= ps);
    }
}

pub proof fn lemma_mix_map_empty(ps: Seq<(u8, Seq<i32>)>, chunk: Seq<i32>)
    requires
        chunk.len() == 0,
    ensures
        mix_map(ps, chunk).0 == chunk,
        mix_map(ps, chunk).1 == ps,
    decreases ps.len(),
{
    if ps.len() == 0 {
        assert(mix_map(ps, chunk).1 =~= ps);
    } else {
        let c1 = mix_one(chunk, ps[0].1);
        assert(c1 =~= chunk);
        lemma_mix_map_empty(ps.drop_first(), c1);
        assert(ps[0].1.skip(0) =~= ps[0].1);
        assert((ps[0].0, ps[0].1.skip(0)) == ps[0]);
        assert(mix_map(ps, chunk).1 =~= ps);
    }
}

/// The chunk one clock advance of `vt` ticks produces: `emit_of(m, vt)`
/// zero samples with every live producer mixed in — pressed, then
/// held-by-pedal, then releasing.
pub open spec fn elapse_mixes(m: SynModel, vt: nat) -> (
    Seq<i32>,
    (Seq<(u8, Seq<i32>)>, Seq<Seq<i32>>, Seq<Seq<i32>>),
) {
    let zeros = Seq::new(emit_of(m, vt), |i: int| 0i32);
    let rp = mix_map(m.pressed, zeros);
    let rd = mix_vec(m.dampered, rp.0);
    let rr = mix_vec(m.released, rd.0);
    (rr.0, (rp.1, rd.1, rr.1))
}

/// The model of one clock advance: the chunk is appended to the output, the
/// fractional remainder is carried, and exhausted producers are dropped.
pub open spec fn elapse_model(m: SynModel, vt: nat) -> SynModel {
    let r = elapse_mixes(m, vt);
    SynModel {
        sample_ix: frac_after(m, vt),
        pressed: r.1.0,
        dampered: r.1.1,
        released: r.1.2,
        output: m.output + r.0,
        ..m
    }
}

/// A clock advance appends exactly `emit_of` samples.
pub proof fn lemma_elapse_output(m: SynModel, vt: nat)
    ensures
        elapse_model(m, vt).output.len() == m.output.len() + emit_of(m, vt),
{
    let zeros = Seq::new(emit_of(m, vt), |i: int| 0i32);
    lemma_mix_map_len(m.pressed, zeros);
    lemma_mix_vec_len(m.dampered, mix_map(m.pressed, zeros).0);
    lemma_mix_vec_len(m.released, mix_vec(m.dampered, mix_map(m.pressed, zeros).0).0);
}

/// Advancing the clock by zero ticks changes nothing.
pub proof fn lemma_elapse_zero(m: SynModel, vt: nat)
    requires
        m.sample_ix < den(m),
        vt == 0,
    ensures
        elapse_model(m, vt) == m,
{
    assert(vt * spt(m) == 0);
    vstd::arithmetic::div_mod::lemma_basic_div(m.sample_ix as int, den(m) as int);
    vstd::arithmetic::div_mod::lemma_small_mod(m.sample_ix, den(m));
    assert(emit_of(m, vt) == 0);
    let zeros = Seq::new(emit_of(m, vt), |i: int| 0i32);
    lemma_mix_map_empty(m.pressed, zeros);
    lemma_mix_vec_empty(m.dampered, mix_map(m.pressed, zeros).0);
    lemma_mix_vec_empty(m.released, mix_vec(m.dampered, mix_map(m.pressed, zeros).0).0);
    assert(m.output + zeros =~= m.output);
}

/// The clock never drifts: advancing by `a` then `b` ticks emits exactly as
/// many samples in total as advancing by `a + b` at once, and leaves the
/// same fractional remainder.  Summing per-event advances over any
/// partition of a tick interval therefore equals one continuous advance.
pub proof fn lemma_clock_no_drift(f: nat, s: nat, d: nat, a: nat, b: nat)
    requires
        d > 0,
        f < d,
    ensures
        (f + a * s) / d + ((f + a * s) % d + b * s) / d == (f + (a + b) * s) / d,
        ((f + a * s) % d + b * s) % d == (f + (a + b) * s) % d,
{
    let x = f + a * s;
    let e1 = x / d;
    let f1 = x % d;
    vstd::arithmetic::div_mod::lemma_fundamental_div_mod(x as int, d as int);
    vstd::arithmetic::div_mod::lemma_mod_bound(x as int, d as int);
    let y = f1 + b * s;
    let e2 = y / d;
    let f2 = y % d;
    vstd::arithmetic::div_mod::lemma_fundamental_div_mod(y as int, d as int);
    vstd::arithmetic::div_mod::lemma_mod_bound(y as int, d as int);
    let n = f + (a + b) * s;
    assert((a + b) * s == a * s + b * s) by (nonlinear_arith);
    assert(n as int == (e1 + e2) * (d as int) + f2) by (nonlinear_arith)
        requires
            x as int == (d as int) * (e1 as int) + f1,
            y as int == (d as int) * (e2 as int) + f2,
            n == x + b * s,
            y == f1 + b * s,
    ;
    vstd::arithmetic::div_mod::lemma_fundamental_div_mod_converse_div(
        n as int,
        d as int,
        (e1 + e2) as int,
        f2 as int,
    );
    vstd::arithmetic::div_mod::lemma_fundamental_div_mod_converse_mod(
        n as int,
        d as int,
        (e1 + e2) as int,
        f2 as int,
    );
}

/// Mixing one producer into a concatenated chunk splits into mixing its
/// head into the first part and what remains of it into the second.
pub proof fn lemma_mix_one_split(w1: Seq<i32>, w2: Seq<i32>, p: Seq<i32>)
    ensures
        p.len() >= w1.len() ==> mix_one(w1 + w2, p) == mix_one(w1, p) + mix_one(
            w2,
            p.skip(w1.len() as int),
        ),
        p.len() < w1.len() ==> mix_one(w1 + w2, p) == mix_one(w1, p) + w2,
{
    if p.len() >= w1.len() {
        assert(mix_one(w1 + w2, p) =~= mix_one(w1, p) + mix_one(w2, p.skip(w1.len() as int)));
    } else {
        assert(mix_one(w1 + w2, p) =~= mix_one(w1, p) + w2);
    }
}

/// Mixing a row into a concatenated chunk equals mixing it into the first
/// part and then mixing the survivors into the second: the chunks come out
/// concatenated and the final survivors are the same.
pub proof fn lemma_mix_vec_split(ps: Seq<Seq<i32>>, w1: Seq<i32>, w2: Seq<i32>)
    ensures
        mix_vec(ps, w1 + w2).0 == mix_vec(ps, w1).0 + mix_vec(mix_vec(ps, w1).1, w2).0,
        mix_vec(ps, w1 + w2).1 == mix_vec(mix_vec(ps, w1).1, w2).1,
    decreases ps.len(),
{
    let n1 = w1.len() as int;
    let n2 = w2.len() as int;
    if ps.len() == 0 {
        assert(mix_vec(ps, w1 + w2).0 =~= mix_vec(ps, w1).0 + mix_vec(
            mix_vec(ps, w1).1,
            w2,
        ).0);
    } else {
        let p = ps[0];
        let tail = ps.drop_first();
        lemma_mix_one_split(w1, w2, p);
        let u1 = mix_one(w1, p);
        if p.len() >= n1 {
            let u2 = mix_one(w2, p.skip(n1));
            lemma_mix_vec_split(tail, u1, u2);
            let r1 = mix_vec(tail, u1);
            let s1 = mix_vec(ps, w1).1;
            assert(s1 == seq![p.skip(n1)] + r1.1);
            assert(s1[0] == p.skip(n1));
            assert(s1.drop_first() =~= r1.1);
            if p.len() >= n1 + n2 {
                assert(p.skip(n1).skip(n2) =~= p.skip(n1 + n2));
            }
        } else {
            lemma_mix_vec_split(tail, u1, w2);
        }
    }
}

/// As `lemma_mix_vec_split`, for the keyed pressed row.
pub proof fn lemma_mix_map_split(ps: Seq<(u8, Seq<i32>)>, w1: Seq<i32>, w2: Seq<i32>)
    ensures
        mix_map(ps, w1 + w2).0 == mix_map(ps, w1).0 + mix_map(mix_map(ps, w1).1, w2).0,
        mix_map(ps, w1 + w2).1 == mix_map(mix_map(ps, w1).1, w2).1,
    decreases ps.len(),
{
    let n1 = w1.len() as int;
    let n2 = w2.len() as int;
    if ps.len() == 0 {
        assert(mix_map(ps, w1 + w2).0 =~= mix_map(ps, w1).0 + mix_map(
            mix_map(ps, w1).1,
            w2,
        ).0);
    } else {
        let p = ps[0].1;
        let tail = ps.drop_first();
        lemma_mix_one_split(w1, w2, p);
        let u1 = mix_one(w1, p);
        if p.len() >= n1 {
            let u2 = mix_one(w2, p.skip(n1));
            lemma_mix_map_split(tail, u1, u2);
            let r1 = mix_map(tail, u1);
            let s1 = mix_map(ps, w1).1;
            assert(s1 == seq![(ps[0].0, p.skip(n1))] + r1.1);
            assert(s1[0] == (ps[0].0, p.skip(n1)));
            assert(s1.drop_first() =~= r1.1);
            if p.len() >= n1 + n2 {
                assert(p.skip(n1).skip(n2) =~= p.skip(n1 + n2));
                assert((ps[0].0, p.skip(n1).skip(n2)) == (ps[0].0, p.skip(n1 + n2)));
            }
        } else {
            lemma_mix_map_split(tail, u1, w2);
        }
    }
}

/// The no-drift law: an advance split across two calls ends in exactly the
/// state of the single combined advance — the same samples appended in the
/// same places, the same fractional remainder, and the same surviving
/// producers.  Summing per-event advances over any partition of a tick
/// interval equals one continuous advance by the cumulative tick total.
pub proof fn lemma_elapse_no_drift(m: SynModel, a: nat, b: nat)
    requires
        den(m) > 0,
        m.sample_ix < den(m),
    ensures
        elapse_model(elapse_model(m, a), b) == elapse_model(m, (a + b) as nat),
{
    let ma = elapse_model(m, a);
    assert(spt(ma) == spt(m));
    assert(den(ma) == den(m));
    lemma_clock_no_drift(m.sample_ix, spt(m), den(m), a, b);
    let e1 = emit_of(m, a);
    let e2 = emit_of(ma, b);
    let e12 = emit_of(m, (a + b) as nat);
    assert(e1 + e2 == e12);
    let z1 = Seq::new(e1, |i: int| 0i32);
    let z2 = Seq::new(e2, |i: int| 0i32);
    let z12 = Seq::new(e12, |i: int| 0i32);
    assert(z12 =~= z1 + z2);
    lemma_mix_map_split(m.pressed, z1, z2);
    let rp1 = mix_map(m.pressed, z1);
    let rp2 = mix_map(rp1.1, z2);
    assert(mix_map(m.pressed, z12).0 == rp1.0 + rp2.0);
    lemma_mix_vec_split(m.dampered, rp1.0, rp2.0);
    let rd1 = mix_vec(m.dampered, rp1.0);
    let rd2 = mix_vec(rd1.1, rp2.0);
    assert(mix_vec(m.dampered, rp1.0 + rp2.0).0 == rd1.0 + rd2.0);
    lemma_mix_vec_split(m.released, rd1.0, rd2.0);
    let rr1 = mix_vec(m.released, rd1.0);
    let rr2 = mix_vec(rr1.1, rd2.0);
    assert(m.output + (rr1.0 + rr2.0) =~= (m.output + rr1.0) + rr2.0);
    assert(elapse_model(ma, b) =~= elapse_model(m, (a + b) as nat));
}

/// The deep views of a row of unkeyed producers.
pub open spec fn views_vec(ps: Seq<IterStream>) -> Seq<Seq<i32>> {
    Seq::new(ps.len(), |i: int| ps[i]@)
}

/// The deep views of the pressed row, keyed by pitch.
pub open spec fn views_map(ps: Seq<(u8, IterStream)>) -> Seq<(u8, Seq<i32>)> {
    Seq::new(ps.len(), |i: int| (ps[i].0, ps[i].1@))
}

/// The synthesis engine.  `sounds` holds the pressed notes keyed by pitch,
/// `dampered_sounds` the notes released while the damper pedal was down,
/// `released_sounds` the notes fading out; `sample_ix` is the numerator of
/// the clock's fractional sample remainder; `output` accumulates the mix.
pub struct MidiSyn {
    pub sample_rate: u32,
    pub track_state: TrackState,
    pub sounds: Vec<(u8, IterStream)>,
    pub dampered_sounds: Vec<IterStream>,
    pub released_sounds: Vec<IterStream>,
    pub sample_ix: u64,
    pub output: Vec<i32>,
    pub piano: Piano,
}

impl View for MidiSyn {
    type V = SynModel;

    open spec fn view(&self) -> SynModel {
        SynModel {
            sample_rate: self.sample_rate as nat,
            div: self.track_state.div as nat,
            tempo: self.track_state.tempo as nat,
            instrument: self.track_state.instrument,
            damper_pedal: self.track_state.damper_pedal,
            sample_ix: self.sample_ix as nat,
            pressed: views_map(self.sounds@),
            dampered: views_vec(self.dampered_sounds@),
            released: views_vec(self.released_sounds@),
            output: self.output@,
            piano: self.piano@,
        }
    }
}

impl MidiSyn {
    /// Engine well-formedness: the clock remainder is a proper fraction,
    /// every producer is internally consistent, no two pressed producers
    /// share a pitch, and the instrument recordings are well-formed.
    pub open spec fn wf(&self) -> bool {
        &&& self.track_state.div >= 1
        &&& (self.sample_ix as nat) < den(self@)
        &&& forall|i: int|
            0 <= i < self.sounds@.len() ==> (#[trigger] self.sounds@[i]).1.inv()
        &&& no_dup_keys(views_map(self.sounds@))
        &&& forall|i: int|
            0 <= i < self.dampered_sounds@.len() ==> (#[trigger] self.dampered_sounds@[i]).inv()
        &&& forall|i: int|
            0 <= i < self.released_sounds@.len() ==> (#[trigger] self.released_sounds@[i]).inv()
        &&& self.piano.wf()
    }

    /// A fresh engine around one loaded instrument: default track state,
    /// an empty output, a zero clock remainder, and no live notes.
    pub fn new(p: Piano) -> (r: Self)
        requires
            p.wf(),
        ensures
            r.wf(),
            r@.sample_rate == 44100,
            r@.div == 480,
            r@.tempo == 434000,
            r@.instrument is Piano,
            r@.damper_pedal == false,
            r@.sample_ix == 0,
            r@.pressed == Seq::<(u8, Seq<i32>)>::empty(),
            r@.dampered == Seq::<Seq<i32>>::empty(),
            r@.released == Seq::<Seq<i32>>::empty(),
            r@.output == Seq::<i32>::empty(),
            r@.piano == p@,
    {
        let r = MidiSyn {
            sample_rate: crate::types::SAMPLE_RATE,
            track_state: TrackState::new(),
            sounds: Vec::new(),
            dampered_sounds: Vec::new(),
            released_sounds: Vec::new(),
            sample_ix: 0,
            output: Vec::new(),
            piano: p,
        };
        proof {
            assert(r@.pressed =~= Seq::<(u8, Seq<i32>)>::empty());
            assert(r@.dampered =~= Seq::<Seq<i32>>::empty());
            assert(r@.released =~= Seq::<Seq<i32>>::empty());
        }
        r
    }

    /// Sets the track's ticks-per-beat division, read once from the file.
    pub fn set_division(&mut self, div: u32)
        requires
            old(self).wf(),
            1 <= div,
            old(self)@.sample_ix == 0,
        ensures
            final(self).wf(),
            final(self)@ == (SynModel { div: div as nat, ..old(self)@ }),
    {
        self.track_state.div = div;
        proof {
            assert(den(self@) >= 1_000_000) by (nonlinear_arith)
                requires
                    den(self@) == 1_000_000 * (div as nat),
                    div >= 1,
            ;
        }
    }

    /// The samples synthesized so far.
    pub fn output(&self) -> (r: &Vec<i32>)
        ensures
            r@ == self@.output,
    {
        &self.output
    }
}

/// Mixes every producer of a row into the chunk, in order, dropping the
/// exhausted ones, exactly as `mix_vec` describes.
fn elapse_vec(ns: &mut Vec<IterStream>, chunk: &mut Vec<i32>)
    requires
        forall|i: int| 0 <= i < old(ns)@.len() ==> (#[trigger] old(ns)@[i]).inv(),
    ensures
        forall|i: int| 0 <= i < final(ns)@.len() ==> (#[trigger] final(ns)@[i]).inv(),
        final(chunk)@ == mix_vec(views_vec(old(ns)@), old(chunk)@).0,
        views_vec(final(ns)@) == mix_vec(views_vec(old(ns)@), old(chunk)@).1,
{
    let n = chunk.len();
    let mut t: Vec<IterStream> = Vec::new();
    core::mem::swap(ns, &mut t);
    let ghost orig = views_vec(t@);
    let ghost chunk0 = chunk@;
    proof {
        assert(views_vec(ns@) =~= Seq::<Seq<i32>>::empty());
    }
    while t.len() > 0
        invariant
            n == chunk0.len(),
            chunk@.len() == n,
            forall|i: int| 0 <= i < t@.len() ==> (#[trigger] t@[i]).inv(),
            forall|i: int| 0 <= i < ns@.len() ==> (#[trigger] ns@[i]).inv(),
            mix_vec(orig, chunk0).0 == mix_vec(views_vec(t@), chunk@).0,
            mix_vec(orig, chunk0).1 == views_vec(ns@) + mix_vec(views_vec(t@), chunk@).1,
        decreases t@.len(),
    {
        let ghost t_pre = t@;
        let ghost chunk_pre = chunk@;
        let ghost ns_pre = ns@;
        let mut p = t.remove(0);
        let plen = p.len();
        let m = if plen <= n {
            plen
        } else {
            n
        };
        p.take(chunk, m, Op::Add);
        proof {
            let pv = views_vec(t_pre)[0];
            assert(pv == t_pre[0]@);
            assert(chunk@ =~= mix_one(chunk_pre, pv));
            assert(views_vec(t@) =~= views_vec(t_pre).drop_first());
        }
        if plen >= n {
            let ghost pv = views_vec(t_pre)[0];
            ns.push(p);
            proof {
                assert(p@ =~= pv.skip(n as int));
                assert(views_vec(ns@) =~= views_vec(ns_pre).push(pv.skip(n as int)));
                assert(views_vec(ns_pre) + mix_vec(views_vec(t_pre), chunk_pre).1 =~= views_vec(
                    ns@,
                ) + mix_vec(views_vec(t@), chunk@).1);
            }
        } else {
            proof {
                let pv = views_vec(t_pre)[0];
                assert(pv.len() < chunk_pre.len());
                assert(mix_vec(views_vec(t_pre), chunk_pre) == mix_vec(views_vec(t@), chunk@));
            }
        }
    }
    proof {
        assert(views_vec(t@).len() == 0);
        assert(mix_vec(views_vec(t@), chunk@).0 == chunk@);
        assert(views_vec(ns@) + mix_vec(views_vec(t@), chunk@).1 =~= views_vec(ns@));
    }
}

/// Mixes the pressed row into the chunk, keeping the pitch key of every
/// surviving producer, exactly as `mix_map` describes.
fn elapse_map(ns: &mut Vec<(u8, IterStream)>, chunk: &mut Vec<i32>)
    requires
        forall|i: int| 0 <= i < old(ns)@.len() ==> (#[trigger] old(ns)@[i]).1.inv(),
    ensures
        forall|i: int| 0 <= i < final(ns)@.len() ==> (#[trigger] final(ns)@[i]).1.inv(),
        final(chunk)@ == mix_map(views_map(old(ns)@), old(chunk)@).0,
        views_map(final(ns)@) == mix_map(views_map(old(ns)@), old(chunk)@).1,
{
    let n = chunk.len();
    let mut t: Vec<(u8, IterStream)> = Vec::new();
    core::mem::swap(ns, &mut t);
    let ghost orig = views_map(t@);
    let ghost chunk0 = chunk@;
    proof {
        assert(views_map(ns@) =~= Seq::<(u8, Seq<i32>)>::empty());
    }
    while t.len() > 0
        invariant
            n == chunk0.len(),
            chunk@.len() == n,
            forall|i: int| 0 <= i < t@.len() ==> (#[trigger] t@[i]).1.inv(),
            forall|i: int| 0 <= i < ns@.len() ==> (#[trigger] ns@[i]).1.inv(),
            mix_map(orig, chunk0).0 == mix_map(views_map(t@), chunk@).0,
            mix_map(orig, chunk0).1 == views_map(ns@) + mix_map(views_map(t@), chunk@).1,
        decreases t@.len(),
    {
        let ghost t_pre = t@;
        let ghost chunk_pre = chunk@;
        let ghost ns_pre = ns@;
        let (key, mut p) = t.remove(0);
        let plen = p.len();
        let m = if plen <= n {
            plen
        } else {
            n
        };
        p.take(chunk, m, Op::Add);
        proof {
            let pv = views_map(t_pre)[0].1;
            assert(pv == t_pre[0].1@);
            assert(chunk@ =~= mix_one(chunk_pre, pv));
            assert(views_map(t@) =~= views_map(t_pre).drop_first());
        }
        if plen >= n {
            let ghost pv = views_map(t_pre)[0].1;
            ns.push((key, p));
            proof {
                assert(p@ =~= pv.skip(n as int));
                assert(views_map(ns@) =~= views_map(ns_pre).push(
                    (key, pv.skip(n as int)),
                ));
                assert(key == views_map(t_pre)[0].0);
                assert(views_map(ns_pre) + mix_map(views_map(t_pre), chunk_pre).1 =~= views_map(
                    ns@,
                ) + mix_map(views_map(t@), chunk@).1);
            }
        } else {
            proof {
                let pv = views_map(t_pre)[0].1;
                assert(pv.len() < chunk_pre.len());
                assert(mix_map(views_map(t_pre), chunk_pre) == mix_map(views_map(t@), chunk@));
            }
        }
    }
    proof {
        assert(views_map(t@).len() == 0);
        assert(mix_map(views_map(t@), chunk@).0 == chunk@);
        assert(views_map(ns@) + mix_map(views_map(t@), chunk@).1 =~= views_map(ns@));
    }
}

/// No two producers of the pressed row share a pitch key.
pub open spec fn no_dup_keys(ps: Seq<(u8, Seq<i32>)>) -> bool {
    forall|i: int, j: int| 0 <= i < j < ps.len() ==> ps[i].0 != ps[j].0
}

/// Some producer of the pressed row carries this pitch key.
pub open spec fn has_key(ps: Seq<(u8, Seq<i32>)>, key: u8) -> bool {
    exists|i: int| 0 <= i < ps.len() && ps[i].0 == key
}

/// Every key surviving a mix was already present before it.
pub proof fn lemma_mix_map_keys(ps: Seq<(u8, Seq<i32>)>, chunk: Seq<i32>, key: u8)
    requires
        has_key(mix_map(ps, chunk).1, key),
    ensures
        has_key(ps, key),
    decreases ps.len(),
{
    if ps.len() > 0 {
        let p = ps[0].1;
        let c1 = mix_one(chunk, p);
        let surv = mix_map(ps, chunk).1;
        let tail_surv = mix_map(ps.drop_first(), c1).1;
        let j = choose|j: int| 0 <= j < surv.len() && surv[j].0 == key;
        if p.len() >= chunk.len() && j == 0 {
            assert(ps[0].0 == key);
        } else {
            let tj = if p.len() >= chunk.len() { j - 1 } else { j };
            assert(tail_surv[tj].0 == key);
            assert(has_key(tail_surv, key));
            lemma_mix_map_keys(ps.drop_first(), c1, key);
            let i = choose|i: int| 0 <= i < ps.drop_first().len() && ps.drop_first()[i].0 == key;
            assert(ps[i + 1].0 == key);
        }
    }
}

/// A mix never introduces a duplicate pitch key.
pub proof fn lemma_mix_map_unique(ps: Seq<(u8, Seq<i32>)>, chunk: Seq<i32>)
    requires
        no_dup_keys(ps),
    ensures
        no_dup_keys(mix_map(ps, chunk).1),
    decreases ps.len(),
{
    if ps.len() > 0 {
        let p = ps[0].1;
        let c1 = mix_one(chunk, p);
        let tail = ps.drop_first();
        assert(no_dup_keys(tail)) by {
            assert forall|i: int, j: int| 0 <= i < j < tail.len() implies tail[i].0 != tail[j].0 by {
                assert(tail[i] == ps[i + 1]);
                assert(tail[j] == ps[j + 1]);
            }
        }
        lemma_mix_map_unique(tail, c1);
        let surv = mix_map(ps, chunk).1;
        let tail_surv = mix_map(tail, c1).1;
        if p.len() >= chunk.len() {
            assert forall|i: int, j: int| 0 <= i < j < surv.len() implies surv[i].0 != surv[j].0 by {
                if i == 0 {
                    assert(surv[j] == tail_surv[j - 1]);
                    if surv[j].0 == ps[0].0 {
                        assert(has_key(tail_surv, ps[0].0));
                        lemma_mix_map_keys(tail, c1, ps[0].0);
                        let k = choose|k: int| 0 <= k < tail.len() && tail[k].0 == ps[0].0;
                        assert(tail[k] == ps[k + 1]);
                        assert(ps[0].0 != ps[k + 1].0);
                    }
                } else {
                    assert(surv[i] == tail_surv[i - 1]);
                    assert(surv[j] == tail_surv[j - 1]);
                }
            }
        }
    }
}

impl MidiSyn {
    /// Advances the clock by `vt` ticks: grows the output by the implied
    /// number of samples, mixing every live producer in and dropping the
    /// exhausted ones, and carries the fractional sample remainder.  A zero
    /// advance is a no-op.
    pub fn elapse_ticks(&mut self, vt: u64)
        requires
            old(self).wf(),
            vt <= MAX_VTIME,
            emit_of(old(self)@, vt as nat) + old(self)@.output.len() <= usize::MAX,
        ensures
            final(self).wf(),
            final(self)@ == elapse_model(old(self)@, vt as nat),
    {
        let ghost m0 = self@;
        if vt == 0 {
            proof {
                lemma_elapse_zero(m0, 0);
            }
            return;
        }
        let den64: u64 = 1_000_000u64 * (self.track_state.div as u64);
        proof {
            lemma_clock_word_bounds(
                self.sample_ix as nat,
                vt as nat,
                self.sample_rate as nat,
                self.track_state.tempo as nat,
                self.track_state.div as nat,
            );
            assert(den64 as nat == den(m0));
        }
        let num: u128 = (self.sample_ix as u128) + (vt as u128) * (self.sample_rate as u128)
            * (self.track_state.tempo as u128);
        proof {
            assert((vt as nat) * (self.sample_rate as nat) * (self.track_state.tempo as nat)
                == (vt as nat) * spt(m0)) by (nonlinear_arith)
                requires
                    spt(m0) == (self.sample_rate as nat) * (self.track_state.tempo as nat),
            ;
            assert(num as nat == m0.sample_ix + (vt as nat) * spt(m0));
        }
        let q: u128 = num / (den64 as u128);
        let frem: u128 = num % (den64 as u128);
        proof {
            assert(q as nat == emit_of(m0, vt as nat));
            assert(frem as nat == frac_after(m0, vt as nat));
            vstd::arithmetic::div_mod::lemma_mod_bound(num as int, den64 as int);
        }
        let n: usize = q as usize;
        self.sample_ix = frem as u64;
        let mut chunk: Vec<i32> = vec![0i32; n];
        proof {
            assert(chunk@ =~= Seq::new(emit_of(m0, vt as nat), |i: int| 0i32));
            assert(views_map(self.sounds@) == m0.pressed);
            assert(views_vec(self.dampered_sounds@) == m0.dampered);
            assert(views_vec(self.released_sounds@) == m0.released);
        }
        let ghost zeros = chunk@;
        elapse_map(&mut self.sounds, &mut chunk);
        elapse_vec(&mut self.dampered_sounds, &mut chunk);
        elapse_vec(&mut self.released_sounds, &mut chunk);
        self.output.append(&mut chunk);
        proof {
            lemma_mix_map_unique(m0.pressed, zeros);
            assert(no_dup_keys(views_map(self.sounds@)));
            assert(self@ =~= elapse_model(m0, vt as nat));
        }
    }
}

/// All the clock's intermediate quantities fit their machine words.
proof fn lemma_clock_word_bounds(frac: nat, vt: nat, sr: nat, tempo: nat, div: nat)
    requires
        vt <= 0x1_0000_0000,
        sr < 0x1_0000_0000,
        tempo < 0x1_0000_0000,
        1 <= div < 0x1_0000_0000,
        frac < 1_000_000 * div,
    ensures
        1_000_000 * div <= 0x10_0000_0000_0000,
        frac < 0x10_0000_0000_0000,
        vt * sr <= 0x1_0000_0000_0000_0000,
        vt * sr * tempo <= 0x1_0000_0000_0000_0000_0000_0000,
        frac + vt * sr * tempo <= 0x2_0000_0000_0000_0000_0000_0000,
{
    assert(vt * sr <= 0x1_0000_0000_0000_0000) by (nonlinear_arith)
        requires
            vt <= 0x1_0000_0000,
            sr < 0x1_0000_0000,
    ;
    assert(vt * sr * tempo <= 0x1_0000_0000_0000_0000_0000_0000) by (nonlinear_arith)
        requires
            vt * sr <= 0x1_0000_0000_0000_0000,
            tempo < 0x1_0000_0000,
    ;
}

/// The gain curve of the short release fade applied to a released note.
pub open spec fn rel_gains() -> Seq<i32> {
    env_gains(just_release_env(), RELEASE_SAMPLES as nat)
}

/// A producer wrapped with the release fade: its remaining samples under
/// the release gain curve (so at most `RELEASE_SAMPLES` samples survive).
pub open spec fn rel_wrap_s(p: Seq<i32>) -> Seq<i32> {
    mult_s(rel_gains(), p)
}

/// The index of the first producer pressed under `key`.
pub open spec fn find_key(ps: Seq<(u8, Seq<i32>)>, key: u8) -> int
    decreases ps.len(),
{
    if ps.len() == 0 {
        0
    } else if ps[0].0 == key {
        0
    } else {
        1 + find_key(ps.drop_first(), key)
    }
}

/// `find_key` finds the first occurrence of a present key.
pub proof fn lemma_find_key(ps: Seq<(u8, Seq<i32>)>, key: u8)
    requires
        has_key(ps, key),
    ensures
        0 <= find_key(ps, key) < ps.len(),
        ps[find_key(ps, key)].0 == key,
        forall|i: int| 0 <= i < find_key(ps, key) ==> ps[i].0 != key,
    decreases ps.len(),
{
    if ps.len() > 0 && ps[0].0 != key {
        let tail = ps.drop_first();
        assert(has_key(tail, key)) by {
            let i = choose|i: int| 0 <= i < ps.len() && ps[i].0 == key;
            assert(tail[i - 1].0 == key);
        }
        lemma_find_key(tail, key);
        assert forall|i: int| 0 <= i < find_key(ps, key) implies ps[i].0 != key by {
            if i > 0 {
                assert(tail[i - 1].0 != key);
            }
        }
    }
}

/// The model of a note release: if the pitch is not pressed, nothing
/// happens; else its producer leaves the pressed row, moving to the
/// held-by-pedal row while the damper pedal is down, and otherwise to the
/// releasing row wrapped with the release fade.
pub open spec fn note_off_model(m: SynModel, key: u8) -> SynModel {
    if !has_key(m.pressed, key) {
        m
    } else {
        let j = find_key(m.pressed, key);
        let p = m.pressed[j].1;
        let pressed2 = m.pressed.remove(j);
        if m.damper_pedal {
            SynModel { pressed: pressed2, dampered: m.dampered.push(p), ..m }
        } else {
            SynModel { pressed: pressed2, released: m.released.push(rel_wrap_s(p)), ..m }
        }
    }
}

/// The samples the current instrument synthesizes for a note-on.
pub open spec fn new_producer(m: SynModel, key: u8, velo: u8) -> Seq<i32> {
    match m.instrument {
        Instrument::Piano => piano_syn_s(m.piano, key - 60, ((velo * 1000) / 127) as nat),
        Instrument::NoImpl => Seq::empty(),
    }
}

/// The model of a note press: zero velocity acts as a release; a pitch
/// already pressed is first released (implicit retrigger, no error); then
/// the instrument's new producer enters the pressed row under the pitch.
pub open spec fn note_on_model(m: SynModel, key: u8, velo: u8) -> SynModel {
    if velo == 0 {
        note_off_model(m, key)
    } else {
        let m1 = if has_key(m.pressed, key) {
            note_off_model(m, key)
        } else {
            m
        };
        SynModel { pressed: m1.pressed.push((key, new_producer(m1, key, velo))), ..m1 }
    }
}

/// The model of a control change: only the damper pedal (controller 64) is
/// meaningful; `on` is `value >= 64`.  On the transition from down to up,
/// every held-by-pedal producer moves to the releasing row wrapped with the
/// release fade; the pedal state is updated unconditionally.
pub open spec fn ctrl_model(m: SynModel, controller: u8, value: u8) -> SynModel {
    if controller == 64 {
        let on = value >= 64;
        let m1 = if m.damper_pedal && !on {
            SynModel {
                released: m.released + Seq::new(m.dampered.len(), |i: int| rel_wrap_s(m.dampered[i])),
                dampered: Seq::empty(),
                ..m
            }
        } else {
            m
        };
        SynModel { damper_pedal: on, ..m1 }
    } else {
        m
    }
}

/// The model of a program change: presets 0..=7 select the piano, any
/// other preset the silent placeholder.
pub open spec fn prog_model(m: SynModel, preset: u8) -> SynModel {
    SynModel {
        instrument: if preset <= 7 {
            Instrument::Piano
        } else {
            Instrument::NoImpl
        },
        ..m
    }
}

/// The model of one event's side effect.
pub open spec fn apply_model(m: SynModel, p: Payload) -> SynModel {
    match p {
        Payload::NoteOn { key, velocity } => note_on_model(m, key, velocity),
        Payload::NoteOff { key } => note_off_model(m, key),
        Payload::ProgramChange { preset } => prog_model(m, preset),
        Payload::ControlChange { controller, value } => ctrl_model(m, controller, value),
        Payload::TempoSet { micros_per_beat } => SynModel { tempo: micros_per_beat as nat, ..m },
        Payload::KeySignature { sharps, minor } => m,
        Payload::EndOfTrack => m,
    }
}

/// The model of one whole event: the clock advance, then the side effect.
pub open spec fn step_model(m: SynModel, e: TrackEvent) -> SynModel {
    apply_model(elapse_model(m, e.vtime as nat), e.payload)
}

/// The model of a whole synthesis pass: the fold of `step_model` over the
/// event list, in order.
pub open spec fn run_model(m: SynModel, es: Seq<TrackEvent>) -> SynModel
    decreases es.len(),
{
    if es.len() == 0 {
        m
    } else {
        run_model(step_model(m, es[0]), es.drop_first())
    }
}

/// Releasing a pressed pitch leaves that pitch absent from the pressed row
/// and keeps the row free of duplicate keys.
pub proof fn lemma_note_off_no_key(m: SynModel, key: u8)
    requires
        no_dup_keys(m.pressed),
    ensures
        !has_key(note_off_model(m, key).pressed, key),
        no_dup_keys(note_off_model(m, key).pressed),
{
    if has_key(m.pressed, key) {
        lemma_find_key(m.pressed, key);
        let j = find_key(m.pressed, key);
        let after = m.pressed.remove(j);
        assert forall|i: int| 0 <= i < after.len() implies after[i].0 != key by {
            if i < j {
                assert(after[i] == m.pressed[i]);
            } else {
                assert(after[i] == m.pressed[i + 1]);
            }
        }
        assert(!has_key(after, key));
        assert forall|i: int, k: int| 0 <= i < k < after.len() implies after[i].0 != after[k].0 by {
            let i2 = if i < j { i } else { i + 1 };
            let k2 = if k < j { k } else { k + 1 };
            assert(after[i] == m.pressed[i2]);
            assert(after[k] == m.pressed[k2]);
        }
    }
}

/// A fresh producer carrying a note released into the fade-out: the note's
/// remaining samples under the short release gain curve.
fn wrap_release(p: IterStream) -> (r: IterStream)
    requires
        p.inv(),
    ensures
        r.inv(),
        r@ == rel_wrap_s(p@),
{
    let ghost p0 = p@;
    let mut p = p;
    let m = p.len();
    let mut buf: Vec<i32> = vec![0i32; m];
    p.take(&mut buf, m, Op::Store);
    proof {
        assert(buf@ =~= p0);
    }
    let env = Envelope::just_release();
    let g = env.make(RELEASE_SAMPLES);
    let out = mult(&g, &buf);
    IterStream::new(out)
}

/// Empties `src`, wrapping each producer with the release fade and pushing
/// it onto `dst`, in order.
fn drain_release(src: &mut Vec<IterStream>, dst: &mut Vec<IterStream>)
    requires
        forall|i: int| 0 <= i < old(src)@.len() ==> (#[trigger] old(src)@[i]).inv(),
        forall|i: int| 0 <= i < old(dst)@.len() ==> (#[trigger] old(dst)@[i]).inv(),
    ensures
        forall|i: int| 0 <= i < final(dst)@.len() ==> (#[trigger] final(dst)@[i]).inv(),
        final(src)@.len() == 0,
        views_vec(final(dst)@) == views_vec(old(dst)@) + Seq::new(
            views_vec(old(src)@).len(),
            |i: int| rel_wrap_s(views_vec(old(src)@)[i]),
        ),
{
    let ghost src0 = views_vec(src@);
    let ghost dst0 = views_vec(dst@);
    while src.len() > 0
        invariant
            src0.len() >= src@.len(),
            forall|i: int| 0 <= i < src@.len() ==> (#[trigger] src@[i]).inv(),
            forall|i: int| 0 <= i < dst@.len() ==> (#[trigger] dst@[i]).inv(),
            views_vec(src@) == src0.skip((src0.len() - src@.len()) as int),
            views_vec(dst@) == dst0 + Seq::new(
                (src0.len() - src@.len()) as int as nat,
                |i: int| rel_wrap_s(src0[i]),
            ),
        decreases src@.len(),
    {
        let ghost done = (src0.len() - src@.len()) as int;
        let ghost src_pre = src@;
        let ghost dst_pre = dst@;
        let p = src.remove(0);
        let w = wrap_release(p);
        dst.push(w);
        proof {
            assert(p@ == views_vec(src_pre)[0]);
            assert(views_vec(src_pre)[0] == src0[done]);
            assert(views_vec(src@) =~= views_vec(src_pre).drop_first());
            assert(views_vec(src_pre).drop_first() =~= src0.skip(done + 1));
            assert(views_vec(dst@) =~= views_vec(dst_pre).push(rel_wrap_s(src0[done])));
            assert(views_vec(dst@) =~= dst0 + Seq::new(
                (done + 1) as nat,
                |i: int| rel_wrap_s(src0[i]),
            ));
        }
    }
    proof {
        assert(views_vec(src@).len() == 0);
    }
}

impl MidiSyn {
    /// The index of the pressed producer under `key`, if any: the first
    /// (and, in a well-formed engine, only) occurrence.
    fn find_pressed(&self, key: u8) -> (r: Option<usize>)
        ensures
            ({
                match r {
                    Some(j) => has_key(views_map(self.sounds@), key) && j == find_key(
                        views_map(self.sounds@),
                        key,
                    ),
                    None => !has_key(views_map(self.sounds@), key),
                }
            }),
    {
        let ghost vm = views_map(self.sounds@);
        let mut i: usize = 0;
        while i < self.sounds.len()
            invariant
                i <= self.sounds@.len(),
                vm == views_map(self.sounds@),
                forall|k: int| 0 <= k < i ==> vm[k].0 != key,
            decreases self.sounds@.len() - i,
        {
            let ki = self.sounds[i].0;
            if ki == key {
                proof {
                    assert(vm[i as int].0 == key);
                    assert(has_key(vm, key));
                    lemma_find_key(vm, key);
                    if find_key(vm, key) < i as int {
                        assert(vm[find_key(vm, key)].0 != key);
                    }
                    if find_key(vm, key) > i as int {
                        assert(vm[i as int].0 != key);
                    }
                }
                return Some(i);
            }
            i = i + 1;
        }
        None
    }

    /// Releases a pressed pitch.  A pitch that is not pressed is a no-op;
    /// else its producer leaves the pressed row and moves to held-by-pedal
    /// while the damper pedal is down, otherwise to the releasing row
    /// wrapped with the short release fade.
    pub fn do_note_off(&mut self, key: u8)
        requires
            old(self).wf(),
        ensures
            final(self).wf(),
            final(self)@ == note_off_model(old(self)@, key),
    {
        let ghost m0 = self@;
        let found = self.find_pressed(key);
        match found {
            None => {
                proof {
                    assert(self@ =~= note_off_model(m0, key));
                }
            },
            Some(j) => {
                proof {
                    lemma_find_key(m0.pressed, key);
                }
                let ghost sounds_pre = self.sounds@;
                let (_k, p) = self.sounds.remove(j);
                proof {
                    assert(p == sounds_pre[j as int].1);
                    assert(p@ == m0.pressed[j as int].1);
                    assert(views_map(self.sounds@) =~= m0.pressed.remove(j as int));
                    lemma_note_off_no_key(m0, key);
                }
                if self.track_state.damper_pedal {
                    self.dampered_sounds.push(p);
                    proof {
                        assert(views_vec(self.dampered_sounds@) =~= m0.dampered.push(p@));
                        assert(self@ =~= note_off_model(m0, key));
                    }
                } else {
                    let w = wrap_release(p);
                    self.released_sounds.push(w);
                    proof {
                        assert(views_vec(self.released_sounds@) =~= m0.released.push(
                            rel_wrap_s(p@),
                        ));
                        assert(self@ =~= note_off_model(m0, key));
                    }
                }
            },
        }
    }

    /// Presses a pitch at a velocity.  Zero velocity acts as a release; a
    /// pitch already pressed is first released (implicit retrigger, not an
    /// error); the current instrument then synthesizes a fresh producer
    /// from the pitch relative to middle C and the velocity's per-mille
    /// amplitude, and the producer enters the pressed row under the pitch.
    pub fn do_note_on(&mut self, key: u8, velo: u8)
        requires
            old(self).wf(),
            velo <= 127,
        ensures
            final(self).wf(),
            final(self)@ == note_on_model(old(self)@, key, velo),
    {
        let ghost m0 = self@;
        if velo == 0 {
            self.do_note_off(key);
            return;
        }
        let ghost m1 = if has_key(m0.pressed, key) {
            note_off_model(m0, key)
        } else {
            m0
        };
        let pressed_already = self.find_pressed(key);
        if pressed_already.is_some() {
            self.do_note_off(key);
        }
        proof {
            assert(self@ == m1);
            if has_key(m0.pressed, key) {
                lemma_note_off_no_key(m0, key);
            }
            assert(!has_key(m1.pressed, key));
        }
        let kw: i32 = key as i32 - 60;
        let amp: u32 = (velo as u32) * 1000 / 127;
        let prod: Vec<i32> = match self.track_state.instrument {
            Instrument::Piano => self.piano.syn(kw, amp),
            Instrument::NoImpl => Vec::new(),
        };
        proof {
            assert(prod@ == new_producer(m1, key, velo));
        }
        self.sounds.push((key, IterStream::new(prod)));
        proof {
            assert(views_map(self.sounds@) =~= m1.pressed.push((key, prod@)));
            assert(self@ =~= note_on_model(m0, key, velo));
            let vm = views_map(self.sounds@);
            assert forall|i: int, j: int| 0 <= i < j < vm.len() implies vm[i].0 != vm[j].0 by {
                if j == vm.len() - 1 && vm[i].0 == key {
                    assert(has_key(m1.pressed, key));
                }
            }
        }
    }

    /// Applies a control change.  Only the damper pedal (controller 64) is
    /// meaningful: `on` is `value >= 64`; on the transition from down to
    /// up, every held-by-pedal producer moves to the releasing row wrapped
    /// with the release fade; the pedal state is updated unconditionally.
    pub fn do_ctrl_change(&mut self, ctrl: u8, option: u8)
        requires
            old(self).wf(),
        ensures
            final(self).wf(),
            final(self)@ == ctrl_model(old(self)@, ctrl, option),
    {
        let ghost m0 = self@;
        if ctrl == 64 {
            let on = option >= 64;
            if self.track_state.damper_pedal != on {
                if !on {
                    drain_release(&mut self.dampered_sounds, &mut self.released_sounds);
                    proof {
                        assert(views_vec(self.dampered_sounds@) =~= Seq::<Seq<i32>>::empty());
                    }
                }
            }
            self.track_state.damper_pedal = on;
            proof {
                assert(self@ =~= ctrl_model(m0, ctrl, option));
            }
        } else {
            proof {
                assert(self@ =~= ctrl_model(m0, ctrl, option));
            }
        }
    }

    /// Applies a program change: presets 0..=7 select the sampled piano,
    /// any other preset the silent placeholder instrument.
    pub fn do_prog_change(&mut self, preset: u8)
        requires
            old(self).wf(),
        ensures
            final(self).wf(),
            final(self)@ == prog_model(old(self)@, preset),
    {
        let ghost m0 = self@;
        let instr = if preset <= 7 {
            Instrument::Piano
        } else {
            Instrument::NoImpl
        };
        self.track_state.instrument = instr;
        proof {
            assert(self@ =~= prog_model(m0, preset));
        }
    }

    /// Applies one event's side effect to the lifecycle state.
    pub fn do_event(&mut self, p: &Payload)
        requires
            old(self).wf(),
            crate::types::payload_wf(*p),
        ensures
            final(self).wf(),
            final(self)@ == apply_model(old(self)@, *p),
    {
        let ghost m0 = self@;
        match p {
            Payload::NoteOn { key, velocity } => {
                self.do_note_on(*key, *velocity);
            },
            Payload::NoteOff { key } => {
                self.do_note_off(*key);
            },
            Payload::ProgramChange { preset } => {
                self.do_prog_change(*preset);
            },
            Payload::ControlChange { controller, value } => {
                self.do_ctrl_change(*controller, *value);
            },
            Payload::TempoSet { micros_per_beat } => {
                self.track_state.tempo = *micros_per_beat;
                proof {
                    assert(self@ =~= apply_model(m0, *p));
                }
            },
            Payload::KeySignature { .. } => {
            },
            Payload::EndOfTrack => {
            },
        }
    }
}

/// Extending the event list by one event steps the fold once more.
pub proof fn lemma_run_snoc(m: SynModel, es: Seq<TrackEvent>, e: TrackEvent)
    ensures
        run_model(m, es.push(e)) == step_model(run_model(m, es), e),
    decreases es.len(),
{
    let s1 = es.push(e);
    if es.len() == 0 {
        assert(s1[0] == e);
        assert(s1.drop_first() =~= Seq::<TrackEvent>::empty());
        assert(run_model(m, s1) == run_model(step_model(m, e), s1.drop_first()));
        assert(run_model(step_model(m, e), s1.drop_first()) == step_model(m, e));
        assert(run_model(m, es) == m);
    } else {
        assert(s1[0] == es[0]);
        assert(s1.drop_first() =~= es.drop_first().push(e));
        assert(run_model(m, s1) == run_model(step_model(m, es[0]), s1.drop_first()));
        lemma_run_snoc(step_model(m, es[0]), es.drop_first(), e);
        assert(run_model(m, es) == run_model(step_model(m, es[0]), es.drop_first()));
    }
}

/// An event's side effect never touches the output.
pub proof fn lemma_apply_output(m: SynModel, p: Payload)
    ensures
        apply_model(m, p).output == m.output,
{
}

/// One step grows the output by exactly the step's emitted sample count.
pub proof fn lemma_step_output(m: SynModel, e: TrackEvent)
    ensures
        step_model(m, e).output.len() == m.output.len() + emit_of(m, e.vtime as nat),
{
    lemma_elapse_output(m, e.vtime as nat);
    lemma_apply_output(elapse_model(m, e.vtime as nat), e.payload);
}

/// The output accumulates monotonically over a run.
pub proof fn lemma_run_grows(m: SynModel, es: Seq<TrackEvent>)
    ensures
        run_model(m, es).output.len() >= m.output.len(),
    decreases es.len(),
{
    if es.len() > 0 {
        lemma_step_output(m, es[0]);
        lemma_run_grows(step_model(m, es[0]), es.drop_first());
    }
}

/// One more event of a prefix is one more fold step.
pub proof fn lemma_run_take_succ(m: SynModel, es: Seq<TrackEvent>, i: int)
    requires
        0 <= i < es.len(),
    ensures
        run_model(m, es.take(i + 1)) == step_model(run_model(m, es.take(i)), es[i]),
{
    assert(es.take(i + 1) =~= es.take(i).push(es[i]));
    lemma_run_snoc(m, es.take(i), es[i]);
}

/// Folding over a concatenation folds over each part in turn.
pub proof fn lemma_run_append(m: SynModel, s1: Seq<TrackEvent>, s2: Seq<TrackEvent>)
    ensures
        run_model(m, s1 + s2) == run_model(run_model(m, s1), s2),
    decreases s1.len(),
{
    if s1.len() == 0 {
        assert(s1 + s2 =~= s2);
    } else {
        assert((s1 + s2)[0] == s1[0]);
        assert((s1 + s2).drop_first() =~= s1.drop_first() + s2);
        lemma_run_append(step_model(m, s1[0]), s1.drop_first(), s2);
    }
}

/// A prefix of the run never has more output than the whole run.
pub proof fn lemma_run_prefix_len(m: SynModel, es: Seq<TrackEvent>, i: int)
    requires
        0 <= i <= es.len(),
    ensures
        run_model(m, es.take(i)).output.len() <= run_model(m, es).output.len(),
{
    assert(es =~= es.take(i) + es.skip(i));
    lemma_run_append(m, es.take(i), es.skip(i));
    lemma_run_grows(run_model(m, es.take(i)), es.skip(i));
}

impl MidiSyn {
    /// Synthesizes a whole track: processes the events strictly in
    /// sequence, each one first advancing the clock (growing the output by
    /// the implied samples with all live producers mixed in) and then
    /// applying its side effect.  The final state — output included — is
    /// exactly the model fold over the events.
    pub fn syn(&mut self, track: &Vec<TrackEvent>)
        requires
            old(self).wf(),
            events_wf(track@),
            run_model(old(self)@, track@).output.len() <= usize::MAX,
        ensures
            final(self).wf(),
            final(self)@ == run_model(old(self)@, track@),
    {
        let ghost m0 = self@;
        let n = track.len();
        let mut i: usize = 0;
        while i < n
            invariant
                i <= n,
                n == track@.len(),
                events_wf(track@),
                run_model(m0, track@).output.len() <= usize::MAX,
                self.wf(),
                self@ == run_model(m0, track@.take(i as int)),
            decreases n - i,
        {
            let e = track[i];
            proof {
                assert(event_wf(track@[i as int]));
                lemma_run_take_succ(m0, track@, i as int);
                lemma_run_prefix_len(m0, track@, i as int + 1);
                lemma_step_output(self@, track@[i as int]);
            }
            self.elapse_ticks(e.vtime);
            self.do_event(&e.payload);
            i = i + 1;
        }
        proof {
            assert(track@.take(n as int) =~= track@);
        }
    }
}

/// Re-pressing an already-pressed pitch is not an error: the prior
/// producer leaves the pressed row exactly as a release would move it —
/// to held-by-pedal while the damper pedal is down, else to the releasing
/// row wrapped with the release fade — and a fresh producer synthesized
/// from the note-on's amplitude takes its place under the pitch.
pub proof fn lemma_retrigger(m: SynModel, key: u8, velo: u8)
    requires
        no_dup_keys(m.pressed),
        has_key(m.pressed, key),
        velo > 0,
    ensures
        ({
            let prior = m.pressed[find_key(m.pressed, key)].1;
            let m1 = note_off_model(m, key);
            let m2 = note_on_model(m, key, velo);
            &&& m2.pressed == m1.pressed.push((key, new_producer(m1, key, velo)))
            &&& (!m.damper_pedal ==> m2.released == m.released.push(rel_wrap_s(prior)))
            &&& (m.damper_pedal ==> m2.dampered == m.dampered.push(prior))
            &&& has_key(m2.pressed, key)
            &&& no_dup_keys(m2.pressed)
        }),
{
    lemma_find_key(m.pressed, key);
    lemma_note_off_no_key(m, key);
    let m1 = note_off_model(m, key);
    let m2 = note_on_model(m, key, velo);
    assert(m2.pressed[m2.pressed.len() - 1].0 == key);
    assert(has_key(m2.pressed, key));
    assert forall|i: int, j: int| 0 <= i < j < m2.pressed.len() implies m2.pressed[i].0
        != m2.pressed[j].0 by {
        if j == m2.pressed.len() - 1 && m2.pressed[i].0 == key {
            assert(has_key(m1.pressed, key));
        }
    }
}

/// Releasing the damper pedal moves every held-by-pedal producer into the
/// releasing row — wrapped with the release fade, in order — leaves
/// held-by-pedal empty, and records the pedal up.
pub proof fn lemma_pedal_release(m: SynModel, value: u8)
    requires
        m.damper_pedal,
        value < 64,
    ensures
        ctrl_model(m, 64, value).dampered.len() == 0,
        ctrl_model(m, 64, value).released == m.released + Seq::new(
            m.dampered.len(),
            |i: int| rel_wrap_s(m.dampered[i]),
        ),
        !ctrl_model(m, 64, value).damper_pedal,
        ctrl_model(m, 64, value).pressed == m.pressed,
{
}

/// The chunk one step appends to the output.  It depends only on the clock
/// and the producers, never on the output already accumulated.
pub open spec fn step_chunk(m: SynModel, e: TrackEvent) -> Seq<i32> {
    elapse_mixes(m, e.vtime as nat).0
}

/// A state with its output replaced releases a note just the same.
pub proof fn lemma_note_off_output_shift(m: SynModel, o: Seq<i32>, key: u8)
    ensures
        note_off_model(SynModel { output: o, ..m }, key) == (SynModel {
            output: o,
            ..note_off_model(m, key)
        }),
{
    let m2 = SynModel { output: o, ..m };
    assert(m2.pressed == m.pressed);
    if has_key(m.pressed, key) {
        assert(note_off_model(m2, key) =~= (SynModel { output: o, ..note_off_model(m, key) }));
    } else {
        assert(note_off_model(m2, key) =~= (SynModel { output: o, ..note_off_model(m, key) }));
    }
}

/// A state with its output replaced applies any event just the same: the
/// side effect neither reads nor writes the output.
pub proof fn lemma_apply_output_shift(m: SynModel, o: Seq<i32>, p: Payload)
    ensures
        apply_model(SynModel { output: o, ..m }, p) == (SynModel {
            output: o,
            ..apply_model(m, p)
        }),
{
    let m2 = SynModel { output: o, ..m };
    match p {
        Payload::NoteOn { key, velocity } => {
            lemma_note_off_output_shift(m, o, key);
            if velocity != 0 {
                let m1 = if has_key(m.pressed, key) {
                    note_off_model(m, key)
                } else {
                    m
                };
                let m1b = if has_key(m2.pressed, key) {
                    note_off_model(m2, key)
                } else {
                    m2
                };
                assert(m1b == (SynModel { output: o, ..m1 }));
                assert(new_producer(m1b, key, velocity) == new_producer(m1, key, velocity));
                assert(note_on_model(m2, key, velocity) =~= (SynModel {
                    output: o,
                    ..note_on_model(m, key, velocity)
                }));
            }
        },
        Payload::NoteOff { key } => {
            lemma_note_off_output_shift(m, o, key);
        },
        Payload::ProgramChange { preset } => {
            assert(prog_model(m2, preset) =~= (SynModel { output: o, ..prog_model(m, preset) }));
        },
        Payload::ControlChange { controller, value } => {
            assert(ctrl_model(m2, controller, value) =~= (SynModel {
                output: o,
                ..ctrl_model(m, controller, value)
            }));
        },
        Payload::TempoSet { micros_per_beat } => {
        },
        Payload::KeySignature { sharps, minor } => {
        },
        Payload::EndOfTrack => {
        },
    }
}

/// A step from a state with its output replaced appends the same chunk to
/// that output and agrees on every other field.
pub proof fn lemma_step_output_shift(m: SynModel, o: Seq<i32>, e: TrackEvent)
    ensures
        step_model(SynModel { output: o, ..m }, e) == (SynModel {
            output: o + step_chunk(m, e),
            ..step_model(m, e)
        }),
        step_model(m, e).output == m.output + step_chunk(m, e),
{
    let vt = e.vtime as nat;
    let m2 = SynModel { output: o, ..m };
    assert(emit_of(m2, vt) == emit_of(m, vt));
    assert(frac_after(m2, vt) == frac_after(m, vt));
    assert(elapse_mixes(m2, vt) == elapse_mixes(m, vt));
    let x1 = elapse_model(m, vt);
    let x2 = elapse_model(m2, vt);
    assert(x2 =~= (SynModel { output: o + step_chunk(m, e), ..x1 }));
    lemma_apply_output_shift(x1, o + step_chunk(m, e), e.payload);
    lemma_apply_output(x1, e.payload);
}

/// Every chunk a run over these events would produce fits in a buffer.
pub open spec fn chunks_fit(m: SynModel, es: Seq<TrackEvent>) -> bool {
    forall|i: int|
        0 <= i < es.len() ==> emit_of(
            run_model(m, es.take(i)),
            (#[trigger] es[i]).vtime as nat,
        ) <= usize::MAX
}

/// A state with its output replaced advances its clock just the same: the
/// same chunk is appended to that output and every other field agrees.
pub proof fn lemma_elapse_output_shift(m: SynModel, o: Seq<i32>, vt: nat)
    ensures
        elapse_model(SynModel { output: o, ..m }, vt) == (SynModel {
            output: o + elapse_mixes(m, vt).0,
            ..elapse_model(m, vt)
        }),
        elapse_model(m, vt).output == m.output + elapse_mixes(m, vt).0,
{
    let m2 = SynModel { output: o, ..m };
    assert(emit_of(m2, vt) == emit_of(m, vt));
    assert(frac_after(m2, vt) == frac_after(m, vt));
    assert(elapse_mixes(m2, vt) == elapse_mixes(m, vt));
    assert(elapse_model(m2, vt) =~= (SynModel {
        output: o + elapse_mixes(m, vt).0,
        ..elapse_model(m, vt)
    }));
}

/// The streaming driver over an engine and an event list: instead of
/// materializing the whole performance, it yields one bounded chunk of
/// samples per nonzero time advance.  As in the cooperative original, the
/// suspension point lies between the time advance and the yielding event's
/// side effect: the chunk is handed out first, and that event's side
/// effect is applied when the producer is resumed.  The two consumption
/// modes are behaviorally identical in sample values: the ghost field
/// `yielded` carries the concatenation of all chunks yielded so far, and
/// once the events are exhausted it equals exactly the output a
/// materializing [`MidiSyn::syn`] pass computes over the same events.
pub struct ChunkedProducer {
    pub syn: MidiSyn,
    pub events: Vec<TrackEvent>,
    pub ix: usize,
    /// The event at `ix - 1` has advanced the clock and been yielded, but
    /// its side effect waits for the next resumption.
    pub pending: bool,
    pub init: Ghost<SynModel>,
    pub yielded: Ghost<Seq<i32>>,
}

impl ChunkedProducer {
    /// Between calls the engine holds no undelivered samples, and the model
    /// run over the events processed so far — the side effect of a pending
    /// yielded event still outstanding — equals the engine's state with the
    /// yielded samples as its output.
    pub open spec fn wf(&self) -> bool {
        &&& self.syn.wf()
        &&& self.ix <= self.events@.len()
        &&& events_wf(self.events@)
        &&& chunks_fit(self.init@, self.events@)
        &&& self.syn@.output.len() == 0
        &&& (if self.pending {
            &&& 1 <= self.ix
            &&& self.events@[self.ix - 1].vtime != 0
            &&& elapse_model(
                run_model(self.init@, self.events@.take(self.ix - 1)),
                self.events@[self.ix - 1].vtime as nat,
            ) == (SynModel { output: self.yielded@, ..self.syn@ })
        } else {
            run_model(self.init@, self.events@.take(self.ix as int)) == (SynModel {
                output: self.yielded@,
                ..self.syn@
            })
        })
    }

    /// Takes over an engine (whose output it clears) and an event list.
    pub fn new(syn: MidiSyn, events: Vec<TrackEvent>) -> (r: Self)
        requires
            syn.wf(),
            events_wf(events@),
            chunks_fit(SynModel { output: Seq::empty(), ..syn@ }, events@),
        ensures
            r.wf(),
            r.ix == 0,
            r.events@ == events@,
            r.init@ == (SynModel { output: Seq::empty(), ..syn@ }),
            r.yielded@ == Seq::<i32>::empty(),
    {
        let mut syn = syn;
        syn.output = Vec::new();
        let ghost init = syn@;
        let r = ChunkedProducer {
            syn,
            events,
            ix: 0,
            pending: false,
            init: Ghost(init),
            yielded: Ghost(Seq::empty()),
        };
        proof {
            assert(r.events@.take(0) =~= Seq::<TrackEvent>::empty());
            assert(run_model(init, Seq::<TrackEvent>::empty()) == init);
            assert(init =~= (SynModel { output: r.yielded@, ..r.syn@ }));
        }
        r
    }

    /// Resumes the walk: first applies the side effect of the previously
    /// yielded event, then processes events up to and including the next
    /// one with a nonzero delta-tick and returns the chunk of samples that
    /// advance produced (possibly empty), suspending before that event's
    /// side effect; `None` once the event list is exhausted, at which point
    /// everything the whole run synthesizes has been yielded.
    pub fn produce_next_chunk(&mut self) -> (r: Option<Vec<i32>>)
        requires
            old(self).wf(),
        ensures
            final(self).wf(),
            final(self).init@ == old(self).init@,
            final(self).events@ == old(self).events@,
            old(self).ix <= final(self).ix <= final(self).events@.len(),
            ({
                match r {
                    Some(c) => {
                        &&& old(self).ix < final(self).events@.len()
                        &&& old(self).ix < final(self).ix
                        &&& final(self).events@[final(self).ix - 1].vtime != 0
                        &&& forall|i: int|
                            old(self).ix <= i < final(self).ix - 1
                                ==> final(self).events@[i].vtime == 0
                        &&& c@ == step_chunk(
                            run_model(
                                final(self).init@,
                                final(self).events@.take(final(self).ix - 1),
                            ),
                            final(self).events@[final(self).ix - 1],
                        )
                        &&& final(self).yielded@ == old(self).yielded@ + c@
                    },
                    None => {
                        &&& final(self).ix == final(self).events@.len()
                        &&& forall|i: int|
                            old(self).ix <= i < final(self).ix
                                ==> final(self).events@[i].vtime == 0
                        &&& final(self).yielded@ == run_model(
                            final(self).init@,
                            final(self).events@,
                        ).output
                    },
                }
            }),
    {
        let ghost init = self.init@;
        let ghost ev = self.events@;
        let ghost y0 = self.yielded@;
        if self.pending {
            let e = self.events[self.ix - 1];
            proof {
                assert(event_wf(ev[self.ix - 1]));
                let mprev = run_model(init, ev.take(self.ix - 1));
                let x1 = elapse_model(mprev, e.vtime as nat);
                assert(self.syn@ =~= (SynModel { output: Seq::empty(), ..x1 }));
                lemma_apply_output_shift(x1, Seq::empty(), e.payload);
                lemma_run_take_succ(init, ev, self.ix - 1);
                lemma_apply_output(x1, e.payload);
            }
            self.syn.do_event(&e.payload);
            self.pending = false;
            proof {
                let mprev = run_model(init, ev.take(self.ix - 1));
                let x1 = elapse_model(mprev, e.vtime as nat);
                assert(self.syn@ == (SynModel {
                    output: Seq::empty(),
                    ..apply_model(x1, e.payload)
                }));
                assert(apply_model(x1, e.payload) == run_model(init, ev.take(self.ix as int)));
                assert(run_model(init, ev.take(self.ix as int)).output == x1.output);
                assert(run_model(init, ev.take(self.ix as int)) =~= (SynModel {
                    output: self.yielded@,
                    ..self.syn@
                }));
            }
        }
        while self.ix < self.events.len()
            invariant
                self.wf(),
                !self.pending,
                self.init@ == init,
                self.events@ == ev,
                self.yielded@ == y0,
                init == old(self).init@,
                ev == old(self).events@,
                y0 == old(self).yielded@,
                old(self).ix <= self.ix <= ev.len(),
                forall|i: int| old(self).ix <= i < self.ix ==> ev[i].vtime == 0,
            decreases ev.len() - self.ix,
        {
            let e = self.events[self.ix];
            let ghost mrun = run_model(init, ev.take(self.ix as int));
            proof {
                assert(event_wf(ev[self.ix as int]));
                assert(emit_of(self.syn@, e.vtime as nat) == emit_of(mrun, e.vtime as nat));
                lemma_elapse_output_shift(mrun, Seq::empty(), e.vtime as nat);
                assert(self.syn@ =~= (SynModel { output: Seq::empty(), ..mrun }));
            }
            self.syn.elapse_ticks(e.vtime);
            self.ix = self.ix + 1;
            if e.vtime != 0 {
                let mut c: Vec<i32> = Vec::new();
                core::mem::swap(&mut self.syn.output, &mut c);
                self.yielded = Ghost(y0 + c@);
                self.pending = true;
                proof {
                    assert(c@ =~= elapse_mixes(mrun, e.vtime as nat).0);
                    assert(c@ == step_chunk(mrun, e));
                    assert(elapse_model(mrun, e.vtime as nat).output =~= y0 + c@);
                    assert(elapse_model(mrun, e.vtime as nat) =~= (SynModel {
                        output: self.yielded@,
                        ..self.syn@
                    }));
                }
                return Some(c);
            }
            proof {
                lemma_elapse_zero(mrun, 0);
                let x1 = elapse_model(mrun, 0);
                assert(self.syn@ =~= (SynModel { output: Seq::empty(), ..x1 }));
                lemma_apply_output_shift(x1, Seq::empty(), e.payload);
                lemma_run_take_succ(init, ev, self.ix - 1);
                lemma_apply_output(x1, e.payload);
            }
            self.syn.do_event(&e.payload);
            proof {
                assert(run_model(init, ev.take(self.ix as int)).output == y0);
                assert(run_model(init, ev.take(self.ix as int)) =~= (SynModel {
                    output: self.yielded@,
                    ..self.syn@
                }));
            }
        }
        proof {
            assert(ev.take(self.ix as int) =~= ev);
        }
        None
    }
}

/// The output accumulates monotonically: whatever a state has already
/// written stays in place, unmodified, through any further run.
pub proof fn lemma_run_output_monotone(m: SynModel, es: Seq<TrackEvent>)
    ensures
        run_model(m, es).output.len() >= m.output.len(),
        run_model(m, es).output.take(m.output.len() as int) == m.output,
    decreases es.len(),
{
    lemma_run_grows(m, es);
    if es.len() == 0 {
        assert(run_model(m, es).output.take(m.output.len() as int) =~= m.output);
    } else {
        let m1 = step_model(m, es[0]);
        lemma_step_output_shift(m, m.output, es[0]);
        lemma_run_output_monotone(m1, es.drop_first());
        lemma_run_grows(m1, es.drop_first());
        let full = run_model(m, es).output;
        assert(full.take(m1.output.len() as int) == m1.output);
        assert(full.take(m.output.len() as int) =~= m1.output.take(m.output.len() as int));
        assert(m1.output.take(m.output.len() as int) =~= m.output);
    }
}

} // verus!
