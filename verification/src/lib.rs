//! A sample-accurate, polyphonic MIDI-event-to-audio synthesis engine.
//!
//! The engine converts a timestamped sequence of musical events (note on/off,
//! program change, control change, tempo change) into a stream of fixed-point
//! audio samples at a fixed sample rate.  Musical time (ticks, tempo-dependent)
//! is converted into exact sample counts with a rational fractional remainder
//! carried across events, so cumulative error over an arbitrarily long event
//! sequence is zero.  Each sounding note is an independently-aged producer of
//! samples, owned by exactly one of three lifecycle collections (pressed,
//! held-by-pedal, releasing), shaped by a piecewise-linear envelope and mixed
//! sample-by-sample into the output.
//!
//! Sample values are `i32` fixed-point numbers; gains and amplitudes are
//! per-mille (`1000` is unity).  Decoding of instrument recordings, MIDI file
//! parsing, playback and file output are collaborators outside this crate;
//! they exchange plain integer samples and event values with it.

pub mod types;
pub mod soundprim;
pub mod streamop;
pub mod piano;
pub mod midisyn;
