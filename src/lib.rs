//! A fixed-point additive synthesizer core: ADSR envelopes per voice, a
//! harmonic spectrum builder for four waveforms, a radix-2 transform and a
//! block-based sample renderer.
//!
//! Amplitudes are Q16 fixed-point numbers (`ONE` stands for 1.0), times are
//! whole microseconds, and twiddle factors are in units of `TW_ONE`.
pub mod lerp;
pub mod envelope;
pub mod fft;
pub mod spectrum;
pub mod control;
pub mod waves;

pub use control::{Command, WavesControl, MAX_VOICES, NOTE_CAP};
pub use envelope::{AdsrParams, NoteState, MAX_DUR};
pub use fft::{fft, ifft, Cx, MAX_LEN, TW_ONE, VAL_LIM};
pub use lerp::{inv_lerp, lerp, lerp_as, quadratic_interpolate_as, LIM, ONE};
pub use spectrum::{build_spectrum, NoteMode};
pub use waves::{SynthError, Waves, BLOCKS_PER_SECOND, BLOCK_DT};
