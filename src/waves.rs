//! The synthesis engine: regenerates a block of samples from the control
//! surface whenever the previous block has been read out.
use vstd::prelude::*;

use crate::control::{default_adsr_spec, WavesControl};
use crate::envelope::NoteState;
use crate::fft::{
    bounded, cx, cxs, ifft, is_pow2, radix2, twiddles_ok, Cx, MAX_LEN, TW_ONE, VAL_LIM,
};
use crate::lerp::ONE;
use crate::spectrum::{build_spectrum, spectrum_of, NoteMode};

verus! {

/// Envelope time that passes per block, in microseconds (a sixteenth of a
/// second: a block of `n` samples plays at `16 * n` samples per second).
pub const BLOCK_DT: i64 = 62500;

/// Blocks per second.
pub const BLOCKS_PER_SECOND: u32 = 16;

/// Why an engine could not be built.
#[derive(Debug, Clone, Copy, PartialEq, Eq, Structural)]
pub enum SynthError {
    /// The block length is not a power of two between 8 and `MAX_LEN`.
    BadLength,
    /// The twiddle table does not have half the block length, or holds a
    /// component beyond `TW_ONE`.
    BadTwiddles,
}

/// One engine: a twiddle table, the current block of samples and the read
/// position in it.
pub struct Waves {
    pub tw: Vec<Cx>,
    pub window: Vec<Cx>,
    pub wp: usize,
}

pub open spec fn len_ok(n: nat) -> bool {
    is_pow2(n) && 8 <= n <= MAX_LEN
}

/// The amplitudes that feed a block: each voice's amplitude before a step of
/// `BLOCK_DT` when time moves, its current amplitude otherwise.
pub open spec fn block_amps(c: WavesControl, progress: bool) -> Seq<i64> {
    Seq::new(
        c.ss.len() as nat,
        |i: int|
            if progress {
                c.ss@[i].step(c.adsr, BLOCK_DT, c.sustain).1 as i64
            } else {
                c.ss@[i].level(c.adsr) as i64
            },
    )
}

/// The block rendered from amplitudes `amps`: the inverse transform of
/// their spectrum.
pub open spec fn block_of(amps: Seq<i64>, mode: NoteMode, tw: Seq<Cx>, n: nat) -> Seq<(int, int)> {
    radix2(cxs(spectrum_of(amps, mode, n as int)), tw, true)
}

/// Whether `n` is a power of two.
fn power_of_two(n: usize) -> (r: bool)
    ensures
        r == is_pow2(n as nat),
{
    let mut m = n;
    while m > 1
        invariant
            is_pow2(m as nat) == is_pow2(n as nat),
        decreases m,
    {
        if m % 2 != 0 {
            return false;
        }
        m = m / 2;
    }
    m == 1
}

fn zeros(n: usize) -> (r: Vec<Cx>)
    ensures
        r@ == Seq::new(n as nat, |i: int| Cx { re: 0, im: 0 }),
{
    let mut r: Vec<Cx> = Vec::new();
    let mut i: usize = 0;
    while i < n
        invariant
            i <= n,
            r@ == Seq::new(i as nat, |k: int| Cx { re: 0, im: 0 }),
        decreases n - i,
    {
        r.push(Cx { re: 0, im: 0 });
        i = i + 1;
        assert(r@ =~= Seq::new(i as nat, |k: int| Cx { re: 0, im: 0 }));
    }
    r
}

fn copy_vec(v: &Vec<Cx>) -> (r: Vec<Cx>)
    ensures
        r@ == v@,
{
    let mut r: Vec<Cx> = Vec::new();
    let mut i: usize = 0;
    while i < v.len()
        invariant
            i <= v.len(),
            r@ == v@.subrange(0, i as int),
        decreases v.len() - i,
    {
        r.push(v[i]);
        i = i + 1;
        assert(r@ =~= v@.subrange(0, i as int));
    }
    assert(r@ =~= v@);
    r
}

impl Waves {
    /// A power-of-two block length within bounds, a matching twiddle table,
    /// and the read position inside the block.
    pub open spec fn wf(&self) -> bool {
        &&& len_ok(self.window.len() as nat)
        &&& twiddles_ok(self.tw@, self.window.len() as nat)
        &&& self.wp <= self.window.len()
    }

    /// Number of voices an engine of this block length drives.
    pub open spec fn voice_count(&self) -> nat {
        (self.window.len() / 2 - 2) as nat
    }

    /// An engine with blocks of `notes` samples and the given twiddle table,
    /// which must have `notes / 2` entries with components within `TW_ONE`
    /// (that is all that is checked; for sound, entry `j` should hold
    /// `exp(-2 pi i j / notes)` in units of `TW_ONE`). The first block is
    /// silent.
    pub fn new(notes: usize, tw: Vec<Cx>) -> (r: Result<Waves, SynthError>)
        ensures
            !len_ok(notes as nat) ==> r == Err::<Waves, SynthError>(SynthError::BadLength),
            len_ok(notes as nat) && !twiddles_ok(tw@, notes as nat) ==> r == Err::<Waves, SynthError>(
                SynthError::BadTwiddles,
            ),
            len_ok(notes as nat) && twiddles_ok(tw@, notes as nat) ==> r is Ok,
            r matches Ok(w) ==> w.wf() && w.tw@ == tw@ && w.wp == 0 && w.window@ == Seq::new(
                notes as nat,
                |i: int| Cx { re: 0, im: 0 },
            ),
    {
        if notes < 8 || notes > MAX_LEN || !power_of_two(notes) {
            return Err(SynthError::BadLength);
        }
        if tw.len() != notes / 2 {
            proof {
                assert(!twiddles_ok(tw@, notes as nat));
            }
            return Err(SynthError::BadTwiddles);
        }
        let mut j: usize = 0;
        while j < tw.len()
            invariant
                len_ok(notes as nat),
                j <= tw.len(),
                forall|k: int| 0 <= k < j ==> #[trigger] bounded(cx(tw@[k]), TW_ONE as int),
            decreases tw.len() - j,
        {
            let w = tw[j];
            if w.re < -TW_ONE || w.re > TW_ONE || w.im < -TW_ONE || w.im > TW_ONE {
                proof {
                    assert(!bounded(cx(tw@[j as int]), TW_ONE as int));
                }
                return Err(SynthError::BadTwiddles);
            }
            j = j + 1;
        }
        let window = zeros(notes);
        Ok(Waves { tw, window, wp: 0 })
    }

    /// A second engine on the same twiddle table with blocks of its own,
    /// starting on a silent block; both can be driven by one control
    /// surface.
    pub fn shallow_clone(&self) -> (r: Waves)
        requires
            self.wf(),
        ensures
            r.wf(),
            r.tw@ == self.tw@,
            r.wp == 0,
            r.window@ == Seq::new(self.window.len() as nat, |i: int| Cx { re: 0, im: 0 }),
    {
        let tw = copy_vec(&self.tw);
        let window = zeros(self.window.len());
        Waves { tw, window, wp: 0 }
    }

    /// A fresh control surface sized for this engine's voice table.
    pub fn control(&self) -> (r: WavesControl)
        requires
            self.wf(),
        ensures
            r.wf(),
            r.ss.len() == self.voice_count(),
            forall|i: int| 0 <= i < r.ss.len() ==> #[trigger] r.ss@[i] == NoteState::Silent,
            r.mode == NoteMode::Sine,
            !r.sustain,
            r.adsr == default_adsr_spec(),
    {
        WavesControl::new(self.window.len() / 2 - 2)
    }

    /// Samples per second: the block length times `BLOCKS_PER_SECOND`.
    pub fn sample_rate(&self) -> (r: u32)
        requires
            self.wf(),
        ensures
            r == self.window.len() * BLOCKS_PER_SECOND,
    {
        (self.window.len() as u32) * BLOCKS_PER_SECOND
    }

    /// Output channels: one.
    pub fn channels(&self) -> (r: u16)
        ensures
            r == 1,
    {
        1
    }

    /// Whether the current block has been read out, so that the next sample
    /// starts a new one.
    pub fn block_done(&self) -> (r: bool)
        ensures
            r == (self.wp == self.window.len()),
    {
        self.wp == self.window.len()
    }

    /// Renders a new block from `amps` and rewinds the read position.
    fn render(&mut self, amps: &Vec<i64>, mode: NoteMode)
        requires
            old(self).wf(),
            amps.len() + 2 <= old(self).window.len() / 2,
            forall|i: int| 0 <= i < amps.len() ==> 0 <= #[trigger] amps@[i] <= ONE,
        ensures
            final(self).wf(),
            final(self).tw == old(self).tw,
            final(self).window.len() == old(self).window.len(),
            final(self).wp == 0,
            cxs(final(self).window@) == block_of(amps@, mode, old(self).tw@, old(self).window.len() as nat),
    {
        let n = self.window.len();
        let mut spec = build_spectrum(amps, mode, n);
        proof {
            assert(amps.len() <= 32768);
            assert forall|k: int| 0 <= k < n implies #[trigger] bounded(cxs(spec@)[k], VAL_LIM as int) by {
                assert(ONE * (amps.len() as int) <= 65536 * 32768) by (nonlinear_arith)
                    requires amps.len() <= 32768;
            }
        }
        ifft(&mut spec, &mut self.window, &self.tw);
        self.wp = 0;
    }

    /// The next sample of the stream. When the block has been read out, a
    /// new one is rendered first from the control surface: with
    /// `progress`, every envelope steps by `BLOCK_DT` and the amplitudes
    /// from before the step are used; without, the current amplitudes are
    /// read and no time passes.
    pub fn calc(&mut self, control: &mut WavesControl, progress: bool) -> (r: i64)
        requires
            old(self).wf(),
            old(control).wf(),
            old(control).ss.len() + 2 <= old(self).window.len() / 2,
        ensures
            final(self).wf(),
            final(control).wf(),
            final(self).tw == old(self).tw,
            final(self).window.len() == old(self).window.len(),
            final(control).mode == old(control).mode,
            final(control).sustain == old(control).sustain,
            final(control).adsr == old(control).adsr,
            final(control).ss.len() == old(control).ss.len(),
            old(self).wp < old(self).window.len() ==> {
                &&& final(self).window == old(self).window
                &&& final(self).wp == old(self).wp + 1
                &&& r == old(self).window@[old(self).wp as int].re
                &&& final(control).ss == old(control).ss
            },
            old(self).wp == old(self).window.len() ==> {
                &&& cxs(final(self).window@) == block_of(
                    block_amps(*old(control), progress),
                    old(control).mode,
                    old(self).tw@,
                    old(self).window.len() as nat,
                )
                &&& final(self).wp == 1
                &&& r == final(self).window@[0].re
                &&& progress ==> forall|i: int|
                    0 <= i < old(control).ss.len() ==> #[trigger] final(control).ss@[i]
                        == old(control).ss@[i].step(old(control).adsr, BLOCK_DT, old(control).sustain).0
                &&& !progress ==> final(control).ss == old(control).ss
            },
    {
        if self.wp == self.window.len() {
            let amps = if progress {
                let a = control.advance_all(BLOCK_DT);
                proof {
                    let ba = block_amps(*old(control), progress);
                    assert forall|i: int| 0 <= i < a.len() implies a@[i] == ba[i] by {
                        assert((control.ss@[i], a@[i] as int) == old(control).ss@[i].step(old(control).adsr, BLOCK_DT, old(control).sustain));
                    }
                    assert(a@ =~= ba);
                }
                a
            } else {
                let a = control.snapshot();
                proof {
                    assert(a@ =~= block_amps(*old(control), progress));
                }
                a
            };
            self.render(&amps, control.mode);
        }
        let v = self.window[self.wp].re;
        self.wp = self.wp + 1;
        v
    }

    /// The next sample as `calc` gives it without moving time, for an
    /// engine that only inspects the sound.
    pub fn peek(&mut self, control: &WavesControl) -> (r: Option<i64>)
        requires
            old(self).wf(),
            control.wf(),
            control.ss.len() + 2 <= old(self).window.len() / 2,
        ensures
            final(self).wf(),
            final(self).tw == old(self).tw,
            final(self).window.len() == old(self).window.len(),
            old(self).wp < old(self).window.len() ==> {
                &&& final(self).window == old(self).window
                &&& final(self).wp == old(self).wp + 1
                &&& r == Some(old(self).window@[old(self).wp as int].re)
            },
            old(self).wp == old(self).window.len() ==> {
                &&& cxs(final(self).window@) == block_of(
                    block_amps(*control, false),
                    control.mode,
                    old(self).tw@,
                    old(self).window.len() as nat,
                )
                &&& final(self).wp == 1
                &&& r == Some(final(self).window@[0].re)
            },
    {
        if self.wp == self.window.len() {
            let amps = control.snapshot();
            proof {
                assert(amps@ =~= block_amps(*control, false));
            }
            self.render(&amps, control.mode);
        }
        let v = self.window[self.wp].re;
        self.wp = self.wp + 1;
        Some(v)
    }
}

} // verus!
