//! The control surface: the voice table with its envelopes, the sustain
//! pedal and the waveform, as external input changes them.
use vstd::prelude::*;

use crate::envelope::{AdsrParams, NoteState, MAX_DUR};
use crate::lerp::{lerp_as, lerp_as_spec, round_div, ONE};
use crate::spectrum::NoteMode;

verus! {

/// Largest number of voices a control surface holds.
pub const MAX_VOICES: usize = 32766;

/// Semitones at or above this one lie beyond every voice table.
pub const NOTE_CAP: usize = 192;

/// Frequency of semitone `k` (0 to 11) of the lowest octave, in millionths
/// of a hertz: 16.3516 Hz times `2^(k/12)`, rounded.
pub open spec fn octave_base(k: int) -> int {
    if k == 0 { 16351600 }
    else if k == 1 { 17323917 }
    else if k == 2 { 18354050 }
    else if k == 3 { 19445439 }
    else if k == 4 { 20601725 }
    else if k == 5 { 21826767 }
    else if k == 6 { 23124654 }
    else if k == 7 { 24499718 }
    else if k == 8 { 25956547 }
    else if k == 9 { 27500004 }
    else if k == 10 { 29135239 }
    else { 30867710 }
}

/// `2^e`.
pub open spec fn pow2(e: nat) -> nat
    decreases e,
{
    if e == 0 {
        1
    } else {
        2 * pow2((e - 1) as nat)
    }
}

/// Frequency of semitone `note` in millionths of a hertz, on the equal
/// tempered scale that starts at 16.3516 Hz.
pub open spec fn note_freq(note: nat) -> int {
    octave_base(note as int % 12) * pow2(note / 12)
}

/// The voice that plays semitone `note`: its frequency rounded to whole
/// hertz, less 16.
pub open spec fn voice_index(note: nat) -> int {
    (note_freq(note) + 500000) / 1000000 - 16
}

/// What a trigger does to a voice: a silent voice starts its attack, a
/// releasing one resumes the attack at the point of equal amplitude, any
/// other is left alone.
pub open spec fn retrigger(s: NoteState, adsr: AdsrParams) -> NoteState {
    match s {
        NoteState::Silent => NoteState::Attack(adsr.attack_dur),
        NoteState::Release(_) => NoteState::Attack(resume_time(s.level(adsr), adsr)),
        _ => s,
    }
}

/// Attack time left at which the attack line reaches amplitude `a`:
/// `lerp(inv_lerp(a, 0, attack_level), attack_dur, 0)`, as one rounded map.
pub open spec fn resume_time(a: int, adsr: AdsrParams) -> i64 {
    lerp_as_spec(a, 0, adsr.attack_level as int, adsr.attack_dur as int, 0) as i64
}

/// An edit that a control role asks of the surface.
#[derive(Debug, Clone, Copy, PartialEq, Eq, Structural)]
pub enum Command {
    Hit(usize),
    SetSustain(bool),
    SetMode(NoteMode),
}

/// The voice table, waveform, sustain pedal and envelope parameters.
pub struct WavesControl {
    pub ss: Vec<NoteState>,
    pub mode: NoteMode,
    pub sustain: bool,
    pub adsr: AdsrParams,
}

fn octave_base_exec(k: u64) -> (r: u64)
    requires
        k < 12,
    ensures
        r == octave_base(k as int),
{
    if k == 0 { 16351600 }
    else if k == 1 { 17323917 }
    else if k == 2 { 18354050 }
    else if k == 3 { 19445439 }
    else if k == 4 { 20601725 }
    else if k == 5 { 21826767 }
    else if k == 6 { 23124654 }
    else if k == 7 { 24499718 }
    else if k == 8 { 25956547 }
    else if k == 9 { 27500004 }
    else if k == 10 { 29135239 }
    else { 30867710 }
}

/// Frequency of a semitone below `NOTE_CAP`, in millionths of a hertz.
fn note_freq_exec(note: usize) -> (r: u64)
    requires
        note < NOTE_CAP,
    ensures
        r == note_freq(note as nat),
        r <= 30867710 * 65536,
{
    let base = octave_base_exec((note % 12) as u64);
    let oct = note / 12;
    let mut f: u64 = base;
    let mut e: usize = 0;
    proof {
        reveal_with_fuel(pow2, 16);
        assert(pow2(15) == 32768);
    }
    while e < oct
        invariant
            e <= oct,
            oct <= 15,
            base <= 30867710,
            f == base * pow2(e as nat),
            pow2(e as nat) <= 32768,
        decreases oct - e,
    {
        proof {
            lemma_pow2_mono((e + 1) as nat, 15);
            reveal_with_fuel(pow2, 16);
            assert(pow2(15) == 32768);
            assert(f * 2 <= 30867710 * 65536) by (nonlinear_arith)
                requires f == base * pow2(e as nat), base <= 30867710, pow2((e + 1) as nat) == 2 * pow2(e as nat), pow2((e + 1) as nat) <= 32768;
            assert(base * pow2((e + 1) as nat) == f * 2) by (nonlinear_arith)
                requires f == base * pow2(e as nat), pow2((e + 1) as nat) == 2 * pow2(e as nat);
        }
        f = f * 2;
        e = e + 1;
    }
    proof {
        reveal_with_fuel(pow2, 16);
        assert(f <= 30867710 * 65536) by (nonlinear_arith)
            requires f == base * pow2(e as nat), base <= 30867710, pow2(e as nat) <= 32768;
    }
    f
}

proof fn lemma_pow2_mono(a: nat, b: nat)
    requires
        a <= b,
    ensures
        1 <= pow2(a) <= pow2(b),
    decreases b,
{
    if b > a {
        lemma_pow2_mono(a, (b - 1) as nat);
    } else if a > 0 {
        lemma_pow2_mono((a - 1) as nat, (a - 1) as nat);
    }
}

/// The envelope that a fresh control surface uses: attack to 0.4 over
/// 0.2 s, decay to 0.3 over 0.04 s, sustain 0.2 s, release over 0.15 s.
pub fn default_adsr() -> (r: AdsrParams)
    ensures
        r.wf(),
        r == default_adsr_spec(),
{
    AdsrParams {
        attack_level: 26214,
        sustain_level: 19661,
        attack_dur: 200000,
        decay_dur: 40000,
        release_dur: 150000,
        sustain_dur: 200000,
    }
}

/// A releasing voice sounds between silence and the sustain level, so no
/// higher than the attack level.
proof fn lemma_release_level(s: NoteState, adsr: AdsrParams)
    requires
        adsr.wf(),
        s.wf(adsr),
        s is Release,
    ensures
        0 <= s.level(adsr) <= adsr.sustain_level <= adsr.attack_level,
{
    if let NoteState::Release(t) = s {
        if t > 0 {
            crate::lerp::lemma_lerp_as_between(t as int, adsr.release_dur as int, 0, adsr.sustain_level as int, 0);
        }
    }
}

/// The resumed attack meets the released amplitude to within half a unit
/// plus half the attack level spread over the attack time either way, and
/// exactly when the attack lasts at least as many microseconds as the attack
/// level has units.
pub proof fn lemma_retrigger_continuity(s: NoteState, adsr: AdsrParams)
    requires
        adsr.wf(),
        s.wf(adsr),
        s is Release,
    ensures
        2 * adsr.attack_dur * (retrigger(s, adsr).level(adsr) - s.level(adsr)) < adsr.attack_level + adsr.attack_dur,
        2 * adsr.attack_dur * (s.level(adsr) - retrigger(s, adsr).level(adsr)) < adsr.attack_level + adsr.attack_dur,
        adsr.attack_level <= adsr.attack_dur ==> retrigger(s, adsr).level(adsr) == s.level(adsr),
{
    let a = s.level(adsr);
    let l = adsr.attack_level as int;
    let d = adsr.attack_dur as int;
    lemma_release_level(s, adsr);
    // the resumed time is d + q, q the rounded -a * d / l
    let q = round_div(-(a * d), l);
    assert(q == (2 * (-(a * d)) + l) / (2 * l));
    vstd::arithmetic::div_mod::lemma_fundamental_div_mod(2 * (-(a * d)) + l, 2 * l);
    assert(2 * l * q <= 2 * (-(a * d)) + l < 2 * l * q + 2 * l) by (nonlinear_arith)
        requires
            q == (2 * (-(a * d)) + l) / (2 * l),
            (2 * l) * q + (2 * (-(a * d)) + l) % (2 * l) == 2 * (-(a * d)) + l,
            0 <= (2 * (-(a * d)) + l) % (2 * l) < 2 * l;
    assert(lerp_as_spec(a, 0, l, d, 0) == d + q) by {
        assert((a - 0) * (0 - d) == -(a * d)) by (nonlinear_arith);
    }
    let r = d + q;
    crate::lerp::lemma_lerp_as_between(a, 0, l, d, 0);
    assert(0 <= r <= d);
    let y = -(q * l);
    assert(2 * y >= 2 * a * d - l && 2 * y < 2 * a * d + l) by (nonlinear_arith)
        requires 2 * l * q <= 2 * (-(a * d)) + l < 2 * l * q + 2 * l, y == -(q * l);
    assert(resume_time(a, adsr) == r);
    let t = retrigger(s, adsr);
    assert(t == NoteState::Attack(r as i64));
    if r > 0 {
        let v = t.level(adsr);
        assert(v == lerp_as_spec(r, d, 0, 0, l));
        assert((r - d) * (l - 0) == q * l) by (nonlinear_arith)
            requires r == d + q;
        assert(v == round_div(q * l, -d));
        assert(v == (2 * y + d) / (2 * d)) by {
            assert(-(2 * (q * l) + -d) == 2 * y + d);
        }
        vstd::arithmetic::div_mod::lemma_fundamental_div_mod(2 * y + d, 2 * d);
        assert(2 * d * v <= 2 * y + d < 2 * d * v + 2 * d) by (nonlinear_arith)
            requires
                v == (2 * y + d) / (2 * d),
                (2 * d) * v + (2 * y + d) % (2 * d) == 2 * y + d,
                0 <= (2 * y + d) % (2 * d) < 2 * d;
        assert(2 * d * (v - a) < l + d) by (nonlinear_arith)
            requires 2 * d * v <= 2 * y + d, 2 * y < 2 * a * d + l;
        assert(2 * d * (a - v) < l + d) by (nonlinear_arith)
            requires 2 * y + d < 2 * d * v + 2 * d, 2 * y >= 2 * a * d - l;
        if l <= d {
            assert(v == a) by (nonlinear_arith)
                requires 2 * d * (v - a) < l + d, 2 * d * (a - v) < l + d, l <= d, d > 0;
        }
    } else {
        assert(t.level(adsr) == l);
        assert(q <= -d);
        assert(y >= d * l) by (nonlinear_arith)
            requires q <= -d, y == -(q * l), l > 0;
        assert(2 * d * (l - a) < l) by (nonlinear_arith)
            requires 2 * y < 2 * a * d + l, y >= d * l;
        assert(2 * d * (l - a) >= 0) by (nonlinear_arith)
            requires a <= l, d >= 0;
        assert(2 * d * (a - l) < l + d) by (nonlinear_arith)
            requires 2 * d * (l - a) >= 0, l > 0, d >= 0;
        assert(2 * d * (l - a) < l + d);
        if l <= d {
            assert(l == a) by (nonlinear_arith)
                requires 2 * d * (l - a) < l, l <= d, a <= l, d > 0;
        }
    }
}

proof fn lemma_level_nonneg(s: NoteState, adsr: AdsrParams)
    requires
        adsr.wf(),
        s.wf(adsr),
    ensures
        0 <= s.level(adsr) <= ONE,
{
    match s {
        NoteState::Attack(t) => if t > 0 {
            crate::lerp::lemma_lerp_as_between(t as int, adsr.attack_dur as int, 0, 0, adsr.attack_level as int);
        },
        NoteState::Decay(t) => if t > 0 {
            crate::lerp::lemma_lerp_as_between(t as int, adsr.decay_dur as int, 0, adsr.attack_level as int, adsr.sustain_level as int);
        },
        NoteState::Release(t) => if t > 0 {
            crate::lerp::lemma_lerp_as_between(t as int, adsr.release_dur as int, 0, adsr.sustain_level as int, 0);
        },
        _ => {},
    }
}

impl WavesControl {
    /// Envelope parameters within bounds, every voice's state consistent
    /// with them, and a voice table of bounded size.
    pub open spec fn wf(&self) -> bool {
        &&& self.adsr.wf()
        &&& self.ss.len() <= MAX_VOICES
        &&& forall|i: int| 0 <= i < self.ss.len() ==> (#[trigger] self.ss@[i]).wf(self.adsr)
    }

    /// A surface of `voices` silent voices with the given envelope, sine
    /// waveform and the pedal up.
    pub fn with_params(voices: usize, adsr: AdsrParams) -> (r: WavesControl)
        requires
            voices <= MAX_VOICES,
            adsr.wf(),
        ensures
            r.wf(),
            r.ss@ == Seq::new(voices as nat, |i: int| NoteState::Silent),
            r.mode == NoteMode::Sine,
            !r.sustain,
            r.adsr == adsr,
    {
        let mut ss: Vec<NoteState> = Vec::new();
        let mut i: usize = 0;
        while i < voices
            invariant
                i <= voices,
                ss@ == Seq::new(i as nat, |k: int| NoteState::Silent),
            decreases voices - i,
        {
            ss.push(NoteState::Silent);
            i = i + 1;
            assert(ss@ =~= Seq::new(i as nat, |k: int| NoteState::Silent));
        }
        WavesControl { ss, mode: NoteMode::Sine, sustain: false, adsr }
    }

    /// A surface of `voices` silent voices with the default envelope.
    pub fn new(voices: usize) -> (r: WavesControl)
        requires
            voices <= MAX_VOICES,
        ensures
            r.wf(),
            r.ss@ == Seq::new(voices as nat, |i: int| NoteState::Silent),
            r.mode == NoteMode::Sine,
            !r.sustain,
            r.adsr == default_adsr_spec(),
    {
        Self::with_params(voices, default_adsr())
    }

    /// Strikes semitone `note`: the voice at `voice_index(note)` is
    /// retriggered. A note beyond the voice table is ignored.
    pub fn hit(&mut self, note: usize)
        requires
            old(self).wf(),
        ensures
            final(self).wf(),
            final(self).mode == old(self).mode,
            final(self).sustain == old(self).sustain,
            final(self).adsr == old(self).adsr,
            if note < NOTE_CAP && voice_index(note as nat) < old(self).ss.len() {
                final(self).ss@ == old(self).ss@.update(
                    voice_index(note as nat),
                    retrigger(old(self).ss@[voice_index(note as nat)], old(self).adsr),
                )
            } else {
                final(self).ss@ == old(self).ss@
            },
    {
        if note >= NOTE_CAP {
            return;
        }
        let index = voice_index_exec(note);
        if index < self.ss.len() {
            let s = self.ss[index];
            proof {
                assert(s.wf(self.adsr));
            }
            let next = match s {
                NoteState::Silent => NoteState::Attack(self.adsr.attack_dur),
                NoteState::Release(_) => {
                    let a = s.peek(&self.adsr);
                    let l = self.adsr.attack_level;
                    proof {
                        lemma_release_level(s, self.adsr);
                        crate::lerp::lemma_lerp_as_between(a as int, 0, l as int, self.adsr.attack_dur as int, 0);
                    }
                    NoteState::Attack(lerp_as(a, 0, l, self.adsr.attack_dur, 0))
                },
                _ => s,
            };
            self.ss.set(index, next);
            proof {
                assert forall|i: int| 0 <= i < self.ss.len() implies (#[trigger] self.ss@[i]).wf(self.adsr) by {
                    if i == index {
                        lemma_retrigger_wf(s, self.adsr);
                    }
                }
            }
        }
    }

    /// Presses (`true`) or lifts the sustain pedal.
    pub fn set_sustain(&mut self, held: bool)
        requires
            old(self).wf(),
        ensures
            final(self).wf(),
            final(self).sustain == held,
            final(self).ss == old(self).ss,
            final(self).mode == old(self).mode,
            final(self).adsr == old(self).adsr,
    {
        self.sustain = held;
    }

    /// Selects the waveform of the blocks built from now on.
    pub fn set_mode(&mut self, mode: NoteMode)
        requires
            old(self).wf(),
        ensures
            final(self).wf(),
            final(self).mode == mode,
            final(self).ss == old(self).ss,
            final(self).sustain == old(self).sustain,
            final(self).adsr == old(self).adsr,
    {
        self.mode = mode;
    }

    /// Carries out one edit.
    pub fn apply(&mut self, cmd: Command)
        requires
            old(self).wf(),
        ensures
            final(self).wf(),
            match cmd {
                Command::Hit(note) => final(self).mode == old(self).mode && final(self).sustain == old(self).sustain
                    && final(self).adsr == old(self).adsr && if note < NOTE_CAP && voice_index(note as nat) < old(self).ss.len() {
                    final(self).ss@ == old(self).ss@.update(
                        voice_index(note as nat),
                        retrigger(old(self).ss@[voice_index(note as nat)], old(self).adsr),
                    )
                } else {
                    final(self).ss@ == old(self).ss@
                },
                Command::SetSustain(held) => final(self).sustain == held && final(self).ss == old(self).ss
                    && final(self).mode == old(self).mode && final(self).adsr == old(self).adsr,
                Command::SetMode(mode) => final(self).mode == mode && final(self).ss == old(self).ss
                    && final(self).sustain == old(self).sustain && final(self).adsr == old(self).adsr,
            },
    {
        match cmd {
            Command::Hit(note) => self.hit(note),
            Command::SetSustain(held) => self.set_sustain(held),
            Command::SetMode(mode) => self.set_mode(mode),
        }
    }

    /// Writes each voice's current amplitude into `freqs`, as far as both
    /// reach, without moving time.
    pub fn get_state(&self, freqs: &mut Vec<i64>)
        requires
            self.wf(),
        ensures
            final(freqs).len() == old(freqs).len(),
            forall|i: int|
                0 <= i < old(freqs).len() ==> #[trigger] final(freqs)@[i] == if i < self.ss.len() {
                    self.ss@[i].level(self.adsr) as i64
                } else {
                    old(freqs)@[i]
                },
    {
        let ghost f0 = freqs@;
        let mut i: usize = 0;
        while i < freqs.len() && i < self.ss.len()
            invariant
                self.wf(),
                i <= freqs.len(),
                freqs.len() == f0.len(),
                forall|k: int|
                    0 <= k < f0.len() ==> #[trigger] freqs@[k] == if k < i && k < self.ss.len() {
                        self.ss@[k].level(self.adsr) as i64
                    } else {
                        f0[k]
                    },
            decreases freqs.len() - i,
        {
            let v = self.ss[i].peek(&self.adsr);
            freqs.set(i, v);
            i = i + 1;
        }
    }

    /// Every voice's current amplitude, without moving time.
    pub fn snapshot(&self) -> (r: Vec<i64>)
        requires
            self.wf(),
        ensures
            r.len() == self.ss.len(),
            forall|i: int| 0 <= i < r.len() ==> #[trigger] r@[i] == self.ss@[i].level(self.adsr),
            forall|i: int| 0 <= i < r.len() ==> 0 <= #[trigger] r@[i] <= ONE,
    {
        let mut r: Vec<i64> = Vec::new();
        let mut i: usize = 0;
        while i < self.ss.len()
            invariant
                self.wf(),
                i <= self.ss.len(),
                r.len() == i,
                forall|k: int| 0 <= k < i ==> #[trigger] r@[k] == self.ss@[k].level(self.adsr),
                forall|k: int| 0 <= k < i ==> 0 <= #[trigger] r@[k] <= ONE,
            decreases self.ss.len() - i,
        {
            let v = self.ss[i].peek(&self.adsr);
            r.push(v);
            i = i + 1;
        }
        r
    }

    /// Advances every voice's envelope by `dt` microseconds, with the
    /// sustain pedal as it stands, and returns each voice's amplitude from
    /// before the step.
    pub fn advance_all(&mut self, dt: i64) -> (r: Vec<i64>)
        requires
            old(self).wf(),
            0 <= dt <= MAX_DUR,
        ensures
            final(self).wf(),
            final(self).mode == old(self).mode,
            final(self).sustain == old(self).sustain,
            final(self).adsr == old(self).adsr,
            final(self).ss.len() == old(self).ss.len(),
            r.len() == old(self).ss.len(),
            forall|i: int|
                0 <= i < r.len() ==> (#[trigger] final(self).ss@[i], r@[i] as int) == old(self).ss@[i].step(
                    old(self).adsr,
                    dt,
                    old(self).sustain,
                ),
            forall|i: int| 0 <= i < r.len() ==> 0 <= #[trigger] r@[i] <= ONE,
    {
        let ghost s0 = self.ss@;
        let mut r: Vec<i64> = Vec::new();
        let mut i: usize = 0;
        while i < self.ss.len()
            invariant
                self.adsr.wf(),
                self.mode == old(self).mode,
                self.sustain == old(self).sustain,
                self.adsr == old(self).adsr,
                s0 == old(self).ss@,
                self.ss.len() == s0.len(),
                s0.len() <= MAX_VOICES,
                0 <= dt <= MAX_DUR,
                i <= self.ss.len(),
                r.len() == i,
                forall|k: int| 0 <= k < s0.len() ==> (#[trigger] s0[k]).wf(self.adsr),
                forall|k: int| 0 <= k < s0.len() ==> (#[trigger] self.ss@[k]).wf(self.adsr),
                forall|k: int| i <= k < s0.len() ==> #[trigger] self.ss@[k] == s0[k],
                forall|k: int|
                    0 <= k < i ==> (#[trigger] self.ss@[k], r@[k] as int) == s0[k].step(
                        self.adsr,
                        dt,
                        self.sustain,
                    ),
                forall|k: int| 0 <= k < i ==> 0 <= #[trigger] r@[k] <= ONE,
            decreases s0.len() - i,
        {
            let mut s = self.ss[i];
            let v = s.next(&self.adsr, dt, self.sustain);
            self.ss.set(i, s);
            r.push(v);
            i = i + 1;
        }
        r
    }

    /// The highest semitone that reaches a voice of the table: every
    /// semitone up to it has a voice, the next one has none (0 when the
    /// table is empty).
    pub fn max_note(&self) -> (r: usize)
        requires
            self.wf(),
        ensures
            r < NOTE_CAP,
            self.ss.len() > 0 ==> forall|m: nat| m <= r ==> #[trigger] voice_index(m) < self.ss.len(),
            r + 1 == NOTE_CAP || voice_index((r + 1) as nat) >= self.ss.len(),
    {
        let len = self.ss.len();
        if len == 0 {
            proof {
                lemma_freq_floor(1);
            }
            return 0;
        }
        let mut note: usize = 0;
        proof {
            lemma_freq_floor(0);
            reveal_with_fuel(pow2, 1);
            assert(note_freq(0) == 16351600);
            assert(voice_index(0) == 0);
        }
        while note + 1 < NOTE_CAP && voice_index_exec(note + 1) < len
            invariant
                note < NOTE_CAP,
                len == self.ss.len(),
                len > 0,
                forall|m: nat| m <= note ==> #[trigger] voice_index(m) < len,
            decreases NOTE_CAP - note,
        {
            note = note + 1;
        }
        note
    }
}

/// The voice index of a semitone below `NOTE_CAP`.
fn voice_index_exec(note: usize) -> (r: usize)
    requires
        note < NOTE_CAP,
    ensures
        r == voice_index(note as nat),
{
    let f = note_freq_exec(note);
    let hz = (f + 500000) / 1000000;
    proof {
        lemma_freq_floor(note as nat);
    }
    (hz - 16) as usize
}

pub open spec fn default_adsr_spec() -> AdsrParams {
    AdsrParams {
        attack_level: 26214,
        sustain_level: 19661,
        attack_dur: 200000,
        decay_dur: 40000,
        release_dur: 150000,
        sustain_dur: 200000,
    }
}

/// A retriggered voice stays consistent with the envelope.
proof fn lemma_retrigger_wf(s: NoteState, adsr: AdsrParams)
    requires
        adsr.wf(),
        s.wf(adsr),
    ensures
        retrigger(s, adsr).wf(adsr),
{
    if s is Release {
        lemma_release_level(s, adsr);
        crate::lerp::lemma_lerp_as_between(s.level(adsr), 0, adsr.attack_level as int, adsr.attack_dur as int, 0);
    }
}

/// Every semitone sounds at 16 Hz or above.
proof fn lemma_freq_floor(note: nat)
    ensures
        (note_freq(note) + 500000) / 1000000 >= 16,
{
    lemma_pow2_mono(0, note / 12);
    reveal_with_fuel(pow2, 1);
    assert(octave_base(note as int % 12) >= 16351600);
    assert(note_freq(note) >= 16351600) by (nonlinear_arith)
        requires
            note_freq(note) == octave_base(note as int % 12) * pow2(note / 12),
            octave_base(note as int % 12) >= 16351600,
            pow2(note / 12) >= 1;
}

} // verus!
