//! The per-voice ADSR envelope: a phase with the time left in it.
use vstd::prelude::*;

use crate::lerp::{lerp_as, lerp_as_spec, quadratic_interpolate_as, quadratic_spec, ONE};

verus! {

/// Longest duration, in microseconds, that an envelope phase may have.
pub const MAX_DUR: i64 = 549755813888;

/// The phase of one voice, with the microseconds left in it.
#[derive(Debug, Clone, Copy, PartialEq, Eq, Structural)]
pub enum NoteState {
    Silent,
    Attack(i64),
    Decay(i64),
    Sustain(i64),
    Release(i64),
}

/// Levels (Q16, `ONE` is full scale) and durations (microseconds) of an
/// envelope.
#[derive(Debug, Clone, Copy, PartialEq, Eq, Structural)]
pub struct AdsrParams {
    pub attack_level: i64,
    pub sustain_level: i64,
    pub attack_dur: i64,
    pub decay_dur: i64,
    pub release_dur: i64,
    pub sustain_dur: i64,
}

impl AdsrParams {
    /// Levels within full scale, a nonzero attack peak that the sustain
    /// level does not exceed, durations within `MAX_DUR`.
    pub open spec fn wf(self) -> bool {
        &&& 0 < self.attack_level <= ONE
        &&& 0 <= self.sustain_level <= self.attack_level
        &&& 0 <= self.attack_dur <= MAX_DUR
        &&& 0 <= self.decay_dur <= MAX_DUR
        &&& 0 <= self.release_dur <= MAX_DUR
        &&& 0 <= self.sustain_dur <= MAX_DUR
    }

    /// Length of the sustain phase: the full one while the key is held, a
    /// quarter of it otherwise.
    pub open spec fn sustain_len(self, held: bool) -> i64 {
        if held {
            self.sustain_dur
        } else {
            (self.sustain_dur / 4) as i64
        }
    }
}

/// Time left lies between `-MAX_DUR` and the phase's full length.
pub open spec fn time_ok(t: i64, dur: i64) -> bool {
    -MAX_DUR <= t <= dur
}

impl NoteState {
    /// The time left in the phase never exceeds the phase's length.
    pub open spec fn wf(self, adsr: AdsrParams) -> bool {
        match self {
            NoteState::Silent => true,
            NoteState::Attack(t) => time_ok(t, adsr.attack_dur),
            NoteState::Decay(t) => time_ok(t, adsr.decay_dur),
            NoteState::Sustain(t) => time_ok(t, adsr.sustain_dur),
            NoteState::Release(t) => time_ok(t, adsr.release_dur),
        }
    }

    /// Amplitude during the attack: the eased curve from 0 at the start to
    /// the attack level at the end.
    pub open spec fn attack_eased(t: int, adsr: AdsrParams) -> int {
        quadratic_spec(t, adsr.attack_dur as int, 0, 0, adsr.attack_level as int)
    }

    /// Amplitude during the attack, on the straight line from 0 to the attack
    /// level.
    pub open spec fn attack_linear(t: int, adsr: AdsrParams) -> int {
        lerp_as_spec(t, adsr.attack_dur as int, 0, 0, adsr.attack_level as int)
    }

    /// Amplitude during the decay, on the line from the attack level down to
    /// the sustain level.
    pub open spec fn decay_level(t: int, adsr: AdsrParams) -> int {
        lerp_as_spec(t, adsr.decay_dur as int, 0, adsr.attack_level as int, adsr.sustain_level as int)
    }

    /// Amplitude during the release, on the line from the sustain level down
    /// to silence.
    pub open spec fn release_level(t: int, adsr: AdsrParams) -> int {
        lerp_as_spec(t, adsr.release_dur as int, 0, adsr.sustain_level as int, 0)
    }

    /// The amplitude a tick reports for the state it starts from: the attack
    /// on its eased curve, the other phases on their lines.
    pub open spec fn tick_level(self, adsr: AdsrParams) -> int {
        match self {
            NoteState::Attack(t) => if t > 0 {
                Self::attack_eased(t as int, adsr)
            } else {
                adsr.attack_level as int
            },
            _ => self.level(adsr),
        }
    }

    /// One tick of `dt` microseconds: `dt` comes off the time left, a phase
    /// whose time runs out hands over within the same tick to the next one,
    /// which starts with what the tick overran taken off its length; and the
    /// amplitude of the state before the tick.
    pub open spec fn step(self, adsr: AdsrParams, dt: i64, held: bool) -> (NoteState, int) {
        if self is Silent {
            (NoteState::Silent, 0)
        } else {
            (settle(with_time(self, (time_of(self) - dt) as i64), adsr, held), self.tick_level(adsr))
        }
    }

    /// The amplitude of the state as it stands, with the attack read on its
    /// straight line.
    pub open spec fn level(self, adsr: AdsrParams) -> int {
        match self {
            NoteState::Silent => 0,
            NoteState::Attack(t) => if t > 0 {
                Self::attack_linear(t as int, adsr)
            } else {
                adsr.attack_level as int
            },
            NoteState::Decay(t) => if t > 0 {
                Self::decay_level(t as int, adsr)
            } else {
                adsr.sustain_level as int
            },
            NoteState::Sustain(_) => adsr.sustain_level as int,
            NoteState::Release(t) => if t > 0 {
                Self::release_level(t as int, adsr)
            } else {
                0
            },
        }
    }

    /// Advances the envelope by `dt` microseconds and returns the amplitude
    /// of the state it was in. A phase whose time runs out hands over in the
    /// same tick: attack to decay, decay to sustain (a quarter of the sustain
    /// time when `sustain` is not held), sustain to release, release to
    /// silence; the next phase's time is shortened by what the tick overran.
    pub fn next(&mut self, adsr: &AdsrParams, dt: i64, sustain: bool) -> (r: i64)
        requires
            adsr.wf(),
            old(self).wf(*adsr),
            0 <= dt <= MAX_DUR,
        ensures
            (*final(self), r as int) == old(self).step(*adsr, dt, sustain),
            final(self).wf(*adsr),
            0 <= r <= ONE,
    {
        let (amp, left) = match *self {
            NoteState::Silent => {
                return 0;
            },
            NoteState::Attack(t) => {
                let a = if t > 0 {
                    proof {
                        crate::lerp::lemma_quadratic_between(t as int, adsr.attack_dur as int, 0, 0, adsr.attack_level as int);
                    }
                    quadratic_interpolate_as(t, adsr.attack_dur, 0, 0, adsr.attack_level)
                } else {
                    adsr.attack_level
                };
                (a, NoteState::Attack(t - dt))
            },
            NoteState::Decay(t) => {
                let a = if t > 0 {
                    proof {
                        crate::lerp::lemma_lerp_as_between(t as int, adsr.decay_dur as int, 0, adsr.attack_level as int, adsr.sustain_level as int);
                    }
                    lerp_as(t, adsr.decay_dur, 0, adsr.attack_level, adsr.sustain_level)
                } else {
                    adsr.sustain_level
                };
                (a, NoteState::Decay(t - dt))
            },
            NoteState::Sustain(t) => (adsr.sustain_level, NoteState::Sustain(t - dt)),
            NoteState::Release(t) => {
                let a = if t > 0 {
                    proof {
                        crate::lerp::lemma_lerp_as_between(t as int, adsr.release_dur as int, 0, adsr.sustain_level as int, 0);
                    }
                    lerp_as(t, adsr.release_dur, 0, adsr.sustain_level, 0)
                } else {
                    0
                };
                (a, NoteState::Release(t - dt))
            },
        };
        proof {
            assert(left == with_time(*old(self), (time_of(*old(self)) - dt) as i64));
        }
        *self = settle_exec(left, adsr, sustain);
        amp
    }

    /// The amplitude of the state as it stands, without moving time.
    pub fn peek(&self, adsr: &AdsrParams) -> (r: i64)
        requires
            adsr.wf(),
            self.wf(*adsr),
        ensures
            r as int == self.level(*adsr),
            0 <= r <= ONE,
    {
        match *self {
            NoteState::Silent => 0,
            NoteState::Attack(t) => if t > 0 {
                proof {
                    crate::lerp::lemma_lerp_as_between(t as int, adsr.attack_dur as int, 0, 0, adsr.attack_level as int);
                }
                lerp_as(t, adsr.attack_dur, 0, 0, adsr.attack_level)
            } else {
                adsr.attack_level
            },
            NoteState::Decay(t) => if t > 0 {
                proof {
                    crate::lerp::lemma_lerp_as_between(t as int, adsr.decay_dur as int, 0, adsr.attack_level as int, adsr.sustain_level as int);
                }
                lerp_as(t, adsr.decay_dur, 0, adsr.attack_level, adsr.sustain_level)
            } else {
                adsr.sustain_level
            },
            NoteState::Sustain(_) => adsr.sustain_level,
            NoteState::Release(t) => if t > 0 {
                proof {
                    crate::lerp::lemma_lerp_as_between(t as int, adsr.release_dur as int, 0, adsr.sustain_level as int, 0);
                }
                lerp_as(t, adsr.release_dur, 0, adsr.sustain_level, 0)
            } else {
                0
            },
        }
    }
}

/// The state after `k` ticks of `dt` with the pedal fixed at `held`.
pub open spec fn run(s: NoteState, adsr: AdsrParams, dt: i64, held: bool, k: nat) -> NoteState
    decreases k,
{
    if k == 0 {
        s
    } else {
        run(s.step(adsr, dt, held).0, adsr, dt, held, (k - 1) as nat)
    }
}

pub open spec fn time_of(s: NoteState) -> int {
    match s {
        NoteState::Silent => 0,
        NoteState::Attack(t) => t as int,
        NoteState::Decay(t) => t as int,
        NoteState::Sustain(t) => t as int,
        NoteState::Release(t) => t as int,
    }
}

pub open spec fn with_time(s: NoteState, t: i64) -> NoteState {
    match s {
        NoteState::Silent => NoteState::Silent,
        NoteState::Attack(_) => NoteState::Attack(t),
        NoteState::Decay(_) => NoteState::Decay(t),
        NoteState::Sustain(_) => NoteState::Sustain(t),
        NoteState::Release(_) => NoteState::Release(t),
    }
}

/// How many phases are still to come, this one included.
pub open spec fn rank(s: NoteState) -> nat {
    match s {
        NoteState::Silent => 0,
        NoteState::Release(_) => 1,
        NoteState::Sustain(_) => 2,
        NoteState::Decay(_) => 3,
        NoteState::Attack(_) => 4,
    }
}

/// Full length of the state's phase.
pub open spec fn phase_len(s: NoteState, adsr: AdsrParams) -> int {
    match s {
        NoteState::Silent => 0,
        NoteState::Attack(_) => adsr.attack_dur as int,
        NoteState::Decay(_) => adsr.decay_dur as int,
        NoteState::Sustain(_) => adsr.sustain_dur as int,
        NoteState::Release(_) => adsr.release_dur as int,
    }
}

/// A phase with no time left hands over to the next, which starts with its
/// full length less the overrun, until a phase has time left or the voice
/// falls silent.
pub open spec fn settle(s: NoteState, adsr: AdsrParams, held: bool) -> NoteState
    decreases rank(s),
{
    match s {
        NoteState::Silent => NoteState::Silent,
        NoteState::Attack(t) => if t > 0 {
            s
        } else {
            settle(NoteState::Decay((t + adsr.decay_dur) as i64), adsr, held)
        },
        NoteState::Decay(t) => if t > 0 {
            s
        } else {
            settle(NoteState::Sustain((t + adsr.sustain_len(held)) as i64), adsr, held)
        },
        NoteState::Sustain(t) => if t > 0 {
            s
        } else {
            settle(NoteState::Release((t + adsr.release_dur) as i64), adsr, held)
        },
        NoteState::Release(t) => if t > 0 {
            s
        } else {
            NoteState::Silent
        },
    }
}

/// Time left in the whole envelope: in the current phase and all later ones.
pub open spec fn remaining(s: NoteState, adsr: AdsrParams, held: bool) -> int {
    let later = match s {
        NoteState::Silent => 0,
        NoteState::Attack(_) => adsr.decay_dur + adsr.sustain_len(held) + adsr.release_dur,
        NoteState::Decay(_) => adsr.sustain_len(held) + adsr.release_dur,
        NoteState::Sustain(_) => adsr.release_dur as int,
        NoteState::Release(_) => 0,
    };
    time_of(s) + later
}

/// Length of a whole envelope with the pedal up.
pub open spec fn envelope_total(adsr: AdsrParams) -> int {
    adsr.attack_dur + adsr.decay_dur + adsr.sustain_dur / 4 + adsr.release_dur
}

/// Ticks a struck voice sounds with the pedal up: the envelope's length
/// rounded up to whole ticks (one tick for an envelope of no length).
pub open spec fn envelope_ticks(adsr: AdsrParams, dt: int) -> int {
    if envelope_total(adsr) == 0 {
        1
    } else {
        (envelope_total(adsr) + dt - 1) / dt
    }
}

/// Hands over from phases with no time left.
fn settle_exec(s: NoteState, adsr: &AdsrParams, held: bool) -> (r: NoteState)
    requires
        adsr.wf(),
        -2 * MAX_DUR <= time_of(s) <= phase_len(s, *adsr),
    ensures
        r == settle(s, *adsr, held),
        r.wf(*adsr),
    decreases rank(s),
{
    match s {
        NoteState::Silent => s,
        NoteState::Attack(t) => if t > 0 {
            s
        } else {
            settle_exec(NoteState::Decay(t + adsr.decay_dur), adsr, held)
        },
        NoteState::Decay(t) => if t > 0 {
            s
        } else {
            let len = if held {
                adsr.sustain_dur
            } else {
                adsr.sustain_dur / 4
            };
            settle_exec(NoteState::Sustain(t + len), adsr, held)
        },
        NoteState::Sustain(t) => if t > 0 {
            s
        } else {
            settle_exec(NoteState::Release(t + adsr.release_dur), adsr, held)
        },
        NoteState::Release(t) => if t > 0 {
            s
        } else {
            NoteState::Silent
        },
    }
}

/// Handing over keeps the time left in the whole envelope, and the voice
/// falls silent exactly when none is left.
proof fn lemma_settle(s: NoteState, adsr: AdsrParams, held: bool)
    requires
        adsr.wf(),
        !(s is Silent),
        -2 * MAX_DUR <= time_of(s) <= phase_len(s, adsr),
    ensures
        (settle(s, adsr, held) is Silent) == (remaining(s, adsr, held) <= 0),
        !(settle(s, adsr, held) is Silent) ==> remaining(settle(s, adsr, held), adsr, held) == remaining(s, adsr, held)
            && settle(s, adsr, held).wf(adsr),
    decreases rank(s),
{
    let t = time_of(s);
    if t <= 0 {
        match s {
            NoteState::Attack(_) => lemma_settle(NoteState::Decay((t + adsr.decay_dur) as i64), adsr, held),
            NoteState::Decay(_) => lemma_settle(NoteState::Sustain((t + adsr.sustain_len(held)) as i64), adsr, held),
            NoteState::Sustain(_) => lemma_settle(NoteState::Release((t + adsr.release_dur) as i64), adsr, held),
            _ => {},
        }
    }
}

/// A tick takes `dt` off the time left in the whole envelope, and the voice
/// falls silent exactly when that leaves none.
proof fn lemma_step_remaining(s: NoteState, adsr: AdsrParams, dt: i64, held: bool)
    requires
        adsr.wf(),
        !(s is Silent),
        s.wf(adsr),
        0 < dt <= MAX_DUR,
    ensures
        (s.step(adsr, dt, held).0 is Silent) == (remaining(s, adsr, held) - dt <= 0),
        !(s.step(adsr, dt, held).0 is Silent) ==> remaining(s.step(adsr, dt, held).0, adsr, held)
            == remaining(s, adsr, held) - dt && s.step(adsr, dt, held).0.wf(adsr),
{
    let w = with_time(s, (time_of(s) - dt) as i64);
    lemma_settle(w, adsr, held);
}

/// After `j` ticks that each leave time in the envelope, the time left is
/// `j * dt` less, and the voice never fell silent on the way.
proof fn lemma_run(s: NoteState, adsr: AdsrParams, dt: i64, held: bool, j: nat)
    requires
        adsr.wf(),
        !(s is Silent),
        s.wf(adsr),
        0 < dt <= MAX_DUR,
        j >= 1,
        remaining(s, adsr, held) - (j - 1) * dt > 0,
    ensures
        (run(s, adsr, dt, held, j) is Silent) == (remaining(s, adsr, held) - j * dt <= 0),
        forall|i: nat| i < j ==> !(#[trigger] run(s, adsr, dt, held, i) is Silent),
    decreases j,
{
    let r = remaining(s, adsr, held);
    let s1 = s.step(adsr, dt, held).0;
    lemma_step_remaining(s, adsr, dt, held);
    assert(run(s, adsr, dt, held, j) == run(s1, adsr, dt, held, (j - 1) as nat));
    if j == 1 {
        assert(run(s1, adsr, dt, held, 0) == s1);
        assert forall|i: nat| i < j implies !(#[trigger] run(s, adsr, dt, held, i) is Silent) by {
            assert(i == 0);
        }
    } else {
        assert(r - dt > (j - 2) * dt) by (nonlinear_arith)
            requires r - (j - 1) * dt > 0;
        assert((j - 2) * dt >= 0) by (nonlinear_arith)
            requires j >= 2, dt > 0;
        lemma_run(s1, adsr, dt, held, (j - 1) as nat);
        assert((r - dt) - (j - 1) * dt == r - j * dt) by (nonlinear_arith);
        assert forall|i: nat| i < j implies !(#[trigger] run(s, adsr, dt, held, i) is Silent) by {
            if i > 0 {
                assert(run(s, adsr, dt, held, i) == run(s1, adsr, dt, held, (i - 1) as nat));
            }
        }
    }
}

/// Struck once and left with the pedal up, a voice sounds for exactly
/// `envelope_ticks` ticks of `dt`: it is silent after that many and not
/// before, and that time is within one tick above the sum of attack,
/// decay, a quarter of the sustain and release.
pub proof fn lemma_envelope_duration(adsr: AdsrParams, dt: i64)
    requires
        adsr.wf(),
        0 < dt <= MAX_DUR,
    ensures
        run(NoteState::Attack(adsr.attack_dur), adsr, dt, false, envelope_ticks(adsr, dt as int) as nat)
            == NoteState::Silent,
        forall|k: nat|
            k < envelope_ticks(adsr, dt as int) ==> !(#[trigger] run(
                NoteState::Attack(adsr.attack_dur),
                adsr,
                dt,
                false,
                k,
            ) is Silent),
        envelope_total(adsr) <= envelope_ticks(adsr, dt as int) * dt <= envelope_total(adsr) + dt,
{
    let s = NoteState::Attack(adsr.attack_dur);
    let t = envelope_total(adsr);
    let d = dt as int;
    assert(remaining(s, adsr, false) == t);
    if t == 0 {
        lemma_step_remaining(s, adsr, dt, false);
        assert(run(s, adsr, dt, false, 1) == run(s.step(adsr, dt, false).0, adsr, dt, false, 0));
        assert forall|k: nat| k < envelope_ticks(adsr, d) implies !(#[trigger] run(s, adsr, dt, false, k) is Silent) by {
            assert(k == 0);
        }
    } else {
        let k = (t + d - 1) / d;
        vstd::arithmetic::div_mod::lemma_fundamental_div_mod(t + d - 1, d);
        assert(d * k <= t + d - 1 < d * k + d);
        assert(k >= 1) by (nonlinear_arith)
            requires d * k + d > t + d - 1, t > 0, d > 0;
        assert(t - (k - 1) * d > 0) by (nonlinear_arith)
            requires d * k <= t + d - 1;
        assert(t - k * d <= 0) by (nonlinear_arith)
            requires t + d - 1 < d * k + d;
        lemma_run(s, adsr, dt, false, k as nat);
        assert(t <= k * d <= t + d) by (nonlinear_arith)
            requires t - k * d <= 0, t - (k - 1) * d > 0;
    }
}

} // verus!
