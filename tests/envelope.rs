use piano::{AdsrParams, NoteState, WavesControl, ONE};

fn scenario_params() -> AdsrParams {
    AdsrParams {
        attack_level: ONE / 2,
        sustain_level: 19661,
        attack_dur: 100000,
        decay_dur: 40000,
        sustain_dur: 200000,
        release_dur: 150000,
    }
}

#[test]
fn attack_rises_on_eased_curve() {
    let adsr = scenario_params();
    let mut control = WavesControl::with_params(4, adsr);
    control.hit(0);
    assert_eq!(control.ss[0], NoteState::Attack(100000));
    let mut s = control.ss[0];
    let want = [0, 328, 1311, 2949, 5243, 8192, 11796, 16056, 20972, 26542];
    let mut last = -1;
    for tick in 0..10usize {
        let v = s.next(&adsr, 10000, false);
        assert_eq!(v, want[tick]);
        // 0.5 * (k / 10)^2 to within 1e-5
        let exact = 0.5 * (tick as f64 / 10.0).powi(2);
        assert!((v as f64 / ONE as f64 - exact).abs() <= 1e-5);
        assert!(v > last);
        last = v;
    }
    // the attack ran out in tick 9, which handed over to the decay
    assert_eq!(s, NoteState::Decay(40000));
    assert_eq!(s.next(&adsr, 10000, false), ONE / 2);
    assert_eq!(s, NoteState::Decay(30000));
}

#[test]
fn phases_follow_in_order() {
    let adsr = scenario_params();
    let mut s = NoteState::Decay(0);
    assert_eq!(s.next(&adsr, 10000, false), 19661);
    assert_eq!(s, NoteState::Sustain(40000));
    let mut held = NoteState::Decay(0);
    held.next(&adsr, 10000, true);
    assert_eq!(held, NoteState::Sustain(190000));
    let mut s = NoteState::Sustain(0);
    assert_eq!(s.next(&adsr, 10000, false), 19661);
    assert_eq!(s, NoteState::Release(140000));
    let mut s = NoteState::Release(-5);
    assert_eq!(s.next(&adsr, 10000, false), 0);
    assert_eq!(s, NoteState::Silent);
    assert_eq!(s.next(&adsr, 10000, false), 0);
    assert_eq!(s, NoteState::Silent);
}

#[test]
fn decay_and_release_are_linear() {
    let adsr = scenario_params();
    // halfway through the decay: halfway between 0.5 and 0.3, rounded
    let mut s = NoteState::Decay(20000);
    assert_eq!(s.next(&adsr, 10000, false), 26215);
    assert_eq!(s, NoteState::Decay(10000));
    let r = NoteState::Release(75000);
    assert_eq!(r.peek(&adsr), 9831);
}

#[test]
fn peek_reads_attack_on_a_line() {
    let adsr = scenario_params();
    assert_eq!(NoteState::Attack(50000).peek(&adsr), ONE / 4);
    assert_eq!(NoteState::Attack(0).peek(&adsr), ONE / 2);
    assert_eq!(NoteState::Decay(0).peek(&adsr), 19661);
    assert_eq!(NoteState::Sustain(7).peek(&adsr), 19661);
    assert_eq!(NoteState::Silent.peek(&adsr), 0);
    assert_eq!(NoteState::Release(0).peek(&adsr), 0);
}

#[test]
fn envelope_returns_to_silence_in_counted_ticks() {
    // default envelope (440 ms), one tick per block (62.5 ms)
    let control = WavesControl::new(1);
    let adsr = control.adsr;
    let dt = 62500;
    let mut s = NoteState::Attack(adsr.attack_dur);
    let mut ticks = 0;
    while s != NoteState::Silent {
        s.next(&adsr, dt, false);
        ticks += 1;
    }
    assert_eq!(ticks, 8);
    let total = adsr.attack_dur + adsr.decay_dur + adsr.sustain_dur / 4 + adsr.release_dur;
    assert!(total <= ticks * dt && ticks * dt < total + dt);
}

#[test]
fn envelope_duration_scenario_params() {
    let adsr = scenario_params();
    let dt = 10000;
    let mut s = NoteState::Attack(adsr.attack_dur);
    let mut ticks = 0;
    while s != NoteState::Silent {
        s.next(&adsr, dt, false);
        ticks += 1;
    }
    // 100 + 40 + 50 + 150 ms
    assert_eq!(ticks, 34);
}

#[test]
fn overrun_carries_into_next_phase() {
    let adsr = scenario_params();
    let mut s = NoteState::Attack(5000);
    s.next(&adsr, 10000, false);
    assert_eq!(s, NoteState::Decay(35000));
    // a tick longer than a whole phase passes through it
    let mut s = NoteState::Decay(1000);
    assert_eq!(s.next(&adsr, 60000, false), 19989);
    assert_eq!(s, NoteState::Release(141000));
}
