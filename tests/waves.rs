use piano::{Cx, NoteState, SynthError, Waves, WavesControl, ONE, TW_ONE};

fn twiddles(n: usize) -> Vec<Cx> {
    (0..n / 2)
        .map(|j| {
            let a = -2.0 * std::f64::consts::PI * j as f64 / n as f64;
            Cx { re: (a.cos() * TW_ONE as f64).round() as i64, im: (a.sin() * TW_ONE as f64).round() as i64 }
        })
        .collect()
}

#[test]
fn new_rejects_bad_lengths() {
    assert_eq!(Waves::new(100, twiddles(100)).err(), Some(SynthError::BadLength));
    assert_eq!(Waves::new(4, twiddles(4)).err(), Some(SynthError::BadLength));
    assert_eq!(Waves::new(131072, twiddles(8)).err(), Some(SynthError::BadLength));
}

#[test]
fn new_rejects_bad_twiddles() {
    assert_eq!(Waves::new(16, twiddles(8)).err(), Some(SynthError::BadTwiddles));
    let mut tw = twiddles(16);
    tw[3].re = TW_ONE + 1;
    assert_eq!(Waves::new(16, tw).err(), Some(SynthError::BadTwiddles));
}

#[test]
fn stream_metadata() {
    let w = Waves::new(2048, twiddles(2048)).unwrap();
    assert_eq!(w.sample_rate(), 32768);
    assert_eq!(w.channels(), 1);
    assert_eq!(w.control().ss.len(), 1022);
}

#[test]
fn first_block_is_silent_then_renders() {
    let n = 64;
    let mut w = Waves::new(n, twiddles(n)).unwrap();
    let mut c = w.control();
    c.hit(0);
    for _ in 0..n {
        assert_eq!(w.calc(&mut c, true), 0);
    }
    assert!(w.block_done());
    // attack starts at zero amplitude, so the first rendered block is silent too
    let first = w.calc(&mut c, true);
    assert_eq!(first, 0);
    assert_eq!(c.ss[0], NoteState::Attack(200000 - 62500));
}

#[test]
fn sine_voice_renders_sine_wave() {
    let n = 64;
    let mut w = Waves::new(n, twiddles(n)).unwrap();
    let mut c = w.control();
    c.ss[0] = NoteState::Sustain(1000000);
    let a = c.adsr.sustain_level as f64;
    for _ in 0..n {
        w.calc(&mut c, false);
    }
    for i in 0..n {
        let v = w.calc(&mut c, false) as f64;
        let want = 2.0 * a * (2.0 * std::f64::consts::PI * i as f64 / n as f64).sin();
        assert!((v - want).abs() < 4.0, "sample {}: {} vs {}", i, v, want);
    }
    // no time passed
    assert_eq!(c.ss[0], NoteState::Sustain(1000000));
}

#[test]
fn peek_does_not_move_time() {
    let n = 32;
    let mut w = Waves::new(n, twiddles(n)).unwrap();
    let mut c = w.control();
    c.hit(0);
    let before = c.ss.clone();
    for _ in 0..3 * n {
        assert!(w.peek(&c).is_some());
    }
    assert_eq!(c.ss, before);
}

#[test]
fn clone_shares_nothing_but_table() {
    let n = 32;
    let mut w = Waves::new(n, twiddles(n)).unwrap();
    let mut c = w.control();
    c.ss[0] = NoteState::Sustain(1000000);
    for _ in 0..n + 5 {
        w.calc(&mut c, false);
    }
    let mut v = w.shallow_clone();
    assert_eq!(v.wp, 0);
    assert!(v.window.iter().all(|x| *x == Cx { re: 0, im: 0 }));
    assert_eq!(v.tw, w.tw);
    for _ in 0..n {
        assert_eq!(v.peek(&c), Some(0));
    }
    assert!(v.peek(&c).is_some());
}

#[test]
fn loud_chord_spectrum_is_limited() {
    let n = 64;
    let mut w = Waves::new(n, twiddles(n)).unwrap();
    let mut c = w.control();
    for i in 0..6 {
        c.ss[i] = NoteState::Sustain(1000000);
    }
    for _ in 0..=n {
        w.calc(&mut c, false);
    }
    // six voices at sustain level sum past full scale: each fundamental
    // carries level / sum of the peak
    let total: i64 = 6 * c.adsr.sustain_level;
    assert!(total > ONE);
    let peak = w.window.iter().map(|x| x.re.abs()).max().unwrap();
    assert!(peak <= 2 * 6 * (ONE * c.adsr.sustain_level / total) + 64);
}

#[test]
fn control_drives_engine_with_sustain() {
    let n = 32;
    let mut w = Waves::new(n, twiddles(n)).unwrap();
    let mut c = WavesControl::new(n / 2 - 2);
    c.ss[0] = NoteState::Decay(0);
    c.set_sustain(true);
    for _ in 0..=n {
        w.calc(&mut c, true);
    }
    assert_eq!(c.ss[0], NoteState::Sustain(200000 - 62500));
}

#[test]
fn engine_control_starts_fresh() {
    let w = Waves::new(64, twiddles(64)).unwrap();
    let c = w.control();
    assert_eq!(c.mode, piano::NoteMode::Sine);
    assert!(!c.sustain);
    assert_eq!(c.adsr.attack_level, 26214);
    assert_eq!(c.adsr.sustain_dur, 200000);
}
