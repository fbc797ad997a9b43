use piano::{build_spectrum, Cx, NoteMode, ONE};

const MODES: [NoteMode; 4] = [NoteMode::Sine, NoteMode::Saw, NoteMode::Square, NoteMode::Triangle];

fn is_hermitian(w: &[Cx]) -> bool {
    let n = w.len();
    w[0] == Cx { re: 0, im: 0 }
        && w[n / 2] == Cx { re: 0, im: 0 }
        && (1..n).all(|k| w[k].re == w[n - k].re && w[k].im == -w[n - k].im)
}

#[test]
fn spectrum_is_hermitian_for_every_mode() {
    let n = 64;
    let voices = n / 2 - 2;
    let sets: Vec<Vec<i64>> = vec![
        vec![0; voices],
        (0..voices as i64).map(|i| (i * 977) % ONE).collect(),
        (0..voices as i64).map(|i| if i % 5 == 0 { ONE } else { 0 }).collect(),
        vec![ONE; voices],
    ];
    for mode in MODES {
        for amps in &sets {
            let w = build_spectrum(amps, mode, n);
            assert_eq!(w.len(), n);
            assert!(is_hermitian(&w));
            assert!(w.iter().all(|c| c.re == 0));
        }
    }
}

#[test]
fn sine_voice_fills_one_pair() {
    let n = 32;
    let mut amps = vec![0; n / 2 - 2];
    amps[2] = 1000;
    let w = build_spectrum(&amps, NoteMode::Sine, n);
    for (k, c) in w.iter().enumerate() {
        let want = if k == 3 { -1000 } else if k == n - 3 { 1000 } else { 0 };
        assert_eq!(c.im, want, "bin {}", k);
    }
}

#[test]
fn saw_voice_has_every_harmonic() {
    let n = 32;
    let mut amps = vec![0; n / 2 - 2];
    amps[2] = 1200;
    let w = build_spectrum(&amps, NoteMode::Saw, n);
    // fundamental at bin 3; harmonics 3, 6, 9, 12, 15 below Nyquist 16
    for j in 1..=5usize {
        assert_eq!(w[3 * j].im, -(1200 / j as i64));
        assert_eq!(w[n - 3 * j].im, 1200 / j as i64);
    }
    assert_eq!(w[1].im, 0);
    assert_eq!(w[4].im, 0);
}

#[test]
fn square_voice_has_odd_harmonics() {
    let n = 32;
    let mut amps = vec![0; n / 2 - 2];
    amps[1] = 900;
    let w = build_spectrum(&amps, NoteMode::Square, n);
    // fundamental at bin 2: harmonics 1, 3, 5, 7 at bins 2, 6, 10, 14
    assert_eq!(w[2].im, -900);
    assert_eq!(w[4].im, 0);
    assert_eq!(w[6].im, -300);
    assert_eq!(w[8].im, 0);
    assert_eq!(w[10].im, -180);
    assert_eq!(w[14].im, -900 / 7);
    assert_eq!(w[n - 14].im, 900 / 7);
}

#[test]
fn triangle_voice_alternates_sign() {
    let n = 64;
    let mut amps = vec![0; n / 2 - 2];
    amps[0] = 9000;
    let w = build_spectrum(&amps, NoteMode::Triangle, n);
    assert_eq!(w[1].im, -9000);
    assert_eq!(w[3].im, 1000);
    assert_eq!(w[5].im, -360);
    assert_eq!(w[7].im, 9000 / 49);
    assert_eq!(w[2].im, 0);
    assert_eq!(w[n - 3].im, -1000);
}

#[test]
fn voices_add_up() {
    let n = 32;
    let mut amps = vec![0; n / 2 - 2];
    amps[0] = 100;
    amps[1] = 50;
    let w = build_spectrum(&amps, NoteMode::Saw, n);
    // bin 2: second harmonic of voice 0 (50) and fundamental of voice 1 (50)
    assert_eq!(w[2].im, -100);
    assert_eq!(w[1].im, -100);
    assert_eq!(w[4].im, -(100 / 4 + 50 / 2));
}

#[test]
fn soft_limiter_divides_by_sum() {
    let n = 32;
    let mut amps = vec![0; n / 2 - 2];
    amps[0] = ONE;
    amps[4] = ONE;
    let w = build_spectrum(&amps, NoteMode::Sine, n);
    assert_eq!(w[1].im, -ONE / 2);
    assert_eq!(w[5].im, -ONE / 2);
    assert_eq!(w[n - 5].im, ONE / 2);
}

#[test]
fn soft_limiter_keeps_bins_within_full_scale() {
    let n = 128;
    let voices = n / 2 - 2;
    let amps: Vec<i64> = (0..voices as i64).map(|i| (i * 7919) % ONE).collect();
    assert!(amps.iter().sum::<i64>() > ONE);
    for mode in MODES {
        let w = build_spectrum(&amps, mode, n);
        assert!(w.iter().all(|c| c.im.abs() <= ONE));
    }
}

#[test]
fn below_full_scale_no_limiting() {
    let n = 32;
    let mut amps = vec![0; n / 2 - 2];
    amps[0] = ONE / 2;
    amps[1] = ONE / 2;
    let w = build_spectrum(&amps, NoteMode::Sine, n);
    assert_eq!(w[1].im, -ONE / 2);
    assert_eq!(w[2].im, -ONE / 2);
}

#[test]
fn calc_adds_one_voice() {
    let n = 16;
    let mut w = vec![Cx { re: 0, im: 0 }; n];
    NoteMode::Saw.calc(0, n, n / 2, 840, &mut w);
    let want: Vec<i64> = vec![0, -840, -420, -280, -210, -168, -140, -120, 0, 120, 140, 168, 210, 280, 420, 840];
    assert_eq!(w.iter().map(|c| c.im).collect::<Vec<_>>(), want);
}
