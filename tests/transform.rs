use piano::{fft, ifft, Cx, TW_ONE};

fn twiddles(n: usize) -> Vec<Cx> {
    (0..n / 2)
        .map(|j| {
            let a = -2.0 * std::f64::consts::PI * j as f64 / n as f64;
            Cx { re: (a.cos() * TW_ONE as f64).round() as i64, im: (a.sin() * TW_ONE as f64).round() as i64 }
        })
        .collect()
}

const SCALE: i64 = 1 << 28;

fn round_trip(x: &[Cx], tw: &[Cx]) -> Vec<Cx> {
    let n = x.len();
    let mut input = x.to_vec();
    let mut freq = vec![Cx { re: 0, im: 0 }; n];
    fft(&mut input, &mut freq, &tw.to_vec());
    let mut back = vec![Cx { re: 0, im: 0 }; n];
    ifft(&mut freq, &mut back, &tw.to_vec());
    back
}

fn max_err(a: &[Cx], b: &[Cx]) -> f64 {
    a.iter()
        .zip(b)
        .map(|(p, q)| ((p.re - q.re).abs().max((p.im - q.im).abs())) as f64 / SCALE as f64)
        .fold(0.0, f64::max)
}

#[test]
fn round_trip_random_inputs() {
    let mut seed: u64 = 0x2545_f491_4f6c_dd1d;
    let mut next = move || {
        seed ^= seed << 13;
        seed ^= seed >> 7;
        seed ^= seed << 17;
        (seed % (2 * SCALE as u64 + 1)) as i64 - SCALE
    };
    let mut n = 2;
    while n <= 4096 {
        let tw = twiddles(n);
        let x: Vec<Cx> = (0..n).map(|_| Cx { re: next(), im: next() }).collect();
        let y = round_trip(&x, &tw);
        assert!(max_err(&x, &y) <= 1e-4, "n = {}", n);
        n *= 2;
    }
}

#[test]
fn round_trip_sinusoid() {
    let mut n = 2;
    while n <= 4096 {
        let tw = twiddles(n);
        let x: Vec<Cx> = (0..n)
            .map(|i| {
                let a = 2.0 * std::f64::consts::PI * (i * (n / 2).max(1).min(3)) as f64 / n as f64;
                Cx { re: (a.cos() * SCALE as f64).round() as i64, im: 0 }
            })
            .collect();
        let y = round_trip(&x, &tw);
        assert!(max_err(&x, &y) <= 1e-4, "n = {}", n);
        n *= 2;
    }
}

#[test]
fn forward_of_impulse_is_flat() {
    let n = 8;
    let mut x = vec![Cx { re: 0, im: 0 }; n];
    x[0] = Cx { re: 8 * 1000, im: 0 };
    let mut out = vec![Cx { re: 0, im: 0 }; n];
    fft(&mut x, &mut out, &twiddles(n));
    for c in out {
        assert_eq!(c, Cx { re: 1000, im: 0 });
    }
}

#[test]
fn forward_of_constant_is_dc() {
    let n = 16;
    let mut x = vec![Cx { re: 5000, im: -3000 }; n];
    let mut out = vec![Cx { re: 0, im: 0 }; n];
    fft(&mut x, &mut out, &twiddles(n));
    assert_eq!(out[0], Cx { re: 5000, im: -3000 });
    for c in &out[1..] {
        assert!(c.re.abs() <= 1 && c.im.abs() <= 1);
    }
}

#[test]
fn inverse_of_single_bin_is_sinusoid() {
    let n = 64;
    let a: i64 = 1 << 20;
    let mut x = vec![Cx { re: 0, im: 0 }; n];
    x[1] = Cx { re: a, im: 0 };
    let mut out = vec![Cx { re: 0, im: 0 }; n];
    ifft(&mut x, &mut out, &twiddles(n));
    for (i, c) in out.iter().enumerate() {
        let ang = 2.0 * std::f64::consts::PI * i as f64 / n as f64;
        assert!((c.re as f64 - a as f64 * ang.cos()).abs() < 8.0);
        assert!((c.im as f64 - a as f64 * ang.sin()).abs() < 8.0);
    }
}
