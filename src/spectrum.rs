//! Harmonic profiles: how one voice's amplitude spreads over the bins of a
//! Hermitian-symmetric spectrum.
use vstd::prelude::*;

use crate::fft::Cx;
use crate::lerp::ONE;

verus! {

/// Bound on the magnitude of a spectrum bin while voices are added to it.
pub const BIN_LIM: i64 = 1099511627776;

/// The waveform whose harmonics a voice contributes.
#[derive(Debug, Clone, Copy, PartialEq, Eq, Structural)]
pub enum NoteMode {
    Sine,
    Saw,
    Triangle,
    Square,
}

/// Whether harmonic `j` (1 is the fundamental) sounds in `mode`.
pub open spec fn harmonic_ok(mode: NoteMode, j: int) -> bool {
    match mode {
        NoteMode::Sine => j == 1,
        NoteMode::Saw => j >= 1,
        NoteMode::Square => j >= 1 && j % 2 == 1,
        NoteMode::Triangle => j >= 1 && j % 2 == 1,
    }
}

/// Sign of harmonic `j` of the triangle wave: it alternates between
/// successive odd harmonics.
pub open spec fn tri_sign(j: int) -> int {
    if (j / 2) % 2 == 0 {
        1
    } else {
        -1
    }
}

/// Weight of harmonic `j` for a voice of amplitude `a`: `a / j`, or for the
/// triangle `a / j^2` with alternating sign (rounded towards zero).
pub open spec fn coef(mode: NoteMode, a: int, j: int) -> int {
    match mode {
        NoteMode::Triangle => tri_sign(j) * (a / (j * j)),
        _ => a / j,
    }
}

/// What the voice with fundamental bin `f` and amplitude `a` takes away from
/// the imaginary part of bin `k` (below Nyquist); the mirror bin `n - k`
/// gains the same.
pub open spec fn share(mode: NoteMode, f: int, a: int, k: int) -> int {
    if k % f == 0 && harmonic_ok(mode, k / f) {
        coef(mode, a, k / f)
    } else {
        0
    }
}

/// `window` after adding the voice: every bin `k` strictly between 0 and
/// `hn` loses `c(k)` from its imaginary part, its mirror `n - k` gains it,
/// bins 0 and `hn` stay.
pub open spec fn added(old: Seq<Cx>, new: Seq<Cx>, hn: int, mode: NoteMode, f: int, a: int) -> bool {
    &&& new.len() == old.len()
    &&& new[0] == old[0]
    &&& new[hn] == old[hn]
    &&& forall|k: int|
        0 < k < hn ==> (#[trigger] new[k]).re == old[k].re && new[k].im == old[k].im - share(mode, f, a, k)
    &&& forall|k: int|
        0 < k < hn ==> (#[trigger] new[2 * hn - k]).re == old[2 * hn - k].re && new[2 * hn - k].im
            == old[2 * hn - k].im + share(mode, f, a, k)
}

pub open spec fn bins_within(w: Seq<Cx>, b: int) -> bool {
    forall|k: int| 0 <= k < w.len() ==> -b <= (#[trigger] w[k]).im <= b
}

proof fn lemma_multiple(j: int, f: int)
    requires
        f > 0,
        j >= 0,
    ensures
        (j * f) % f == 0,
        (j * f) / f == j,
{
    vstd::arithmetic::div_mod::lemma_fundamental_div_mod_converse(j * f, f, j, 0);
}

/// A bin that is a multiple of `f` is `f` times its quotient.
proof fn lemma_quotient(k: int, f: int)
    requires
        f > 0,
        k >= 0,
        k % f == 0,
    ensures
        k == (k / f) * f,
        k / f >= 0,
{
    vstd::arithmetic::div_mod::lemma_fundamental_div_mod(k, f);
    vstd::arithmetic::mul::lemma_mul_is_commutative(f, k / f);
    vstd::arithmetic::div_mod::lemma_div_pos_is_pos(k, f);
}

/// A harmonic's weight never exceeds the voice's amplitude.
proof fn lemma_coef_bound(mode: NoteMode, a: int, j: int)
    requires
        0 <= a,
        j >= 1,
    ensures
        -a <= coef(mode, a, j) <= a,
{
    vstd::arithmetic::div_mod::lemma_div_is_ordered_by_denominator(a, 1, j);
    vstd::arithmetic::div_mod::lemma_div_pos_is_pos(a, j);
    assert(j * j >= 1) by (nonlinear_arith)
        requires j >= 1;
    vstd::arithmetic::div_mod::lemma_div_is_ordered_by_denominator(a, 1, j * j);
    vstd::arithmetic::div_mod::lemma_div_pos_is_pos(a, j * j);
}

pub proof fn lemma_share_bound(mode: NoteMode, f: int, a: int, k: int)
    requires
        0 <= a,
        f > 0,
    ensures
        -a <= share(mode, f, a, k) <= a,
{
    if k % f == 0 && harmonic_ok(mode, k / f) {
        lemma_coef_bound(mode, a, k / f);
    }
}

impl NoteMode {
    /// Weight of harmonic `j` for amplitude `a`.
    fn weight(self, a: i64, j: usize) -> (r: i64)
        requires
            0 <= a <= ONE,
            1 <= j < 65536,
        ensures
            r == coef(self, a as int, j as int),
    {
        match self {
            NoteMode::Triangle => {
                assert(1 <= j * j < 0x1_0000_0000) by (nonlinear_arith)
                    requires 1 <= j < 65536;
                let q = ((a as u64) / ((j * j) as u64)) as i64;
                if (j / 2) % 2 == 0 {
                    q
                } else {
                    -q
                }
            },
            _ => ((a as u64) / (j as u64)) as i64,
        }
    }

    /// Adds voice `i` (fundamental at bin `i + 1`) of amplitude `v` to
    /// `window`, a spectrum of length `n` with Nyquist bin `hn`: each
    /// harmonic `j` of the mode below Nyquist has its weight taken from the
    /// imaginary part of bin `j * (i + 1)` and added to its mirror.
    pub fn calc(self, i: usize, n: usize, hn: usize, v: i64, window: &mut Vec<Cx>)
        requires
            old(window).len() == n,
            hn * 2 == n,
            n <= 65536,
            i + 1 < hn,
            0 <= v <= ONE,
            bins_within(old(window)@, BIN_LIM as int),
        ensures
            added(old(window)@, final(window)@, hn as int, self, (i + 1) as int, v as int),
    {
        let f = i + 1;
        let ghost w0 = window@;
        let mut j: usize = 1;
        while j * f < hn
            invariant
                1 <= j <= hn,
                (j - 1) * f < hn,
                j * f == (j - 1) * f + f,
                f == i + 1,
                f < hn,
                hn * 2 == n,
                n <= 65536,
                0 <= v <= ONE,
                window.len() == n,
                w0.len() == n,
                bins_within(w0, BIN_LIM as int),
                window@[0] == w0[0],
                window@[hn as int] == w0[hn as int],
                forall|k: int|
                    0 < k < hn ==> (#[trigger] window@[k]).re == w0[k].re && window@[k].im == w0[k].im
                        - (if k / (f as int) < j { share(self, f as int, v as int, k) } else { 0 }),
                forall|k: int|
                    0 < k < hn ==> (#[trigger] window@[n - k]).re == w0[n - k].re && window@[n - k].im
                        == w0[n - k].im + (if k / (f as int) < j { share(self, f as int, v as int, k) } else { 0 }),
            decreases hn + 1 - j,
        {
            let b = j * f;
            proof {
                assert((j + 1) * f == j * f + f) by (nonlinear_arith);
                assert(j + 1 <= hn) by (nonlinear_arith)
                    requires j * f < hn, f >= 1;
                lemma_multiple(j as int, f as int);
                assert(j * f > (j - 1) * f) by (nonlinear_arith)
                    requires f > 0, j >= 1;
            }
            let ghost before = window@;
            let ok = match self {
                NoteMode::Sine => j == 1,
                NoteMode::Saw => true,
                _ => j % 2 == 1,
            };
            if ok {
                assert(j < 65536) by (nonlinear_arith)
                    requires j * f < hn, f >= 1, hn <= 65536;
                let c = self.weight(v, j);
                proof {
                    lemma_coef_bound(self, v as int, j as int);
                }
                let lo = window[b];
                let hi = window[n - b];
                window.set(b, Cx { re: lo.re, im: lo.im - c });
                window.set(n - b, Cx { re: hi.re, im: hi.im + c });
            }
            proof {
                assert forall|k: int| 0 < k < hn implies (#[trigger] window@[k]).re == w0[k].re && window@[k].im == w0[k].im
                    - (if k / (f as int) < j + 1 { share(self, f as int, v as int, k) } else { 0 }) by {
                    lemma_step_bin(k, f as int, j as int);
                    if k != b {
                        assert(window@[k] == before[k]);
                    }
                }
                assert forall|k: int| 0 < k < hn implies (#[trigger] window@[n - k]).re == w0[n - k].re && window@[n - k].im
                    == w0[n - k].im + (if k / (f as int) < j + 1 { share(self, f as int, v as int, k) } else { 0 }) by {
                    lemma_step_bin(k, f as int, j as int);
                    if k != b {
                        assert(window@[n - k] == before[n - k]);
                    }
                }
            }
            j = j + 1;
        }
        proof {
            assert forall|k: int| 0 < k < hn implies (#[trigger] window@[k]).re == w0[k].re && window@[k].im == w0[k].im
                - share(self, f as int, v as int, k) by {
                lemma_past_end(k, f as int, j as int, hn as int);
            }
            assert forall|k: int| 0 < k < hn implies (#[trigger] window@[2 * hn - k]).re == w0[2 * hn - k].re
                && window@[2 * hn - k].im == w0[2 * hn - k].im + share(self, f as int, v as int, k) by {
                lemma_past_end(k, f as int, j as int, hn as int);
                assert(window@[n - k] == window@[2 * hn - k]);
            }
        }
    }
}

/// Moving the loop from harmonic `j` to `j + 1` adds bin `j * f` alone.
proof fn lemma_step_bin(k: int, f: int, j: int)
    requires
        f > 0,
        j >= 1,
        k > 0,
    ensures
        (k / f < j + 1) == (k / f < j || k / f == j),
        (k % f == 0 && k / f == j) <==> k == j * f,
{
    lemma_multiple(j, f);
    if k % f == 0 {
        lemma_quotient(k, f);
    }
}

/// Once `j * f` reaches `hn`, every bin below `hn` has a quotient below `j`.
proof fn lemma_past_end(k: int, f: int, j: int, hn: int)
    requires
        f > 0,
        j * f >= hn,
        0 < k < hn,
    ensures
        k / f < j,
{
    vstd::arithmetic::div_mod::lemma_fundamental_div_mod(k, f);
    let q = k / f;
    assert(q < j) by (nonlinear_arith)
        requires f * q <= k, k < hn, j * f >= hn, f > 0;
}

/// What the first `cnt` voices take away from bin `k` in total.
pub open spec fn bin_sum(amps: Seq<i64>, mode: NoteMode, k: int, cnt: int) -> int
    decreases cnt,
{
    if cnt <= 0 {
        0
    } else {
        bin_sum(amps, mode, k, cnt - 1) + share(mode, cnt, amps[cnt - 1] as int, k)
    }
}

/// Sum of the first `cnt` amplitudes.
pub open spec fn amp_sum(amps: Seq<i64>, cnt: int) -> int
    decreases cnt,
{
    if cnt <= 0 {
        0
    } else {
        amp_sum(amps, cnt - 1) + amps[cnt - 1]
    }
}

/// The soft limiter: when the amplitudes add up past full scale, every bin
/// is divided by their sum (rounded towards zero); otherwise it stays.
pub open spec fn limit(x: int, total: int) -> int {
    if total > ONE {
        if x >= 0 {
            x * ONE / total
        } else {
            -((-x) * ONE / total)
        }
    } else {
        x
    }
}

/// Conjugate symmetry about the Nyquist bin, with the zero-frequency and
/// Nyquist bins empty.
pub open spec fn hermitian(w: Seq<Cx>) -> bool {
    &&& w.len() >= 2
    &&& w.len() % 2 == 0
    &&& w[0] == (Cx { re: 0, im: 0 })
    &&& w[(w.len() / 2) as int] == (Cx { re: 0, im: 0 })
    &&& forall|k: int|
        0 < k < w.len() ==> (#[trigger] w[k]).re == w[w.len() - k].re && w[k].im == -w[w.len() - k].im
}

pub open spec fn amps_ok(amps: Seq<i64>) -> bool {
    forall|i: int| 0 <= i < amps.len() ==> 0 <= #[trigger] amps[i] <= ONE
}

/// The spectrum of a block: bin `k` below Nyquist holds the limited total of
/// every voice's weight there, negated, as its imaginary part; its mirror
/// holds the same total unnegated.
pub open spec fn spectrum_of(amps: Seq<i64>, mode: NoteMode, n: int) -> Seq<Cx> {
    let hn = n / 2;
    let total = amp_sum(amps, amps.len() as int);
    Seq::new(
        n as nat,
        |k: int|
            if 0 < k < hn {
                Cx { re: 0, im: -limit(bin_sum(amps, mode, k, amps.len() as int), total) as i64 }
            } else if hn < k < n {
                Cx { re: 0, im: limit(bin_sum(amps, mode, n - k, amps.len() as int), total) as i64 }
            } else {
                Cx { re: 0, im: 0 }
            },
    )
}

proof fn lemma_sums_bound(amps: Seq<i64>, mode: NoteMode, k: int, cnt: int)
    requires
        amps_ok(amps),
        0 <= cnt <= amps.len(),
    ensures
        0 <= amp_sum(amps, cnt) <= cnt * ONE,
        -amp_sum(amps, cnt) <= bin_sum(amps, mode, k, cnt) <= amp_sum(amps, cnt),
    decreases cnt,
{
    if cnt > 0 {
        lemma_sums_bound(amps, mode, k, cnt - 1);
        lemma_share_bound(mode, cnt, amps[cnt - 1] as int, k);
    }
}

proof fn lemma_limit_bound(x: int, total: int)
    requires
        total >= 0,
        -total <= x <= total || total <= ONE,
    ensures
        total > ONE ==> -ONE <= limit(x, total) <= ONE,
        total > ONE ==> (x >= 0 ==> limit(x, total) >= 0) && (x < 0 ==> limit(x, total) <= 0),
        limit(-x, total) == -limit(x, total),
{
    if total > ONE {
        let o = ONE as int;
        if x >= 0 {
            assert(0 <= x * o <= total * o) by (nonlinear_arith)
                requires 0 <= x <= total, o > 0;
            vstd::arithmetic::div_mod::lemma_div_is_ordered(x * o, total * o, total);
            vstd::arithmetic::div_mod::lemma_div_pos_is_pos(x * o, total);
            vstd::arithmetic::div_mod::lemma_div_multiples_vanish(o, total);
            assert(total * o == o * total) by (nonlinear_arith);
        } else {
            assert(0 <= (-x) * o <= total * o) by (nonlinear_arith)
                requires 0 <= -x <= total, o > 0;
            vstd::arithmetic::div_mod::lemma_div_is_ordered((-x) * o, total * o, total);
            vstd::arithmetic::div_mod::lemma_div_pos_is_pos((-x) * o, total);
            vstd::arithmetic::div_mod::lemma_div_multiples_vanish(o, total);
            assert(total * o == o * total) by (nonlinear_arith);
        }
        if x == 0 {
            assert(0 * o == 0);
        }
    }
}

/// A limited bin stays within full scale times the number of voices.
proof fn lemma_limited_bound(amps: Seq<i64>, mode: NoteMode, k: int)
    requires
        amps_ok(amps),
    ensures
        -(ONE * amps.len()) <= limit(bin_sum(amps, mode, k, amps.len() as int), amp_sum(amps, amps.len() as int))
            <= ONE * amps.len(),
{
    let c = amps.len() as int;
    let t = amp_sum(amps, c);
    let x = bin_sum(amps, mode, k, c);
    lemma_sums_bound(amps, mode, k, c);
    lemma_limit_bound(x, t);
    assert(t <= 65536 * c) by (nonlinear_arith)
        requires t <= c * 65536;
    if t > 65536 {
        assert(65536 <= 65536 * c) by (nonlinear_arith)
            requires t <= 65536 * c, t > 65536;
    }
}

/// Builds the spectrum of one block: every voice `i` of amplitude `amps[i]`
/// adds its harmonics (fundamental at bin `i + 1`), then the soft limiter
/// divides every bin by the sum of the amplitudes when that sum passes
/// full scale. The result is conjugate-symmetric with bins 0 and `n / 2`
/// empty, and purely imaginary.
pub fn build_spectrum(amps: &Vec<i64>, mode: NoteMode, n: usize) -> (w: Vec<Cx>)
    requires
        n % 2 == 0,
        n <= 65536,
        amps.len() + 2 <= n / 2,
        amps_ok(amps@),
    ensures
        w@ == spectrum_of(amps@, mode, n as int),
        hermitian(w@),
        forall|k: int| 0 <= k < n ==> (#[trigger] w@[k]).re == 0,
        forall|k: int| 0 <= k < n ==> -(ONE * (amps.len() as int)) <= (#[trigger] w@[k]).im <= ONE * (amps.len() as int),
{
    let hn = n / 2;
    let cnt = amps.len();
    let mut w: Vec<Cx> = Vec::new();
    let mut k: usize = 0;
    while k < n
        invariant
            k <= n,
            w.len() == k,
            forall|q: int| 0 <= q < k ==> #[trigger] w@[q] == (Cx { re: 0, im: 0 }),
        decreases n - k,
    {
        w.push(Cx { re: 0, im: 0 });
        k = k + 1;
    }
    let mut i: usize = 0;
    let mut total: i64 = 0;
    while i < cnt
        invariant
            i <= cnt,
            cnt == amps.len(),
            cnt + 2 <= hn,
            hn * 2 == n,
            n <= 65536,
            amps_ok(amps@),
            w.len() == n,
            total == amp_sum(amps@, i as int),
            w@[0] == (Cx { re: 0, im: 0 }),
            w@[hn as int] == (Cx { re: 0, im: 0 }),
            forall|q: int| 0 < q < hn ==> (#[trigger] w@[q]).re == 0 && w@[q].im == -bin_sum(amps@, mode, q, i as int),
            forall|q: int| 0 < q < hn ==> (#[trigger] w@[n - q]).re == 0 && w@[n - q].im == bin_sum(amps@, mode, q, i as int),
        decreases cnt - i,
    {
        proof {
            lemma_sums_bound(amps@, mode, 0, i as int);
            assert forall|q: int| 0 <= q < n implies -BIN_LIM <= (#[trigger] w@[q]).im <= BIN_LIM by {
                if 0 < q < hn {
                    lemma_sums_bound(amps@, mode, q, i as int);
                } else if hn < q < n {
                    lemma_sums_bound(amps@, mode, n - q, i as int);
                    assert(w@[q] == w@[n - (n - q)]);
                }
            }
        }
        let ghost before = w@;
        let a = amps[i];
        mode.calc(i, n, hn, a, &mut w);
        total = total + a;
        proof {
            assert forall|q: int| 0 < q < hn implies (#[trigger] w@[q]).re == 0 && w@[q].im == -bin_sum(amps@, mode, q, (i + 1) as int) by {
            }
            assert forall|q: int| 0 < q < hn implies (#[trigger] w@[n - q]).re == 0 && w@[n - q].im == bin_sum(amps@, mode, q, (i + 1) as int) by {
                assert(w@[n - q] == w@[2 * hn - q]);
            }
        }
        i = i + 1;
    }
    proof {
        lemma_sums_bound(amps@, mode, 0, cnt as int);
    }
    let ghost built = w@;
    proof {
        let total_s = amp_sum(amps@, cnt as int);
        assert forall|q: int| 0 <= q < n implies -total_s <= (#[trigger] built[q]).im <= total_s && built[q].re == 0 by {
            if 0 < q < hn {
                lemma_sums_bound(amps@, mode, q, cnt as int);
            } else if hn < q < n {
                lemma_sums_bound(amps@, mode, n - q, cnt as int);
                assert(built[q] == built[n - (n - q)]);
            }
        }
        assert(total_s * 1 <= (cnt as int) * ONE);
    }
    if total > ONE {
        let mut k: usize = 0;
        while k < n
            invariant
                k <= n,
                w.len() == n,
                built.len() == n,
                total > ONE,
                0 <= total <= ONE * cnt,
                cnt <= 32768,
                forall|q: int| 0 <= q < n ==> -total <= (#[trigger] built[q]).im <= total,
                forall|q: int| 0 <= q < n ==> (#[trigger] built[q]).re == 0,
                forall|q: int| 0 <= q < k ==> (#[trigger] w@[q]) == (Cx { re: 0, im: limit(built[q].im as int, total as int) as i64 }),
                forall|q: int| k <= q < n ==> (#[trigger] w@[q]) == built[q],
            decreases n - k,
        {
            let x = w[k].im;
            proof {
                lemma_limit_bound(x as int, total as int);
            }
            let y: i64 = if x >= 0 {
                ((x as u64) * (ONE as u64) / (total as u64)) as i64
            } else {
                -((((-x) as u64) * (ONE as u64) / (total as u64)) as i64)
            };
            w.set(k, Cx { re: 0, im: y });
            k = k + 1;
        }
    }
    proof {
        let total_s = amp_sum(amps@, cnt as int);
        assert forall|q: int| 0 < q < hn implies built[q].im == -bin_sum(amps@, mode, q, cnt as int)
            && built[n - q].im == bin_sum(amps@, mode, q, cnt as int) by {}
        let spec_w = spectrum_of(amps@, mode, n as int);
        assert forall|q: int| 0 <= q < n implies #[trigger] w@[q] == spec_w[q] by {
            if 0 < q < hn {
                lemma_sums_bound(amps@, mode, q, cnt as int);
                lemma_limit_bound(bin_sum(amps@, mode, q, cnt as int), total_s);
            } else if hn < q < n {
                lemma_sums_bound(amps@, mode, n - q, cnt as int);
                lemma_limit_bound(bin_sum(amps@, mode, n - q, cnt as int), total_s);
                assert(built[q] == built[n - (n - q)]);
            } else {
                lemma_limit_bound(0, total_s);
            }
        }
        assert(w@ =~= spec_w);
        assert forall|q: int| 0 < q < n implies (#[trigger] w@[q]).re == w@[n - q].re && w@[q].im == -w@[n - q].im by {
            if 0 < q < hn {
                lemma_sums_bound(amps@, mode, q, cnt as int);
                lemma_limit_bound(bin_sum(amps@, mode, q, cnt as int), total_s);
            } else if hn < q < n {
                lemma_sums_bound(amps@, mode, n - q, cnt as int);
                lemma_limit_bound(bin_sum(amps@, mode, n - q, cnt as int), total_s);
                assert(n - (n - q) == q);
            }
        }
        assert forall|q: int| 0 <= q < n implies -(ONE * (cnt as int)) <= (#[trigger] w@[q]).im <= ONE * (cnt as int) by {
            assert(w@[q] == spec_w[q]);
            if 0 < q < hn {
                lemma_limited_bound(amps@, mode, q);
                assert(w@[q].im == -limit(bin_sum(amps@, mode, q, cnt as int), total_s));

            } else if hn < q < n {
                lemma_limited_bound(amps@, mode, n - q);
                assert(w@[q].im == limit(bin_sum(amps@, mode, n - q, cnt as int), total_s));
            } else {
                assert(ONE * (cnt as int) >= 0) by (nonlinear_arith)
                    requires cnt >= 0;
                assert(w@[q].im == 0);
            }

        }
    }
    w
}

/// When the voices' amplitudes add up past full scale, the soft limiter
/// keeps every bin of the spectrum within full scale.
pub proof fn lemma_soft_limit(amps: Seq<i64>, mode: NoteMode, n: int)
    requires
        amps_ok(amps),
        n % 2 == 0,
        amps.len() + 2 <= n / 2,
        amp_sum(amps, amps.len() as int) > ONE,
    ensures
        forall|k: int| 0 <= k < n ==> -ONE <= (#[trigger] spectrum_of(amps, mode, n)[k]).im <= ONE,
{
    let t = amp_sum(amps, amps.len() as int);
    let w = spectrum_of(amps, mode, n);
    assert forall|k: int| 0 <= k < n implies -ONE <= (#[trigger] spectrum_of(amps, mode, n)[k]).im <= ONE by {
        if 0 < k < n / 2 {
            lemma_sums_bound(amps, mode, k, amps.len() as int);
            lemma_limit_bound(bin_sum(amps, mode, k, amps.len() as int), t);
        } else if n / 2 < k < n {
            lemma_sums_bound(amps, mode, n - k, amps.len() as int);
            lemma_limit_bound(bin_sum(amps, mode, n - k, amps.len() as int), t);
        }
    }
}

/// Adding one voice keeps a spectrum conjugate-symmetric with empty
/// zero-frequency and Nyquist bins, so any sequence of `calc` calls on such
/// a window, in any order, keeps it so.
pub proof fn lemma_calc_keeps_symmetry(old: Seq<Cx>, new: Seq<Cx>, hn: int, mode: NoteMode, f: int, a: int)
    requires
        hn >= 1,
        old.len() == 2 * hn,
        hermitian(old),
        added(old, new, hn, mode, f, a),
    ensures
        hermitian(new),
{
    let n = 2 * hn;
    assert(new.len() == n);
    assert forall|k: int| 0 < k < n implies (#[trigger] new[k]).re == new[new.len() - k].re
        && new[k].im == -new[new.len() - k].im by {
        if k < hn {
            assert(new[2 * hn - k] == new[n - k]);
            assert(old[k].im == -old[n - k].im);
        } else if k > hn {
            let q = n - k;
            assert(0 < q < hn);
            assert(new[2 * hn - q] == new[k]);
            assert(old[q].im == -old[n - q].im);
            assert(old[n - q] == old[k]);
        }
    }
}

} // verus!
