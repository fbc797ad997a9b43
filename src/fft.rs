//! Radix-2 decimation-in-time transform on fixed-point complex buffers, with
//! two buffers ping-ponged as each other's scratch space.
use vstd::prelude::*;

use crate::lerp::floor_div_exec;

verus! {

/// The fixed-point unit of a twiddle factor: a root of unity has components
/// within `TW_ONE`.
pub const TW_ONE: i64 = 1073741824;

/// Largest buffer length the transform takes.
pub const MAX_LEN: usize = 65536;

/// Bound on the magnitude of each component of a transform's input.
pub const VAL_LIM: i64 = 4294967296;

/// Bound on the magnitude of every component met while transforming.
pub const MAXV: i64 = 4611686018427387904;

/// A complex number with integer components.
#[derive(Debug, Clone, Copy, PartialEq, Eq, Structural)]
pub struct Cx {
    pub re: i64,
    pub im: i64,
}

pub open spec fn cx(c: Cx) -> (int, int) {
    (c.re as int, c.im as int)
}

pub open spec fn cxs(v: Seq<Cx>) -> Seq<(int, int)> {
    Seq::new(v.len(), |k: int| cx(v[k]))
}

pub open spec fn is_pow2(n: nat) -> bool
    decreases n,
{
    if n <= 1 {
        n == 1
    } else {
        n % 2 == 0 && is_pow2(n / 2)
    }
}

/// Each level of the transform at most triples the largest component.
pub open spec fn growth(n: nat) -> nat
    decreases n,
{
    if n <= 1 {
        1
    } else {
        3 * growth(n / 2)
    }
}

pub open spec fn bounded(z: (int, int), m: int) -> bool {
    -m <= z.0 <= m && -m <= z.1 <= m
}

pub open spec fn all_bounded(x: Seq<(int, int)>, m: int) -> bool {
    forall|k: int| 0 <= k < x.len() ==> #[trigger] bounded(x[k], m)
}

/// A twiddle table usable by a length-`n` transform: `n / 2` entries, each
/// component within `TW_ONE`. Only that much is required; the transform is
/// a discrete Fourier transform when entry `j` holds `exp(-2 pi i j / n)`
/// in units of `TW_ONE`, which the caller supplies.
pub open spec fn twiddles_ok(tw: Seq<Cx>, n: nat) -> bool {
    &&& tw.len() * 2 == n
    &&& forall|j: int| 0 <= j < tw.len() ==> #[trigger] bounded(cx(tw[j]), TW_ONE as int)
}

pub open spec fn evens(x: Seq<(int, int)>) -> Seq<(int, int)> {
    Seq::new(x.len() / 2, |k: int| x[2 * k])
}

pub open spec fn odds(x: Seq<(int, int)>) -> Seq<(int, int)> {
    Seq::new(x.len() / 2, |k: int| x[2 * k + 1])
}

/// The twiddle as used: conjugated for the inverse direction.
pub open spec fn twiddle(w: Cx, inv: bool) -> (int, int) {
    if inv {
        (w.re as int, -(w.im as int))
    } else {
        (w.re as int, w.im as int)
    }
}

/// Fixed-point product of a twiddle and a value, rounded down.
pub open spec fn rot(w: (int, int), z: (int, int)) -> (int, int) {
    ((w.0 * z.0 - w.1 * z.1) / (TW_ONE as int), (w.0 * z.1 + w.1 * z.0) / (TW_ONE as int))
}

pub open spec fn cadd(a: (int, int), b: (int, int)) -> (int, int) {
    (a.0 + b.0, a.1 + b.1)
}

pub open spec fn csub(a: (int, int), b: (int, int)) -> (int, int) {
    (a.0 - b.0, a.1 - b.1)
}

/// The radix-2 transform of `x` (no scaling): the transforms of the even and
/// odd halves, joined by butterflies with the table's twiddles at the
/// stride that matches `x`'s length.
pub open spec fn radix2(x: Seq<(int, int)>, tw: Seq<Cx>, inv: bool) -> Seq<(int, int)>
    decreases x.len(),
{
    if x.len() <= 1 {
        x
    } else {
        let h = x.len() / 2;
        let s = tw.len() / h;
        let e = radix2(evens(x), tw, inv);
        let o = radix2(odds(x), tw, inv);
        Seq::new(
            x.len(),
            |k: int|
                if k < h {
                    cadd(e[k], rot(twiddle(tw[k * s], inv), o[k]))
                } else {
                    csub(e[k - h], rot(twiddle(tw[(k - h) * s], inv), o[k - h]))
                },
        )
    }
}

/// The elements at `off`, `off + step`, ... of `v`, `len` of them.
pub open spec fn strided(v: Seq<Cx>, off: int, step: int, len: int) -> Seq<(int, int)> {
    Seq::new(len as nat, |k: int| cx(v[off + k * step]))
}

/// Every element of `x`, rounded down after division by `n`.
pub open spec fn scaled(x: Seq<(int, int)>, n: int) -> Seq<(int, int)> {
    Seq::new(x.len(), |k: int| (x[k].0 / n, x[k].1 / n))
}

proof fn lemma_pos(off: int, k: int, step: int)
    requires
        0 <= off < step,
        0 <= k,
    ensures
        (off + k * step) % step == off,
        (off + k * step) / step == k,
{
    vstd::arithmetic::div_mod::lemma_fundamental_div_mod_converse(off + k * step, step, k, off);
}

proof fn lemma_pos_lt(off: int, k: int, step: int, len: int)
    requires
        0 <= off < step,
        0 <= k < len,
    ensures
        off + k * step < len * step,
        0 <= off + k * step,
{
    assert(off + k * step < len * step) by (nonlinear_arith)
        requires 0 <= off < step, 0 <= k < len;
    assert(0 <= k * step) by (nonlinear_arith)
        requires 0 <= k, 0 <= step;
}

proof fn lemma_mod_double(p: int, step: int)
    requires
        0 <= p,
        0 < step,
    ensures
        (p % (2 * step)) % step == p % step,
{
    vstd::arithmetic::div_mod::lemma_mod_mod(p, step, 2);
    vstd::arithmetic::mul::lemma_mul_is_commutative(2, step);
}

/// Fixed-point product of twiddle `w` (conjugated when `inv`) and `z`.
fn rot_exec(w: Cx, inv: bool, z: Cx, Ghost(m): Ghost<int>) -> (r: Cx)
    requires
        bounded(cx(w), TW_ONE as int),
        bounded(cx(z), m),
        0 <= m,
        2 * m <= MAXV,
    ensures
        cx(r) == rot(twiddle(w, inv), cx(z)),
        bounded(cx(r), 2 * m),
{
    let wim: i64 = if inv { -w.im } else { w.im };
    let wr = w.re as i128;
    let wi = wim as i128;
    let zr = z.re as i128;
    let zi = z.im as i128;
    proof {
        let t = TW_ONE as int;
        assert(-t * m <= wr * zr <= t * m) by (nonlinear_arith)
            requires -t <= wr <= t, -m <= zr <= m;
        assert(-t * m <= wi * zi <= t * m) by (nonlinear_arith)
            requires -t <= wi <= t, -m <= zi <= m;
        assert(-t * m <= wr * zi <= t * m) by (nonlinear_arith)
            requires -t <= wr <= t, -m <= zi <= m;
        assert(-t * m <= wi * zr <= t * m) by (nonlinear_arith)
            requires -t <= wi <= t, -m <= zr <= m;
    }
    let nr: i128 = wr * zr - wi * zi;
    let ni: i128 = wr * zi + wi * zr;
    let qr = floor_div_exec(nr, TW_ONE as i128);
    let qi = floor_div_exec(ni, TW_ONE as i128);
    proof {
        lemma_div_bound(nr as int, 2 * m);
        lemma_div_bound(ni as int, 2 * m);
    }
    Cx { re: qr as i64, im: qi as i64 }
}

/// `|x| <= TW_ONE * m` keeps `floor(x / TW_ONE)` within `m`.
proof fn lemma_div_bound(x: int, m: int)
    requires
        0 <= m,
        -(TW_ONE as int) * m <= x <= (TW_ONE as int) * m,
    ensures
        -m <= x / (TW_ONE as int) <= m,
{
    let t = TW_ONE as int;
    vstd::arithmetic::div_mod::lemma_fundamental_div_mod(x, t);
    let q = x / t;
    assert(-m <= q <= m) by (nonlinear_arith)
        requires
            t * q <= x < t * q + t,
            -t * m <= x <= t * m,
            t > 0;
}

/// One butterfly's two results written at places `mi` and `mi + h` of the
/// strided view extend the prefix of finished places by one.
proof fn lemma_combine_step(
    a0: Seq<Cx>,
    a1: Seq<Cx>,
    off: int,
    step: int,
    h: int,
    mi: int,
    lo: Cx,
    hi: Cx,
    r: Seq<(int, int)>,
    bnd: int,
)
    requires
        0 <= off < step,
        0 <= mi < h,
        a0.len() == 2 * h * step,
        a1 == a0.update(off + mi * step, lo).update(off + (mi + h) * step, hi),
        cx(lo) == r[mi],
        cx(hi) == r[mi + h],
        bounded(r[mi], bnd),
        bounded(r[mi + h], bnd),
        forall|k: int| 0 <= k < mi ==> cx(#[trigger] a0[off + k * step]) == r[k] && bounded(r[k], bnd),
        forall|k: int|
            0 <= k < mi ==> cx(#[trigger] a0[off + (k + h) * step]) == r[k + h] && bounded(r[k + h], bnd),
    ensures
        forall|k: int| 0 <= k < mi + 1 ==> cx(#[trigger] a1[off + k * step]) == r[k] && bounded(r[k], bnd),
        forall|k: int|
            0 <= k < mi + 1 ==> cx(#[trigger] a1[off + (k + h) * step]) == r[k + h] && bounded(r[k + h], bnd),
{
    lemma_pos_lt(off, mi, step, 2 * h);
    lemma_pos_lt(off, mi + h, step, 2 * h);
    assert forall|k: int| 0 <= k < mi + 1 implies cx(#[trigger] a1[off + k * step]) == r[k] && bounded(r[k], bnd) by {
        lemma_pos_lt(off, k, step, 2 * h);
        if k < mi {
            assert(off + k * step != off + mi * step) by (nonlinear_arith)
                requires k < mi, step > 0;
            assert(off + k * step != off + (mi + h) * step) by (nonlinear_arith)
                requires k < mi + h, step > 0;
            assert(a1[off + k * step] == a0[off + k * step]);
        } else {
            assert(off + k * step != off + (mi + h) * step) by (nonlinear_arith)
                requires k == mi, h > 0, step > 0;
        }
    }
    assert forall|k: int| 0 <= k < mi + 1 implies cx(#[trigger] a1[off + (k + h) * step]) == r[k + h] && bounded(r[k + h], bnd) by {
        lemma_pos_lt(off, k + h, step, 2 * h);
        if k < mi {
            assert(off + (k + h) * step != off + mi * step) by (nonlinear_arith)
                requires k + h > mi, step > 0;
            assert(off + (k + h) * step != off + (mi + h) * step) by (nonlinear_arith)
                requires k < mi, step > 0;
            assert(a1[off + (k + h) * step] == a0[off + (k + h) * step]);
        }
    }
}

/// `radix2` never leaves its input length.
proof fn lemma_radix2_len(x: Seq<(int, int)>, tw: Seq<Cx>, inv: bool)
    ensures
        radix2(x, tw, inv).len() == x.len(),
{
}

/// Transforms the `len` elements of `b` at `off`, `off + step`, ... into the
/// same places of `a`. Both buffers hold that input there on entry; `b`'s
/// places are used as scratch, and every other place of either buffer is
/// left as it was.
fn fft_inner(
    a: &mut Vec<Cx>,
    b: &mut Vec<Cx>,
    tw: &Vec<Cx>,
    len: usize,
    step: usize,
    off: usize,
    inv: bool,
    Ghost(m): Ghost<int>,
)
    requires
        old(a).len() == len * step,
        old(b).len() == len * step,
        twiddles_ok(tw@, (len * step) as nat),
        is_pow2(len as nat),
        off < step,
        len * step <= MAX_LEN,
        strided(old(a)@, off as int, step as int, len as int)
            == strided(old(b)@, off as int, step as int, len as int),
        all_bounded(strided(old(b)@, off as int, step as int, len as int), m),
        0 <= m,
        growth(len as nat) * m <= MAXV,
    ensures
        final(a).len() == len * step,
        final(b).len() == len * step,
        strided(final(a)@, off as int, step as int, len as int) == radix2(
            strided(old(b)@, off as int, step as int, len as int),
            tw@,
            inv,
        ),
        all_bounded(
            strided(final(a)@, off as int, step as int, len as int),
            growth(len as nat) * m,
        ),
        forall|p: int|
            0 <= p < len * step && p % (step as int) != off ==> final(a)@[p] == old(a)@[p]
                && final(b)@[p] == old(b)@[p],
    decreases len,
{
    let ghost n = (len * step) as int;
    let ghost x = strided(b@, off as int, step as int, len as int);
    if len <= 1 {
        assert(strided(a@, off as int, step as int, len as int) =~= x);
        assert(growth(len as nat) == 1);
        assert(growth(len as nat) * m == m) by (nonlinear_arith)
            requires growth(len as nat) == 1;
        return;
    }
    let h = len / 2;
    proof {
        assert(step * 2 <= MAX_LEN) by (nonlinear_arith)
            requires len >= 2, len * step <= MAX_LEN;
    }
    let step2 = step * 2;
    let ghost a0 = a@;
    let ghost b0 = b@;
    proof {
        assert(h * step2 == len * step) by (nonlinear_arith)
            requires h == len / 2, len % 2 == 0, step2 == step * 2;
        assert(growth(h as nat) * m <= MAXV) by (nonlinear_arith)
            requires growth(len as nat) == 3 * growth(h as nat), growth(len as nat) * m <= MAXV, m >= 0;
        // the even half of x sits at stride 2 * step from off
        assert forall|k: int| 0 <= k < h implies
            #[trigger] strided(b@, off as int, step2 as int, h as int)[k] == x[2 * k] by {
            assert(off + k * step2 == off + (2 * k) * step) by (nonlinear_arith)
                requires step2 == step * 2;
        }
        assert forall|k: int| 0 <= k < h implies
            #[trigger] strided(b@, (off + step) as int, step2 as int, h as int)[k] == x[2 * k + 1] by {
            assert(off + step + k * step2 == off + (2 * k + 1) * step) by (nonlinear_arith)
                requires step2 == step * 2;
        }
        assert forall|k: int| 0 <= k < h implies
            #[trigger] strided(a@, off as int, step2 as int, h as int)[k] == strided(b@, off as int, step2 as int, h as int)[k] by {
            assert(off + k * step2 == off + (2 * k) * step) by (nonlinear_arith)
                requires step2 == step * 2;
            assert(strided(a@, off as int, step as int, len as int)[2 * k] == strided(b@, off as int, step as int, len as int)[2 * k]);
        }
        assert forall|k: int| 0 <= k < h implies
            #[trigger] strided(a@, (off + step) as int, step2 as int, h as int)[k] == strided(b@, (off + step) as int, step2 as int, h as int)[k] by {
            assert(off + step + k * step2 == off + (2 * k + 1) * step) by (nonlinear_arith)
                requires step2 == step * 2;
            assert(strided(a@, off as int, step as int, len as int)[2 * k + 1] == strided(b@, off as int, step as int, len as int)[2 * k + 1]);
        }
        assert(strided(b@, off as int, step2 as int, h as int) =~= evens(x));
        assert(strided(b@, (off + step) as int, step2 as int, h as int) =~= odds(x));
        assert(strided(a@, off as int, step2 as int, h as int) =~= strided(b@, off as int, step2 as int, h as int));
        assert(strided(a@, (off + step) as int, step2 as int, h as int) =~= strided(b@, (off + step) as int, step2 as int, h as int));
        assert forall|k: int| 0 <= k < h implies #[trigger] bounded(evens(x)[k], m) && bounded(odds(x)[k], m) by {
            assert(bounded(x[2 * k], m));
            assert(bounded(x[2 * k + 1], m));
        }
    }
    fft_inner(b, a, tw, h, step2, off, inv, Ghost(m));
    let ghost b1 = b@;
    proof {
        // the odd places were not touched by the first half
        assert forall|k: int| 0 <= k < h implies
            #[trigger] strided(b@, (off + step) as int, step2 as int, h as int)[k] == strided(b0, (off + step) as int, step2 as int, h as int)[k]
            && strided(a@, (off + step) as int, step2 as int, h as int)[k] == strided(a0, (off + step) as int, step2 as int, h as int)[k] by {
            lemma_pos((off + step) as int, k, step2 as int);
            lemma_pos_lt((off + step) as int, k, step2 as int, h as int);
        }
        assert(strided(b@, (off + step) as int, step2 as int, h as int) =~= strided(b0, (off + step) as int, step2 as int, h as int));
        assert(strided(a@, (off + step) as int, step2 as int, h as int) =~= strided(a0, (off + step) as int, step2 as int, h as int));
        assert(strided(b@, (off + step) as int, step2 as int, h as int) == odds(x));
        assert(strided(a@, (off + step) as int, step2 as int, h as int) == strided(b@, (off + step) as int, step2 as int, h as int));
        assert forall|k: int| 0 <= k < h implies #[trigger] bounded(odds(x)[k], m) by {
            assert(bounded(x[2 * k + 1], m));
        }
    }
    fft_inner(b, a, tw, h, step2, off + step, inv, Ghost(m));
    let ghost e = radix2(evens(x), tw@, inv);
    let ghost o = radix2(odds(x), tw@, inv);
    let ghost sub = growth(h as nat) * m;
    proof {
        lemma_radix2_len(evens(x), tw@, inv);
        lemma_radix2_len(odds(x), tw@, inv);
        // the even results survive the second half
        assert forall|k: int| 0 <= k < h implies
            #[trigger] strided(b@, off as int, step2 as int, h as int)[k] == strided(b1, off as int, step2 as int, h as int)[k] by {
            lemma_pos(off as int, k, step2 as int);
            lemma_pos_lt(off as int, k, step2 as int, h as int);
        }
        assert(strided(b@, off as int, step2 as int, h as int) =~= strided(b1, off as int, step2 as int, h as int));
        assert(sub >= 0) by (nonlinear_arith) requires m >= 0, sub == growth(h as nat) * m;
        assert(3 * sub == growth(len as nat) * m) by (nonlinear_arith)
            requires sub == growth(h as nat) * m, growth(len as nat) == 3 * growth(h as nat);
    }
    let ghost a_mid = a@;
    let ghost b_mid = b@;
    let ghost r = radix2(x, tw@, inv);
    let mut mi: usize = 0;
    while mi < h
        invariant
            0 <= mi <= h,
            h * 2 == len,
            step2 == step * 2,
            h * step2 == len * step,
            n == len * step,
            a@.len() == n,
            b@ == b_mid,
            b_mid.len() == n,
            x.len() == len,
            len >= 2,
            twiddles_ok(tw@, n as nat),
            off < step,
            n <= MAX_LEN,
            e == radix2(evens(x), tw@, inv),
            o == radix2(odds(x), tw@, inv),
            r == radix2(x, tw@, inv),
            strided(b_mid, off as int, step2 as int, h as int) == e,
            strided(b_mid, (off + step) as int, step2 as int, h as int) == o,
            all_bounded(strided(b_mid, off as int, step2 as int, h as int), sub),
            all_bounded(strided(b_mid, (off + step) as int, step2 as int, h as int), sub),
            0 <= sub,
            3 * sub == growth(len as nat) * m,
            growth(len as nat) * m <= MAXV,
            forall|p: int| 0 <= p < n && p % (step as int) != off ==> a@[p] == a_mid[p],
            forall|k: int|
                0 <= k < mi ==> cx(#[trigger] a@[off + k * step]) == r[k] && bounded(r[k], 3 * sub),
            forall|k: int|
                0 <= k < mi ==> cx(#[trigger] a@[off + (k + h) * step]) == r[k + h] && bounded(r[k + h], 3 * sub),
        decreases h - mi,
    {
        proof {
            lemma_pos_lt(off as int, 2 * mi as int, step as int, len as int);
            lemma_pos_lt(off as int, (2 * mi + 1) as int, step as int, len as int);
            lemma_pos_lt(off as int, mi as int, step as int, len as int);
            lemma_pos_lt(off as int, (mi + h) as int, step as int, len as int);
            assert(off + mi * step2 == off + (2 * mi) * step) by (nonlinear_arith)
                requires step2 == step * 2;
            assert(off + step + mi * step2 == off + (2 * mi + 1) * step) by (nonlinear_arith)
                requires step2 == step * 2;
            assert(mi * step < h * step) by (nonlinear_arith)
                requires mi < h, step > 0;
            assert(h * step == n / 2) by (nonlinear_arith)
                requires h * step2 == n, step2 == step * 2;
            assert(tw@.len() / (h as nat) == step) by (nonlinear_arith)
                requires tw@.len() * 2 == n, h * step2 == n, step2 == step * 2, h > 0;
        }
        let i = off + 2 * mi * step;
        let j = i + step;
        let ev = b[i];
        let od = b[j];
        let w = tw[mi * step];
        proof {
            assert(cx(ev) == e[mi as int]);
            assert(cx(od) == o[mi as int]);
            assert(bounded(cx(ev), sub));
            assert(bounded(cx(od), sub));
            assert(bounded(cx(w), TW_ONE as int));
        }
        let t = rot_exec(w, inv, od, Ghost(sub));
        let lo = Cx { re: ev.re + t.re, im: ev.im + t.im };
        let hi = Cx { re: ev.re - t.re, im: ev.im - t.im };
        let ghost a_before = a@;
        let pl = off + mi * step;
        let ph = off + (mi + h) * step;
        a.set(pl, lo);
        a.set(ph, hi);
        proof {
            assert(bounded(cx(lo), 3 * sub));
            assert(bounded(cx(hi), 3 * sub));
            assert(cx(lo) == r[mi as int]);
            assert(cx(hi) == r[(mi + h) as int]);
            lemma_pos(off as int, mi as int, step as int);
            lemma_pos(off as int, (mi + h) as int, step as int);
            assert(pl != ph) by (nonlinear_arith)
                requires pl == off + mi * step, ph == off + (mi + h) * step, h > 0, step > 0;
            assert(a@ == a_before.update(pl as int, lo).update(ph as int, hi));
            assert(a@[pl as int] == lo);
            assert(a@[ph as int] == hi);
            lemma_combine_step(a_before, a@, off as int, step as int, h as int, mi as int, lo, hi, r, 3 * sub);
            assert forall|p: int| 0 <= p < n && p % (step as int) != off implies a@[p] == a_mid[p] by {
                assert(p != pl);
                assert(p != ph);
            }
        }
        mi = mi + 1;
    }
    proof {
        assert forall|k: int| 0 <= k < len implies
            #[trigger] strided(a@, off as int, step as int, len as int)[k] == r[k]
            && bounded(r[k], growth(len as nat) * m) by {
            if k >= h {
                let k2 = k - h;
                assert(cx(a@[off + (k2 + h) * step]) == r[k2 + h]);
                assert(k2 + h == k);
            } else {
                assert(cx(a@[off + k * step]) == r[k]);
            }
        }
        assert(strided(a@, off as int, step as int, len as int) =~= r);
        assert forall|p: int| 0 <= p < n && p % (step as int) != off implies a@[p] == a0[p]
            && b@[p] == b0[p] by {
            lemma_mod_double(p, step as int);
            lemma_pos(off as int, 0, step as int);
            lemma_pos(off as int, 1, step as int);
            assert(p % (step2 as int) != off);
            assert(p % (step2 as int) != off + step);
        }
    }
}

pub open spec fn two_to(k: nat) -> nat
    decreases k,
{
    if k == 0 {
        1
    } else {
        2 * two_to((k - 1) as nat)
    }
}

pub open spec fn three_to(k: nat) -> nat
    decreases k,
{
    if k == 0 {
        1
    } else {
        3 * three_to((k - 1) as nat)
    }
}

proof fn lemma_growth(n: nat, k: nat)
    requires
        is_pow2(n),
        n <= two_to(k),
    ensures
        growth(n) <= three_to(k),
    decreases k,
{
    if n <= 1 {
        lemma_three_to_pos(k);
    } else {
        if k == 0 {
            assert(two_to(0) == 1);
        } else {
            lemma_growth(n / 2, (k - 1) as nat);
        }
    }
}

proof fn lemma_three_to_pos(k: nat)
    ensures
        three_to(k) >= 1,
    decreases k,
{
    if k > 0 {
        lemma_three_to_pos((k - 1) as nat);
    }
}

/// Every buffer length the transform takes keeps each intermediate value
/// within `MAXV`.
proof fn lemma_growth_fits(n: nat)
    requires
        is_pow2(n),
        n <= MAX_LEN,
    ensures
        growth(n) * VAL_LIM <= MAXV,
{
    reveal_with_fuel(two_to, 17);
    reveal_with_fuel(three_to, 17);
    assert(two_to(16) == 65536);
    assert(three_to(16) == 43046721);
    lemma_growth(n, 16);
    assert(growth(n) * VAL_LIM <= MAXV) by (nonlinear_arith)
        requires growth(n) <= 43046721;
}

/// Division by a positive number moves a value towards zero, never past it.
proof fn lemma_div_shrinks(x: int, n: int)
    requires
        n >= 1,
    ensures
        x >= 0 ==> 0 <= x / n <= x,
        x < 0 ==> x <= x / n <= 0,
{
    vstd::arithmetic::div_mod::lemma_fundamental_div_mod(x, n);
    let q = x / n;
    assert(x >= 0 ==> 0 <= q <= x) by (nonlinear_arith)
        requires n * q <= x < n * q + n, n >= 1;
    assert(x < 0 ==> x <= q <= 0) by (nonlinear_arith)
        requires n * q <= x < n * q + n, n >= 1;
}

/// Copies `src` over `dst`, which has the same length.
fn copy_into(src: &Vec<Cx>, dst: &mut Vec<Cx>)
    requires
        old(dst).len() == src.len(),
    ensures
        final(dst)@ == src@,
{
    let mut i: usize = 0;
    while i < src.len()
        invariant
            0 <= i <= src.len(),
            dst.len() == src.len(),
            forall|k: int| 0 <= k < i ==> dst@[k] == src@[k],
        decreases src.len() - i,
    {
        dst.set(i, src[i]);
        i = i + 1;
    }
    assert(dst@ =~= src@);
}

/// Runs the ping-pong transform over the whole of `input` into `output`.
fn transform(input: &mut Vec<Cx>, output: &mut Vec<Cx>, tw: &Vec<Cx>, inv: bool)
    requires
        old(input).len() == old(output).len(),
        is_pow2(old(input).len() as nat),
        old(input).len() <= MAX_LEN,
        twiddles_ok(tw@, old(input).len() as nat),
        all_bounded(cxs(old(input)@), VAL_LIM as int),
    ensures
        final(output).len() == old(input).len(),
        final(input).len() == old(input).len(),
        cxs(final(output)@) == radix2(cxs(old(input)@), tw@, inv),
        all_bounded(cxs(final(output)@), MAXV as int),
{
    let n = input.len();
    let ghost x = input@;
    copy_into(input, output);
    proof {
        lemma_growth_fits(n as nat);
        assert(strided(x, 0, 1, n as int) =~= cxs(x));
        assert(strided(output@, 0, 1, n as int) =~= cxs(x));
        assert(growth(n as nat) * (VAL_LIM as int) >= 0) by (nonlinear_arith);
    }
    fft_inner(output, input, tw, n, 1, 0, inv, Ghost(VAL_LIM as int));
    proof {
        assert(strided(output@, 0, 1, n as int) =~= cxs(output@));
        assert forall|k: int| 0 <= k < n implies #[trigger] bounded(cxs(output@)[k], MAXV as int) by {
            assert(bounded(strided(output@, 0, 1, n as int)[k], growth(n as nat) * VAL_LIM));
        }
    }
}

/// Forward transform of `input` into `output`: the radix-2 transform with
/// the table's twiddles, every component then divided by the length and
/// rounded down. `input` serves as scratch and is left unspecified.
pub fn fft(input: &mut Vec<Cx>, output: &mut Vec<Cx>, tw: &Vec<Cx>)
    requires
        old(input).len() == old(output).len(),
        is_pow2(old(input).len() as nat),
        old(input).len() <= MAX_LEN,
        twiddles_ok(tw@, old(input).len() as nat),
        all_bounded(cxs(old(input)@), VAL_LIM as int),
    ensures
        final(output).len() == old(input).len(),
        final(input).len() == old(input).len(),
        cxs(final(output)@) == scaled(
            radix2(cxs(old(input)@), tw@, false),
            old(input).len() as int,
        ),
{
    let n = input.len();
    let ghost x = cxs(input@);
    transform(input, output, tw, false);
    let ghost r = cxs(output@);
    let mut i: usize = 0;
    while i < n
        invariant
            0 <= i <= n,
            output.len() == n,
            n >= 2,
            r.len() == n,
            all_bounded(r, MAXV as int),
            forall|k: int| i <= k < n ==> #[trigger] cx(output@[k]) == r[k],
            forall|k: int| 0 <= k < i ==> #[trigger] cx(output@[k]) == (r[k].0 / (n as int), r[k].1 / (n as int)),
        decreases n - i,
    {
        let c = output[i];
        assert(bounded(r[i as int], MAXV as int));
        let re = floor_div_exec(c.re as i128, n as i128);
        let im = floor_div_exec(c.im as i128, n as i128);
        proof {
            lemma_div_shrinks(c.re as int, n as int);
            lemma_div_shrinks(c.im as int, n as int);
        }
        let ghost before = output@;
        assert(re == (c.re as int) / (n as int));
        assert(im == (c.im as int) / (n as int));
        assert(cx(c) == r[i as int]);
        output.set(i, Cx { re: re as i64, im: im as i64 });
        assert forall|k: int| 0 <= k < i + 1 implies #[trigger] cx(output@[k]) == (r[k].0 / (n as int), r[k].1 / (n as int)) by {
            if k < i {
                assert(output@[k] == before[k]);
            }
        }
        i = i + 1;
    }
    assert(cxs(output@) =~= scaled(r, n as int));
}

/// Inverse transform of `input` into `output`: the radix-2 transform with
/// the conjugated twiddles, unscaled. `input` serves as scratch and is left
/// unspecified.
pub fn ifft(input: &mut Vec<Cx>, output: &mut Vec<Cx>, tw: &Vec<Cx>)
    requires
        old(input).len() == old(output).len(),
        is_pow2(old(input).len() as nat),
        old(input).len() <= MAX_LEN,
        twiddles_ok(tw@, old(input).len() as nat),
        all_bounded(cxs(old(input)@), VAL_LIM as int),
    ensures
        final(output).len() == old(input).len(),
        final(input).len() == old(input).len(),
        cxs(final(output)@) == radix2(cxs(old(input)@), tw@, true),
{
    transform(input, output, tw, true);
}

} // verus!
