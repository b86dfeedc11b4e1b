use vstd::prelude::*;
use crate::noise::{lemma_scan_values, scan_energy, scan_corr};

verus! {

/// `s[from]² + … + s[to - 1]²`.
pub open spec fn sum_sq(s: Seq<i16>, from: int, to: int) -> int
    decreases to - from,
{
    if to <= from { 0 } else { sum_sq(s, from, to - 1) + s[to - 1] * s[to - 1] }
}

/// `s[from]·s[from - l] + … + s[to - 1]·s[to - 1 - l]`: the products of
/// samples `l` apart.
pub open spec fn sum_lag(s: Seq<i16>, from: int, to: int, l: int) -> int
    decreases to - from,
{
    if to <= from { 0 } else { sum_lag(s, from, to - 1, l) + s[to - 1] * s[to - 1 - l] }
}

/// Square of a sample.
pub(crate) fn square(x: i16) -> (r: i64)
    ensures
        r == x * x,
        0 <= r <= 0x4000_0000,
{
    let v = x as i64;
    assert(0 <= v * v <= 0x4000_0000) by (nonlinear_arith)
        requires -32768 <= v <= 32767;
    v * v
}

/// Product of two samples.
pub(crate) fn product(a: i16, b: i16) -> (r: i64)
    ensures
        r == a * b,
        -0x4000_0000 <= r <= 0x4000_0000,
{
    let x = a as i64;
    let y = b as i64;
    assert(-0x4000_0000 <= x * y <= 0x4000_0000) by (nonlinear_arith)
        requires -32768 <= x <= 32767, -32768 <= y <= 32767;
    x * y
}

/// Bounds of the sums: each term is at most `2^30` in size.
pub proof fn lemma_sum_bounds(s: Seq<i16>, from: int, to: int, l: int)
    requires
        from <= to,
    ensures
        0 <= sum_sq(s, from, to) <= (to - from) * 0x4000_0000,
        -(to - from) * 0x4000_0000 <= sum_lag(s, from, to, l) <= (to - from) * 0x4000_0000,
    decreases to - from,
{
    if to > from {
        lemma_sum_bounds(s, from, to - 1, l);
        let a = s[to - 1];
        let b = s[to - 1 - l];
        assert(0 <= a * a <= 0x4000_0000) by (nonlinear_arith)
            requires -32768 <= a <= 32767;
        assert(-0x4000_0000 <= a * b <= 0x4000_0000) by (nonlinear_arith)
            requires -32768 <= a <= 32767, -32768 <= b <= 32767;
    }
}

/// Energy and lag-`l` correlation of the window starting at
/// `current_sample`: the sum of the squares of the `2·l` samples from
/// `current_sample`, the sum of the products of the `l` samples from
/// `current_sample` with the samples `l` before them, and the energy minus
/// twice the correlation. Below `2^31 - 1` samples the last fits in 64
/// bits whatever the samples.
pub fn init_l_bis(s: Vec<i16>, l_freq: i64, current_sample: i64) -> (r: (i64, i64, i64))
    requires
        i64::MIN <= 2 * l_freq,
        i64::MIN <= current_sample + 2 * l_freq <= i64::MAX,
        l_freq > 0 ==> {
            &&& l_freq <= current_sample
            &&& current_sample + 2 * l_freq <= s@.len()
            &&& l_freq <= 0xFFFF_FFFF
        },
        l_freq >= 0x7FFF_FFFF ==> i64::MIN <= sum_sq(s@, current_sample as int, current_sample + 2 * l_freq)
            - 2 * sum_lag(s@, current_sample as int, current_sample + l_freq, l_freq as int) <= i64::MAX,
    ensures
        r.0 == sum_sq(s@, current_sample as int, current_sample + 2 * l_freq),
        r.1 == sum_lag(s@, current_sample as int, current_sample + l_freq, l_freq as int),
        r.2 == r.0 - 2 * r.1,
{
    let mut e: i64 = 0;
    let mut h: i64 = 0;
    let ind = #[verifier::truncate] (l_freq as usize);
    let stop_e = current_sample + 2 * l_freq;
    let stop_h = current_sample + l_freq;
    let mut i = current_sample;
    proof {
        lemma_sum_bounds(s@, current_sample as int, current_sample as int, l_freq as int);
    }
    while i < stop_e
        invariant
            stop_e == current_sample + 2 * l_freq,
            l_freq > 0 ==> l_freq <= current_sample && stop_e <= s@.len() && l_freq <= 0xFFFF_FFFF,
            current_sample <= i,
            i < stop_e ==> i <= stop_e,
            i <= stop_e || l_freq <= 0,
            l_freq <= 0 ==> i == current_sample,
            e == sum_sq(s@, current_sample as int, i as int),
            0 <= e <= (i - current_sample) * 0x4000_0000,
        decreases stop_e - i,
    {
        let x = s[i as usize];
        e = e + square(x);
        i = i + 1;
    }
    assert(0 <= e <= 2 * l_freq * 0x4000_0000 || l_freq <= 0);
    assert(0 <= e <= 0x7FFF_FFFF_8000_0000) by (nonlinear_arith)
        requires 0 <= e <= (i - current_sample) * 0x4000_0000, i - current_sample <= 2 * 0xFFFF_FFFF;
    assert(l_freq > 0 ==> l_freq <= s@.len() && ind == l_freq);
    let mut i = current_sample;
    while i < stop_h
        invariant
            l_freq > 0 ==> ind == l_freq,
            e == sum_sq(s@, current_sample as int, current_sample + 2 * l_freq),
            0 <= e <= 0x7FFF_FFFF_8000_0000,
            l_freq > 0 ==> e <= 2 * l_freq * 0x4000_0000,
            stop_h == current_sample + l_freq,
            ind == l_freq as usize,
            l_freq > 0 ==> l_freq <= current_sample && current_sample + 2 * l_freq <= s@.len() && l_freq <= 0xFFFF_FFFF,
            current_sample <= i,
            i <= stop_h || l_freq <= 0,
            l_freq <= 0 ==> i == current_sample,
            h == sum_lag(s@, current_sample as int, i as int, l_freq as int),
            -(i - current_sample) * 0x4000_0000 <= h <= (i - current_sample) * 0x4000_0000,
        decreases stop_h - i,
    {
        let a = s[i as usize];
        let b = s[i as usize - ind];
        h = h + product(a, b);
        i = i + 1;
    }
    assert(-0x3FFF_FFFF_C000_0000 <= h <= 0x3FFF_FFFF_C000_0000) by (nonlinear_arith)
        requires -(i - current_sample) * 0x4000_0000 <= h <= (i - current_sample) * 0x4000_0000, i - current_sample <= 0xFFFF_FFFF;
    if l_freq < 0x7FFF_FFFF {
        assert(i64::MIN <= e - 2 * h <= i64::MAX) by (nonlinear_arith)
            requires
                l_freq > 0 ==> 0 <= e <= 2 * l_freq * 0x4000_0000,
                l_freq <= 0 ==> e == 0 && h == 0,
                -(i - current_sample) * 0x4000_0000 <= h <= (i - current_sample) * 0x4000_0000,
                l_freq > 0 ==> i - current_sample == l_freq,
                l_freq < 0x7FFF_FFFF;
    }
    let res2 = e - 2 * h;
    (e, h, res2)
}


/// Every sixteenth sample, starting with the first.
pub open spec fn decimate(s: Seq<i16>) -> Seq<i16> {
    Seq::new(((s.len() + 15) / 16) as nat, |k: int| s[16 * k])
}

/// Number of steps the pitch scan makes over a decimated signal of `n`
/// samples: from position 55 up to, not including, `n - 111`.
pub open spec fn pitch_steps(n: int) -> int {
    if n - 111 > 55 { n - 111 - 55 } else { 0 }
}

/// The running energy for period `l` after `t` steps of the scan: it starts
/// as the energy of the `2·l` samples from position 55; each step removes
/// the square of the sample at the scan position and adds the square of the
/// sample `l + 1` after it.
pub open spec fn energy(s8: Seq<i16>, l: int, t: int) -> int {
    sum_sq(s8, 55, 55 + 2 * l) - sum_sq(s8, 55, 55 + t) + sum_sq(s8, 56 + l, 56 + l + t)
}

/// The running lag-`l` correlation after `t` steps: it starts as the
/// correlation of the `l` samples from position 55 with the samples `l`
/// before them; each step removes the product at the scan position and
/// adds the product of the sample `l + 1` after it with the sample one
/// after the scan position.
pub open spec fn lag_corr(s8: Seq<i16>, l: int, t: int) -> int {
    sum_lag(s8, 55, 55 + l, l) - sum_lag(s8, 55, 55 + t, l) + sum_lag(s8, 56 + l, 56 + l + t, l)
}

/// Energy minus twice the correlation: small when the signal repeats with period `l`.
pub open spec fn periodicity(s8: Seq<i16>, l: int, t: int) -> int {
    energy(s8, l, t) - 2 * lag_corr(s8, l, t)
}

/// Whether step `t` of the scan finds period `l`: the periodicity is
/// positive and, times `eps`, at most the energy.
pub open spec fn detected(s8: Seq<i16>, l: int, t: int, eps: int) -> bool {
    periodicity(s8, l, t) * eps <= energy(s8, l, t) && periodicity(s8, l, t) > 0
}

/// Number of the first `t` steps of the scan that find period `l`.
pub open spec fn detections(s8: Seq<i16>, l: int, t: int, eps: int) -> int
    decreases t,
{
    if t <= 0 {
        0
    } else {
        detections(s8, l, t - 1, eps) + if detected(s8, l, t - 1, eps) { 1int } else { 0int }
    }
}

/// The pitch histogram of a signal: for each period `l` from 2 to 55 (in
/// decimated samples), how many steps of the scan over the decimated signal
/// find it; entries 0 and 1 are 0.
pub open spec fn pitch_histogram(samples: Seq<i16>, eps: int) -> Seq<i64> {
    let s8 = decimate(samples);
    Seq::new(56, |l: int|
        if 2 <= l <= 55 { detections(s8, l, pitch_steps(s8.len() as int), eps) as i64 } else { 0i64 })
}

/// What the pitch scan needs: enough samples for the first windows, and
/// `eps` times each periodicity fitting in 64 bits.
pub open spec fn pitch_scan_fits(samples: Seq<i16>, eps: int) -> bool {
    let s8 = decimate(samples);
    &&& s8.len() >= 165
    &&& forall|l: int, t: int| 2 <= l <= 55 && 0 <= t < pitch_steps(s8.len() as int) ==>
            i64::MIN <= #[trigger] periodicity(s8, l, t) * eps <= i64::MAX
}

pub(crate) proof fn lemma_detections_bounds(s8: Seq<i16>, l: int, t: int, eps: int)
    requires
        t >= 0,
    ensures
        0 <= detections(s8, l, t, eps) <= t,
    decreases t,
{
    if t > 0 {
        lemma_detections_bounds(s8, l, t - 1, eps);
    }
}

proof fn lemma_scan_bounds(s8: Seq<i16>, l: int, t: int)
    requires
        2 <= l <= 55,
        0 <= t,
    ensures
        -0x4000_0000 <= energy(s8, l, t) <= 111 * 0x4000_0000,
        -(57 * 0x4000_0000) <= lag_corr(s8, l, t) <= 57 * 0x4000_0000,
{
    lemma_scan_values(s8, l, 55, 55 + t);
    assert(energy(s8, l, t) == scan_energy(s8, l, 55, 55 + t));
    assert(lag_corr(s8, l, t) == scan_corr(s8, l, 55, 55 + t));
}

/// A vector of `n` zeros.
fn zeros(n: usize) -> (r: Vec<i64>)
    ensures
        r@ == Seq::new(n as nat, |i: int| 0i64),
{
    let mut v: Vec<i64> = Vec::new();
    let mut i: usize = 0;
    while i < n
        invariant
            i <= n,
            v@ =~= Seq::new(i as nat, |k: int| 0i64),
        decreases n - i,
    {
        v.push(0);
        i = i + 1;
    }
    v
}

/// What the pitch scan needs besides `eps` times each periodicity fitting
/// in 64 bits: enough samples for the first windows.
pub open spec fn pitch_scan_sized(samples: Seq<i16>) -> bool {
    decimate(samples).len() >= 165
}

/// The pitch scan (see `detection_hauteur`), which stops with `None` at
/// the first periodicity that, times `eps`, does not fit in 64 bits.
pub fn pitch_scan(samples: &Vec<i16>, eps: i64) -> (r: Option<Vec<i64>>)
    requires
        pitch_scan_sized(samples@),
    ensures
        r is Some <==> pitch_scan_fits(samples@, eps as int),
        r is Some ==> r->0@ == pitch_histogram(samples@, eps as int),
{
    let l = samples.len();
    let mut s8: Vec<i16> = Vec::new();
    let mut i: usize = 0;
    while i < l
        invariant
            l == samples@.len(),
            i <= l,
            s8@.len() == (i + 15) / 16,
            forall|k: int| 0 <= k < s8@.len() ==> s8@[k] == samples@[16 * k],
        decreases l - i,
    {
        if i % 16 == 0 {
            s8.push(samples[i]);
        }
        i = i + 1;
    }
    let ghost d = s8@;
    assert(d =~= decimate(samples@));
    assert(s8@.len() <= 0x1000_0000_0000_0000);
    let l8 = s8.len();
    let mut e = zeros(56);
    let mut res2 = zeros(56);
    let mut h = zeros(56);
    let mut res = zeros(56);
    let mut current_sample: i64 = 55;
    let end_sample = (l8 - 111) as i64;
    let mut lf: i64 = 2;
    while lf <= 55
        invariant
            s8@ == d,
            d.len() == l8,
            l8 >= 165,
            current_sample == 55,
            2 <= lf <= 56,
            e@.len() == 56,
            h@.len() == 56,
            res2@.len() == 56,
            res@ == Seq::new(56, |i: int| 0i64),
            forall|k: int| 2 <= k < lf ==> e@[k] == energy(d, k, 0),
            forall|k: int| 2 <= k < lf ==> h@[k] == lag_corr(d, k, 0),
            forall|k: int| 2 <= k < lf ==> res2@[k] == periodicity(d, k, 0),
        decreases 56 - lf,
    {
        let s8c = s8.clone();
        assert(s8c@ == d);
        let (a, b, c) = init_l_bis(s8c, lf, current_sample);
        e.set(lf as usize, a);
        h.set(lf as usize, b);
        res2.set(lf as usize, c);
        lf = lf + 1;
    }
    while current_sample < end_sample
        invariant
            s8@ == d,
            d == decimate(samples@),
            d.len() == l8,
            l8 >= 165,
            l8 <= 0x1000_0000_0000_0000,
            end_sample == l8 - 111,
            55 <= current_sample <= (if end_sample > 55 { end_sample } else { 55 }),
            forall|k: int, tt: int| 2 <= k <= 55 && 0 <= tt < current_sample - 55 ==>
                i64::MIN <= #[trigger] periodicity(d, k, tt) * eps <= i64::MAX,
            e@.len() == 56,
            h@.len() == 56,
            res2@.len() == 56,
            res@.len() == 56,
            res@[0] == 0,
            res@[1] == 0,
            forall|k: int| 2 <= k <= 55 ==> e@[k] == energy(d, k, current_sample - 55),
            forall|k: int| 2 <= k <= 55 ==> h@[k] == lag_corr(d, k, current_sample - 55),
            forall|k: int| 2 <= k <= 55 ==> res2@[k] == periodicity(d, k, current_sample - 55),
            forall|k: int| 2 <= k <= 55 ==> res@[k] == detections(d, k, current_sample - 55, eps as int),
        decreases end_sample - current_sample,
    {
        let ghost t = current_sample - 55;
        let mut i: usize = 2;
        while i <= 55
            invariant
                2 <= i <= 56,
                0 <= t < pitch_steps(d.len() as int),
                d.len() <= 0x1000_0000_0000_0000,
                forall|k: int, tt: int| 2 <= k <= 55 && 0 <= tt < t ==>
                    i64::MIN <= #[trigger] periodicity(d, k, tt) * eps <= i64::MAX,
                forall|k: int| 2 <= k < i ==> i64::MIN <= #[trigger] periodicity(d, k, t) * eps <= i64::MAX,
                d == decimate(samples@),
                e@.len() == 56,
                res2@.len() == 56,
                res@.len() == 56,
                res@[0] == 0,
                res@[1] == 0,
                forall|k: int| 2 <= k <= 55 ==> e@[k] == energy(d, k, t),
                forall|k: int| 2 <= k <= 55 ==> res2@[k] == periodicity(d, k, t),
                forall|k: int| 2 <= k < i ==> res@[k] == detections(d, k, t + 1, eps as int),
                forall|k: int| i <= k <= 55 ==> res@[k] == detections(d, k, t, eps as int),
            decreases 56 - i,
        {
            proof {
                lemma_detections_bounds(d, i as int, t, eps as int);
            }
            let p = match res2[i].checked_mul(eps) {
                Some(p) => p,
                None => {
                    proof {
                        assert(!(i64::MIN <= periodicity(d, i as int, t) * eps <= i64::MAX));
                    }
                    return None;
                },
            };
            if p <= e[i] && res2[i] > 0 {
                let v = res[i];
                res.set(i, v + 1);
            }
            i = i + 1;
        }
        let c = current_sample as usize;
        let mut j: usize = 2;
        while j <= 55
            invariant
                2 <= j <= 56,
                c == current_sample,
                current_sample == 55 + t,
                0 <= t < pitch_steps(d.len() as int),
                s8@ == d,
                d.len() == l8,
                end_sample == l8 - 111,
                current_sample < end_sample,
                    e@.len() == 56,
                h@.len() == 56,
                res2@.len() == 56,
                forall|k: int| 2 <= k < j ==> e@[k] == energy(d, k, t + 1),
                forall|k: int| 2 <= k < j ==> h@[k] == lag_corr(d, k, t + 1),
                forall|k: int| 2 <= k < j ==> res2@[k] == periodicity(d, k, t + 1),
                forall|k: int| j <= k <= 55 ==> e@[k] == energy(d, k, t),
                forall|k: int| j <= k <= 55 ==> h@[k] == lag_corr(d, k, t),
            decreases 56 - j,
        {
            proof {
                lemma_scan_bounds(d, j as int, t);
                lemma_scan_bounds(d, j as int, t + 1);
            }
            let ind3 = c + j + 1;
            let e0 = e[j];
            let e1 = e0 - square(s8[c]);
            let e2 = e1 + square(s8[ind3]);
            e.set(j, e2);
            let h0 = h[j];
            let h1 = h0 - product(s8[c], s8[c - j]);
            let h2 = h1 + product(s8[ind3], s8[ind3 - j]);
            h.set(j, h2);
            res2.set(j, e2 - 2 * h2);
            j = j + 1;
        }
        current_sample = current_sample + 1;
    }
    proof {
        assert(current_sample - 55 == pitch_steps(d.len() as int));
    }
    assert(res@ =~= pitch_histogram(samples@, eps as int));
    Some(res)
}

/// Pitch detection: keeps every sixteenth sample, then slides over the
/// decimated signal, counting for each period from 2 to 55 how often the
/// signal looks periodic with it (see `pitch_histogram`).
pub fn detection_hauteur(samples: Vec<i16>, eps: i64) -> (res: Vec<i64>)
    requires
        pitch_scan_fits(samples@, eps as int),
    ensures
        res@ == pitch_histogram(samples@, eps as int),
{
    match pitch_scan(&samples, eps) {
        Some(v) => v,
        None => Vec::new(),
    }
}


/// Period `i` ranks before period `j` in a histogram: it was detected more
/// often, or as often and it is the longer period. (This is the order a
/// stable ascending sort by count, reversed, gives.)
pub open spec fn ranks_before(c: Seq<i64>, i: int, j: int) -> bool {
    c[i] > c[j] || (c[i] == c[j] && i > j)
}

/// `i` is the period from 2 to 55, not among `chosen`, that ranks before
/// every other such period.
pub open spec fn is_next_best(c: Seq<i64>, chosen: Seq<usize>, i: int) -> bool {
    &&& 2 <= i <= 55
    &&& !chosen.contains(i as usize)
    &&& forall|j: usize| 2 <= j <= 55 && j != i && !chosen.contains(j) ==> #[trigger] ranks_before(c, i, j as int)
}

/// The `k` best-ranked periods of a histogram, best first.
pub open spec fn top_periods(c: Seq<i64>, k: nat) -> Seq<usize>
    decreases k,
{
    if k == 0 {
        Seq::<usize>::empty()
    } else {
        let prev = top_periods(c, (k - 1) as nat);
        prev.push(choose|i: usize| is_next_best(c, prev, i as int))
    }
}

/// Score of a match between position `f` of a sound's five best periods
/// and position `i` of the reference's: 15 per rank step from the end when
/// the positions agree, fewer the further apart they are.
pub open spec fn match_score(f: int, i: int) -> int {
    if f != i {
        (10 - 2 * (if i >= f { i - f } else { f - i })) * (5 - f)
    } else {
        (5 - i) * 15
    }
}

/// Sum of the scores of position `f` of `snd` against the first `n` positions of `reference`.
pub open spec fn grade_row(reference: Seq<usize>, snd: Seq<usize>, f: int, n: int) -> int
    decreases n,
{
    if n <= 0 {
        0
    } else {
        grade_row(reference, snd, f, n - 1) + if snd[f] == reference[n - 1] { match_score(f, n - 1) } else { 0 }
    }
}

/// Sum of the scores of the first `m` positions of `snd` against the five of `reference`.
pub open spec fn grade_upto(reference: Seq<usize>, snd: Seq<usize>, m: int) -> int
    decreases m,
{
    if m <= 0 { 0 } else { grade_upto(reference, snd, m - 1) + grade_row(reference, snd, m - 1, 5) }
}

/// How well a sound's five best periods match the reference's.
pub open spec fn grade(reference: Seq<usize>, snd: Seq<usize>) -> int {
    grade_upto(reference, snd, 5)
}

/// The grade of each sound against the reference.
pub open spec fn music_grades(sounds: Seq<Vec<i16>>, reference: Seq<i16>, eps: int) -> Seq<int> {
    let ref_top = top_periods(pitch_histogram(reference, eps), 5);
    Seq::new(sounds.len(), |k: int| grade(ref_top, top_periods(pitch_histogram(sounds[k]@, eps), 5)))
}

pub(crate) proof fn lemma_next_best_unique(c: Seq<i64>, chosen: Seq<usize>, a: int, b: int)
    requires
        is_next_best(c, chosen, a),
        is_next_best(c, chosen, b),
    ensures
        a == b,
{
    if a != b {
        assert(ranks_before(c, a, (b as usize) as int));
        assert(ranks_before(c, b, (a as usize) as int));
    }
}

/// Whether `v` holds `x`.
fn holds(v: &Vec<usize>, x: usize) -> (r: bool)
    ensures
        r == v@.contains(x),
{
    let mut i: usize = 0;
    while i < v.len()
        invariant
            i <= v@.len(),
            forall|k: int| 0 <= k < i ==> v@[k] != x,
        decreases v@.len() - i,
    {
        if v[i] == x {
            return true;
        }
        i = i + 1;
    }
    false
}

/// The five best-ranked periods (from 2 to 55) of a pitch histogram, best
/// first (see `ranks_before`).
pub fn top_five(c: &Vec<i64>) -> (r: Vec<usize>)
    requires
        c@.len() == 56,
    ensures
        r@ == top_periods(c@, 5),
        r@.len() == 5,
{
    let mut chosen: Vec<usize> = Vec::new();
    let mut k: usize = 0;
    while k < 5
        invariant
            c@.len() == 56,
            k <= 5,
            chosen@ == top_periods(c@, k as nat),
            chosen@.len() == k,
        decreases 5 - k,
    {
        let mut best: usize = 0;
        let mut i: usize = 2;
        while i <= 55
            invariant
                c@.len() == 56,
                2 <= i <= 56,
                chosen@.len() == k,
                k < 5,
                best == 0 ==> forall|j: usize| 2 <= j < i ==> #[trigger] chosen@.contains(j),
                best != 0 ==> 2 <= best < i && !chosen@.contains(best),
                best != 0 ==> forall|j: usize| 2 <= j < i && j != best && !chosen@.contains(j) ==> #[trigger] ranks_before(c@, best as int, j as int),
            decreases 56 - i,
        {
            if !holds(&chosen, i) {
                if best == 0 || c[i] >= c[best] {
                    let ghost old_best = best;
                    proof {
                        assert forall|j: usize| 2 <= j < i + 1 && j != i && !chosen@.contains(j) implies
                            #[trigger] ranks_before(c@, i as int, j as int) by {
                            if j != old_best && old_best != 0 {
                                assert(ranks_before(c@, old_best as int, j as int));
                            }
                        }
                    }
                    best = i;
                }
            }
            i = i + 1;
        }
        proof {
            if best == 0 {
                // the five chosen periods cannot cover the 54 periods
                lemma_few_cover_little(chosen@, 2, 56);
            }
            assert(is_next_best(c@, chosen@, best as int));
            let pick = choose|x: usize| is_next_best(c@, chosen@, x as int);
            assert(is_next_best(c@, chosen@, pick as int));
            lemma_next_best_unique(c@, chosen@, best as int, pick as int);
        }
        chosen.push(best);
        k = k + 1;
    }
    chosen
}

/// A sequence of fewer than `hi - lo` elements does not hold every number of `[lo, hi)`.
pub(crate) proof fn lemma_few_cover_little(v: Seq<usize>, lo: int, hi: int)
    requires
        0 <= lo <= hi <= 0x1_0000,
        v.len() < hi - lo,
    ensures
        !(forall|j: usize| lo <= j < hi ==> #[trigger] v.contains(j)),
    decreases v.len(),
{
    if forall|j: usize| lo <= j < hi ==> #[trigger] v.contains(j) {
        if v.len() == 0 {
            assert(v.contains(lo as usize));
        } else {
            let x = v.last();
            let rest = v.drop_last();
            if lo <= x < hi {
                let w = Seq::new(rest.len(), |k: int| if rest[k] > x { (rest[k] - 1) as usize } else { rest[k] });
                assert forall|j: usize| lo <= j < hi - 1 implies #[trigger] w.contains(j) by {
                    let jj: usize = if j >= x { (j + 1) as usize } else { j };
                    assert(jj != x);
                    assert(v.contains(jj));
                    let p = choose|p: int| 0 <= p < v.len() && v[p] == jj;
                    assert(p < rest.len());
                    assert(w[p] == j);
                }
                lemma_few_cover_little(w, lo, hi - 1);
            } else {
                assert forall|j: usize| lo <= j < hi implies #[trigger] rest.contains(j) by {
                    assert(j != x);
                    assert(v.contains(j));
                    let p = choose|p: int| 0 <= p < v.len() && v[p] == j;
                    assert(p < rest.len());
                    assert(rest[p] == j);
                }
                lemma_few_cover_little(rest, lo, hi);
            }
        }
    }
}

/// The grade of a sound's five best periods against the reference's.
pub fn grade_of(reference: &Vec<usize>, snd: &Vec<usize>) -> (g: usize)
    requires
        reference@.len() == 5,
        snd@.len() == 5,
    ensures
        g == grade(reference@, snd@),
{
    let mut grade: usize = 0;
    let mut freq: usize = 0;
    while freq < 5
        invariant
            reference@.len() == 5,
            snd@.len() == 5,
            freq <= 5,
            grade == grade_upto(reference@, snd@, freq as int),
            0 <= grade <= 375 * freq,
        decreases 5 - freq,
    {
        let mut i: usize = 0;
        let ghost row_start = grade;
        while i < 5
            invariant
                reference@.len() == 5,
                snd@.len() == 5,
                freq < 5,
                i <= 5,
                row_start == grade_upto(reference@, snd@, freq as int),
                0 <= row_start <= 375 * freq,
                grade == row_start + grade_row(reference@, snd@, freq as int, i as int),
                0 <= grade - row_start <= 75 * i,
            decreases 5 - i,
        {
            if snd[freq] == reference[i] {
                if freq != i {
                    let dist: usize = if i >= freq { i - freq } else { freq - i };
                    assert(0 <= (10 - 2 * dist) * (5 - freq) <= 50) by (nonlinear_arith)
                        requires dist <= 4, freq < 5;
                    grade = grade + (10 - 2 * dist) * (5 - freq);
                } else {
                    grade = grade + (5 - i) * 15;
                }
            }
            i = i + 1;
        }
        freq = freq + 1;
    }
    grade
}

/// The grades of the candidates against the reference, or `None` as soon
/// as a pitch scan (of the reference, then of each candidate in order)
/// meets a periodicity that, times `eps`, does not fit in 64 bits.
fn grades_of(sounds: &Vec<Vec<i16>>, reff: &Vec<i16>, eps: i64) -> (r: Option<Vec<usize>>)
    requires
        pitch_scan_sized(reff@),
        forall|k: int| 0 <= k < sounds@.len() ==> pitch_scan_sized((#[trigger] sounds@[k])@),
    ensures
        r is Some <==> pitch_scan_fits(reff@, eps as int)
            && forall|k: int| 0 <= k < sounds@.len() ==> pitch_scan_fits((#[trigger] sounds@[k])@, eps as int),
        r is Some ==> r->0@.len() == sounds@.len()
            && forall|q: int| 0 <= q < sounds@.len() ==> r->0@[q] as int == #[trigger] music_grades(sounds@, reff@, eps as int)[q],
{
    let res_ref = match pitch_scan(reff, eps) {
        Some(v) => v,
        None => {
            return None;
        },
    };
    let res_ref_five = top_five(&res_ref);
    let ghost g = music_grades(sounds@, reff@, eps as int);
    let mut list_grades: Vec<usize> = Vec::new();
    let n = sounds.len();
    let mut k: usize = 0;
    while k < n
        invariant
            n == sounds@.len(),
            k <= n,
            res_ref_five@ == top_periods(pitch_histogram(reff@, eps as int), 5),
            res_ref_five@.len() == 5,
            pitch_scan_fits(reff@, eps as int),
            g == music_grades(sounds@, reff@, eps as int),
            forall|q: int| 0 <= q < sounds@.len() ==> pitch_scan_sized((#[trigger] sounds@[q])@),
            forall|q: int| 0 <= q < k ==> pitch_scan_fits((#[trigger] sounds@[q])@, eps as int),
            list_grades@.len() == k,
            forall|q: int| 0 <= q < k ==> list_grades@[q] as int == g[q],
        decreases n - k,
    {
        assert(pitch_scan_sized(sounds@[k as int]@));
        let res = match pitch_scan(&sounds[k], eps) {
            Some(v) => v,
            None => {
                return None;
            },
        };
        let res_five = top_five(&res);
        let gr = grade_of(&res_ref_five, &res_five);
        list_grades.push(gr);
        k = k + 1;
    }
    Some(list_grades)
}

/// The index of the first best grade (0 when there is none).
fn first_best(list_grades: &Vec<usize>) -> (maxi: usize)
    ensures
        list_grades@.len() == 0 ==> maxi == 0,
        list_grades@.len() > 0 ==> {
            &&& maxi < list_grades@.len()
            &&& forall|j: int| 0 <= j < list_grades@.len() ==> list_grades@[j] <= list_grades@[maxi as int]
            &&& forall|j: int| 0 <= j < maxi ==> list_grades@[j] < list_grades@[maxi as int]
        },
{
    let n = list_grades.len();
    let mut maxi: usize = 0;
    let mut i: usize = 1;
    while i < n
        invariant
            n == list_grades@.len(),
            1 <= i <= n || n == 0,
            n > 0 ==> maxi < i,
            n == 0 ==> maxi == 0,
            n > 0 ==> forall|j: int| 0 <= j < i ==> list_grades@[j] <= list_grades@[maxi as int],
            n > 0 ==> forall|j: int| 0 <= j < maxi ==> list_grades@[j] < list_grades@[maxi as int],
        decreases n - i,
    {
        if list_grades[i] > list_grades[maxi] {
            maxi = i;
        }
        i = i + 1;
    }
    maxi
}

/// Recognizes a piece as `find_music` does, or gives `None` when a pitch
/// scan meets a periodicity that, times `eps`, does not fit in 64 bits.
pub fn find_music_checked(sounds: &Vec<Vec<i16>>, reff: &Vec<i16>, eps: i64) -> (r: Option<usize>)
    requires
        pitch_scan_sized(reff@),
        forall|k: int| 0 <= k < sounds@.len() ==> pitch_scan_sized((#[trigger] sounds@[k])@),
    ensures
        r is Some <==> pitch_scan_fits(reff@, eps as int)
            && forall|k: int| 0 <= k < sounds@.len() ==> pitch_scan_fits((#[trigger] sounds@[k])@, eps as int),
        r is Some ==> ({
            let g = music_grades(sounds@, reff@, eps as int);
            let m = r->0;
            &&& sounds@.len() == 0 ==> m == 0
            &&& sounds@.len() > 0 ==> {
                &&& m < sounds@.len()
                &&& forall|j: int| 0 <= j < g.len() ==> g[j] <= g[m as int]
                &&& forall|j: int| 0 <= j < m ==> g[j] < g[m as int]
            }
        }),
{
    let grades = match grades_of(sounds, reff, eps) {
        Some(v) => v,
        None => {
            return None;
        },
    };
    let ghost g = music_grades(sounds@, reff@, eps as int);
    let m = first_best(&grades);
    assert(g.len() == sounds@.len());
    assert forall|j: int| 0 <= j < g.len() implies g[j] == grades@[j] as int by {
        assert(grades@[j] as int == music_grades(sounds@, reff@, eps as int)[j]);
    }
    Some(m)
}

/// Recognizes a piece: computes the five best periods of the reference and
/// of every candidate sound, grades each sound against the reference, and
/// returns the index of the first best-graded sound (0 when there is none).
pub fn find_music(sounds: Vec<Vec<i16>>, reff: Vec<i16>, eps: i64) -> (r: usize)
    requires
        pitch_scan_fits(reff@, eps as int),
        forall|k: int| 0 <= k < sounds@.len() ==> pitch_scan_fits((#[trigger] sounds@[k])@, eps as int),
    ensures
        ({
            let g = music_grades(sounds@, reff@, eps as int);
            &&& sounds@.len() == 0 ==> r == 0
            &&& sounds@.len() > 0 ==> {
                &&& r < sounds@.len()
                &&& forall|j: int| 0 <= j < g.len() ==> g[j] <= g[r as int]
                &&& forall|j: int| 0 <= j < r ==> g[j] < g[r as int]
            }
        }),
{
    assert forall|k: int| 0 <= k < sounds@.len() implies pitch_scan_sized((#[trigger] sounds@[k])@) by {
        assert(pitch_scan_fits(sounds@[k]@, eps as int));
    }
    match find_music_checked(&sounds, &reff, eps) {
        Some(m) => m,
        None => 0,
    }
}

} // verus!
