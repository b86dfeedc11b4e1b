use vstd::prelude::*;
use crate::music_detect::{sum_sq, sum_lag, init_l_bis, lemma_sum_bounds, square, product};
use crate::resonance::div_toward_zero;
use crate::wav::WavReader;

verus! {

/// The threshold as the signed sample value it is read as (its 16 bits
/// taken as two's complement).
pub open spec fn threshold_value(threshold: u16) -> int {
    if threshold < 32768 { threshold as int } else { threshold - 65536 }
}

/// The samples with every sample above `t` (when `high`) or below `-t`
/// (when `low`) set to 0.
pub open spec fn clipped(s: Seq<i16>, t: int, high: bool, low: bool) -> Seq<i16> {
    Seq::new(s.len(), |i: int| if (s[i] > t && high) || (s[i] < -t && low) { 0i16 } else { s[i] })
}

/// Silences the samples of `wav` louder than the threshold: above it when
/// `high`, below its opposite when `low`.
pub fn threshold(wav: &mut WavReader, threshold: u16, high: bool, low: bool)
    requires
        threshold == 32768 ==> forall|i: int| 0 <= i < old(wav).samples@.len() ==>
            #[trigger] old(wav).samples@[i] > i16::MIN && high,
    ensures
        final(wav).samples@ == clipped(old(wav).samples@, threshold_value(threshold), high, low),
        *final(wav) == (WavReader { samples: final(wav).samples, ..*old(wav) }),
{
    let t: i16 = if threshold < 32768 { threshold as i16 } else { (threshold as i32 - 65536) as i16 };
    let n = wav.samples.len();
    let ghost s0 = wav.samples@;
    let mut i: usize = 0;
    while i < n
        invariant
            n == s0.len(),
            wav.samples@.len() == n,
            i <= n,
            t == threshold_value(threshold),
            threshold == 32768 ==> forall|k: int| 0 <= k < n ==> #[trigger] s0[k] > i16::MIN && high,
            forall|k: int| 0 <= k < i ==> wav.samples@[k] == clipped(s0, t as int, high, low)[k],
            forall|k: int| i <= k < n ==> wav.samples@[k] == s0[k],
            *wav == (WavReader { samples: wav.samples, ..*old(wav) }),
        decreases n - i,
    {
        let sample = wav.samples[i];
        assert(threshold == 32768 ==> s0[i as int] > i16::MIN && high);
        if (sample > t && high) || (sample < -t && low) {
            wav.samples.set(i, 0);
        }
        i = i + 1;
    }
    assert(wav.samples@ =~= clipped(s0, t as int, high, low));
}

/// `s[from] / n + … + s[to - 1] / n`, each quotient rounded toward zero.
pub open spec fn sum_of_quotients(s: Seq<i16>, from: int, to: int, n: int) -> int
    decreases to - from,
{
    if to <= from { 0 } else { sum_of_quotients(s, from, to - 1, n) + div_toward_zero(s[to - 1] as int, n) }
}

/// `n` read as a 16-bit two's-complement number: the divisor the smoothing
/// loop uses for a window of `n` samples.
pub open spec fn wrap16(n: int) -> int {
    if n % 65536 >= 32768 { n % 65536 - 65536 } else { n % 65536 }
}

/// Whether a sample can be divided by `q` without overflow: `q` is not 0,
/// and not -1 when the sample is the smallest one.
pub open spec fn quotient_ok(x: i16, q: int) -> bool {
    q != 0 && !(x == i16::MIN && q == -1)
}

/// Whether the sum of the quotients by `q` of the samples from `from` to
/// `to`, taken one by one, never leaves the range of a sample, and no
/// quotient overflows.
pub open spec fn quotients_fit(s: Seq<i16>, from: int, to: int, q: int) -> bool {
    forall|y: int| from < y <= to ==> quotient_ok(s[y - 1], q)
        && i16::MIN <= #[trigger] sum_of_quotients(s, from, y, q) <= i16::MAX
}

/// Whether the smoothing loop computes sample `i` without overflow (see
/// `smoothed` for the three cases).
pub open spec fn window_fits(s: Seq<i16>, m: int, i: int) -> bool {
    let len = s.len() as int;
    let dist = (m - 1) / 2;
    if i < dist {
        forall|y: int| 0 <= y < 2 * i + 1 ==> #[trigger] quotient_ok(s[y], wrap16(2 * i + 1))
    } else if dist > len - 1 - i {
        quotients_fit(s, 2 * i - len + 1, len, wrap16(2 * (len - 1 - i) + 1))
    } else {
        quotients_fit(s, i - dist, i + dist + 1, wrap16(m))
    }
}

/// Whether the smoothing of `s` over `m` samples runs without overflow.
pub open spec fn smoothing_fits(s: Seq<i16>, m: int) -> bool {
    forall|i: int| 1 <= i < s.len() - 1 ==> #[trigger] window_fits(s, m, i)
}

/// Whether the smoothing of `s` over `m` samples reads only samples of `s`:
/// the windows cut short at the start fit in the signal.
pub open spec fn smoothing_in_bounds(len: int, m: int) -> bool {
    (len + 1) / 2 + 1 >= len || (len + 1) / 2 >= (m - 1) / 2
}

/// The moving average over `m` samples (`m` odd) as the smoothing loop
/// computes it: the ends are kept; a sample less than `(m - 1) / 2` from
/// the start becomes 0; a sample that close to the end averages the
/// samples from as far before it as the end is after it, up to the end;
/// any other sample averages the `m` samples centered on it. Each average
/// sums the samples divided one by one, rounding toward zero, by the
/// window's length read as a 16-bit number (see `wrap16`).
pub open spec fn smoothed(s: Seq<i16>, m: int) -> Seq<i16> {
    let len = s.len() as int;
    let dist = (m - 1) / 2;
    Seq::new(s.len(), |i: int|
        if i == len - 1 {
            s[len - 1]
        } else if i == 0 {
            s[0]
        } else if i < dist {
            0i16
        } else if dist > len - 1 - i {
            sum_of_quotients(s, 2 * i - len + 1, len, wrap16(2 * (len - 1 - i) + 1)) as i16
        } else {
            sum_of_quotients(s, i - dist, i + dist + 1, wrap16(m)) as i16
        })
}

/// The window length `n` read as a 16-bit number (see `wrap16`).
fn divisor(n: usize) -> (q: i16)
    ensures
        q == wrap16(n as int),
{
    let r = (n % 65536) as i32;
    if r >= 32768 { (r - 65536) as i16 } else { r as i16 }
}

/// `x / n` rounded toward zero.
fn quotient(x: i16, n: i16) -> (r: i16)
    requires
        quotient_ok(x, n as int),
    ensures
        r == div_toward_zero(x as int, n as int),
{
    let v = x as i32;
    let d = n as i32;
    if d > 0 {
        if v >= 0 { (v / d) as i16 } else { (-((-v) / d)) as i16 }
    } else {
        let e = -d;
        if v >= 0 {
            assert(v / d == -(v / e)) by (nonlinear_arith)
                requires v >= 0, d < 0, e == -d;
            assert(v / e <= 32767) by (nonlinear_arith)
                requires 0 <= v <= 32767, e >= 1;
            (-(v / e)) as i16
        } else {
            let w = -v;
            assert((w / d) == -(w / e)) by (nonlinear_arith)
                requires w > 0, d < 0, e == -d;
            assert(w / e <= 32767) by (nonlinear_arith)
                requires 0 < w <= 32768, e >= 1, w == 32768 ==> e >= 2;
            (w / e) as i16
        }
    }
}

/// The sum of `k` quotients by `n` of samples stays within the sample range when `k <= n`.
proof fn lemma_quotient_sum_bounds(s: Seq<i16>, from: int, to: int, n: int)
    requires
        from <= to,
        to - from <= n,
        n > 0,
    ensures
        -(to - from) * (32768int / n) <= sum_of_quotients(s, from, to, n) <= (to - from) * (32767int / n),
        -32768 <= sum_of_quotients(s, from, to, n) <= 32767,
    decreases to - from,
{
    if to > from {
        lemma_quotient_sum_bounds(s, from, to - 1, n);
        let x = s[to - 1] as int;
        if x >= 0 {
            assert(x / n <= 32767int / n) by (nonlinear_arith)
                requires 0 <= x <= 32767, n > 0;
        } else {
            assert((-x) / n <= 32768int / n) by (nonlinear_arith)
                requires 0 < -x <= 32768, n > 0;
        }
        assert(-(to - from) * (32768int / n) == -(to - 1 - from) * (32768int / n) - 32768int / n) by (nonlinear_arith);
        assert((to - from) * (32767int / n) == (to - 1 - from) * (32767int / n) + 32767int / n) by (nonlinear_arith);
    }
    assert((to - from) * (32768int / n) <= 32768) by (nonlinear_arith)
        requires 0 <= to - from <= n, n > 0;
    assert(-(to - from) * (32768int / n) == -((to - from) * (32768int / n))) by (nonlinear_arith);
    assert((to - from) * (32767int / n) <= 32767) by (nonlinear_arith)
        requires 0 <= to - from <= n, n > 0;
    assert(0 <= (to - from) * (32767int / n)) by (nonlinear_arith)
        requires 0 <= to - from, n > 0;
}

/// A window of at most `n` samples, `n` below `2^15`, fits.
proof fn lemma_short_window_fits(s: Seq<i16>, from: int, to: int, n: int)
    requires
        from <= to,
        to - from <= n,
        0 < n <= 32767,
    ensures
        quotients_fit(s, from, to, n),
{
    assert forall|y: int| from < y <= to implies quotient_ok(s[y - 1], n)
        && i16::MIN <= #[trigger] sum_of_quotients(s, from, y, n) <= i16::MAX by {
        lemma_quotient_sum_bounds(s, from, y, n);
    }
}

/// A window of fewer than `2^15` samples never overflows the smoothing.
pub proof fn lemma_small_window_smoothing_fits(s: Seq<i16>, m: int)
    requires
        0 < m <= 32767,
    ensures
        smoothing_fits(s, m),
{
    let len = s.len() as int;
    let dist = (m - 1) / 2;
    assert forall|i: int| 1 <= i < len - 1 implies #[trigger] window_fits(s, m, i) by {
        if i < dist {
            assert(wrap16(2 * i + 1) == 2 * i + 1);
        } else if dist > len - 1 - i {
            let n = 2 * (len - 1 - i) + 1;
            assert(wrap16(n) == n);
            lemma_short_window_fits(s, 2 * i - len + 1, len, n);
        } else {
            assert(wrap16(m) == m);
            lemma_short_window_fits(s, i - dist, i + dist + 1, m);
        }
    }
}

proof fn lemma_fit_at(s: Seq<i16>, from: int, to: int, q: int, y: int)
    requires
        quotients_fit(s, from, to, q),
        from < y <= to,
    ensures
        quotient_ok(s[y - 1], q),
        i16::MIN <= sum_of_quotients(s, from, y, q) <= i16::MAX,
{
    assert(i16::MIN <= sum_of_quotients(s, from, y, q));
}

/// The sum of the quotients by `q` of the samples from `from` to `to`, or
/// `None` when a quotient or a partial sum overflows.
fn quotient_sum(s: &Vec<i16>, from: usize, to: usize, q: i16) -> (r: Option<i16>)
    requires
        from <= to <= s@.len(),
    ensures
        r is Some <==> quotients_fit(s@, from as int, to as int, q as int),
        r is Some ==> r->0 == sum_of_quotients(s@, from as int, to as int, q as int),
{
    let mut average: i16 = 0;
    let mut y = from;
    while y < to
        invariant
            from <= y <= to <= s@.len(),
            average == sum_of_quotients(s@, from as int, y as int, q as int),
            quotients_fit(s@, from as int, y as int, q as int),
        decreases to - y,
    {
        let x = s[y];
        if q == 0 || (x == i16::MIN && q == -1) {
            proof {
                let yy = y as int + 1;
                assert(!quotient_ok(s@[yy - 1], q as int));
                if quotients_fit(s@, from as int, to as int, q as int) {
                    lemma_fit_at(s@, from as int, to as int, q as int, yy);
                }
            }
            return None;
        }
        let d = quotient(x, q);
        let next = match average.checked_add(d) {
            Some(v) => v,
            None => {
                proof {
                    let yy = y as int + 1;
                    assert(!(i16::MIN <= sum_of_quotients(s@, from as int, yy, q as int) <= i16::MAX));
                    if quotients_fit(s@, from as int, to as int, q as int) {
                        assert(i16::MIN <= sum_of_quotients(s@, from as int, yy, q as int) <= i16::MAX);
                    }
                }
                return None;
            },
        };
        assert(sum_of_quotients(s@, from as int, y + 1, q as int) == next);
        assert forall|z: int| from < z <= y + 1 implies quotient_ok(s@[z - 1], q as int)
            && i16::MIN <= #[trigger] sum_of_quotients(s@, from as int, z, q as int) <= i16::MAX by {
            if z <= y {
                assert(quotients_fit(s@, from as int, y as int, q as int));
            }
        }
        average = next;
        y = y + 1;
    }
    Some(average)
}

/// The smoothed value of sample `i` (not an end), or `None` when computing
/// it overflows (see `window_fits`).
fn window_average(s: &Vec<i16>, m: usize, i: usize) -> (r: Option<i16>)
    requires
        m % 2 == 1,
        1 <= i < s@.len() - 1,
        smoothing_in_bounds(s@.len() as int, m as int),
    ensures
        r is Some <==> window_fits(s@, m as int, i as int),
        r is Some ==> r->0 == smoothed(s@, m as int)[i as int],
{
    let len = s.len();
    let dist = (m - 1) / 2;
    if i < dist {
        let n = 2 * i + 1;
        let q = divisor(n);
        let mut y: usize = 0;
        while y < n
            invariant
                n == 2 * i + 1,
                n <= len,
                len == s@.len(),
                y <= n,
                m % 2 == 1,
                i < (m - 1) / 2,
                q == wrap16(n as int),
                forall|z: int| 0 <= z < y ==> #[trigger] quotient_ok(s@[z], wrap16(2 * i + 1)),
            decreases n - y,
        {
            let x = s[y];
            if q == 0 || (x == i16::MIN && q == -1) {
                proof {
                    let yy = y as int;
                    let ii = i as int;
                    assert(!quotient_ok(s@[yy], wrap16(2 * ii + 1)));
                    assert(ii < (m as int - 1) / 2);
                    if window_fits(s@, m as int, ii) {
                        assert(quotient_ok(s@[yy], wrap16(2 * ii + 1)));
                    }
                }
                return None;
            }
            let _ = quotient(x, q);
            y = y + 1;
        }
        Some(0)
    } else if dist > len - 1 - i {
        let d = len - 1 - i;
        let n = 2 * d + 1;
        quotient_sum(s, i - d, len, divisor(n))
    } else {
        quotient_sum(s, i - dist, i + dist + 1, divisor(m))
    }
}

/// Smooths the signal with a moving average over `m` samples (see
/// `smoothed`), or `None` where the smoothing loop would fail: `m` even,
/// an empty signal, a window cut short at the start that reaches past the
/// end of the signal, or an overflow (see `smoothing_fits`).
pub fn lissage_mobile_checked(samples: Vec<i16>, m: usize) -> (r: Option<Vec<i16>>)
    ensures
        r is Some <==> (m % 2 == 1 && samples@.len() >= 1 && smoothing_in_bounds(samples@.len() as int, m as int)
            && smoothing_fits(samples@, m as int)),
        r is Some ==> r->0@ == smoothed(samples@, m as int),
{
    if m % 2 != 1 || samples.len() == 0 {
        return None;
    }
    let dist = (m - 1) / 2;
    let s = &samples;
    let len = s.len();
    let half = len - len / 2;
    assert(half == (len + 1) / 2);
    if !(half + 1 >= len || half >= dist) {
        return None;
    }
    let mut res: Vec<i16> = Vec::new();
    let mut k: usize = 0;
    while k < len
        invariant
            k <= len,
            res@.len() == k,
        decreases len - k,
    {
        res.push(0);
        k = k + 1;
    }
    let mut i: usize = 1;
    while i < len - 1
        invariant
            len == s@.len(),
            s@ == samples@,
            len >= 1,
            m % 2 == 1,
            1 <= i,
            i <= len - 1 || len == 1,
            res@.len() == len,
            smoothing_in_bounds(len as int, m as int),
            forall|q: int| 1 <= q < i ==> #[trigger] window_fits(s@, m as int, q),
            forall|q: int| 1 <= q < i && q < len - 1 ==> res@[q] == smoothed(s@, m as int)[q],
        decreases len - i,
    {
        let average = match window_average(s, m, i) {
            Some(v) => v,
            None => {
                proof {
                    let ii = i as int;
                    assert(!window_fits(s@, m as int, ii));
                    assert(1 <= ii < s@.len() - 1);
                    assert(!smoothing_fits(s@, m as int));
                }
                return None;
            },
        };
        res.set(i, average);
        i = i + 1;
    }
    let first = s[0];
    res.set(0, first);
    let last = s[len - 1];
    res.set(len - 1, last);
    assert(res@ =~= smoothed(s@, m as int));
    Some(res)
}

/// Smooths the signal with a moving average over `m` samples (see
/// `smoothed`); `m` must be odd. Any odd window below `2^15` samples
/// smooths without overflow (see `lemma_small_window_smoothing_fits`).
pub fn lissage_mobile(samples: Vec<i16>, m: usize) -> (r: Vec<i16>)
    requires
        m % 2 == 1,
        samples@.len() >= 1,
        smoothing_in_bounds(samples@.len() as int, m as int),
        smoothing_fits(samples@, m as int),
    ensures
        r@ == smoothed(samples@, m as int),
{
    match lissage_mobile_checked(samples, m) {
        Some(r) => r,
        None => Vec::new(),
    }
}


/// The vectors that start a period-`l_freq` scan at `current_sample`: three
/// vectors of `l_freq + 1` entries, all 0 but the last, which holds the
/// energy, the lag correlation and the energy minus twice the correlation
/// of the window at `current_sample` (see `init_l_bis`).
pub fn init_l(s: Vec<i16>, l_freq: i64, dist: i64, current_sample: i64) -> (r: (Vec<i64>, Vec<i64>, Vec<i64>))
    requires
        0 <= l_freq <= 0xFFFF_FFFF,
        current_sample + 2 * l_freq <= i64::MAX,
        l_freq > 0 ==> l_freq <= current_sample && current_sample + 2 * l_freq <= s@.len(),
        l_freq >= 0x7FFF_FFFF ==> i64::MIN <= sum_sq(s@, current_sample as int, current_sample + 2 * l_freq)
            - 2 * sum_lag(s@, current_sample as int, current_sample + l_freq, l_freq as int) <= i64::MAX,
    ensures
        r.0@.len() == l_freq + 1,
        r.1@.len() == l_freq + 1,
        r.2@.len() == l_freq + 1,
        forall|i: int| 0 <= i < l_freq ==> r.0@[i] == 0 && r.1@[i] == 0 && r.2@[i] == 0,
        r.0@[l_freq as int] == sum_sq(s@, current_sample as int, current_sample + 2 * l_freq),
        r.1@[l_freq as int] == sum_lag(s@, current_sample as int, current_sample + l_freq, l_freq as int),
        r.2@[l_freq as int] == r.0@[l_freq as int] - 2 * r.1@[l_freq as int],
{
    let mut e: Vec<i64> = Vec::new();
    let mut h: Vec<i64> = Vec::new();
    let mut res2: Vec<i64> = Vec::new();
    let mut i: i64 = 0;
    while i <= l_freq
        invariant
            0 <= i <= l_freq + 1,
            l_freq <= 0xFFFF_FFFF,
            e@.len() == i,
            h@.len() == i,
            res2@.len() == i,
            forall|k: int| 0 <= k < i ==> e@[k] == 0 && h@[k] == 0 && res2@[k] == 0,
        decreases l_freq + 1 - i,
    {
        e.push(0);
        h.push(0);
        res2.push(0);
        i = i + 1;
    }
    let ind = l_freq as usize;
    let (a, b, c) = init_l_bis(s, l_freq, current_sample);
    e.set(ind, a);
    h.set(ind, b);
    res2.set(ind, c);
    (e, h, res2)
}

/// Where the period-`l` scan of a signal of `len` samples stops.
pub open spec fn scan_end(len: int, l: int) -> int {
    len - 2 * l - 1
}

/// `x` if positive, else 0.
pub open spec fn positive_part(x: int) -> int {
    if x > 0 { x } else { 0 }
}

/// Energy of the period-`l` scan at position `c`, the window having been
/// set up at position `r`: the energy of the `2·l` samples from `r`, minus
/// the squares of the samples from `r` to `c`, plus the squares of the
/// samples `l + 1` after those.
pub open spec fn scan_energy(s: Seq<i16>, l: int, r: int, c: int) -> int {
    sum_sq(s, r, r + 2 * l) - sum_sq(s, r, c) + sum_sq(s, r + l + 1, c + l + 1)
}

/// Lag-`l` correlation of the scan at position `c`, set up at `r`.
pub open spec fn scan_corr(s: Seq<i16>, l: int, r: int, c: int) -> int {
    sum_lag(s, r, r + l, l) - sum_lag(s, r, c, l) + sum_lag(s, r + l + 1, c + l + 1, l)
}

/// Energy minus twice the correlation.
pub open spec fn scan_period(s: Seq<i16>, l: int, r: int, c: int) -> int {
    scan_energy(s, l, r, c) - 2 * scan_corr(s, l, r, c)
}

/// Whether the scan finds period `l` at position `c`.
pub open spec fn scan_hit(s: Seq<i16>, eps: int, l: int, r: int, c: int) -> bool {
    scan_period(s, l, r, c) * eps <= scan_energy(s, l, r, c) && scan_period(s, l, r, c) > 0
}

/// `ch` with the entries from `a` to `b` (excluded) set to 1.
pub open spec fn set_ones(ch: Seq<i16>, a: int, b: int) -> Seq<i16> {
    Seq::new(ch.len(), |i: int| if a <= i < b { 1i16 } else { ch[i] })
}

/// A scan of period 0 set up at `c` finds nothing there: its running sums
/// are all 0.
pub proof fn lemma_zero_period_at_setup(s: Seq<i16>, eps: int, c: int)
    ensures
        !scan_hit(s, eps, 0, c, c),
{
    assert(scan_period(s, 0, c, c) == 0);
}

/// The marks the period-`l` scan leaves, going on from position `c` with
/// its window set up at `r`: where the period is found, the `l` samples
/// from there are marked 1 and the scan sets up again `l` samples later;
/// elsewhere it slides by one.
pub open spec fn marks_from(s: Seq<i16>, eps: int, l: int, r: int, c: int, ch: Seq<i16>) -> Seq<i16>
    decreases positive_part(scan_end(s.len() as int, l) - c), (if r == c { 0int } else { 1int }),
{
    if l < 0 || c >= scan_end(s.len() as int, l) {
        ch
    } else if scan_hit(s, eps, l, r, c) {
        proof {
            if l == 0 && r == c {
                lemma_zero_period_at_setup(s, eps, c);
            }
        }
        marks_from(s, eps, l, c + l, c + l, set_ones(ch, c, c + l))
    } else {
        marks_from(s, eps, l, r, c + 1, ch)
    }
}

/// Whether, along the whole scan from position `c` set up at `r`, `eps`
/// times the periodicity fits in 64 bits.
pub open spec fn scan_fits(s: Seq<i16>, eps: int, l: int, r: int, c: int) -> bool
    decreases positive_part(scan_end(s.len() as int, l) - c), (if r == c { 0int } else { 1int }),
{
    if l < 0 || c >= scan_end(s.len() as int, l) {
        true
    } else {
        &&& i64::MIN <= scan_period(s, l, r, c) * eps <= i64::MAX
        &&& if scan_hit(s, eps, l, r, c) {
            proof {
                if l == 0 && r == c {
                    lemma_zero_period_at_setup(s, eps, c);
                }
            }
            scan_fits(s, eps, l, c + l, c + l)
        } else {
            scan_fits(s, eps, l, r, c + 1)
        }
    }
}

/// What a period-`l` scan of `s` needs: a period of at least 0 whose
/// first window fits in the signal and whose running sums fit in 64 bits,
/// a mark vector long enough for every mark, and `eps` times every
/// periodicity met fitting in 64 bits.
pub open spec fn period_scan_fits(s: Seq<i16>, eps: int, l: int, marks_len: int) -> bool {
    &&& period_scan_sized(s, l, marks_len)
    &&& scan_fits(s, eps, l, l, l)
}

/// What a period-`l` scan of `s` needs besides `eps` times each
/// periodicity fitting in 64 bits (see `period_scan_fits`).
pub open spec fn period_scan_sized(s: Seq<i16>, l: int, marks_len: int) -> bool {
    &&& 0 <= l < 0x7FFF_FFFF
    &&& 3 * l <= s.len() <= i64::MAX
    &&& marks_len + l + 2 >= s.len()
}

/// Sums of squares add up over consecutive ranges.
proof fn lemma_sq_split(s: Seq<i16>, a: int, m: int, b: int)
    requires
        a <= m <= b,
    ensures
        sum_sq(s, a, b) == sum_sq(s, a, m) + sum_sq(s, m, b),
    decreases b - m,
{
    if b > m {
        lemma_sq_split(s, a, m, b - 1);
    }
}

/// Sums of lagged products add up over consecutive ranges.
proof fn lemma_lag_split(s: Seq<i16>, a: int, m: int, b: int, l: int)
    requires
        a <= m <= b,
    ensures
        sum_lag(s, a, b, l) == sum_lag(s, a, m, l) + sum_lag(s, m, b, l),
    decreases b - m,
{
    if b > m {
        lemma_lag_split(s, a, m, b - 1, l);
    }
}

/// The running sums of a period-`l` scan stay those of windows of about
/// `2·l` samples, however far the scan has slid: the energy is a sum of
/// `2·l` squares and the correlation a signed sum of at most `l + 2`
/// products.
pub(crate) proof fn lemma_scan_values(s: Seq<i16>, l: int, r: int, c: int)
    requires
        0 <= l,
        r <= c,
    ensures
        -0x4000_0000 <= scan_energy(s, l, r, c) <= (2 * l + 1) * 0x4000_0000,
        -((l + 2) * 0x4000_0000) <= scan_corr(s, l, r, c) <= (l + 2) * 0x4000_0000,
{
    if l == 0 {
        lemma_sq_split(s, r, c, c + 1);
        lemma_sq_split(s, r, r + 1, c + 1);
        lemma_sum_bounds(s, c, c + 1, l);
        lemma_sum_bounds(s, r, r + 1, l);
        lemma_lag_split(s, r, c, c + 1, l);
        lemma_lag_split(s, r, r + 1, c + 1, l);
        lemma_sum_bounds(s, r, c, l);
    } else if c <= r + 2 * l {
        lemma_sq_split(s, r, c, r + 2 * l);
        lemma_sum_bounds(s, c, r + 2 * l, l);
        lemma_sum_bounds(s, r + l + 1, c + l + 1, l);
    } else {
        lemma_sq_split(s, r, r + 2 * l, c);
        lemma_sq_split(s, r + l + 1, r + 2 * l, c + l + 1);
        lemma_sq_split(s, r + 2 * l, c, c + l + 1);
        lemma_sum_bounds(s, r + l + 1, r + 2 * l, l);
        lemma_sum_bounds(s, c, c + l + 1, l);
    }
    if l == 0 {
    } else if c <= r + l {
        lemma_lag_split(s, r, c, r + l, l);
        lemma_sum_bounds(s, c, r + l, l);
        lemma_sum_bounds(s, r + l + 1, c + l + 1, l);
    } else {
        lemma_lag_split(s, r, r + l, c, l);
        lemma_lag_split(s, r + l, r + l + 1, c, l);
        lemma_lag_split(s, r + l + 1, c, c + l + 1, l);
        lemma_sum_bounds(s, r + l, r + l + 1, l);
        lemma_sum_bounds(s, c, c + l + 1, l);
    }
}

/// The period-`l_freq` scan (see `change_amp_freq`), which stops with
/// `None` at the first periodicity that, times `eps`, does not fit in 64
/// bits.
pub fn period_scan(s: &Vec<i16>, eps: i64, l_freq: i64, dist: i64, change: Vec<i16>) -> (r: Option<Vec<i16>>)
    requires
        period_scan_sized(s@, l_freq as int, change@.len() as int),
    ensures
        r is Some <==> scan_fits(s@, eps as int, l_freq as int, l_freq as int, l_freq as int),
        r is Some ==> r->0@ == marks_from(s@, eps as int, l_freq as int, l_freq as int, l_freq as int, change@),
{
    let mut change = change;
    let ghost ch0 = change@;
    let n = s.len();
    let l = l_freq;
    let mut current_sample: i64 = l;
    let end_sample: i64 = n as i64 - 2 * l - 1;
    let (mut e, mut h, mut res2) = init_l(s.clone(), l, dist, current_sample);
    let ghost mut r: int = l as int;
    let ind = l as usize;
    while current_sample < end_sample
        invariant
            n == s@.len(),
            0 <= l < 0x7FFF_FFFF,
            3 * l <= n <= i64::MAX,
            ind == l,
            change@.len() + l + 2 >= n,
            end_sample == scan_end(n as int, l as int),
            l <= r <= current_sample,
            current_sample <= n,
            current_sample < end_sample ==> r + 2 * l <= n,
            e@.len() == l + 1,
            h@.len() == l + 1,
            res2@.len() == l + 1,
            current_sample < end_sample ==> e@[ind as int] == scan_energy(s@, l as int, r, current_sample as int),
            current_sample < end_sample ==> h@[ind as int] == scan_corr(s@, l as int, r, current_sample as int),
            current_sample < end_sample ==> res2@[ind as int] == scan_period(s@, l as int, r, current_sample as int),
            l == l_freq,
            scan_fits(s@, eps as int, l as int, l as int, l as int) == scan_fits(s@, eps as int, l as int, r, current_sample as int),
            marks_from(s@, eps as int, l as int, r, current_sample as int, change@)
                == marks_from(s@, eps as int, l as int, l as int, l as int, ch0),
        decreases positive_part(end_sample - current_sample), (if r == current_sample { 0int } else { 1int }),
    {
        proof {
            lemma_scan_values(s@, l as int, r, current_sample as int);
            lemma_scan_values(s@, l as int, r, current_sample + 1);
            assert((2 * l + 1) * 0x4000_0000 + 2 * ((l + 2) * 0x4000_0000) + 0x8000_0000 <= i64::MAX) by (nonlinear_arith)
                requires 0 <= l < 0x7FFF_FFFF;
            if l == 0 && r == current_sample {
                lemma_zero_period_at_setup(s@, eps as int, current_sample as int);
            }
        }
        let p = match res2[ind].checked_mul(eps) {
            Some(p) => p,
            None => {
                proof {
                    assert(!(i64::MIN <= scan_period(s@, l as int, r, current_sample as int) * eps <= i64::MAX));
                    assert(!scan_fits(s@, eps as int, l as int, r, current_sample as int));
                }
                return None;
            },
        };
        if p <= e[ind] && res2[ind] > 0 {
            let ghost before = change@;
            let mut i = current_sample;
            while i < current_sample + l
                invariant
                    current_sample <= i <= current_sample + l,
                    0 <= l,
                    0 <= current_sample,
                    current_sample + 2 * l + 1 < n,
                    n <= i64::MAX,
                    change@.len() == before.len(),
                    before.len() + l + 2 >= n,
                    forall|k: int| 0 <= k < before.len() ==> change@[k] == (if current_sample <= k < i { 1i16 } else { before[k] }),
                decreases current_sample + l - i,
            {
                change.set(i as usize, 1);
                i = i + 1;
            }
            assert(change@ =~= set_ones(before, current_sample as int, current_sample + l));
            current_sample = current_sample + l;
            if current_sample < end_sample {
                let (e2, h2, r2) = init_l(s.clone(), l, dist, current_sample);
                e = e2;
                h = h2;
                res2 = r2;
            }
            proof {
                r = current_sample as int;
            }
        } else {
            let c = current_sample as usize;
            let ind3 = c + ind + 1;
            let e0 = e[ind];
            let e1 = e0 - square(s[c]);
            let e2 = e1 + square(s[ind3]);
            e.set(ind, e2);
            let h0 = h[ind];
            let h1 = h0 - product(s[c], s[c - ind]);
            let h2 = h1 + product(s[ind3], s[ind3 - ind]);
            h.set(ind, h2);
            res2.set(ind, e2 - 2 * h2);
            current_sample = current_sample + 1;
        }
    }
    Some(change)
}

/// The smallest and largest periods, in samples at 44100 Hz, between two frequencies.
pub open spec fn period_bounds(freq_min: int, freq_max: int) -> (int, int) {
    (44100int / freq_max - 1, 44100int / freq_min + 1)
}

/// The marks that the scans for every period from `lo` up to `hi` leave,
/// one after the other, starting from `ch`.
pub open spec fn marks_for_periods(s: Seq<i16>, eps: int, lo: int, hi: int, ch: Seq<i16>) -> Seq<i16>
    decreases hi - lo + 1,
{
    if lo > hi {
        ch
    } else {
        marks_for_periods(s, eps, lo + 1, hi, marks_from(s, eps, lo, lo, lo, ch))
    }
}

pub(crate) proof fn lemma_marks_len(s: Seq<i16>, eps: int, l: int, r: int, c: int, ch: Seq<i16>)
    ensures
        marks_from(s, eps, l, r, c, ch).len() == ch.len(),
    decreases positive_part(scan_end(s.len() as int, l) - c), (if r == c { 0int } else { 1int }),
{
    if l < 0 || c >= scan_end(s.len() as int, l) {
    } else if scan_hit(s, eps, l, r, c) {
        if l == 0 && r == c {
            lemma_zero_period_at_setup(s, eps, c);
        }
        lemma_marks_len(s, eps, l, c + l, c + l, set_ones(ch, c, c + l));
    } else {
        lemma_marks_len(s, eps, l, r, c + 1, ch);
    }
}

/// Scans the signal for period `l_freq` (see `marks_from`) and marks in
/// `change` the samples where the period is found.
pub fn change_amp_freq(s: Vec<i16>, eps: i64, l_freq: i64, dist: i64, change: Vec<i16>) -> (r: Vec<i16>)
    requires
        period_scan_fits(s@, eps as int, l_freq as int, change@.len() as int),
    ensures
        r@ == marks_from(s@, eps as int, l_freq as int, l_freq as int, l_freq as int, change@),
{
    match period_scan(&s, eps, l_freq, dist, change) {
        Some(v) => v,
        None => Vec::new(),
    }
}

/// `44100 / f`, rounded toward zero.
fn rate_over(f: i64) -> (r: i64)
    requires
        f != 0,
    ensures
        r == 44100int / (f as int),
        -44100 <= r <= 44100,
{
    if f > 0 {
        44100 / f
    } else if f == i64::MIN {
        0
    } else {
        let q = 44100 / (-f);
        proof {
            let a = -(f as int);
            assert(44100int / (f as int) == -(44100int / a)) by (nonlinear_arith)
                requires a > 0, f == -a;
        }
        -q
    }
}

/// The equalizer's marks as `egaliseur_marks` gives them, or `None` when
/// a period of the range cannot be scanned: negative, of 2^31 - 1 samples
/// or more, with its first windows past the end of the signal, or meeting
/// a periodicity that, times `eps`, does not fit in 64 bits (see
/// `period_scan_fits`). A period of 0 marks nothing.
pub fn egaliseur_marks_checked(s: &Vec<i16>, eps: i64, freq_min: i64, freq_max: i64) -> (r: Option<Vec<i16>>)
    requires
        freq_min != 0,
        freq_max != 0,
    ensures
        r is Some <==> forall|l: int| period_bounds(freq_min as int, freq_max as int).0 <= l <= period_bounds(freq_min as int, freq_max as int).1
            ==> #[trigger] period_scan_fits(s@, eps as int, l, s@.len() as int),
        r is Some ==> r->0@ == marks_for_periods(
            s@,
            eps as int,
            period_bounds(freq_min as int, freq_max as int).0,
            period_bounds(freq_min as int, freq_max as int).1,
            Seq::new(s@.len(), |i: int| 0i16),
        ),
{
    let mut change: Vec<i16> = Vec::new();
    let n = s.len();
    let mut k: usize = 0;
    while k < n
        invariant
            k <= n,
            change@ =~= Seq::new(k as nat, |i: int| 0i16),
        decreases n - k,
    {
        change.push(0);
        k = k + 1;
    }
    let l_freq_min: i64 = rate_over(freq_min) + 1;
    let l_freq_max: i64 = rate_over(freq_max) - 1;
    let ghost ch0 = change@;
    let mut i = l_freq_max;
    while i <= l_freq_min
        invariant
            n == s@.len(),
            i == l_freq_max || l_freq_max <= i <= l_freq_min + 1,
            l_freq_min == period_bounds(freq_min as int, freq_max as int).1,
            l_freq_max == period_bounds(freq_min as int, freq_max as int).0,
            change@.len() == n,
            forall|l: int| l_freq_max <= l < i ==> #[trigger] period_scan_fits(s@, eps as int, l, s@.len() as int),
            marks_for_periods(s@, eps as int, i as int, l_freq_min as int, change@)
                == marks_for_periods(s@, eps as int, l_freq_max as int, l_freq_min as int, ch0),
        decreases l_freq_min + 1 - i,
    {
        if i < 0 || i >= 0x7FFF_FFFF || (n as u64) > 0x7FFF_FFFF_FFFF_FFFFu64 || i > (n / 3) as i64 {
            assert(!period_scan_fits(s@, eps as int, i as int, s@.len() as int));
            return None;
        }
        proof {
            lemma_marks_len(s@, eps as int, i as int, i as int, i as int, change@);
        }
        change = match period_scan(s, eps, i, 0, change) {
            Some(v) => v,
            None => {
                assert(!period_scan_fits(s@, eps as int, i as int, s@.len() as int));
                return None;
            },
        };
        i = i + 1;
    }
    Some(change)
}

/// The equalizer's marks: scans the signal for every period between the
/// ones of `freq_max` and `freq_min` (see `period_bounds`) and marks the
/// samples where one is found; the marked samples are the ones the
/// equalizer amplifies.
pub fn egaliseur_marks(s: Vec<i16>, eps: i64, freq_min: i64, freq_max: i64) -> (r: Vec<i16>)
    requires
        freq_min != 0,
        freq_max != 0,
        forall|l: int| period_bounds(freq_min as int, freq_max as int).0 <= l <= period_bounds(freq_min as int, freq_max as int).1
            ==> #[trigger] period_scan_fits(s@, eps as int, l, s@.len() as int),
    ensures
        r@ == marks_for_periods(
            s@,
            eps as int,
            period_bounds(freq_min as int, freq_max as int).0,
            period_bounds(freq_min as int, freq_max as int).1,
            Seq::new(s@.len(), |i: int| 0i16),
        ),
{
    match egaliseur_marks_checked(&s, eps, freq_min, freq_max) {
        Some(v) => v,
        None => Vec::new(),
    }
}

} // verus!
