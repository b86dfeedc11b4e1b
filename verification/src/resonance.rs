use vstd::prelude::*;

verus! {

/// Delay between a sample and its echo, in samples (a quarter second at 44100 Hz).
pub const ECHO_DELAY: usize = 11025;

/// `x / d` rounded toward zero.
pub open spec fn div_toward_zero(x: int, d: int) -> int {
    if x >= 0 { x / d } else { -((-x) / d) }
}

/// `v` clamped to the range of a sample.
pub open spec fn clamp_i16(v: int) -> i16 {
    if v > i16::MAX { i16::MAX } else if v < i16::MIN { i16::MIN } else { v as i16 }
}

/// A sample plus an echo attenuated by `1 / att`: `x + e / att`, rounded
/// toward zero and clamped.
pub open spec fn with_echo(x: i16, e: i16, att: int) -> i16 {
    clamp_i16(div_toward_zero(att * x + e, att))
}

/// The echoed signal: one echo a delay later at half volume, a second echo
/// two delays later at a quarter volume; where both reach a sample, only
/// the second one is heard, since each pass writes from the dry signal.
pub open spec fn echoed(s: Seq<i16>) -> Seq<i16> {
    Seq::new(s.len(), |i: int|
        if i >= 2 * ECHO_DELAY {
            with_echo(s[i], s[i - 2 * ECHO_DELAY], 4)
        } else if i >= ECHO_DELAY {
            with_echo(s[i], s[i - ECHO_DELAY], 2)
        } else {
            s[i]
        })
}

/// One echoed sample, computed exactly as a 32-bit float sum of `x` and
/// `e / att` for `att` 2 or 4 would be, then turned back into a sample.
fn echo_sample(x: i16, e: i16, att: i32) -> (r: i16)
    requires
        att == 2 || att == 4,
    ensures
        r == with_echo(x, e, att as int),
{
    let v: i32 = att * (x as i32) + (e as i32);
    let q: i32 = if v >= 0 { v / att } else { -((-v) / att) };
    if q > 32767 {
        i16::MAX
    } else if q < -32768 {
        i16::MIN
    } else {
        q as i16
    }
}

/// Adds a resonance: each sample is repeated a quarter second later at
/// half volume, then half a second later at a quarter volume (see `echoed`).
pub fn reso_echo(samples: Vec<i16>) -> (res: Vec<i16>)
    ensures
        res@ == echoed(samples@),
{
    let cop = samples.clone();
    let mut res = cop.clone();
    let n = samples.len();
    let mut attenuation: i32 = 2;
    let mut rep: usize = 1;
    while rep <= 2
        invariant
            n == samples@.len(),
            cop@ == samples@,
            res@.len() == n,
            1 <= rep <= 3,
            attenuation == (if rep == 1 { 2i32 } else { 4i32 }) || rep == 3,
            forall|i: int| 0 <= i < n ==> res@[i] == (
                if rep >= 3 && i >= 2 * ECHO_DELAY {
                    with_echo(samples@[i], samples@[i - 2 * ECHO_DELAY], 4)
                } else if rep >= 2 && i >= ECHO_DELAY {
                    with_echo(samples@[i], samples@[i - ECHO_DELAY], 2)
                } else {
                    samples@[i]
                }),
        decreases 3 - rep,
    {
        let delay = ECHO_DELAY * rep;
        let mut i: usize = 0;
        while i < n
            invariant
                n == samples@.len(),
                cop@ == samples@,
                res@.len() == n,
                1 <= rep <= 2,
                delay == ECHO_DELAY * rep,
                attenuation == (if rep == 1 { 2i32 } else { 4i32 }),
                i <= n,
                forall|k: int| 0 <= k < n ==> res@[k] == (
                    if k >= delay && k - delay < i {
                        with_echo(samples@[k], samples@[k - delay], attenuation as int)
                    } else if rep >= 2 && k >= ECHO_DELAY {
                        with_echo(samples@[k], samples@[k - ECHO_DELAY], 2)
                    } else {
                        samples@[k]
                    }),
            decreases n - i,
        {
            if delay <= n && i < n - delay {
                let echo_index = i + delay;
                let v = echo_sample(cop[echo_index], cop[i], attenuation);
                res.set(echo_index, v);
            }
            i = i + 1;
        }
        attenuation = attenuation * 2;
        rep = rep + 1;
    }
    assert(res@ =~= echoed(samples@));
    res
}

} // verus!
