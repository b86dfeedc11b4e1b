use vstd::prelude::*;

verus! {

/// Length, in samples at 44100 Hz, of one period of a frequency given as a
/// 16-bit number: `44100 / f`; a negative frequency, read as a huge
/// unsigned number, gives 0.
pub open spec fn period_samples(f: i16) -> int {
    if f > 0 { 44100int / (f as int) } else { 0 }
}

/// Period of a frequency in samples (see `period_samples`).
fn period_of(f: i16) -> (r: usize)
    requires
        f != 0,
    ensures
        r == period_samples(f),
        r <= 44100,
{
    if f > 0 {
        let d = f as usize;
        44100 / d
    } else {
        0
    }
}

/// Retuning a sound from `freq` to `note`: the length it must be brought
/// to, `len · period(note) / period(freq)`, and whether that means
/// stretching it (the length is below the target) rather than shrinking it.
pub fn tune_target(len: usize, freq: i16, note: i16) -> (r: (usize, bool))
    requires
        note != 0,
        0 < freq,
        len * period_samples(note) <= usize::MAX,
    ensures
        r.0 == len * period_samples(note) / period_samples(freq),
        r.1 == (len < r.0),
{
    let l_note = period_of(note);
    let l_freq = period_of(freq);
    assert(l_freq >= 1) by {
        assert(44100int / (freq as int) >= 1) by (nonlinear_arith)
            requires 0 < freq <= 32767;
    }
    let n = (len * l_note) / l_freq;
    (n, len < n)
}

} // verus!
