use vstd::prelude::*;

verus! {

/// The signal with every sample at an even position (left channel of an
/// interleaved stereo signal) set to zero.
pub open spec fn right_only(s: Seq<i16>) -> Seq<i16> {
    Seq::new(s.len(), |i: int| if i % 2 == 0 { 0i16 } else { s[i] })
}

/// Silences the left channel: every sample at an even position becomes 0.
pub fn right_wav(samples: Vec<i16>) -> (r: Vec<i16>)
    ensures
        r@ == right_only(samples@),
{
    let mut samp_cop = samples.clone();
    let n = samp_cop.len();
    let mut i: usize = 0;
    while i < n
        invariant
            n == samp_cop@.len(),
            n == samples@.len(),
            i <= n,
            forall|k: int| 0 <= k < i ==> samp_cop@[k] == right_only(samples@)[k],
            forall|k: int| i <= k < n ==> samp_cop@[k] == samples@[k],
        decreases n - i,
    {
        if i % 2 == 0 {
            samp_cop.set(i, 0);
        }
        i = i + 1;
    }
    assert(samp_cop@ =~= right_only(samples@));
    samp_cop
}

} // verus!
