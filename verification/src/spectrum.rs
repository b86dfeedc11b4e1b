use vstd::prelude::*;
use crate::random::random_in_range;
use crate::wav::{pair_up, stereo_pairs};

verus! {

/// The smallest power of two that is at least `p` times a power of two
/// and at least `len`, starting the search from `p`.
pub open spec fn power_at_least(len: nat, p: nat) -> nat
    decreases len - p,
    when p >= 1
{
    if p >= len { p } else if 2 * p >= len { 2 * p } else { power_at_least(len, 2 * p) }
}

/// The length that zero-free padding brings a signal of `len` samples to:
/// the smallest power of two, 2 or more, that is at least `len`.
pub open spec fn padded_len(len: nat) -> nat {
    power_at_least(len, 2)
}

proof fn lemma_power_at_least(len: nat, p: nat)
    requires
        p >= 1,
    ensures
        power_at_least(len, p) >= len,
        power_at_least(len, p) >= p,
        power_at_least(len, p) == p || power_at_least(len, p) < 2 * len,
    decreases len - p,
{
    if p < len && 2 * p < len {
        lemma_power_at_least(len, 2 * p);
    }
}

/// A padded length is at most twice the length, and at least 2.
pub proof fn lemma_padded_len_bound(len: nat)
    ensures
        len <= padded_len(len),
        padded_len(len) <= 2 * len || padded_len(len) == 2,
{
    lemma_power_at_least(len, 2);
}

/// Padding a signal of more than 16384 samples gives at least 32768.
pub proof fn lemma_padded_len_large(len: nat, p: nat)
    requires
        p == 2 || p == 4 || p == 8 || p == 16 || p == 32 || p == 64 || p == 128 || p == 256 || p == 512
            || p == 1024 || p == 2048 || p == 4096 || p == 8192 || p == 16384 || p == 32768,
    ensures
        len > 16384 ==> power_at_least(len, p) >= 32768,
    decreases 32768 - p,
{
    lemma_power_at_least(len, p);
    if p < len && 2 * p < len && p < 32768 {
        lemma_padded_len_large(len, 2 * p);
    }
}

/// Interleaved stereo samples grouped by pairs `[left, right]`; the last
/// pair is not emitted (see `stereo_pairs`).
pub fn formated_samples(samples: Vec<i16>) -> (r: Vec<[i16; 2]>)
    ensures
        r@ == stereo_pairs(samples@),
{
    pair_up(&samples)
}

/// Pads the signal up to `padded_len` of its length with random samples
/// drawn from `[100, 200)`; returns how many samples were added.
pub fn nextpower(samples: &mut Vec<i16>) -> (cpt: u64)
    requires
        old(samples)@.len() <= 0x1000_0000_0000_0000,
        2 * old(samples)@.len() <= usize::MAX,
    ensures
        final(samples)@.len() == padded_len(old(samples)@.len()),
        final(samples)@.take(old(samples)@.len() as int) == old(samples)@,
        forall|i: int| old(samples)@.len() <= i < final(samples)@.len() ==> 100 <= #[trigger] final(samples)@[i] < 200,
        cpt == final(samples)@.len() - old(samples)@.len(),
{
    let len = samples.len();
    let mut threshold: u64 = 2;
    proof {
        lemma_power_at_least(len as nat, 2);
    }
    while threshold < len as u64
        invariant
            len == old(samples)@.len(),
            len <= 0x1000_0000_0000_0000,
            threshold >= 2,
            threshold < 2 * len || threshold == 2,
            power_at_least(len as nat, threshold as nat) == padded_len(len as nat),
        decreases 2 * len - threshold,
    {
        threshold = threshold * 2;
    }
    proof {
        lemma_power_at_least(len as nat, threshold as nat);
    }
    let treshold = threshold as usize;
    let mut cpt: u64 = 0;
    while samples.len() < treshold
        invariant
            len == old(samples)@.len(),
            treshold == padded_len(len as nat),
            treshold >= len,
            treshold <= 2 * len || treshold == 2,
            2 * len <= usize::MAX,
            len <= samples@.len() <= treshold,
            samples@.take(len as int) == old(samples)@,
            forall|i: int| len <= i < samples@.len() ==> 100 <= #[trigger] samples@[i] < 200,
            cpt == samples@.len() - len,
        decreases treshold - samples@.len(),
    {
        let r = random_in_range(100, 200) as i16;
        let ghost before = samples@;
        samples.push(r);
        assert(samples@.take(len as int) =~= before.take(len as int));
        cpt = cpt + 1;
    }
    cpt
}

/// The signal followed by its first `n` samples, the samples appended so
/// far counting as part of the signal (so the signal repeats cyclically).
pub open spec fn completed(s: Seq<i16>, n: nat) -> Seq<i16> {
    s + Seq::new(n, |k: int| s[k % (s.len() as int)])
}

/// Appends `n` samples, the `k`-th being the sample at index `k`.
pub fn complete_samples(samples: &mut Vec<i16>, n: u64)
    requires
        old(samples)@.len() > 0 || n == 0,
        old(samples)@.len() + n <= usize::MAX,
    ensures
        final(samples)@ == completed(old(samples)@, n as nat),
{
    let ghost s0 = samples@;
    let len0 = samples.len();
    let mut cpt: u64 = 0;
    while cpt < n
        invariant
            len0 == s0.len(),
            len0 > 0 || n == 0,
            len0 + n <= usize::MAX,
            cpt <= n,
            samples@ =~= completed(s0, cpt as nat),
        decreases n - cpt,
    {
        proof {
            let k = cpt as int;
            if k >= len0 {
                assert(k % (len0 as int) == (k - len0) % (len0 as int)) by (nonlinear_arith)
                    requires k >= len0, len0 > 0;
            } else {
                assert(k % (len0 as int) == k) by (nonlinear_arith)
                    requires 0 <= k < len0;
            }
            assert(samples@[k] == s0[k % (len0 as int)]);
        }
        let v = samples[cpt as usize];
        let ghost before = samples@;
        samples.push(v);
        assert(completed(s0, (cpt + 1) as nat) =~= before.push(v));
        cpt = cpt + 1;
    }
}

} // verus!
