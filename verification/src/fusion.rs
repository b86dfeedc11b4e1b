use vstd::prelude::*;

verus! {

/// `a + b`, clamped to the range of a sample.
pub open spec fn saturating_sum(a: i16, b: i16) -> i16 {
    let s = a + b;
    if s > i16::MAX { i16::MAX } else if s < i16::MIN { i16::MIN } else { s as i16 }
}

/// Sample `i` of `s`, or silence past its end.
pub open spec fn sample_or_zero(s: Seq<i16>, i: int) -> i16 {
    if 0 <= i < s.len() { s[i] } else { 0i16 }
}

/// Two signals played together: the longer length, each sample the
/// clamped sum of both signals (the shorter one silent past its end).
pub open spec fn mixed(s1: Seq<i16>, s2: Seq<i16>) -> Seq<i16> {
    Seq::new(
        if s1.len() >= s2.len() { s1.len() } else { s2.len() },
        |i: int| saturating_sum(sample_or_zero(s1, i), sample_or_zero(s2, i)),
    )
}

/// Mixes two signals sample by sample; a sum that does not fit is clamped
/// to `i16::MAX` or `i16::MIN`.
pub fn mix_samples(samples1: Vec<i16>, samples2: Vec<i16>) -> (res: Vec<i16>)
    ensures
        res@ == mixed(samples1@, samples2@),
{
    let len = if samples1.len() >= samples2.len() { samples1.len() } else { samples2.len() };
    let mut res: Vec<i16> = Vec::new();
    let mut i: usize = 0;
    while i < len
        invariant
            len == (if samples1@.len() >= samples2@.len() { samples1@.len() } else { samples2@.len() }),
            i <= len,
            res@.len() == i,
            forall|k: int| 0 <= k < i ==> res@[k] == mixed(samples1@, samples2@)[k],
        decreases len - i,
    {
        let sample1: i16 = if i < samples1.len() { samples1[i] } else { 0 };
        let sample2: i16 = if i < samples2.len() { samples2[i] } else { 0 };
        let combi_sample = match sample1.checked_add(sample2) {
            Some(sum) => sum,
            None => {
                if sample1 > 0 {
                    i16::MAX
                } else {
                    i16::MIN
                }
            },
        };
        res.push(combi_sample);
        i = i + 1;
    }
    assert(res@ =~= mixed(samples1@, samples2@));
    res
}

/// The background recording that ambience number `num` stands for, if any.
pub fn ambience_file(num: i16) -> (r: Option<&'static str>)
    ensures
        r is Some <==> 1 <= num <= 3,
        num == 1 ==> r == Some("../../../src/sounds/Ambiances/Sample_04.wav"),
        num == 2 ==> r == Some("../../../src/sounds/Ambiances/cave.wav"),
        num == 3 ==> r == Some("../../../src/sounds/Ambiances/rain.wav"),
{
    match num {
        1 => Some("../../../src/sounds/Ambiances/Sample_04.wav"),
        2 => Some("../../../src/sounds/Ambiances/cave.wav"),
        3 => Some("../../../src/sounds/Ambiances/rain.wav"),
        _ => None,
    }
}

/// Adds an ambience to a signal: for ambience numbers 1 to 3 the signal is
/// mixed with `background`, the samples of that ambience's recording (see
/// `ambience_file`); any other number leaves the signal as it is.
pub fn ambience(samp: Vec<i16>, num: i16, background: Vec<i16>) -> (r: Vec<i16>)
    ensures
        r@ == (if 1 <= num <= 3 { mixed(background@, samp@) } else { samp@ }),
{
    let samples = samp.clone();
    match num {
        1 | 2 | 3 => mix_samples(background, samples),
        _ => samples,
    }
}

} // verus!
