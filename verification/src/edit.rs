use vstd::prelude::*;

verus! {

/// The signal with the samples from `start` to `end` (both included) set to 0.
pub open spec fn muted(s: Seq<i16>, start: int, end: int) -> Seq<i16> {
    Seq::new(s.len(), |i: int| if start <= i <= end { 0i16 } else { s[i] })
}

/// `seg` played `count` times in a row.
pub open spec fn repeated(seg: Seq<i16>, count: nat) -> Seq<i16> {
    Seq::new(seg.len() * count, |i: int| seg[i % (seg.len() as int)])
}

/// Silences the samples from index `start_index` to `end_index`, both
/// included; nothing changes when `start_index > end_index`.
pub fn mute_between_indices(samples: Vec<i16>, start_index: usize, end_index: usize) -> (r: Vec<i16>)
    requires
        start_index > end_index || end_index < samples@.len(),
    ensures
        r@ == muted(samples@, start_index as int, end_index as int),
{
    let mut s = samples.clone();
    if start_index > end_index {
        assert(s@ =~= muted(samples@, start_index as int, end_index as int));
        return s;
    }
    let n = samples.len();
    let mut i = start_index;
    while i <= end_index
        invariant
            n == samples@.len(),
            start_index <= i <= end_index + 1,
            end_index < samples@.len(),
            s@.len() == samples@.len(),
            forall|k: int| 0 <= k < s@.len() ==> s@[k] == (if start_index <= k < i { 0i16 } else { samples@[k] }),
        decreases end_index + 1 - i,
    {
        s.set(i, 0);
        i = i + 1;
    }
    assert(s@ =~= muted(samples@, start_index as int, end_index as int));
    s
}

/// The section from `start_index` to `end_index` (both included), played
/// `repeat_count` times.
pub fn repeat_section_indices(samples: Vec<i16>, start_index: usize, end_index: usize, repeat_count: usize) -> (r: Vec<i16>)
    requires
        start_index <= end_index < samples@.len(),
        (end_index - start_index + 1) * repeat_count <= usize::MAX,
    ensures
        r@ == repeated(samples@.subrange(start_index as int, end_index + 1), repeat_count as nat),
{
    let ghost section = samples@.subrange(start_index as int, end_index + 1);
    let n = samples.len();
    let seg_len = end_index - start_index + 1;
    let mut repeated_samples: Vec<i16> = Vec::new();
    let mut c: usize = 0;
    while c < repeat_count
        invariant
            n == samples@.len(),
            start_index <= end_index < samples@.len(),
            seg_len == end_index - start_index + 1,
            section == samples@.subrange(start_index as int, end_index + 1),
            seg_len * repeat_count <= usize::MAX,
            c <= repeat_count,
            repeated_samples@ =~= repeated(section, c as nat),
        decreases repeat_count - c,
    {
        let mut j = start_index;
        let ghost before = repeated_samples@;
        proof {
            assert(seg_len * c + seg_len == seg_len * (c + 1)) by (nonlinear_arith);
            assert(seg_len * (c + 1) <= seg_len * repeat_count) by (nonlinear_arith)
                requires c < repeat_count;
        }
        while j <= end_index
            invariant
                n == samples@.len(),
                start_index <= j <= end_index + 1,
                end_index < samples@.len(),
                seg_len == end_index - start_index + 1,
                section == samples@.subrange(start_index as int, end_index + 1),
                before == repeated(section, c as nat),
                seg_len * (c + 1) <= usize::MAX,
                repeated_samples@ =~= before + section.take(j - start_index),
            decreases end_index + 1 - j,
        {
            repeated_samples.push(samples[j]);
            j = j + 1;
        }
        proof {
            assert forall|i: int| 0 <= i < seg_len * (c + 1) implies
                #[trigger] repeated_samples@[i] == section[i % (seg_len as int)] by {
                if i < seg_len * c {
                    assert(repeated_samples@[i] == before[i]);
                } else {
                    let r = i - seg_len * c;
                    assert(0 <= r < seg_len);
                    assert(i % (seg_len as int) == r) by (nonlinear_arith)
                        requires i == seg_len * c + r, 0 <= r < seg_len;
                }
            }
            assert(seg_len * c + seg_len == seg_len * (c + 1)) by (nonlinear_arith);
        }
        c = c + 1;
    }
    repeated_samples
}

/// The signal with the segment from `start_index` (included) to
/// `end_index` (excluded) played `repeat_count` times in its place.
pub fn repeat_segment_indices(samples: Vec<i16>, start_index: usize, end_index: usize, repeat_count: usize) -> (r: Vec<i16>)
    requires
        start_index <= end_index < samples@.len(),
        samples@.len() + (end_index - start_index) * repeat_count <= usize::MAX,
    ensures
        r@ == samples@.take(start_index as int)
            + repeated(samples@.subrange(start_index as int, end_index as int), repeat_count as nat)
            + samples@.skip(end_index as int),
{
    let ghost seg = samples@.subrange(start_index as int, end_index as int);
    let mut result: Vec<i16> = Vec::new();
    let mut i: usize = 0;
    while i < start_index
        invariant
            i <= start_index <= end_index < samples@.len(),
            result@ =~= samples@.take(i as int),
        decreases start_index - i,
    {
        result.push(samples[i]);
        i = i + 1;
    }
    let seg_len = end_index - start_index;
    proof {
        assert(seg_len * repeat_count >= 0) by (nonlinear_arith);
    }
    let mut c: usize = 0;
    while c < repeat_count
        invariant
            start_index <= end_index < samples@.len(),
            seg_len == end_index - start_index,
            seg == samples@.subrange(start_index as int, end_index as int),
            samples@.len() + seg_len * repeat_count <= usize::MAX,
            c <= repeat_count,
            result@ =~= samples@.take(start_index as int) + repeated(seg, c as nat),
        decreases repeat_count - c,
    {
        let ghost before = result@;
        proof {
            assert(seg_len * c + seg_len == seg_len * (c + 1)) by (nonlinear_arith);
            assert(seg_len * (c + 1) <= seg_len * repeat_count) by (nonlinear_arith)
                requires c < repeat_count;
        }
        let mut j = start_index;
        while j < end_index
            invariant
                start_index <= j <= end_index < samples@.len(),
                seg_len == end_index - start_index,
                seg == samples@.subrange(start_index as int, end_index as int),
                before == samples@.take(start_index as int) + repeated(seg, c as nat),
                start_index + seg_len * (c + 1) <= usize::MAX,
                result@ =~= before + seg.take(j - start_index),
            decreases end_index - j,
        {
            result.push(samples[j]);
            j = j + 1;
        }
        proof {
            let rc = repeated(seg, c as nat);
            let rc1 = repeated(seg, (c + 1) as nat);
            assert(seg_len * c + seg_len == seg_len * (c + 1)) by (nonlinear_arith);
            assert forall|k: int| 0 <= k < seg_len * (c + 1) implies
                #[trigger] rc1[k] == (rc + seg)[k] by {
                if k < seg_len * c {
                } else {
                    let r = k - seg_len * c;
                    assert(k % (seg_len as int) == r) by (nonlinear_arith)
                        requires k == seg_len * c + r, 0 <= r < seg_len;
                }
            }
            assert(rc1 =~= rc + seg);
            assert(seg.take(seg_len as int) =~= seg);
        }
        c = c + 1;
    }
    let mut k = end_index;
    let ghost mid = result@;
    while k < samples.len()
        invariant
            end_index <= k <= samples@.len(),
            mid == samples@.take(start_index as int) + repeated(seg, repeat_count as nat),
            mid.len() + samples@.len() - end_index <= usize::MAX,
            result@ =~= mid + samples@.subrange(end_index as int, k as int),
        decreases samples@.len() - k,
    {
        result.push(samples[k]);
        k = k + 1;
    }
    result
}

} // verus!
