use vstd::prelude::*;

verus! {

/// The samples at even positions: every second sample, starting with the first.
pub open spec fn every_other(s: Seq<i16>) -> Seq<i16> {
    Seq::new(((s.len() + 1) / 2) as nat, |k: int| s[2 * k])
}

/// The samples whose position is not `2 mod 3`: two samples kept out of three.
pub open spec fn two_of_three(s: Seq<i16>) -> Seq<i16> {
    Seq::new((s.len() - s.len() / 3) as nat, |k: int| s[3 * (k / 2) + k % 2])
}

/// Halves the samples by keeping one sample out of two; also returns the
/// number of bytes the kept samples take (two per sample).
pub fn compression(sample: Vec<i16>) -> (r: (Vec<i16>, i32))
    requires
        sample.len() + 1 <= i32::MAX,
    ensures
        r.0@ == every_other(sample@),
        r.1 == 2 * r.0.len(),
{
    let mut bytes: i32 = 0;
    let mut res: Vec<i16> = Vec::new();
    let mut odd = true;
    let n = sample.len();
    let mut i: usize = 0;
    while i < n
        invariant
            n == sample.len(),
            n + 1 <= i32::MAX,
            i <= n,
            odd <==> i % 2 == 0,
            res.len() == (i + 1) / 2,
            bytes == 2 * res.len(),
            forall|k: int| 0 <= k < res.len() ==> res@[k] == sample@[2 * k],
        decreases n - i,
    {
        if odd {
            res.push(sample[i]);
            bytes = bytes + 2;
            odd = false;
        } else {
            odd = true;
        }
        i = i + 1;
    }
    assert(res@ =~= every_other(sample@));
    (res, bytes)
}

/// Drops every third sample (positions `2, 5, 8, …`), keeping two out of three.
pub fn compression2(sample: Vec<i16>) -> (res: Vec<i16>)
    ensures
        res@ == two_of_three(sample@),
{
    let mut res: Vec<i16> = Vec::new();
    let mut odd: usize = 0;
    let n = sample.len();
    let mut i: usize = 0;
    while i < n
        invariant
            n == sample.len(),
            i <= n,
            odd == i % 3,
            res.len() == i - i / 3,
            forall|k: int| 0 <= k < res.len() ==> res@[k] == sample@[3 * (k / 2) + k % 2],
        decreases n - i,
    {
        if odd == 2 {
            odd = 0;
        } else {
            proof {
                let k = res.len() as int;
                assert(3 * (k / 2) + k % 2 == i) by (nonlinear_arith)
                    requires k == i - i / 3, i % 3 == (odd as int), odd < 2;
            }
            res.push(sample[i]);
            odd = odd + 1;
        }
        i = i + 1;
    }
    assert(res@ =~= two_of_three(sample@));
    res
}

} // verus!
