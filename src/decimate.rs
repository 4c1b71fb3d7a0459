use vstd::prelude::*;

use vstd::arithmetic::div_mod::{lemma_fundamental_div_mod, lemma_mod_bound};

use crate::reading::Reading;
use crate::store::Sample;

verus! {

/// A sample that carries a reading: what a plotted series is made of.
#[derive(Clone, Copy, Debug, PartialEq, Eq, Structural)]
pub struct Point {
    pub timestamp: u64,
    pub value: Reading,
}

/// The samples of `s` that carry a reading, in order, as points.
pub open spec fn present(s: Seq<Sample>) -> Seq<Point>
    decreases s.len(),
{
    if s.len() == 0 {
        Seq::<Point>::empty()
    } else {
        let p = present(s.drop_last());
        match s.last().reading {
            Some(v) => p.push(Point { timestamp: s.last().timestamp, value: v }),
            None => p,
        }
    }
}

/// `n / w` rounded to the nearest integer, halves rounded up. A width of zero leaves no
/// room at all, and the stride is then the whole length.
pub open spec fn stride_of(n: nat, w: nat) -> nat {
    if w == 0 {
        n
    } else {
        (2 * n + w) / (2 * w)
    }
}

/// Every `stride_of(pts.len(), w)`-th point of `pts`, starting with the first; all of
/// `pts` where that stride is below two.
pub open spec fn decimated(pts: Seq<Point>, w: nat) -> Seq<Point> {
    let n = pts.len();
    let s = stride_of(n, w);
    if s < 2 {
        pts
    } else {
        Seq::new(((n + s - 1) as int / s as int) as nat, |j: int| pts[j * s])
    }
}

/// The stride for `n` points in a width of `w`.
pub fn stride(n: usize, w: usize) -> (s: usize)
    ensures
        s == stride_of(n as nat, w as nat),
{
    if w == 0 {
        n
    } else {
        let q: u128 = (2 * (n as u128) + (w as u128)) / (2 * (w as u128));
        assert(q <= n) by (nonlinear_arith)
            requires
                w >= 1,
                q == (2 * n + w) / (2 * w),
        ;
        q as usize
    }
}

proof fn lemma_pick_count(len: int, s: int, n: int)
    requires
        s >= 2,
        n >= 0,
        len >= 0,
        len * s >= n,
        len == 0 || (len - 1) * s < n,
    ensures
        len == (n + s - 1) / s,
{
    let q = (n + s - 1) / s;
    let r = (n + s - 1) % s;
    lemma_fundamental_div_mod(n + s - 1, s);
    lemma_mod_bound(n + s - 1, s);
    assert(q * s + r == n + s - 1 && 0 <= r < s) by (nonlinear_arith)
        requires
            s * q + r == n + s - 1,
            0 <= r < s,
    ;
    assert(len == q) by (nonlinear_arith)
        requires
            q * s + r == n + s - 1,
            0 <= r < s,
            len * s >= n,
            len == 0 || (len - 1) * s < n,
            len >= 0,
            n >= 0,
    ;
}

/// The points of `samples` reduced for drawing in a width of `width`: the samples that
/// carry a reading, then every stride-th of them.
pub fn decimate(samples: &Vec<Sample>, width: usize) -> (r: Vec<Point>)
    ensures
        r@ == decimated(present(samples@), width as nat),
{
    let mut pts: Vec<Point> = Vec::new();
    let mut k: usize = 0;
    while k < samples.len()
        invariant
            k <= samples.len(),
            pts@ == present(samples@.subrange(0, k as int)),
        decreases samples.len() - k,
    {
        let smp = samples[k];
        assert(samples@.subrange(0, k + 1).drop_last() =~= samples@.subrange(0, k as int));
        match smp.reading {
            Some(v) => {
                pts.push(Point { timestamp: smp.timestamp, value: v });
            },
            None => {},
        }
        k = k + 1;
    }
    assert(samples@.subrange(0, k as int) =~= samples@);
    let n = pts.len();
    let s = stride(n, width);
    if s < 2 {
        return pts;
    }
    let mut out: Vec<Point> = Vec::new();
    let mut i: u128 = 0;
    assert(out.len() * s == 0) by (nonlinear_arith)
        requires
            out.len() == 0,
    ;
    while i < n as u128
        invariant
            n == pts.len(),
            s >= 2,
            i == out.len() * s,
            out.len() == 0 || (out.len() - 1) * s < n,
            out.len() <= n,
            forall|j: int| 0 <= j < out.len() ==> #[trigger] out@[j] == pts@[j * s],
        decreases n as int + s as int - i as int,
    {
        let ghost before = out.len();
        out.push(pts[i as usize]);
        assert(before < n && before * s < n) by (nonlinear_arith)
            requires
                i == before * s,
                i < n,
                s >= 2,
                before >= 0,
        ;
        i = i + s as u128;
        assert(i == out.len() * s) by (nonlinear_arith)
            requires
                i == (out.len() - 1) * s + s,
        ;
    }
    proof {
        lemma_pick_count(out.len() as int, s as int, n as int);
    }
    assert(out@ =~= decimated(pts@, width as nat));
    out
}

/// Decimation keeps at most as many points as it is given, takes them in their order,
/// and changes nothing where the stride is below two.
pub proof fn lemma_decimated_is_ordered_subset(pts: Seq<Point>, w: nat)
    ensures
        decimated(pts, w).len() <= pts.len(),
        stride_of(pts.len(), w) < 2 ==> decimated(pts, w) == pts,
        stride_of(pts.len(), w) >= 2 ==> forall|j: int|
            0 <= j < decimated(pts, w).len() ==> j * stride_of(pts.len(), w) < pts.len()
                && #[trigger] decimated(pts, w)[j] == pts[j * stride_of(pts.len(), w)],
{
    let n = pts.len() as int;
    let s = stride_of(pts.len(), w) as int;
    if s >= 2 {
        let c = (n + s - 1) / s;
        let r = (n + s - 1) % s;
        lemma_fundamental_div_mod(n + s - 1, s);
        lemma_mod_bound(n + s - 1, s);
        assert(c <= n) by (nonlinear_arith)
            requires
                s >= 2,
                n >= 0,
                s * c + r == n + s - 1,
                0 <= r < s,
        ;
        assert forall|j: int| 0 <= j < c implies #[trigger] (j * s) < n by {
            assert(j * s < n) by (nonlinear_arith)
                requires
                    s >= 2,
                    0 <= j < c,
                    s * c + r == n + s - 1,
                    0 <= r < s,
            ;
        }
    }
}

/// Dropping the samples without a reading never lengthens a series.
pub proof fn lemma_present_len(s: Seq<Sample>)
    ensures
        present(s).len() <= s.len(),
    decreases s.len(),
{
    if s.len() > 0 {
        lemma_present_len(s.drop_last());
    }
}

} // verus!
