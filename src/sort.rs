use vstd::prelude::*;
use crate::math::{dist2, IVec3};

verus! {

broadcast use vstd::seq_lib::group_to_multiset_ensures, vstd::seq_lib::lemma_multiset_commutative;

/// Positions ordered by squared distance to `c`, nearest first.
pub open spec fn sorted_by_dist(s: Seq<IVec3>, c: IVec3) -> bool {
    forall|i: int, j: int| 0 <= i < j < s.len() ==> dist2(s[i], c) <= dist2(s[j], c)
}

/// Squared distance between two positions; 128 bits hold it for any pair.
pub fn distance_wide(a: IVec3, c: IVec3) -> (r: i128)
    ensures
        r == dist2(a, c),
{
    let dx = a.x as i128 - c.x as i128;
    let dy = a.y as i128 - c.y as i128;
    let dz = a.z as i128 - c.z as i128;
    assert(0 <= dx * dx <= 0x1_0000_0000 * 0x1_0000_0000) by (nonlinear_arith)
        requires
            -0x1_0000_0000 <= dx <= 0x1_0000_0000,
    ;
    assert(0 <= dy * dy <= 0x1_0000_0000 * 0x1_0000_0000) by (nonlinear_arith)
        requires
            -0x1_0000_0000 <= dy <= 0x1_0000_0000,
    ;
    assert(0 <= dz * dz <= 0x1_0000_0000 * 0x1_0000_0000) by (nonlinear_arith)
        requires
            -0x1_0000_0000 <= dz <= 0x1_0000_0000,
    ;
    dx * dx + dy * dy + dz * dz
}

fn merge(l: Vec<IVec3>, r: Vec<IVec3>, c: IVec3) -> (out: Vec<IVec3>)
    requires
        sorted_by_dist(l@, c),
        sorted_by_dist(r@, c),
    ensures
        out@.to_multiset() == l@.to_multiset().add(r@.to_multiset()),
        out.len() == l.len() + r.len(),
        sorted_by_dist(out@, c),
{
    let mut out: Vec<IVec3> = Vec::new();
    let mut i: usize = 0;
    let mut j: usize = 0;
    while i < l.len() || j < r.len()
        invariant
            sorted_by_dist(l@, c),
            sorted_by_dist(r@, c),
            i <= l.len(),
            j <= r.len(),
            out.len() == i + j,
            out@.to_multiset() == l@.subrange(0, i as int).to_multiset().add(
                r@.subrange(0, j as int).to_multiset(),
            ),
            sorted_by_dist(out@, c),
            out.len() > 0 ==> forall|k: int| i <= k < l.len() ==> dist2(out@.last(), c) <= dist2(#[trigger] l@[k], c),
            out.len() > 0 ==> forall|k: int| j <= k < r.len() ==> dist2(out@.last(), c) <= dist2(#[trigger] r@[k], c),
        decreases l.len() + r.len() - i - j,
    {
        let take_left = if i < l.len() && j < r.len() {
            distance_wide(l[i], c) <= distance_wide(r[j], c)
        } else {
            i < l.len()
        };
        if take_left {
            let p = l[i];
            out.push(p);
            assert(l@.subrange(0, i + 1) =~= l@.subrange(0, i as int).push(p));
            i = i + 1;
        } else {
            let p = r[j];
            out.push(p);
            assert(r@.subrange(0, j + 1) =~= r@.subrange(0, j as int).push(p));
            j = j + 1;
        }
    }
    assert(l@.subrange(0, l.len() as int) =~= l@);
    assert(r@.subrange(0, r.len() as int) =~= r@);
    out
}

/// Sorts positions by squared distance to `c`, nearest first.
pub fn sort_by_distance(v: Vec<IVec3>, c: IVec3) -> (r: Vec<IVec3>)
    ensures
        r@.to_multiset() == v@.to_multiset(),
        r.len() == v.len(),
        sorted_by_dist(r@, c),
    decreases v.len(),
{
    if v.len() <= 1 {
        return v;
    }
    let mid = v.len() / 2;
    let mut left: Vec<IVec3> = Vec::new();
    let mut right: Vec<IVec3> = Vec::new();
    let mut i: usize = 0;
    while i < v.len()
        invariant
            mid < v.len(),
            i <= v.len(),
            i <= mid ==> left@ == v@.subrange(0, i as int) && right.len() == 0,
            i > mid ==> left@ == v@.subrange(0, mid as int) && right@ == v@.subrange(mid as int, i as int),
        decreases v.len() - i,
    {
        if i < mid {
            left.push(v[i]);
        } else {
            right.push(v[i]);
        }
        i = i + 1;
    }
    assert(v@ =~= left@ + right@);
    let l = sort_by_distance(left, c);
    let r = sort_by_distance(right, c);
    merge(l, r, c)
}

} // verus!
