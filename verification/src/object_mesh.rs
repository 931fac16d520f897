//! The integer side of tessellating objects: which slice of a mesh belongs
//! to which object, how a convex face fans into triangles, and how a hole
//! is spliced into the ring around it.

use vstd::prelude::*;

use crate::object::ObjectId;

verus! {

/// The slice of a mesh belonging to one object: a half-open range into its
/// vertices (and, in step, its normals) and one into its indices.
#[derive(Debug, PartialEq, Eq)]
pub struct ObjectSpan {
    /// The object this slice was tessellated from.
    pub object: ObjectId,
    /// Its range in the mesh's vertices and normals.
    pub vertices: core::ops::Range<u32>,
    /// Its range in the mesh's indices.
    pub indices: core::ops::Range<u32>,
}

impl Clone for ObjectSpan {
    fn clone(&self) -> (r: Self)
        ensures
            r == *self,
    {
        ObjectSpan {
            object: self.object,
            vertices: core::ops::Range { start: self.vertices.start, end: self.vertices.end },
            indices: core::ops::Range { start: self.indices.start, end: self.indices.end },
        }
    }
}

/// The triangles of a convex polygon of `n` corners, fanned from the first:
/// `[0, 1, 2]`, `[0, 2, 3]`, and so on, none for fewer than three corners.
pub fn fan(n: usize) -> (r: Vec<[usize; 3]>)
    ensures
        r@.len() == if n < 2 { 0 } else { n - 2 },
        forall|k: int| 0 <= k < r@.len() ==> (#[trigger] r@[k])@ == seq![0usize, (k + 1) as usize, (k + 2) as usize],
{
    let mut out: Vec<[usize; 3]> = Vec::new();
    if n < 2 {
        return out;
    }
    let mut i: usize = 1;
    while i < n - 1
        invariant
            2 <= n,
            1 <= i <= n - 1,
            out@.len() == i - 1,
            forall|k: int| 0 <= k < out@.len() ==> (#[trigger] out@[k])@ == seq![0usize, (k + 1) as usize, (k + 2) as usize],
        decreases n - 1 - i,
    {
        let t = [0, i, i + 1];
        assert(t@ =~= seq![0usize, i, (i + 1) as usize]);
        out.push(t);
        i = i + 1;
    }
    out
}

/// The ring with `hole` spliced in along a bridge from `ring[target]` to the
/// hole's corner `hole[j]`: after `ring[target]` come the hole's corners
/// from `hole[j]` round to `hole[j]` again, then `ring[target]` again, then
/// the rest of the ring.
pub open spec fn spliced(ring: Seq<usize>, target: int, hole: Seq<usize>, j: int) -> Seq<usize> {
    ring.take(target + 1) + hole.skip(j) + hole.take(j + 1) + seq![ring[target]] + ring.skip(target + 1)
}

/// A splice walks the bridge out and back: right after `ring[target]` come
/// the hole's corners once round from `hole[j]`, then `hole[j]` again and
/// `ring[target]` again, so both ends of the bridge appear twice, and the
/// rest of the ring follows unchanged.
pub proof fn a_splice_goes_round_the_hole_once(ring: Seq<usize>, target: int, hole: Seq<usize>, j: int)
    requires
        0 <= target < ring.len(),
        0 <= j < hole.len(),
    ensures
        spliced(ring, target, hole, j).len() == ring.len() + hole.len() + 2,
        forall|k: int| 0 <= k <= target ==> #[trigger] spliced(ring, target, hole, j)[k] == ring[k],
        forall|k: int| 0 <= k < hole.len() - j ==> #[trigger] spliced(ring, target, hole, j)[target + 1 + k] == hole[j + k],
        forall|k: int| hole.len() - j <= k <= hole.len() ==> #[trigger] spliced(ring, target, hole, j)[target + 1 + k] == hole[j + k - hole.len()],
        spliced(ring, target, hole, j)[target + hole.len() + 2] == ring[target],
        forall|k: int| target < k < ring.len() ==> #[trigger] spliced(ring, target, hole, j)[k + hole.len() + 2] == ring[k],
{
    let n = hole.len() as int;
    let a = ring.take(target + 1);
    let b = hole.skip(j);
    let c = hole.take(j + 1);
    let d = seq![ring[target]];
    let e = ring.skip(target + 1);
    let s = spliced(ring, target, hole, j);
    assert(s == a + b + c + d + e);
    assert forall|k: int| 0 <= k <= target implies #[trigger] s[k] == ring[k] by {
        assert(s[k] == a[k]);
    }
    assert forall|k: int| 0 <= k < n - j implies #[trigger] s[target + 1 + k] == hole[j + k] by {
        assert(s[target + 1 + k] == b[k]);
    }
    assert forall|k: int| n - j <= k <= n implies #[trigger] s[target + 1 + k] == hole[j + k - n] by {
        assert(s[target + 1 + k] == c[k - (n - j)]);
    }
    assert(s[target + n + 2] == d[0]);
    assert forall|k: int| target < k < ring.len() implies #[trigger] s[k + n + 2] == ring[k] by {
        assert(s[k + n + 2] == e[k - target - 1]);
    }
}

/// Splice `hole` into `ring` along a bridge from `ring[target]` to the
/// hole's corner `hole[j]`, so the two rings become one to clip. Both ends
/// of the bridge appear twice in the result.
pub fn splice_hole(ring: &mut Vec<usize>, target: usize, hole: &[usize], j: usize)
    requires
        target < old(ring)@.len(),
        j < hole@.len(),
    ensures
        final(ring)@ == spliced(old(ring)@, target as int, hole@, j as int),
        final(ring)@.len() == old(ring)@.len() + hole@.len() + 2,
{
    let ghost start = ring@;
    let n = ring.len();
    assert(target < n);
    let rest = ring.split_off(target + 1);
    let bridge_end = ring[target];
    let mut k: usize = j;
    while k < hole.len()
        invariant
            j <= k <= hole@.len(),
            target < start.len(),
            rest@ == start.skip(target + 1),
            bridge_end == start[target as int],
            ring@ == start.take(target + 1) + hole@.subrange(j as int, k as int),
        decreases hole.len() - k,
    {
        ring.push(hole[k]);
        k = k + 1;
        assert(hole@.subrange(j as int, k as int) =~= hole@.subrange(j as int, k - 1).push(hole@[k - 1]));
    }
    let mut k: usize = 0;
    while k <= j
        invariant
            k <= j + 1,
            j < hole@.len(),
            target < start.len(),
            rest@ == start.skip(target + 1),
            bridge_end == start[target as int],
            ring@ == start.take(target + 1) + hole@.skip(j as int) + hole@.take(k as int),
        decreases j + 1 - k,
    {
        ring.push(hole[k]);
        k = k + 1;
        assert(hole@.take(k as int) =~= hole@.take(k - 1).push(hole@[k - 1]));
        assert(start.take(target + 1) + hole@.skip(j as int) + hole@.take(k as int)
            =~= (start.take(target + 1) + hole@.skip(j as int) + hole@.take(k - 1)).push(hole@[k - 1]));
    }
    assert(hole@.subrange(j as int, hole@.len() as int) =~= hole@.skip(j as int));
    ring.push(bridge_end);
    let mut rest = rest;
    ring.append(&mut rest);
    assert(ring@ =~= spliced(start, target as int, hole@, j as int));
}

} // verus!
