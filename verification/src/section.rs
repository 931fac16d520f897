//! The rules of one lane section: which `<lane>`s it has, the order they
//! lie in from the reference line outward, which way traffic runs on them,
//! and which of them a vehicle may change between.

use vstd::prelude::*;

use crate::network::{drivable, Direction, LaneType};
use crate::order::strictly_ordered_lists_agree;
use crate::parse::int_attr;
use crate::xml::{
    all_named, children_of, first_named, lemma_all_named, lemma_child_named, lemma_children_are_inside, named,
    Document, XmlNodeView,
};

verus! {

/// The `<lane>` elements directly inside `side`.
pub open spec fn lane_nodes(doc: Seq<XmlNodeView>, side: int) -> Seq<usize> {
    all_named(doc, children_of(doc, side), "lane"@, children_of(doc, side).len() as int)
}

/// Those of `list[..k]` whose `id` is a decimal integer, each with its id,
/// in order.
pub open spec fn numbered_upto(doc: Seq<XmlNodeView>, list: Seq<usize>, k: int) -> Seq<(usize, i32)>
    decreases k,
{
    if k <= 0 {
        Seq::empty()
    } else {
        let rest = numbered_upto(doc, list, k - 1);
        match int_attr(doc, list[k - 1] as int, "id"@) {
            Some(id) => rest.push((list[k - 1], id)),
            None => rest,
        }
    }
}

/// The numbered `<lane>`s of the side `tag` of `section`, if it has that
/// side.
pub open spec fn side_lanes(doc: Seq<XmlNodeView>, section: int, tag: Seq<char>) -> Seq<(usize, i32)> {
    match first_named(doc, children_of(doc, section), tag, 0) {
        Some(side) => numbered_upto(doc, lane_nodes(doc, side as int), lane_nodes(doc, side as int).len() as int),
        None => Seq::empty(),
    }
}

/// The numbered `<lane>`s of the side `tag` of `section`, with their ids.
fn lanes_of_side(doc: &Document, section: usize, tag: &str) -> (r: Vec<(usize, i32)>)
    requires
        section < doc@.len(),
    ensures
        r@ == side_lanes(doc@, section as int, tag@),
{
    let Some(side) = doc.child(section, tag) else {
        return Vec::new();
    };
    let list = doc.children_named(side, "lane");
    let mut out: Vec<(usize, i32)> = Vec::new();
    let mut k: usize = 0;
    while k < list.len()
        invariant
            k <= list.len(),
            side < doc@.len(),
            list@ == lane_nodes(doc@, side as int),
            forall|i: int| 0 <= i < list@.len() ==> (#[trigger] list@[i] as int) < doc@.len(),
            out@ == numbered_upto(doc@, list@, k as int),
        decreases list.len() - k,
    {
        if let Some(id) = crate::parse::int_attribute(doc, list[k], "id") {
            out.push((list[k], id));
        }
        k = k + 1;
    }
    out
}

/// Every `<lane>` of a `<laneSection>` whose `id` is an integer, with that
/// id: those under `<left>`, then those under `<right>`, each in document
/// order. A lane without a readable id is skipped.
pub fn section_lanes(doc: &Document, section: usize) -> (r: Vec<(usize, i32)>)
    requires
        section < doc@.len(),
    ensures
        r@ == side_lanes(doc@, section as int, "left"@) + side_lanes(doc@, section as int, "right"@),
{
    let mut left = lanes_of_side(doc, section, "left");
    let mut right = lanes_of_side(doc, section, "right");
    left.append(&mut right);
    left
}

/// Whether `lane` is a `<lane>` inside an element named `tag` that lies
/// directly inside `section`.
pub open spec fn lane_under(doc: Seq<XmlNodeView>, section: int, tag: Seq<char>, lane: int) -> bool {
    &&& 0 <= lane < doc.len()
    &&& named(doc[lane], "lane"@)
    &&& doc[lane].parent matches Some(side) && (side as int) < doc.len() && named(doc[side as int], tag)
        && doc[side as int].parent == Some(section as usize)
}

/// Each entry `numbered_upto` makes is a listed node with that id.
proof fn lemma_numbered(doc: Seq<XmlNodeView>, list: Seq<usize>, k: int)
    requires
        0 <= k <= list.len(),
    ensures
        forall|i: int| 0 <= i < numbered_upto(doc, list, k).len() ==> {
            let e = #[trigger] numbered_upto(doc, list, k)[i];
            list.contains(e.0) && int_attr(doc, e.0 as int, "id"@) == Some(e.1)
        },
    decreases k,
{
    if k > 0 {
        lemma_numbered(doc, list, k - 1);
        let rest = numbered_upto(doc, list, k - 1);
        assert(list.contains(list[k - 1]));
        assert forall|i: int| 0 <= i < numbered_upto(doc, list, k).len() implies {
            let e = #[trigger] numbered_upto(doc, list, k)[i];
            list.contains(e.0) && int_attr(doc, e.0 as int, "id"@) == Some(e.1)
        } by {
            if i < rest.len() {
                assert(numbered_upto(doc, list, k)[i] == rest[i]);
            }
        }
    }
}

/// Each entry of one side's lanes is a `<lane>` under that side, with its id.
proof fn lemma_side_lanes(doc: Seq<XmlNodeView>, section: int, tag: Seq<char>)
    requires
        0 <= section < doc.len() <= usize::MAX,
    ensures
        forall|i: int| 0 <= i < side_lanes(doc, section, tag).len() ==> {
            let e = #[trigger] side_lanes(doc, section, tag)[i];
            lane_under(doc, section, tag, e.0 as int) && int_attr(doc, e.0 as int, "id"@) == Some(e.1)
        },
{
    lemma_child_named(doc, section, tag);
    if let Some(side) = first_named(doc, children_of(doc, section), tag, 0) {
        let kids = children_of(doc, side as int);
        let list = lane_nodes(doc, side as int);
        lemma_all_named(doc, kids, "lane"@, kids.len() as int);
        lemma_numbered(doc, list, list.len() as int);
        lemma_children_are_inside(doc, side as int, doc.len() as int);
        assert forall|i: int| 0 <= i < side_lanes(doc, section, tag).len() implies {
            let e = #[trigger] side_lanes(doc, section, tag)[i];
            lane_under(doc, section, tag, e.0 as int) && int_attr(doc, e.0 as int, "id"@) == Some(e.1)
        } by {
            let e = side_lanes(doc, section, tag)[i];
            let j = choose|j: int| 0 <= j < list.len() && list[j] == e.0;
            assert(kids.contains(list[j]) && named(doc[list[j] as int], "lane"@));
            let m = choose|m: int| 0 <= m < kids.len() && kids[m] == e.0;
            assert(kids[m] == e.0);
        }
    }
}

/// A section's numbered lanes are `<lane>`s with that id, each under a
/// `<left>` or a `<right>` directly inside the section, and every lane under
/// a `<left>` comes before every lane under a `<right>`.
#[verifier::spinoff_prover]
pub proof fn a_section_lists_its_left_lanes_then_its_right(doc: Seq<XmlNodeView>, section: int)
    requires
        0 <= section < doc.len() <= usize::MAX,
    ensures
        ({
            let r = side_lanes(doc, section, "left"@) + side_lanes(doc, section, "right"@);
            &&& forall|i: int| 0 <= i < r.len() ==> {
                let e = #[trigger] r[i];
                &&& lane_under(doc, section, "left"@, e.0 as int) || lane_under(doc, section, "right"@, e.0 as int)
                &&& int_attr(doc, e.0 as int, "id"@) == Some(e.1)
            }
            &&& forall|i: int, j: int| 0 <= i < j < r.len() && lane_under(doc, section, "right"@, #[trigger] r[i].0 as int)
                ==> lane_under(doc, section, "right"@, #[trigger] r[j].0 as int)
        }),
{
    reveal_strlit("left");
    reveal_strlit("right");
    let l = side_lanes(doc, section, "left"@);
    let rt = side_lanes(doc, section, "right"@);
    let r = l + rt;
    lemma_side_lanes(doc, section, "left"@);
    lemma_side_lanes(doc, section, "right"@);
    assert("left"@.len() != "right"@.len());
    assert forall|i: int| 0 <= i < r.len() implies {
        let e = #[trigger] r[i];
        &&& lane_under(doc, section, "left"@, e.0 as int) || lane_under(doc, section, "right"@, e.0 as int)
        &&& int_attr(doc, e.0 as int, "id"@) == Some(e.1)
    } by {
        if i < l.len() {
            assert(r[i] == l[i]);
        } else {
            assert(r[i] == rt[i - l.len()]);
        }
    }
    assert forall|i: int, j: int| 0 <= i < j < r.len() && lane_under(doc, section, "right"@, #[trigger] r[i].0 as int)
        implies lane_under(doc, section, "right"@, #[trigger] r[j].0 as int) by {
        if i < l.len() {
            assert(r[i] == l[i]);
            assert(lane_under(doc, section, "left"@, l[i].0 as int));
        }
        assert(r[j] == rt[j - l.len()]);
    }
}

/// Whether a lane numbered `id` lies on the given side of the reference
/// line: positive ids on the left, negative on the right. Lane 0 is on
/// neither.
pub open spec fn on_side(id: i32, left: bool) -> bool {
    if left {
        id > 0
    } else {
        id < 0
    }
}

/// How far out from the reference line a lane numbered `id` lies.
pub open spec fn outward(id: i32) -> int {
    if id < 0 {
        -(id as int)
    } else {
        id as int
    }
}

/// Whether the lane at `p` comes before the one at `q` going outward: it
/// is nearer the reference line, or as near and earlier in the list.
pub open spec fn nearer(ids: Seq<i32>, p: int, q: int) -> bool {
    outward(ids[p]) < outward(ids[q]) || (outward(ids[p]) == outward(ids[q]) && p < q)
}

/// Whether `order` lists the positions of exactly the lanes of `ids` on
/// one side, from the reference line outward, ties in list order.
pub open spec fn center_outward_order(ids: Seq<i32>, left: bool, order: Seq<usize>) -> bool {
    &&& forall|i: int| 0 <= i < order.len() ==> (#[trigger] order[i] as int) < ids.len() && on_side(ids[order[i] as int], left)
    &&& forall|p: int| 0 <= p < ids.len() && on_side(ids[p], left) ==> #[trigger] order.contains(p as usize)
    &&& forall|i: int, j: int| 0 <= i < j < order.len() ==> nearer(ids, #[trigger] order[i] as int, #[trigger] order[j] as int)
}

/// Whether the lane numbered `a` lies no further out than the one numbered
/// `b`, both on the same side.
fn no_further_out(a: i32, b: i32, left: bool) -> (r: bool)
    requires
        on_side(a, left),
        on_side(b, left),
    ensures
        r == (outward(a) <= outward(b)),
{
    if left {
        a <= b
    } else {
        a >= b
    }
}

/// The positions of the lanes numbered `ids` on one side, ordered from the
/// reference line outward: `1, 2, 3, ...` on the left, `-1, -2, -3, ...` on
/// the right, lanes with the same number in list order. Cumulative widths
/// are summed in this order.
pub fn center_outward(ids: &[i32], left: bool) -> (r: Vec<usize>)
    ensures
        center_outward_order(ids@, left, r@),
{
    let mut out: Vec<usize> = Vec::new();
    let mut p: usize = 0;
    while p < ids.len()
        invariant
            p <= ids.len(),
            forall|i: int| 0 <= i < out@.len() ==> (#[trigger] out@[i] as int) < p && on_side(ids@[out@[i] as int], left),
            forall|q: int| 0 <= q < p && on_side(ids@[q], left) ==> #[trigger] out@.contains(q as usize),
            forall|i: int, j: int| 0 <= i < j < out@.len() ==> nearer(ids@, #[trigger] out@[i] as int, #[trigger] out@[j] as int),
        decreases ids.len() - p,
    {
        let id = ids[p];
        if (left && id > 0) || (!left && id < 0) {
            let mut m: usize = 0;
            while m < out.len() && no_further_out(ids[out[m]], id, left)
                invariant
                    m <= out.len(),
                    p < ids.len(),
                    id == ids@[p as int],
                    on_side(id, left),
                    forall|i: int| 0 <= i < out@.len() ==> (#[trigger] out@[i] as int) < p && on_side(ids@[out@[i] as int], left),
                    forall|j: int| 0 <= j < m ==> outward(ids@[#[trigger] out@[j] as int]) <= outward(id),
                decreases out.len() - m,
            {
                m = m + 1;
            }
            let ghost old_out = out@;
            out.insert(m, p);
            proof {
                assert(out@ == old_out.insert(m as int, p));
                assert forall|i: int, j: int| 0 <= i < j < out@.len() implies nearer(ids@, #[trigger] out@[i] as int, #[trigger] out@[j] as int) by {
                    if j < m {
                        assert(out@[i] == old_out[i] && out@[j] == old_out[j]);
                    } else if j == m {
                        assert(out@[i] == old_out[i]);
                    } else if i == m {
                        assert(out@[j] == old_out[j - 1]);
                        assert(outward(ids@[old_out[m as int] as int]) > outward(id));
                        if j - 1 > m {
                            assert(nearer(ids@, old_out[m as int] as int, old_out[j - 1] as int));
                        }
                    } else if i < m {
                        assert(out@[i] == old_out[i] && out@[j] == old_out[j - 1]);
                    } else {
                        assert(out@[i] == old_out[i - 1] && out@[j] == old_out[j - 1]);
                    }
                }
                assert forall|q: int| 0 <= q < p + 1 && on_side(ids@[q], left) implies #[trigger] out@.contains(q as usize) by {
                    if q < p {
                        assert(old_out.contains(q as usize));
                        let at = old_out.index_of(q as usize);
                        if at < m {
                            assert(out@[at] == q as usize);
                        } else {
                            assert(out@[at + 1] == q as usize);
                        }
                    } else {
                        assert(out@[m as int] == p);
                    }
                }
            }
        }
        p = p + 1;
    }
    out
}

/// A side's lanes listed from the reference line outward: the list holds
/// exactly the positions whose lane number has the side's sign (positive
/// on the left, negative on the right), the size of the number never falls
/// along it, and lanes of the same number keep their list order.
pub proof fn lanes_run_outward_from_the_reference_line(ids: Seq<i32>, left: bool, order: Seq<usize>)
    requires
        center_outward_order(ids, left, order),
    ensures
        forall|i: int| 0 <= i < order.len() ==> (#[trigger] order[i] as int) < ids.len()
            && (if left { ids[order[i] as int] > 0 } else { ids[order[i] as int] < 0 }),
        forall|p: int| 0 <= p < ids.len() && (if left { ids[p] > 0 } else { ids[p] < 0 })
            ==> #[trigger] order.contains(p as usize),
        forall|i: int, j: int| 0 <= i < j < order.len() ==> {
            let a = ids[#[trigger] order[i] as int] as int;
            let b = ids[#[trigger] order[j] as int] as int;
            let (ma, mb) = (if a < 0 { -a } else { a }, if b < 0 { -b } else { b });
            ma < mb || (ma == mb && order[i] < order[j])
        },
{
    assert forall|p: int| 0 <= p < ids.len() && (if left { ids[p] > 0 } else { ids[p] < 0 })
        implies #[trigger] order.contains(p as usize) by {
        assert(on_side(ids[p], left));
    }
}

/// The outward order of a side's lanes is fully determined: two lists that
/// both give it are the same list.
pub proof fn center_outward_order_is_unique(ids: Seq<i32>, left: bool, a: Seq<usize>, b: Seq<usize>)
    requires
        center_outward_order(ids, left, a),
        center_outward_order(ids, left, b),
    ensures
        a == b,
{
    assert forall|x: usize| #[trigger] a.contains(x) <==> b.contains(x) by {
        let p = x as int;
        if a.contains(x) {
            let i = choose|i: int| 0 <= i < a.len() && a[i] == x;
            assert((a[i] as int) < ids.len() && on_side(ids[a[i] as int], left));
            assert(b.contains(p as usize));
        }
        if b.contains(x) {
            let i = choose|i: int| 0 <= i < b.len() && b[i] == x;
            assert((b[i] as int) < ids.len() && on_side(ids[b[i] as int], left));
            assert(a.contains(p as usize));
        }
    }
    let before = |p: usize, q: usize| nearer(ids, p as int, q as int);
    assert forall|i: int, j: int| 0 <= i < j < a.len() implies before(#[trigger] a[i], #[trigger] a[j]) by {}
    assert forall|i: int, j: int| 0 <= i < j < b.len() implies before(#[trigger] b[i], #[trigger] b[j]) by {}
    strictly_ordered_lists_agree(a, b, before);
}

/// Which way traffic runs on the lane numbered `od_id`. Traffic keeps
/// right: negative-id lanes run with `+s`, positive-id lanes against it.
pub fn travel_direction(od_id: i32) -> (r: Direction)
    ensures
        od_id > 0 ==> r == Direction::Backward,
        od_id <= 0 ==> r == Direction::Forward,
{
    if od_id > 0 {
        Direction::Backward
    } else {
        Direction::Forward
    }
}

/// The positions of the lanes a vehicle on the lane at `k` may change into,
/// among a side's lanes listed from the reference line outward with types
/// `kinds`: the lanes either side of it, inner first, where both it and
/// they carry through traffic. A lane traffic cannot use has none, and
/// stands between the lanes either side of it.
pub open spec fn neighbors_of(kinds: Seq<LaneType>, k: int) -> Seq<usize> {
    if !drivable(kinds[k]) {
        Seq::empty()
    } else {
        let inner = if k > 0 && drivable(kinds[k - 1]) {
            seq![(k - 1) as usize]
        } else {
            Seq::empty()
        };
        let outer = if k + 1 < kinds.len() && drivable(kinds[k + 1]) {
            seq![(k + 1) as usize]
        } else {
            Seq::empty()
        };
        inner + outer
    }
}

/// The lane-change neighbours of each of a side's lanes, listed from the
/// reference line outward with types `kinds`, as positions in that list.
pub fn lane_change_neighbors(kinds: &[LaneType]) -> (r: Vec<Vec<usize>>)
    ensures
        r@.len() == kinds@.len(),
        forall|k: int| 0 <= k < kinds@.len() ==> (#[trigger] r@[k])@ == neighbors_of(kinds@, k),
{
    let n = kinds.len();
    let mut out: Vec<Vec<usize>> = Vec::new();
    let mut k: usize = 0;
    while k < n
        invariant
            k <= n == kinds@.len(),
            out@.len() == k,
            forall|i: int| 0 <= i < k ==> (#[trigger] out@[i])@ == neighbors_of(kinds@, i),
        decreases n - k,
    {
        let mut nbrs: Vec<usize> = Vec::new();
        if kinds[k].is_drivable() {
            if k > 0 && kinds[k - 1].is_drivable() {
                nbrs.push(k - 1);
            }
            if k + 1 < n && kinds[k + 1].is_drivable() {
                nbrs.push(k + 1);
            }
        }
        assert(nbrs@ =~= neighbors_of(kinds@, k as int));
        out.push(nbrs);
        k = k + 1;
    }
    out
}

/// The lanes listed as neighbours of the lane at `k` are those either side
/// of it that carry through traffic, if it does.
proof fn lemma_neighbors_contain(kinds: Seq<LaneType>, k: int, x: int)
    requires
        0 <= k < kinds.len() <= usize::MAX,
        0 <= x < kinds.len(),
    ensures
        neighbors_of(kinds, k).contains(x as usize) <==> (drivable(kinds[k]) && (
            (k > 0 && x == k - 1 && drivable(kinds[k - 1]))
            || (k + 1 < kinds.len() && x == k + 1 && drivable(kinds[k + 1])))),
{
    let nk = neighbors_of(kinds, k);
    if drivable(kinds[k]) {
        let has_inner = k > 0 && drivable(kinds[k - 1]);
        let has_outer = k + 1 < kinds.len() && drivable(kinds[k + 1]);
        if has_inner && has_outer {
            assert(nk =~= seq![(k - 1) as usize, (k + 1) as usize]);
            assert(nk[0] == (k - 1) as usize && nk[1] == (k + 1) as usize);
        } else if has_inner {
            assert(nk =~= seq![(k - 1) as usize]);
            assert(nk[0] == (k - 1) as usize);
        } else if has_outer {
            assert(nk =~= seq![(k + 1) as usize]);
            assert(nk[0] == (k + 1) as usize);
        } else {
            assert(nk =~= Seq::<usize>::empty());
        }
        if nk.contains(x as usize) {
            let at = nk.index_of(x as usize);
            assert(nk[at] == x as usize);
        }
    }
}

/// Lane changes go both ways: the lane at `j` is a neighbour of the lane at
/// `k` exactly when `k` is one of `j`'s, and exactly when the two are
/// adjacent and both carry through traffic.
pub proof fn lane_changes_are_mutual(kinds: Seq<LaneType>, j: int, k: int)
    requires
        0 <= j < kinds.len() <= usize::MAX,
        0 <= k < kinds.len(),
    ensures
        neighbors_of(kinds, k).contains(j as usize) <==> neighbors_of(kinds, j).contains(k as usize),
        neighbors_of(kinds, k).contains(j as usize) <==> (drivable(kinds[j]) && drivable(kinds[k]) && (j == k + 1 || k == j + 1)),
{
    lemma_neighbors_contain(kinds, k, j);
    lemma_neighbors_contain(kinds, j, k);
}

} // verus!
