//! How the importer reads an object's placement: which `<object>` an
//! `<objectReference>` names, which outlines and corners an object has, and
//! which corners a marking or a border runs through.

use vstd::prelude::*;

use crate::parse::attr;
use crate::text::same_text;
use crate::xml::{
    all_named, children_of, first_named, has_child_named, lemma_all_named, lemma_child_named,
    lemma_children_are_inside, named, text_view, Document, XmlNodeView,
};

verus! {

/// Those of `list[..k]` that are `<cornerRoad>` or `<cornerLocal>`
/// elements, in order.
pub open spec fn corners_upto(doc: Seq<XmlNodeView>, list: Seq<usize>, k: int) -> Seq<usize>
    decreases k,
{
    if k <= 0 {
        Seq::empty()
    } else {
        let rest = corners_upto(doc, list, k - 1);
        let n = doc[list[k - 1] as int];
        if named(n, "cornerRoad"@) || named(n, "cornerLocal"@) {
            rest.push(list[k - 1])
        } else {
            rest
        }
    }
}

/// The corners of an `<outline>`.
pub open spec fn corner_list(doc: Seq<XmlNodeView>, outline: int) -> Seq<usize> {
    corners_upto(doc, children_of(doc, outline), children_of(doc, outline).len() as int)
}

/// An `<outline>`'s corners, its `<cornerRoad>`s and `<cornerLocal>`s, in
/// document order.
pub fn corner_nodes(doc: &Document, outline: usize) -> (r: Vec<usize>)
    requires
        outline < doc@.len(),
    ensures
        r@ == corner_list(doc@, outline as int),
        forall|i: int| 0 <= i < r@.len() ==> (#[trigger] r@[i] as int) < doc@.len(),
{
    let list = doc.children(outline);
    let mut out: Vec<usize> = Vec::new();
    let mut k: usize = 0;
    while k < list.len()
        invariant
            k <= list.len(),
            list@ == children_of(doc@, outline as int),
            forall|i: int| 0 <= i < list@.len() ==> (#[trigger] list@[i] as int) < doc@.len(),
            out@ == corners_upto(doc@, list@, k as int),
            forall|i: int| 0 <= i < out@.len() ==> (#[trigger] out@[i] as int) < doc@.len(),
        decreases list.len() - k,
    {
        if doc.has_tag_name(list[k], "cornerRoad") || doc.has_tag_name(list[k], "cornerLocal") {
            out.push(list[k]);
        }
        k = k + 1;
    }
    out
}

/// Where an object's outlines are: under its `<outlines>` since OpenDRIVE
/// 1.5, and straight under the object in 1.4.
pub open spec fn outline_parent(doc: Seq<XmlNodeView>, object: int) -> int {
    match first_named(doc, children_of(doc, object), "outlines"@, 0) {
        Some(o) => o as int,
        None => object,
    }
}

/// An object's `<outline>`s: those under its `<outlines>`, or if it has
/// none, those straight under it.
pub fn outline_nodes(doc: &Document, object: usize) -> (r: Vec<usize>)
    requires
        object < doc@.len(),
    ensures
        r@ == all_named(doc@, children_of(doc@, outline_parent(doc@, object as int)), "outline"@,
            children_of(doc@, outline_parent(doc@, object as int)).len() as int),
        forall|i: int| 0 <= i < r@.len() ==> (#[trigger] r@[i] as int) < doc@.len(),
{
    let parent = match doc.child(object, "outlines") {
        Some(o) => o,
        None => object,
    };
    doc.children_named(parent, "outline")
}

/// The first position at or after `k` whose id in `ids` is `id`.
pub open spec fn position_of(ids: Seq<Option<&str>>, id: Seq<char>, k: int) -> Option<int>
    decreases ids.len() - k,
{
    if k < 0 || k >= ids.len() {
        None
    } else if text_view(ids[k]) == Some(id) {
        Some(k)
    } else {
        position_of(ids, id, k + 1)
    }
}

/// The `<cornerReference>`s directly inside `node`.
pub open spec fn reference_list(doc: Seq<XmlNodeView>, node: int) -> Seq<usize> {
    all_named(doc, children_of(doc, node), "cornerReference"@, children_of(doc, node).len() as int)
}

/// The corner positions the first `k` of `refs` name, or `None` if one
/// names no corner or has no `id`.
pub open spec fn references_upto(doc: Seq<XmlNodeView>, refs: Seq<usize>, ids: Seq<Option<&str>>, k: int) -> Option<Seq<usize>>
    decreases k,
{
    if k <= 0 {
        Some(Seq::empty())
    } else {
        match references_upto(doc, refs, ids, k - 1) {
            None => None,
            Some(path) => match attr(doc, refs[k - 1] as int, "id"@) {
                None => None,
                Some(id) => match position_of(ids, id, 0) {
                    None => None,
                    Some(at) => Some(path.push(at as usize)),
                },
            },
        }
    }
}

/// A reference that names nothing spoils every longer prefix of the list.
proof fn lemma_unresolved_stays(doc: Seq<XmlNodeView>, refs: Seq<usize>, ids: Seq<Option<&str>>, k: int, m: int)
    requires
        0 <= k <= m,
        references_upto(doc, refs, ids, k) is None,
    ensures
        references_upto(doc, refs, ids, m) is None,
    decreases m - k,
{
    if k < m {
        lemma_unresolved_stays(doc, refs, ids, k, m - 1);
    }
}

/// The corners a marking or a border runs through, as the positions in
/// `ids` its `<cornerReference>`s name, at least two of them.
pub open spec fn path_of(doc: Seq<XmlNodeView>, node: int, ids: Seq<Option<&str>>) -> Option<Seq<usize>> {
    let refs = reference_list(doc, node);
    match references_upto(doc, refs, ids, refs.len() as int) {
        Some(path) => if path.len() >= 2 { Some(path) } else { None },
        None => None,
    }
}

/// The first position of `id` in `ids`.
fn find_id(ids: &[Option<&str>], id: &str) -> (r: Option<usize>)
    ensures
        match r {
            Some(at) => position_of(ids@, id@, 0) == Some(at as int) && at < ids@.len(),
            None => position_of(ids@, id@, 0) is None,
        },
{
    let mut k: usize = 0;
    while k < ids.len()
        invariant
            k <= ids@.len(),
            position_of(ids@, id@, 0) == position_of(ids@, id@, k as int),
        decreases ids.len() - k,
    {
        if let Some(c) = ids[k] {
            if same_text(c, id) {
                return Some(k);
            }
        }
        k = k + 1;
    }
    None
}

/// The corners of an outline a `<marking>` or `<border>` runs through: for
/// each of its `<cornerReference>`s, in order, the position in `ids` (the
/// outline's corners' `id`s, in corner order) of the corner it names.
/// `None` if a reference names no corner there, or there are fewer than
/// two.
pub fn corner_path(doc: &Document, node: usize, ids: &[Option<&str>]) -> (r: Option<Vec<usize>>)
    requires
        node < doc@.len(),
    ensures
        match r {
            Some(path) => path_of(doc@, node as int, ids@) == Some(path@),
            None => path_of(doc@, node as int, ids@) is None,
        },
        r matches Some(path) ==> forall|i: int| 0 <= i < path@.len() ==> #[trigger] path@[i] < ids@.len(),
{
    let refs = doc.children_named(node, "cornerReference");
    let mut path: Vec<usize> = Vec::new();
    let mut k: usize = 0;
    while k < refs.len()
        invariant
            k <= refs.len(),
            refs@ == reference_list(doc@, node as int),
            forall|i: int| 0 <= i < refs@.len() ==> (#[trigger] refs@[i] as int) < doc@.len(),
            references_upto(doc@, refs@, ids@, k as int) == Some(path@),
            forall|i: int| 0 <= i < path@.len() ==> #[trigger] path@[i] < ids@.len(),
        decreases refs.len() - k,
    {
        let Some(id) = doc.attribute(refs[k], "id") else {
            proof {
                lemma_unresolved_stays(doc@, refs@, ids@, k + 1, refs@.len() as int);
            }
            return None;
        };
        let Some(at) = find_id(ids, id) else {
            proof {
                lemma_unresolved_stays(doc@, refs@, ids@, k + 1, refs@.len() as int);
            }
            return None;
        };
        path.push(at);
        k = k + 1;
    }
    if path.len() >= 2 {
        Some(path)
    } else {
        None
    }
}

/// Whether a `<border>` belongs to an `<outline>`: it names that outline's
/// `id` as its `outlineId`, or names none.
pub open spec fn border_fits_outline(doc: Seq<XmlNodeView>, border: int, outline: int) -> bool {
    match attr(doc, border, "outlineId"@) {
        None => true,
        Some(id) => attr(doc, outline, "id"@) == Some(id),
    }
}

/// Whether `border` belongs to `outline`.
pub fn border_fits(doc: &Document, border: usize, outline: usize) -> (r: bool)
    requires
        border < doc@.len(),
        outline < doc@.len(),
    ensures
        r == border_fits_outline(doc@, border as int, outline as int),
{
    match doc.attribute(border, "outlineId") {
        None => true,
        Some(id) => match doc.attribute(outline, "id") {
            Some(own) => same_text(own, id),
            None => false,
        },
    }
}

/// The `<object>`s with an `id` among `list[..k]`, each with `road`.
pub open spec fn identified_upto(doc: Seq<XmlNodeView>, road: usize, list: Seq<usize>, k: int) -> Seq<(usize, usize)>
    decreases k,
{
    if k <= 0 {
        Seq::empty()
    } else {
        let rest = identified_upto(doc, road, list, k - 1);
        if attr(doc, list[k - 1] as int, "id"@) is Some {
            rest.push((road, list[k - 1]))
        } else {
            rest
        }
    }
}

/// The `<object>`s with an `id` on one `<road>`, each with the road, in
/// document order.
pub open spec fn road_objects(doc: Seq<XmlNodeView>, road: usize) -> Seq<(usize, usize)> {
    match first_named(doc, children_of(doc, road as int), "objects"@, 0) {
        Some(objects) => {
            let list = all_named(doc, children_of(doc, objects as int), "object"@, children_of(doc, objects as int).len() as int);
            identified_upto(doc, road, list, list.len() as int)
        },
        None => Seq::empty(),
    }
}

/// The `<object>`s with an `id` on the first `k` of `roads`.
pub open spec fn index_upto(doc: Seq<XmlNodeView>, roads: Seq<usize>, k: int) -> Seq<(usize, usize)>
    decreases k,
{
    if k <= 0 {
        Seq::empty()
    } else {
        index_upto(doc, roads, k - 1) + road_objects(doc, roads[k - 1])
    }
}

/// The `<road>`s directly inside `root`.
pub open spec fn road_list(doc: Seq<XmlNodeView>, root: int) -> Seq<usize> {
    all_named(doc, children_of(doc, root), "road"@, children_of(doc, root).len() as int)
}

/// The `<object>`s with an `id` on one road, appended to `out`.
fn index_road(doc: &Document, road: usize, out: &mut Vec<(usize, usize)>)
    requires
        road < doc@.len(),
        forall|i: int| 0 <= i < old(out)@.len() ==> (#[trigger] old(out)@[i]).0 < doc@.len() && old(out)@[i].1 < doc@.len(),
    ensures
        final(out)@ == old(out)@ + road_objects(doc@, road),
        forall|i: int| 0 <= i < final(out)@.len() ==> (#[trigger] final(out)@[i]).0 < doc@.len() && final(out)@[i].1 < doc@.len(),
{
    let Some(objects) = doc.child(road, "objects") else {
        assert(old(out)@ + Seq::<(usize, usize)>::empty() =~= old(out)@);
        return;
    };
    let list = doc.children_named(objects, "object");
    let ghost start = out@;
    let mut k: usize = 0;
    while k < list.len()
        invariant
            k <= list.len(),
            road < doc@.len(),
            objects < doc@.len(),
            list@ == all_named(doc@, children_of(doc@, objects as int), "object"@, children_of(doc@, objects as int).len() as int),
            forall|i: int| 0 <= i < list@.len() ==> (#[trigger] list@[i] as int) < doc@.len(),
            out@ == start + identified_upto(doc@, road, list@, k as int),
            forall|i: int| 0 <= i < out@.len() ==> (#[trigger] out@[i]).0 < doc@.len() && out@[i].1 < doc@.len(),
        decreases list.len() - k,
    {
        if doc.attribute(list[k], "id").is_some() {
            out.push((road, list[k]));
        }
        k = k + 1;
        assert(out@ =~= start + identified_upto(doc@, road, list@, k as int));
    }
}

/// Every `<object>` with an `id` in the document, with the `<road>` it is
/// on, in document order, for an `<objectReference>` to find. Ids are meant
/// to be unique across the file; where two objects share one, the first
/// wins.
pub fn object_index(doc: &Document, root: usize) -> (r: Vec<(usize, usize)>)
    requires
        root < doc@.len(),
    ensures
        r@ == index_upto(doc@, road_list(doc@, root as int), road_list(doc@, root as int).len() as int),
        forall|i: int| 0 <= i < r@.len() ==> (#[trigger] r@[i]).0 < doc@.len() && r@[i].1 < doc@.len(),
{
    let roads = doc.children_named(root, "road");
    let mut out: Vec<(usize, usize)> = Vec::new();
    let mut k: usize = 0;
    while k < roads.len()
        invariant
            k <= roads.len(),
            roads@ == road_list(doc@, root as int),
            forall|i: int| 0 <= i < roads@.len() ==> (#[trigger] roads@[i] as int) < doc@.len(),
            out@ == index_upto(doc@, roads@, k as int),
            forall|i: int| 0 <= i < out@.len() ==> (#[trigger] out@[i]).0 < doc@.len() && out@[i].1 < doc@.len(),
        decreases roads.len() - k,
    {
        index_road(doc, roads[k], &mut out);
        k = k + 1;
    }
    out
}

/// The first of `index[k..]` whose `<object>` has the id `id`.
pub open spec fn first_with_id(doc: Seq<XmlNodeView>, index: Seq<(usize, usize)>, id: Seq<char>, k: int) -> Option<(usize, usize)>
    decreases index.len() - k,
{
    if k < 0 || k >= index.len() {
        None
    } else if attr(doc, index[k].1 as int, "id"@) == Some(id) {
        Some(index[k])
    } else {
        first_with_id(doc, index, id, k + 1)
    }
}

/// The `<object>` an `<objectReference>`'s `id` names, with its road: the
/// first in document order with that id.
pub fn find_object(doc: &Document, index: &[(usize, usize)], id: &str) -> (r: Option<(usize, usize)>)
    requires
        forall|i: int| 0 <= i < index@.len() ==> (#[trigger] index@[i]).1 < doc@.len(),
    ensures
        r == first_with_id(doc@, index@, id@, 0),
{
    let mut k: usize = 0;
    while k < index.len()
        invariant
            k <= index@.len(),
            forall|i: int| 0 <= i < index@.len() ==> (#[trigger] index@[i]).1 < doc@.len(),
            first_with_id(doc@, index@, id@, 0) == first_with_id(doc@, index@, id@, k as int),
        decreases index.len() - k,
    {
        if let Some(own) = doc.attribute(index[k].1, "id") {
            if same_text(own, id) {
                return Some(index[k]);
            }
        }
        k = k + 1;
    }
    None
}

/// How an entry of a road's `<objects>` is placed.
#[derive(Debug, Clone, Copy, PartialEq, Eq, Structural)]
pub enum Placed {
    /// An `<object>`, where it says it is.
    Own(usize),
    /// The `<object>` an `<objectReference>` names, with the `<road>` that
    /// object is on, placed where the reference says.
    Referenced {
        /// The `<road>` the named `<object>` is on.
        road: usize,
        /// The named `<object>`.
        object: usize,
    },
}

/// What an entry of a road's `<objects>` places: an `<object>` itself, the
/// object an `<objectReference>` names if some object has that id, and
/// nothing for anything else.
pub open spec fn placed_by(doc: Seq<XmlNodeView>, index: Seq<(usize, usize)>, node: int) -> Option<Placed> {
    if named(doc[node], "object"@) {
        Some(Placed::Own(node as usize))
    } else if named(doc[node], "objectReference"@) {
        match attr(doc, node, "id"@) {
            Some(id) => match first_with_id(doc, index, id, 0) {
                Some((road, object)) => Some(Placed::Referenced { road, object }),
                None => None,
            },
            None => None,
        }
    } else {
        None
    }
}

/// What the entry `node` of a road's `<objects>` places, looking up what an
/// `<objectReference>` names in `index` (see [`object_index`]). A reference
/// to an id no `<object>` has places nothing.
pub fn placed_object(doc: &Document, index: &[(usize, usize)], node: usize) -> (r: Option<Placed>)
    requires
        node < doc@.len(),
        forall|i: int| 0 <= i < index@.len() ==> (#[trigger] index@[i]).1 < doc@.len(),
    ensures
        r == placed_by(doc@, index@, node as int),
{
    if doc.has_tag_name(node, "object") {
        Some(Placed::Own(node))
    } else if doc.has_tag_name(node, "objectReference") {
        match doc.attribute(node, "id") {
            Some(id) => match find_object(doc, index, id) {
                Some((road, object)) => Some(Placed::Referenced { road, object }),
                None => None,
            },
            None => None,
        }
    } else {
        None
    }
}

/// A tunnel or a bridge, by its element.
#[derive(Debug, Clone, Copy, PartialEq, Eq, Structural)]
pub enum StructureTag {
    /// A `<tunnel>`.
    Tunnel,
    /// A `<bridge>`.
    Bridge,
}

/// Whether an entry of a road's `<objects>` is a `<tunnel>` or a
/// `<bridge>`, or neither.
pub fn structure_tag(doc: &Document, node: usize) -> (r: Option<StructureTag>)
    requires
        node < doc@.len(),
    ensures
        r == if named(doc@[node as int], "tunnel"@) {
            Some(StructureTag::Tunnel)
        } else if named(doc@[node as int], "bridge"@) {
            Some(StructureTag::Bridge)
        } else {
            None
        },
{
    if doc.has_tag_name(node, "tunnel") {
        Some(StructureTag::Tunnel)
    } else if doc.has_tag_name(node, "bridge") {
        Some(StructureTag::Bridge)
    } else {
        None
    }
}

/// The corners a `<border>` with `useCompleteOutline` runs along: every
/// corner in order, and back to the first if the outline is closed.
pub fn complete_outline(corners: usize, closed: bool) -> (r: Vec<usize>)
    requires
        corners > 0,
    ensures
        r@.len() == if closed { corners + 1 } else { corners as int },
        forall|i: int| 0 <= i < corners ==> #[trigger] r@[i] == i,
        closed ==> r@[corners as int] == 0,
{
    let mut out: Vec<usize> = Vec::new();
    let mut i: usize = 0;
    while i < corners
        invariant
            i <= corners,
            out@.len() == i,
            forall|k: int| 0 <= k < i ==> #[trigger] out@[k] == k,
        decreases corners - i,
    {
        out.push(i);
        i = i + 1;
    }
    if closed {
        out.push(0);
    }
    out
}

/// Whether `object` is an `<object>` with an `id` standing in the
/// `<objects>` of the node `road`.
pub open spec fn object_on_road(doc: Seq<XmlNodeView>, road: int, object: int) -> bool {
    &&& 0 <= object < doc.len()
    &&& named(doc[object], "object"@)
    &&& attr(doc, object, "id"@) is Some
    &&& doc[object].parent matches Some(o) && (o as int) < doc.len() && named(doc[o as int], "objects"@)
        && doc[o as int].parent == Some(road as usize)
}

/// A position listed among a node's children is a node inside it.
proof fn lemma_listed_child(doc: Seq<XmlNodeView>, node: int, c: usize)
    requires
        doc.len() <= usize::MAX,
        children_of(doc, node).contains(c),
    ensures
        (c as int) < doc.len(),
        doc[c as int].parent == Some(node as usize),
{
    lemma_children_are_inside(doc, node, doc.len() as int);
    let i = choose|i: int| 0 <= i < children_of(doc, node).len() && children_of(doc, node)[i] == c;
    assert(children_of(doc, node)[i] == c);
}

/// Each entry `identified_upto` makes is an object of `list` with an id,
/// paired with `road`.
proof fn lemma_identified(doc: Seq<XmlNodeView>, road: usize, list: Seq<usize>, k: int)
    requires
        0 <= k <= list.len(),
    ensures
        forall|i: int| 0 <= i < identified_upto(doc, road, list, k).len() ==> {
            let e = #[trigger] identified_upto(doc, road, list, k)[i];
            e.0 == road && list.contains(e.1) && attr(doc, e.1 as int, "id"@) is Some
        },
    decreases k,
{
    if k > 0 {
        lemma_identified(doc, road, list, k - 1);
        let rest = identified_upto(doc, road, list, k - 1);
        assert(list.contains(list[k - 1]));
        assert forall|i: int| 0 <= i < identified_upto(doc, road, list, k).len() implies {
            let e = #[trigger] identified_upto(doc, road, list, k)[i];
            e.0 == road && list.contains(e.1) && attr(doc, e.1 as int, "id"@) is Some
        } by {
            if i < rest.len() {
                assert(identified_upto(doc, road, list, k)[i] == rest[i]);
            }
        }
    }
}

/// Each entry of one road's objects is an object on that road.
proof fn lemma_road_objects(doc: Seq<XmlNodeView>, road: usize)
    requires
        (road as int) < doc.len() <= usize::MAX,
    ensures
        forall|i: int| 0 <= i < road_objects(doc, road).len() ==> {
            let e = #[trigger] road_objects(doc, road)[i];
            e.0 == road && object_on_road(doc, road as int, e.1 as int)
        },
{
    lemma_child_named(doc, road as int, "objects"@);
    if let Some(objects) = first_named(doc, children_of(doc, road as int), "objects"@, 0) {
        let kids = children_of(doc, objects as int);
        let list = all_named(doc, kids, "object"@, kids.len() as int);
        lemma_all_named(doc, kids, "object"@, kids.len() as int);
        lemma_identified(doc, road, list, list.len() as int);
        assert forall|i: int| 0 <= i < road_objects(doc, road).len() implies {
            let e = #[trigger] road_objects(doc, road)[i];
            e.0 == road && object_on_road(doc, road as int, e.1 as int)
        } by {
            let e = road_objects(doc, road)[i];
            let j = choose|j: int| 0 <= j < list.len() && list[j] == e.1;
            assert(kids.contains(list[j]) && named(doc[list[j] as int], "object"@));
            lemma_listed_child(doc, objects as int, e.1);
        }
    }
}

/// Each entry of the object index is an object with an id on one of the
/// first `k` roads.
proof fn lemma_index_entries(doc: Seq<XmlNodeView>, roads: Seq<usize>, k: int)
    requires
        0 <= k <= roads.len(),
        doc.len() <= usize::MAX,
        forall|j: int| 0 <= j < roads.len() ==> (#[trigger] roads[j] as int) < doc.len(),
    ensures
        forall|i: int| 0 <= i < index_upto(doc, roads, k).len() ==> {
            let e = #[trigger] index_upto(doc, roads, k)[i];
            roads.contains(e.0) && object_on_road(doc, e.0 as int, e.1 as int)
        },
    decreases k,
{
    if k > 0 {
        lemma_index_entries(doc, roads, k - 1);
        let rest = index_upto(doc, roads, k - 1);
        let own = road_objects(doc, roads[k - 1]);
        lemma_road_objects(doc, roads[k - 1]);
        assert(roads.contains(roads[k - 1]));
        assert forall|i: int| 0 <= i < index_upto(doc, roads, k).len() implies {
            let e = #[trigger] index_upto(doc, roads, k)[i];
            roads.contains(e.0) && object_on_road(doc, e.0 as int, e.1 as int)
        } by {
            if i < rest.len() {
                assert(index_upto(doc, roads, k)[i] == rest[i]);
            } else {
                assert(index_upto(doc, roads, k)[i] == own[i - rest.len()]);
            }
        }
    }
}

/// What `first_with_id` finds is an entry of the index with that id.
proof fn lemma_first_with_id(doc: Seq<XmlNodeView>, index: Seq<(usize, usize)>, id: Seq<char>, k: int)
    requires
        0 <= k,
    ensures
        first_with_id(doc, index, id, k) matches Some(e) ==> index.contains(e) && attr(doc, e.1 as int, "id"@) == Some(id),
        first_with_id(doc, index, id, k) matches Some(e) ==> exists|i: int| k <= i < index.len() && index[i] == e
            && forall|j: int| k <= j < i ==> attr(doc, #[trigger] index[j].1 as int, "id"@) != Some(id),
    decreases index.len() - k,
{
    if k < index.len() {
        lemma_first_with_id(doc, index, id, k + 1);
        assert(index.contains(index[k]));
        if attr(doc, index[k].1 as int, "id"@) == Some(id) {
            assert(index[k] == index[k]);
        } else if let Some(e) = first_with_id(doc, index, id, k + 1) {
            let i = choose|i: int| k + 1 <= i < index.len() && index[i] == e
                && forall|j: int| k + 1 <= j < i ==> attr(doc, #[trigger] index[j].1 as int, "id"@) != Some(id);
            assert forall|j: int| k <= j < i implies attr(doc, #[trigger] index[j].1 as int, "id"@) != Some(id) by {}
        }
    }
}

/// An `<object>` places itself, and an `<objectReference>` that resolves
/// places an `<object>` whose `id` is the reference's, on the `<road>` of
/// the document that holds that object in its `<objects>`.
#[verifier::spinoff_prover]
pub proof fn a_reference_places_the_object_it_names(doc: Seq<XmlNodeView>, root: int, node: int)
    requires
        0 <= root < doc.len() <= usize::MAX,
        0 <= node < doc.len(),
    ensures
        ({
            let index = index_upto(doc, road_list(doc, root), road_list(doc, root).len() as int);
            &&& placed_by(doc, index, node) matches Some(Placed::Own(o))
                ==> o as int == node && named(doc[node], "object"@)
            &&& placed_by(doc, index, node) matches Some(Placed::Referenced { road, object }) ==> {
                &&& named(doc[node], "objectReference"@)
                &&& attr(doc, node, "id"@) is Some
                &&& attr(doc, object as int, "id"@) == attr(doc, node, "id"@)
                &&& object_on_road(doc, road as int, object as int)
                &&& (road as int) < doc.len()
                &&& named(doc[road as int], "road"@)
                &&& doc[road as int].parent == Some(root as usize)
                &&& exists|i: int| 0 <= i < index.len() && index[i] == (road, object)
                    && forall|j: int| 0 <= j < i ==> attr(doc, #[trigger] index[j].1 as int, "id"@) != attr(doc, node, "id"@)
            }
        }),
{
    let kids = children_of(doc, root);
    let roads = road_list(doc, root);
    lemma_all_named(doc, kids, "road"@, kids.len() as int);
    assert forall|j: int| 0 <= j < roads.len() implies (#[trigger] roads[j] as int) < doc.len()
        && doc[roads[j] as int].parent == Some(root as usize) && named(doc[roads[j] as int], "road"@) by {
        lemma_listed_child(doc, root, roads[j]);
    }
    lemma_index_entries(doc, roads, roads.len() as int);
    let index = index_upto(doc, roads, roads.len() as int);
    if named(doc[node], "objectReference"@) && !named(doc[node], "object"@) {
        if let Some(id) = attr(doc, node, "id"@) {
            lemma_first_with_id(doc, index, id, 0);
            if let Some(e) = first_with_id(doc, index, id, 0) {
                let i = choose|i: int| 0 <= i < index.len() && index[i] == e;
                assert(index[i] == e);
                let j = choose|j: int| 0 <= j < roads.len() && roads[j] == e.0;
                assert(roads[j] == e.0);
            }
        }
    }
}

/// `position_of` finds the first position at or after `k` holding `id`,
/// and none exactly when there is none.
proof fn lemma_position_of(ids: Seq<Option<&str>>, id: Seq<char>, k: int)
    requires
        0 <= k,
    ensures
        position_of(ids, id, k) matches Some(p) ==> k <= p < ids.len() && text_view(ids[p]) == Some(id)
            && forall|q: int| k <= q < p ==> text_view(#[trigger] ids[q]) != Some(id),
        position_of(ids, id, k) is None ==> forall|q: int| k <= q < ids.len() ==> text_view(#[trigger] ids[q]) != Some(id),
    decreases ids.len() - k,
{
    if k < ids.len() {
        lemma_position_of(ids, id, k + 1);
    }
}

/// The corners the first `k` references name: a corner for each, in order,
/// exactly when each of them has an `id` that some corner has.
proof fn lemma_references(doc: Seq<XmlNodeView>, refs: Seq<usize>, ids: Seq<Option<&str>>, k: int)
    requires
        0 <= k <= refs.len(),
        ids.len() <= usize::MAX,
    ensures
        references_upto(doc, refs, ids, k) is Some <==> forall|i: int| 0 <= i < k ==>
            (#[trigger] attr(doc, refs[i] as int, "id"@)) is Some && position_of(ids, attr(doc, refs[i] as int, "id"@)->0, 0) is Some,
        references_upto(doc, refs, ids, k) matches Some(path) ==> path.len() == k && forall|i: int| 0 <= i < k
            ==> #[trigger] path[i] as int == position_of(ids, attr(doc, refs[i] as int, "id"@)->0, 0)->0,
    decreases k,
{
    if k > 0 {
        lemma_references(doc, refs, ids, k - 1);
        if let Some(id) = attr(doc, refs[k - 1] as int, "id"@) {
            lemma_position_of(ids, id, 0);
            if let Some(path) = references_upto(doc, refs, ids, k) {
                let prev = references_upto(doc, refs, ids, k - 1)->0;
                assert forall|i: int| 0 <= i < k implies
                    #[trigger] path[i] as int == position_of(ids, attr(doc, refs[i] as int, "id"@)->0, 0)->0 by {
                    if i < k - 1 {
                        assert(path[i] == prev[i]);
                    }
                }
            }
        }
    }
}

/// A marking or a border runs through the corners its `<cornerReference>`s
/// name, in order: one corner per reference, at least two of them, each the
/// first corner whose `id` is the reference's; and it runs through none
/// exactly when there are fewer than two references or one of them has no
/// `id` or names no corner.
#[verifier::spinoff_prover]
pub proof fn a_path_runs_through_the_corners_its_references_name(doc: Seq<XmlNodeView>, node: int, ids: Seq<Option<&str>>)
    requires
        0 <= node < doc.len() <= usize::MAX,
        ids.len() <= usize::MAX,
    ensures
        ({
            let refs = reference_list(doc, node);
            &&& forall|i: int| 0 <= i < refs.len() ==> (#[trigger] refs[i] as int) < doc.len()
                && doc[refs[i] as int].parent == Some(node as usize) && named(doc[refs[i] as int], "cornerReference"@)
            &&& path_of(doc, node, ids) is None <==> (refs.len() < 2 || exists|i: int| 0 <= i < refs.len() && {
                let id = #[trigger] attr(doc, refs[i] as int, "id"@);
                id is None || forall|q: int| 0 <= q < ids.len() ==> text_view(ids[q]) != id
            })
            &&& path_of(doc, node, ids) matches Some(path) ==> path.len() == refs.len() && forall|i: int|
                0 <= i < path.len() ==> {
                    let at = #[trigger] path[i] as int;
                    &&& at < ids.len()
                    &&& text_view(ids[at]) == attr(doc, refs[i] as int, "id"@)
                    &&& forall|q: int| 0 <= q < at ==> text_view(ids[q]) != attr(doc, refs[i] as int, "id"@)
                }
        }),
{
    let kids = children_of(doc, node);
    let refs = reference_list(doc, node);
    lemma_all_named(doc, kids, "cornerReference"@, kids.len() as int);
    lemma_children_are_inside(doc, node, doc.len() as int);
    assert forall|i: int| 0 <= i < refs.len() implies (#[trigger] refs[i] as int) < doc.len()
        && doc[refs[i] as int].parent == Some(node as usize) && named(doc[refs[i] as int], "cornerReference"@) by {
        let m = choose|m: int| 0 <= m < kids.len() && kids[m] == refs[i];
        assert(kids[m] == refs[i]);
    }
    lemma_references(doc, refs, ids, refs.len() as int);
    assert forall|i: int| 0 <= i < refs.len() && (#[trigger] attr(doc, refs[i] as int, "id"@)) is Some implies
        (position_of(ids, attr(doc, refs[i] as int, "id"@)->0, 0) is None
            <==> forall|q: int| 0 <= q < ids.len() ==> text_view(ids[q]) != attr(doc, refs[i] as int, "id"@)) by {
        let id = attr(doc, refs[i] as int, "id"@)->0;
        lemma_position_of(ids, id, 0);
        if let Some(p) = position_of(ids, id, 0) {
            assert(text_view(ids[p]) == Some(id));
        }
    }
    if let Some(path) = path_of(doc, node, ids) {
        assert forall|i: int| 0 <= i < path.len() implies {
            let at = #[trigger] path[i] as int;
            &&& at < ids.len()
            &&& text_view(ids[at]) == attr(doc, refs[i] as int, "id"@)
            &&& forall|q: int| 0 <= q < at ==> text_view(ids[q]) != attr(doc, refs[i] as int, "id"@)
        } by {
            let id = attr(doc, refs[i] as int, "id"@)->0;
            lemma_position_of(ids, id, 0);
        }
    }
}

/// A `<border>` belongs to an `<outline>` exactly when it names no
/// `outlineId`, or names the outline's `id`.
pub proof fn a_border_belongs_to_the_outline_it_names(doc: Seq<XmlNodeView>, border: int, outline: int)
    ensures
        border_fits_outline(doc, border, outline) <==> match attr(doc, border, "outlineId"@) {
            None => true,
            Some(id) => attr(doc, outline, "id"@) == Some(id),
        },
        attr(doc, border, "outlineId"@) is Some && attr(doc, outline, "id"@) is None ==> !border_fits_outline(doc, border, outline),
{
}

/// An object's outlines are the `<outline>`s inside its first `<outlines>`,
/// or, where it has no `<outlines>`, those directly inside the object.
pub proof fn outlines_are_read_where_the_version_puts_them(doc: Seq<XmlNodeView>, object: int)
    requires
        0 <= object < doc.len() <= usize::MAX,
    ensures
        ({
            let p = outline_parent(doc, object);
            let found = all_named(doc, children_of(doc, p), "outline"@, children_of(doc, p).len() as int);
            &&& !has_child_named(doc, object, "outlines"@) ==> p == object
            &&& has_child_named(doc, object, "outlines"@) ==> 0 <= p < doc.len() && named(doc[p], "outlines"@)
                && doc[p].parent == Some(object as usize)
            &&& forall|i: int| 0 <= i < found.len() ==> (#[trigger] found[i] as int) < doc.len()
                && named(doc[found[i] as int], "outline"@) && doc[found[i] as int].parent == Some(p as usize)
        }),
{
    lemma_child_named(doc, object, "outlines"@);
    let p = outline_parent(doc, object);
    let kids = children_of(doc, p);
    let found = all_named(doc, kids, "outline"@, kids.len() as int);
    lemma_all_named(doc, kids, "outline"@, kids.len() as int);
    lemma_children_are_inside(doc, p, doc.len() as int);
    assert forall|i: int| 0 <= i < found.len() implies (#[trigger] found[i] as int) < doc.len()
        && named(doc[found[i] as int], "outline"@) && doc[found[i] as int].parent == Some(p as usize) by {
        let m = choose|m: int| 0 <= m < kids.len() && kids[m] == found[i];
        assert(kids[m] == found[i]);
    }
}

} // verus!
