//! What the OpenDRIVE schema means: how the importer reads a lane's and an
//! object's type, its side of the road and its travel direction, its
//! `<validity>` ranges and the attributes that switch a shape on or off.

use vstd::prelude::*;

use crate::network::{lane_type_name, Direction, LaneId, LaneType};
use crate::object::{object_type_name, ObjectType};
use crate::text::{chars_of, same_text, string_of};
use crate::xml::{
    all_named, attribute_from, children_of, first_named, has_child_named, lemma_all_named,
    lemma_child_named, lemma_children_are_inside, named,
    parsed_xml, sanitized, text_view, Document, XmlNodeView,
};

verus! {

/// Why an OpenDRIVE document did not import.
pub enum ImportError {
    /// The document is not well-formed XML.
    Xml(roxmltree::Error),
    /// The XML parsed, but it is not a usable map: it was unreadable, or it
    /// carries no lanes at all.
    Malformed(String),
}

/// Read an OpenDRIVE document: made parseable by
/// [`sanitize`](crate::sanitize), then parsed. `Err(Xml)` exactly when the
/// text is not well-formed XML.
pub fn read_document(xml: &str) -> (r: Result<Document, ImportError>)
    ensures
        r is Ok <==> parsed_xml(sanitized(xml@)) is Some,
        r matches Ok(d) ==> d@ == parsed_xml(sanitized(xml@))->0,
        r matches Err(e) ==> e is Xml,
{
    match Document::read(xml) {
        Ok(d) => Ok(d),
        Err(e) => Err(ImportError::Xml(e)),
    }
}

/// The OpenDRIVE identity of one baked lane: which road, lane section and
/// `<lane id>` it was baked from.
#[derive(Debug, Clone, PartialEq, Eq)]
pub struct LaneProvenance {
    /// The baked lane this record describes.
    pub lane: LaneId,
    /// The `<road id>` the lane came from.
    pub road_id: String,
    /// The zero-based lane-section index within that road.
    pub section: usize,
    /// The signed `<lane id>` the map gives it.
    pub od_id: i32,
}

/// Which direction of its road an object applies to, from its
/// `orientation`.
#[derive(Debug, Clone, Copy, PartialEq, Eq, Hash, Structural)]
pub enum Orientation {
    /// Traffic along +s, `orientation="+"`.
    Positive,
    /// Traffic along -s, `orientation="-"`.
    Negative,
    /// Both, `orientation="none"`, and what a missing or unrecognised value
    /// reads as.
    Both,
}

/// The value of `node`'s attribute `name` in `doc`, if it has one.
pub open spec fn attr(doc: Seq<crate::xml::XmlNodeView>, node: int, name: Seq<char>) -> Option<Seq<char>> {
    attribute_from(doc[node].attributes, name, 0)
}

/// The orientation an `orientation` attribute names.
pub open spec fn orientation_of(value: Option<Seq<char>>) -> Orientation {
    match value {
        Some(v) => if v == "+"@ {
            Orientation::Positive
        } else if v == "-"@ {
            Orientation::Negative
        } else {
            Orientation::Both
        },
        None => Orientation::Both,
    }
}

/// Which direction of the road an `<object>` or `<objectReference>`
/// applies to.
pub fn orientation(doc: &Document, node: usize) -> (r: Orientation)
    requires
        node < doc@.len(),
    ensures
        r == orientation_of(attr(doc@, node as int, "orientation"@)),
{
    match doc.attribute(node, "orientation") {
        Some(v) => if same_text(v, "+") {
            Orientation::Positive
        } else if same_text(v, "-") {
            Orientation::Negative
        } else {
            Orientation::Both
        },
        None => Orientation::Both,
    }
}

/// The lane type a `<lane type>` value names: every type the format
/// defines, with `mwyEntry` and `mwyExit` the older spellings of `entry` and
/// `exit`, and [`LaneType::Unknown`] for anything else.
pub open spec fn lane_type_named(name: Seq<char>) -> LaneType {
    if name == "none"@ {
        LaneType::Unnamed
    } else if name == "driving"@ {
        LaneType::Driving
    } else if name == "bidirectional"@ {
        LaneType::Bidirectional
    } else if name == "bus"@ {
        LaneType::Bus
    } else if name == "taxi"@ {
        LaneType::Taxi
    } else if name == "HOV"@ {
        LaneType::Hov
    } else if name == "entry"@ {
        LaneType::Entry
    } else if name == "mwyEntry"@ {
        LaneType::Entry
    } else if name == "exit"@ {
        LaneType::Exit
    } else if name == "mwyExit"@ {
        LaneType::Exit
    } else if name == "onRamp"@ {
        LaneType::OnRamp
    } else if name == "offRamp"@ {
        LaneType::OffRamp
    } else if name == "connectingRamp"@ {
        LaneType::ConnectingRamp
    } else if name == "slipLane"@ {
        LaneType::SlipLane
    } else if name == "parking"@ {
        LaneType::Parking
    } else if name == "stop"@ {
        LaneType::Stop
    } else if name == "restricted"@ {
        LaneType::Restricted
    } else if name == "biking"@ {
        LaneType::Biking
    } else if name == "sidewalk"@ {
        LaneType::Sidewalk
    } else if name == "shoulder"@ {
        LaneType::Shoulder
    } else if name == "border"@ {
        LaneType::Border
    } else if name == "curb"@ {
        LaneType::Curb
    } else if name == "median"@ {
        LaneType::Median
    } else if name == "roadWorks"@ {
        LaneType::RoadWorks
    } else if name == "tram"@ {
        LaneType::Tram
    } else if name == "rail"@ {
        LaneType::Rail
    } else if name == "special1"@ {
        LaneType::Special1
    } else if name == "special2"@ {
        LaneType::Special2
    } else if name == "special3"@ {
        LaneType::Special3
    } else {
        LaneType::Unknown
    }
}

/// The lane type of an optional `<lane type>`: an absent type is
/// [`LaneType::Unknown`], so no lane is dropped for its type.
pub open spec fn lane_type_of(od_type: Option<Seq<char>>) -> LaneType {
    match od_type {
        Some(name) => lane_type_named(name),
        None => LaneType::Unknown,
    }
}

/// The [`LaneType`] an OpenDRIVE `<lane>` `type` maps to.
pub fn lane_type(od_type: Option<&str>) -> (r: LaneType)
    ensures
        r == lane_type_of(text_view(od_type)),
{
    let Some(name) = od_type else {
        return LaneType::Unknown;
    };
    if same_text(name, "none") {
        LaneType::Unnamed
    } else if same_text(name, "driving") {
        LaneType::Driving
    } else if same_text(name, "bidirectional") {
        LaneType::Bidirectional
    } else if same_text(name, "bus") {
        LaneType::Bus
    } else if same_text(name, "taxi") {
        LaneType::Taxi
    } else if same_text(name, "HOV") {
        LaneType::Hov
    } else if same_text(name, "entry") {
        LaneType::Entry
    } else if same_text(name, "mwyEntry") {
        LaneType::Entry
    } else if same_text(name, "exit") {
        LaneType::Exit
    } else if same_text(name, "mwyExit") {
        LaneType::Exit
    } else if same_text(name, "onRamp") {
        LaneType::OnRamp
    } else if same_text(name, "offRamp") {
        LaneType::OffRamp
    } else if same_text(name, "connectingRamp") {
        LaneType::ConnectingRamp
    } else if same_text(name, "slipLane") {
        LaneType::SlipLane
    } else if same_text(name, "parking") {
        LaneType::Parking
    } else if same_text(name, "stop") {
        LaneType::Stop
    } else if same_text(name, "restricted") {
        LaneType::Restricted
    } else if same_text(name, "biking") {
        LaneType::Biking
    } else if same_text(name, "sidewalk") {
        LaneType::Sidewalk
    } else if same_text(name, "shoulder") {
        LaneType::Shoulder
    } else if same_text(name, "border") {
        LaneType::Border
    } else if same_text(name, "curb") {
        LaneType::Curb
    } else if same_text(name, "median") {
        LaneType::Median
    } else if same_text(name, "roadWorks") {
        LaneType::RoadWorks
    } else if same_text(name, "tram") {
        LaneType::Tram
    } else if same_text(name, "rail") {
        LaneType::Rail
    } else if same_text(name, "special1") {
        LaneType::Special1
    } else if same_text(name, "special2") {
        LaneType::Special2
    } else if same_text(name, "special3") {
        LaneType::Special3
    } else {
        LaneType::Unknown
    }
}

/// The object type an `<object type>` value names, and
/// [`ObjectType::Unknown`] for anything else.
pub open spec fn object_type_named(name: Seq<char>) -> ObjectType {
    if name == "none"@ {
        ObjectType::Unnamed
    } else if name == "obstacle"@ {
        ObjectType::Obstacle
    } else if name == "pole"@ {
        ObjectType::Pole
    } else if name == "tree"@ {
        ObjectType::Tree
    } else if name == "vegetation"@ {
        ObjectType::Vegetation
    } else if name == "barrier"@ {
        ObjectType::Barrier
    } else if name == "building"@ {
        ObjectType::Building
    } else if name == "parkingSpace"@ {
        ObjectType::ParkingSpace
    } else if name == "patch"@ {
        ObjectType::Patch
    } else if name == "railing"@ {
        ObjectType::Railing
    } else if name == "trafficIsland"@ {
        ObjectType::TrafficIsland
    } else if name == "crosswalk"@ {
        ObjectType::Crosswalk
    } else if name == "streetLamp"@ {
        ObjectType::StreetLamp
    } else if name == "gantry"@ {
        ObjectType::Gantry
    } else if name == "soundBarrier"@ {
        ObjectType::SoundBarrier
    } else if name == "roadMark"@ {
        ObjectType::RoadMark
    } else {
        ObjectType::Unknown
    }
}

/// The object type of an optional `<object type>`. An absent type reads
/// as the empty name, which is [`ObjectType::Unknown`].
pub open spec fn object_type_of(od_type: Option<Seq<char>>) -> ObjectType {
    match od_type {
        Some(name) => object_type_named(name),
        None => object_type_named(""@),
    }
}

/// The [`ObjectType`] an OpenDRIVE `<object>` `type` maps to.
pub fn object_type(od_type: Option<&str>) -> (r: ObjectType)
    ensures
        r == object_type_of(text_view(od_type)),
{
    let name = match od_type {
        Some(name) => name,
        None => "",
    };

    if same_text(name, "none") {
        ObjectType::Unnamed
    } else if same_text(name, "obstacle") {
        ObjectType::Obstacle
    } else if same_text(name, "pole") {
        ObjectType::Pole
    } else if same_text(name, "tree") {
        ObjectType::Tree
    } else if same_text(name, "vegetation") {
        ObjectType::Vegetation
    } else if same_text(name, "barrier") {
        ObjectType::Barrier
    } else if same_text(name, "building") {
        ObjectType::Building
    } else if same_text(name, "parkingSpace") {
        ObjectType::ParkingSpace
    } else if same_text(name, "patch") {
        ObjectType::Patch
    } else if same_text(name, "railing") {
        ObjectType::Railing
    } else if same_text(name, "trafficIsland") {
        ObjectType::TrafficIsland
    } else if same_text(name, "crosswalk") {
        ObjectType::Crosswalk
    } else if same_text(name, "streetLamp") {
        ObjectType::StreetLamp
    } else if same_text(name, "gantry") {
        ObjectType::Gantry
    } else if same_text(name, "soundBarrier") {
        ObjectType::SoundBarrier
    } else if same_text(name, "roadMark") {
        ObjectType::RoadMark
    } else {
        ObjectType::Unknown
    }
}

/// Whether every character of `s` is an ASCII digit.
pub open spec fn all_digits(s: Seq<char>) -> bool {
    forall|i: int| 0 <= i < s.len() ==> '0' <= #[trigger] s[i] && s[i] <= '9'
}

/// The number the decimal digits `s` spell.
pub open spec fn digits_value(s: Seq<char>) -> int
    decreases s.len(),
{
    if s.len() == 0 {
        0
    } else {
        digits_value(s.drop_last()) * 10 + (s.last() as int - '0' as int)
    }
}

/// `s` read as a decimal `i32`: an optional `+` or `-`, then one or more
/// ASCII digits, of a value in range. Anything else is `None`.
pub open spec fn decimal_i32(s: Seq<char>) -> Option<i32> {
    let negative = s.len() > 0 && s[0] == '-';
    let digits = if s.len() > 0 && (s[0] == '-' || s[0] == '+') {
        s.drop_first()
    } else {
        s
    };
    let value = if negative {
        -digits_value(digits)
    } else {
        digits_value(digits)
    };
    if digits.len() == 0 || !all_digits(digits) || value < i32::MIN || value > i32::MAX {
        None
    } else {
        Some(value as i32)
    }
}

/// `s` read by std's `str::parse::<i32>`, with its error dropped. Claimed
/// of std, as its documentation gives it: an optional sign, then only
/// decimal digits, of a value in range; anything else is an error.
#[verifier::external_body]
fn parse_i32(s: &str) -> (r: Option<i32>)
    ensures
        r == decimal_i32(s@),
{
    s.parse::<i32>().ok()
}

/// An attribute read as a decimal integer.
pub open spec fn int_attr(doc: Seq<crate::xml::XmlNodeView>, node: int, name: Seq<char>) -> Option<i32> {
    match attr(doc, node, name) {
        Some(v) => decimal_i32(v),
        None => None,
    }
}

/// `node`'s attribute `name` read as a decimal `i32`, or `None` if it is
/// absent or not one.
pub fn int_attribute(doc: &Document, node: usize, name: &str) -> (r: Option<i32>)
    requires
        node < doc@.len(),
    ensures
        r == int_attr(doc@, node as int, name@),
{
    match doc.attribute(node, name) {
        Some(v) => parse_i32(v),
        None => None,
    }
}

/// `node`'s attribute `name`, or the empty string if it has none.
pub fn text_attribute(doc: &Document, node: usize, name: &str) -> (r: String)
    requires
        node < doc@.len(),
    ensures
        r@ == match attr(doc@, node as int, name@) {
            Some(v) => v,
            None => Seq::empty(),
        },
{
    match doc.attribute(node, name) {
        Some(v) => v.to_owned(),
        None => String::new(),
    }
}

/// Whether `node`'s attribute `name` is exactly `value`.
fn attribute_is(doc: &Document, node: usize, name: &str, value: &str) -> (r: bool)
    requires
        node < doc@.len(),
    ensures
        r == (attr(doc@, node as int, name@) == Some(value@)),
{
    match doc.attribute(node, name) {
        Some(v) => same_text(v, value),
        None => false,
    }
}

/// Whether an `<object>` can move: its `dynamic` is `yes`.
pub fn is_dynamic(doc: &Document, object: usize) -> (r: bool)
    requires
        object < doc@.len(),
    ensures
        r == (attr(doc@, object as int, "dynamic"@) == Some("yes"@)),
{
    attribute_is(doc, object, "dynamic", "yes")
}

/// Whether an `<outline>` is closed: it is unless its `closed` is `false`.
pub fn outline_is_closed(doc: &Document, outline: usize) -> (r: bool)
    requires
        outline < doc@.len(),
    ensures
        r == (attr(doc@, outline as int, "closed"@) != Some("false"@)),
{
    !attribute_is(doc, outline, "closed", "false")
}

/// Whether an `<outline>` is a hole: its `outer` is `false`.
pub fn outline_is_hole(doc: &Document, outline: usize) -> (r: bool)
    requires
        outline < doc@.len(),
    ensures
        r == (attr(doc@, outline as int, "outer"@) == Some("false"@)),
{
    attribute_is(doc, outline, "outer", "false")
}

/// Whether a `<border>` runs along every edge: its `useCompleteOutline` is
/// `true`.
pub fn border_uses_complete_outline(doc: &Document, border: usize) -> (r: bool)
    requires
        border < doc@.len(),
    ensures
        r == (attr(doc@, border as int, "useCompleteOutline"@) == Some("true"@)),
{
    attribute_is(doc, border, "useCompleteOutline", "true")
}

/// `c` with an ASCII capital turned to its small letter.
pub open spec fn lower(c: char) -> char {
    if 'A' <= c && c <= 'Z' {
        ((c as u8) + 32) as char
    } else {
        c
    }
}

/// `s` with every ASCII capital turned to its small letter.
pub open spec fn ascii_lowercase(s: Seq<char>) -> Seq<char> {
    Seq::new(s.len(), |i: int| lower(s[i]))
}

/// Whether a `<paramPoly3>` runs its parameter over its arc length: its
/// `pRange` is `arcLength`, matched without case. Any other value, or none,
/// is the normalized range.
pub fn p_range_is_arc_length(doc: &Document, poly: usize) -> (r: bool)
    requires
        poly < doc@.len(),
    ensures
        r == match attr(doc@, poly as int, "pRange"@) {
            Some(v) => ascii_lowercase(v) == "arclength"@,
            None => false,
        },
{
    let Some(v) = doc.attribute(poly, "pRange") else {
        return false;
    };
    let chars = chars_of(v);
    let mut low: Vec<char> = Vec::new();
    let mut i: usize = 0;
    while i < chars.len()
        invariant
            i <= chars.len(),
            low@ == ascii_lowercase(chars@).take(i as int),
        decreases chars.len() - i,
    {
        let c = chars[i];
        let l = if 'A' <= c && c <= 'Z' {
            ((c as u8) + 32) as char
        } else {
            c
        };
        low.push(l);
        i = i + 1;
        assert(low@ =~= ascii_lowercase(chars@).take(i as int));
    }
    assert(low@ =~= ascii_lowercase(chars@));
    let lowered = string_of(low);
    same_text(lowered.as_str(), "arclength")
}

/// The `fromLane`-`toLane` ranges of those of `list[..k]` that have both as
/// decimal integers, in order.
pub open spec fn validity_upto(doc: Seq<crate::xml::XmlNodeView>, list: Seq<usize>, k: int) -> Seq<(i32, i32)>
    decreases k,
{
    if k <= 0 {
        Seq::empty()
    } else {
        let rest = validity_upto(doc, list, k - 1);
        let v = list[k - 1] as int;
        match (int_attr(doc, v, "fromLane"@), int_attr(doc, v, "toLane"@)) {
            (Some(a), Some(b)) => rest.push((a, b)),
            _ => rest,
        }
    }
}

/// The `<validity>` elements directly inside `node`.
pub open spec fn validity_nodes(doc: Seq<crate::xml::XmlNodeView>, node: int) -> Seq<usize> {
    all_named(doc, children_of(doc, node), "validity"@, children_of(doc, node).len() as int)
}

/// The `fromLane`-`toLane` range of each `<validity>` under `node`. One
/// missing either, or with one not an integer, is skipped.
pub fn validity(doc: &Document, node: usize) -> (r: Vec<(i32, i32)>)
    requires
        node < doc@.len(),
    ensures
        r@ == validity_upto(doc@, validity_nodes(doc@, node as int), validity_nodes(doc@, node as int).len() as int),
{
    let list = doc.children_named(node, "validity");
    let mut out: Vec<(i32, i32)> = Vec::new();
    let mut k: usize = 0;
    while k < list.len()
        invariant
            k <= list.len(),
            list@ == validity_nodes(doc@, node as int),
            forall|i: int| 0 <= i < list@.len() ==> (#[trigger] list@[i] as int) < doc@.len(),
            out@ == validity_upto(doc@, list@, k as int),
        decreases list.len() - k,
    {
        let v = list[k];
        if let (Some(a), Some(b)) = (int_attribute(doc, v, "fromLane"), int_attribute(doc, v, "toLane")) {
            out.push((a, b));
        }
        k = k + 1;
    }
    out
}

/// Whether the lane `od_id` lies in the range `(a, b)`, whichever way round
/// it is given.
pub open spec fn in_range(od_id: i32, range: (i32, i32)) -> bool {
    let (a, b) = range;
    (a <= od_id && od_id <= b) || (b <= od_id && od_id <= a)
}

/// Whether the lane `od_id` is in one of the `validity` ranges, or there
/// are none.
pub open spec fn valid_for(od_id: i32, validity: Seq<(i32, i32)>) -> bool {
    validity.len() == 0 || exists|i: int| 0 <= i < validity.len() && in_range(od_id, #[trigger] validity[i])
}

/// Whether the lane `od_id` is in one of the `validity` ranges, or there
/// are none.
pub fn is_valid(od_id: i32, validity: &[(i32, i32)]) -> (r: bool)
    ensures
        r == valid_for(od_id, validity@),
{
    if validity.len() == 0 {
        return true;
    }
    let mut i: usize = 0;
    while i < validity.len()
        invariant
            i <= validity.len(),
            forall|j: int| 0 <= j < i ==> !in_range(od_id, #[trigger] validity@[j]),
        decreases validity.len() - i,
    {
        let (a, b) = validity[i];
        let (lo, hi) = if a <= b { (a, b) } else { (b, a) };
        if lo <= od_id && od_id <= hi {
            return true;
        }
        i = i + 1;
    }
    false
}

/// The shape a `<geometry>` record's reference line takes, with the element
/// that gives it.
#[derive(Debug, Clone, Copy, PartialEq, Eq, Structural)]
pub enum GeometryShape {
    /// An `<arc>`.
    Arc(usize),
    /// A `<spiral>` (clothoid).
    Spiral(usize),
    /// A `<paramPoly3>`.
    ParamPoly3(usize),
    /// A `<poly3>`.
    Poly3(usize),
    /// A `<line>`.
    Line,
}

/// The shape a `<geometry>` takes: the first of an `<arc>`, a `<spiral>`,
/// a `<paramPoly3>`, a `<poly3>` and a `<line>` it holds, in that order of
/// preference, or `None` for one holding none of them.
pub open spec fn shape_of(doc: Seq<crate::xml::XmlNodeView>, geometry: int) -> Option<GeometryShape> {
    let kids = children_of(doc, geometry);
    if first_named(doc, kids, "arc"@, 0) is Some {
        Some(GeometryShape::Arc(first_named(doc, kids, "arc"@, 0)->0))
    } else if first_named(doc, kids, "spiral"@, 0) is Some {
        Some(GeometryShape::Spiral(first_named(doc, kids, "spiral"@, 0)->0))
    } else if first_named(doc, kids, "paramPoly3"@, 0) is Some {
        Some(GeometryShape::ParamPoly3(first_named(doc, kids, "paramPoly3"@, 0)->0))
    } else if first_named(doc, kids, "poly3"@, 0) is Some {
        Some(GeometryShape::Poly3(first_named(doc, kids, "poly3"@, 0)->0))
    } else if first_named(doc, kids, "line"@, 0) is Some {
        Some(GeometryShape::Line)
    } else {
        None
    }
}

/// The shape of a `<planView>` `<geometry>` record. A record of an unknown
/// shape is skipped rather than failing the load.
pub fn geometry_shape(doc: &Document, geometry: usize) -> (r: Option<GeometryShape>)
    requires
        geometry < doc@.len(),
    ensures
        r == shape_of(doc@, geometry as int),
        r matches Some(GeometryShape::Arc(n)) ==> n < doc@.len(),
        r matches Some(GeometryShape::Spiral(n)) ==> n < doc@.len(),
        r matches Some(GeometryShape::ParamPoly3(n)) ==> n < doc@.len(),
        r matches Some(GeometryShape::Poly3(n)) ==> n < doc@.len(),
{
    if let Some(n) = doc.child(geometry, "arc") {
        Some(GeometryShape::Arc(n))
    } else if let Some(n) = doc.child(geometry, "spiral") {
        Some(GeometryShape::Spiral(n))
    } else if let Some(n) = doc.child(geometry, "paramPoly3") {
        Some(GeometryShape::ParamPoly3(n))
    } else if let Some(n) = doc.child(geometry, "poly3") {
        Some(GeometryShape::Poly3(n))
    } else if doc.child(geometry, "line").is_some() {
        Some(GeometryShape::Line)
    } else {
        None
    }
}

/// A `<geometry>` takes the shape of the shape element directly inside it:
/// it has a shape exactly when it holds an `<arc>`, a `<spiral>`, a
/// `<paramPoly3>`, a `<poly3>` or a `<line>`, the first of these in that
/// order of preference decides which, and the element a shape names is one
/// of that kind inside the record.
#[verifier::spinoff_prover]
pub proof fn a_geometry_takes_the_shape_inside_it(doc: Seq<XmlNodeView>, g: int)
    requires
        0 <= g < doc.len() <= usize::MAX,
    ensures
        shape_of(doc, g) is Some <==> (has_child_named(doc, g, "arc"@) || has_child_named(doc, g, "spiral"@)
            || has_child_named(doc, g, "paramPoly3"@) || has_child_named(doc, g, "poly3"@)
            || has_child_named(doc, g, "line"@)),
        has_child_named(doc, g, "arc"@) ==> shape_of(doc, g) matches Some(GeometryShape::Arc(_)),
        !has_child_named(doc, g, "arc"@) && has_child_named(doc, g, "spiral"@)
            ==> shape_of(doc, g) matches Some(GeometryShape::Spiral(_)),
        !has_child_named(doc, g, "arc"@) && !has_child_named(doc, g, "spiral"@) && has_child_named(doc, g, "paramPoly3"@)
            ==> shape_of(doc, g) matches Some(GeometryShape::ParamPoly3(_)),
        !has_child_named(doc, g, "arc"@) && !has_child_named(doc, g, "spiral"@) && !has_child_named(doc, g, "paramPoly3"@)
            && has_child_named(doc, g, "poly3"@) ==> shape_of(doc, g) matches Some(GeometryShape::Poly3(_)),
        !has_child_named(doc, g, "arc"@) && !has_child_named(doc, g, "spiral"@) && !has_child_named(doc, g, "paramPoly3"@)
            && !has_child_named(doc, g, "poly3"@) && has_child_named(doc, g, "line"@)
            ==> shape_of(doc, g) == Some(GeometryShape::Line),
        shape_of(doc, g) matches Some(GeometryShape::Arc(n))
            ==> (n as int) < doc.len() && doc[n as int].parent == Some(g as usize) && named(doc[n as int], "arc"@),
        shape_of(doc, g) matches Some(GeometryShape::Spiral(n))
            ==> (n as int) < doc.len() && doc[n as int].parent == Some(g as usize) && named(doc[n as int], "spiral"@),
        shape_of(doc, g) matches Some(GeometryShape::ParamPoly3(n))
            ==> (n as int) < doc.len() && doc[n as int].parent == Some(g as usize) && named(doc[n as int], "paramPoly3"@),
        shape_of(doc, g) matches Some(GeometryShape::Poly3(n))
            ==> (n as int) < doc.len() && doc[n as int].parent == Some(g as usize) && named(doc[n as int], "poly3"@),
{
    lemma_child_named(doc, g, "arc"@);
    lemma_child_named(doc, g, "spiral"@);
    lemma_child_named(doc, g, "paramPoly3"@);
    lemma_child_named(doc, g, "poly3"@);
    lemma_child_named(doc, g, "line"@);
}

/// The smaller end of a range, whichever way round it is given.
pub open spec fn low_end(range: (i32, i32)) -> i32 {
    if range.0 <= range.1 { range.0 } else { range.1 }
}

/// The larger end of a range, whichever way round it is given.
pub open spec fn high_end(range: (i32, i32)) -> i32 {
    if range.0 <= range.1 { range.1 } else { range.0 }
}

/// A lane passes a list of `<validity>` ranges exactly when there are none,
/// or one of them runs through it, both ends included, whichever way round
/// the range is given: in particular each range admits both its ends.
pub proof fn a_validity_range_holds_both_its_ends(od_id: i32, validity: Seq<(i32, i32)>)
    ensures
        valid_for(od_id, validity) <==> (validity.len() == 0 || exists|i: int|
            0 <= i < validity.len() && low_end(#[trigger] validity[i]) <= od_id <= high_end(validity[i])),
        forall|i: int| 0 <= i < validity.len() ==> valid_for(#[trigger] validity[i].0, validity) && valid_for(validity[i].1, validity),
{
    assert forall|i: int| 0 <= i < validity.len() implies
        (in_range(od_id, #[trigger] validity[i]) <==> low_end(validity[i]) <= od_id <= high_end(validity[i])) by {}
    assert forall|i: int| 0 <= i < validity.len() implies valid_for(#[trigger] validity[i].0, validity) && valid_for(validity[i].1, validity) by {
        assert(in_range(validity[i].0, validity[i]));
        assert(in_range(validity[i].1, validity[i]));
    }
}

/// `c` as an ASCII capital, if it is a small letter.
pub open spec fn upper(c: char) -> char {
    if 'a' <= c && c <= 'z' {
        ((c as u8) - 32) as char
    } else {
        c
    }
}

/// A hyphenated name in camel case: each hyphen dropped and the character
/// after it capitalised.
pub open spec fn camel_case(s: Seq<char>) -> Seq<char>
    decreases s.len(),
{
    if s.len() == 0 {
        Seq::empty()
    } else if s[0] == '-' && s.len() >= 2 {
        seq![upper(s[1])] + camel_case(s.subrange(2, s.len() as int))
    } else {
        seq![s[0]] + camel_case(s.subrange(1, s.len() as int))
    }
}

/// A name with no hyphen is its own camel case.
proof fn lemma_camel_plain(s: Seq<char>)
    requires
        forall|i: int| 0 <= i < s.len() ==> s[i] != '-',
    ensures
        camel_case(s) == s,
    decreases s.len(),
{
    if s.len() > 0 {
        let t = s.subrange(1, s.len() as int);
        lemma_camel_plain(t);
        assert(s =~= seq![s[0]] + t);
    }
}

/// Up to its first hyphen a name is its own camel case; the hyphen goes and
/// the character after it is capitalised.
proof fn lemma_camel_split(s: Seq<char>, k: int)
    requires
        0 <= k,
        k + 1 < s.len(),
        s[k] == '-',
        forall|i: int| 0 <= i < k ==> s[i] != '-',
    ensures
        camel_case(s) == s.subrange(0, k) + seq![upper(s[k + 1])] + camel_case(s.subrange(k + 2, s.len() as int)),
    decreases k,
{
    if k == 0 {
        assert(s.subrange(0, 0) =~= Seq::<char>::empty());
        assert(camel_case(s) =~= s.subrange(0, k) + seq![upper(s[k + 1])] + camel_case(s.subrange(k + 2, s.len() as int)));
    } else {
        let t = s.subrange(1, s.len() as int);
        lemma_camel_split(t, k - 1);
        assert(t.subrange(k + 1, t.len() as int) =~= s.subrange(k + 2, s.len() as int));
        assert(seq![s[0]] + t.subrange(0, k - 1) =~= s.subrange(0, k));
        assert(camel_case(s) =~= s.subrange(0, k) + seq![upper(s[k + 1])] + camel_case(s.subrange(k + 2, s.len() as int)));
    }
}

/// An `<object type>` names a type by that type's stable name in camel
/// case: reading that spelling gives the type, and no other name does.
#[verifier::spinoff_prover]
pub proof fn an_object_type_is_read_from_its_own_name(name: Seq<char>, t: ObjectType)
    requires
        t != ObjectType::Unknown,
    ensures
        object_type_named(camel_case(object_type_name(t))) == t,
        object_type_named(name) == t ==> name == camel_case(object_type_name(t)),
{
    reveal_strlit("none");
    reveal_strlit("obstacle");
    reveal_strlit("pole");
    reveal_strlit("tree");
    reveal_strlit("vegetation");
    reveal_strlit("barrier");
    reveal_strlit("building");
    reveal_strlit("parkingSpace");
    reveal_strlit("patch");
    reveal_strlit("railing");
    reveal_strlit("trafficIsland");
    reveal_strlit("crosswalk");
    reveal_strlit("streetLamp");
    reveal_strlit("gantry");
    reveal_strlit("soundBarrier");
    reveal_strlit("roadMark");
    reveal_strlit("parking-space");
    reveal_strlit("traffic-island");
    reveal_strlit("street-lamp");
    reveal_strlit("sound-barrier");
    reveal_strlit("road-mark");
    assert("none"@.len() == 4 && "none"@[0] == 'n' && "none"@[1] == 'o' && "none"@[2] == 'n');
    assert("obstacle"@.len() == 8 && "obstacle"@[0] == 'o' && "obstacle"@[1] == 'b' && "obstacle"@[2] == 's');
    assert("pole"@.len() == 4 && "pole"@[0] == 'p' && "pole"@[1] == 'o' && "pole"@[2] == 'l');
    assert("tree"@.len() == 4 && "tree"@[0] == 't' && "tree"@[1] == 'r' && "tree"@[2] == 'e');
    assert("vegetation"@.len() == 10 && "vegetation"@[0] == 'v' && "vegetation"@[1] == 'e' && "vegetation"@[2] == 'g');
    assert("barrier"@.len() == 7 && "barrier"@[0] == 'b' && "barrier"@[1] == 'a' && "barrier"@[2] == 'r');
    assert("building"@.len() == 8 && "building"@[0] == 'b' && "building"@[1] == 'u' && "building"@[2] == 'i');
    assert("parkingSpace"@.len() == 12 && "parkingSpace"@[0] == 'p' && "parkingSpace"@[1] == 'a' && "parkingSpace"@[2] == 'r');
    assert("patch"@.len() == 5 && "patch"@[0] == 'p' && "patch"@[1] == 'a' && "patch"@[2] == 't');
    assert("railing"@.len() == 7 && "railing"@[0] == 'r' && "railing"@[1] == 'a' && "railing"@[2] == 'i');
    assert("trafficIsland"@.len() == 13 && "trafficIsland"@[0] == 't' && "trafficIsland"@[1] == 'r' && "trafficIsland"@[2] == 'a');
    assert("crosswalk"@.len() == 9 && "crosswalk"@[0] == 'c' && "crosswalk"@[1] == 'r' && "crosswalk"@[2] == 'o');
    assert("streetLamp"@.len() == 10 && "streetLamp"@[0] == 's' && "streetLamp"@[1] == 't' && "streetLamp"@[2] == 'r');
    assert("gantry"@.len() == 6 && "gantry"@[0] == 'g' && "gantry"@[1] == 'a' && "gantry"@[2] == 'n');
    assert("soundBarrier"@.len() == 12 && "soundBarrier"@[0] == 's' && "soundBarrier"@[1] == 'o' && "soundBarrier"@[2] == 'u');
    assert("roadMark"@.len() == 8 && "roadMark"@[0] == 'r' && "roadMark"@[1] == 'o' && "roadMark"@[2] == 'a');
    match t {
        ObjectType::Unnamed => {
            lemma_camel_plain("none"@);
        },
        ObjectType::Obstacle => {
            lemma_camel_plain("obstacle"@);
        },
        ObjectType::Pole => {
            lemma_camel_plain("pole"@);
        },
        ObjectType::Tree => {
            lemma_camel_plain("tree"@);
        },
        ObjectType::Vegetation => {
            lemma_camel_plain("vegetation"@);
        },
        ObjectType::Barrier => {
            lemma_camel_plain("barrier"@);
        },
        ObjectType::Building => {
            lemma_camel_plain("building"@);
        },
        ObjectType::ParkingSpace => {
            let s = "parking-space"@;
            lemma_camel_split(s, 7);
            lemma_camel_plain(s.subrange(9, s.len() as int));
            assert(camel_case(s) =~= "parkingSpace"@);
        },
        ObjectType::Patch => {
            lemma_camel_plain("patch"@);
        },
        ObjectType::Railing => {
            lemma_camel_plain("railing"@);
        },
        ObjectType::TrafficIsland => {
            let s = "traffic-island"@;
            lemma_camel_split(s, 7);
            lemma_camel_plain(s.subrange(9, s.len() as int));
            assert(camel_case(s) =~= "trafficIsland"@);
        },
        ObjectType::Crosswalk => {
            lemma_camel_plain("crosswalk"@);
        },
        ObjectType::StreetLamp => {
            let s = "street-lamp"@;
            lemma_camel_split(s, 6);
            lemma_camel_plain(s.subrange(8, s.len() as int));
            assert(camel_case(s) =~= "streetLamp"@);
        },
        ObjectType::Gantry => {
            lemma_camel_plain("gantry"@);
        },
        ObjectType::SoundBarrier => {
            let s = "sound-barrier"@;
            lemma_camel_split(s, 5);
            lemma_camel_plain(s.subrange(7, s.len() as int));
            assert(camel_case(s) =~= "soundBarrier"@);
        },
        ObjectType::RoadMark => {
            let s = "road-mark"@;
            lemma_camel_split(s, 4);
            lemma_camel_plain(s.subrange(6, s.len() as int));
            assert(camel_case(s) =~= "roadMark"@);
        },
        ObjectType::Unknown => {},
    }
}

/// A `<lane type>` names a type by that type's stable name in camel case,
/// save the capitalised `HOV` and the older `mwyEntry` and `mwyExit`:
/// reading that spelling gives the type, and no other name does.
#[verifier::spinoff_prover]
pub proof fn a_lane_type_is_read_from_its_own_name(name: Seq<char>, t: LaneType)
    requires
        t != LaneType::Unknown,
    ensures
        t != LaneType::Hov ==> lane_type_named(camel_case(lane_type_name(t))) == t,
        lane_type_named("HOV"@) == LaneType::Hov,
        lane_type_named("mwyEntry"@) == LaneType::Entry,
        lane_type_named("mwyExit"@) == LaneType::Exit,
        lane_type_named(name) == t ==> name == camel_case(lane_type_name(t))
            || (t == LaneType::Hov && name == "HOV"@)
            || (t == LaneType::Entry && name == "mwyEntry"@)
            || (t == LaneType::Exit && name == "mwyExit"@),
        lane_type_named(name) == t && t == LaneType::Hov ==> name == "HOV"@,
{
    reveal_strlit("none");
    reveal_strlit("driving");
    reveal_strlit("bidirectional");
    reveal_strlit("bus");
    reveal_strlit("taxi");
    reveal_strlit("HOV");
    reveal_strlit("entry");
    reveal_strlit("exit");
    reveal_strlit("onRamp");
    reveal_strlit("offRamp");
    reveal_strlit("connectingRamp");
    reveal_strlit("slipLane");
    reveal_strlit("parking");
    reveal_strlit("stop");
    reveal_strlit("restricted");
    reveal_strlit("biking");
    reveal_strlit("sidewalk");
    reveal_strlit("shoulder");
    reveal_strlit("border");
    reveal_strlit("curb");
    reveal_strlit("median");
    reveal_strlit("roadWorks");
    reveal_strlit("tram");
    reveal_strlit("rail");
    reveal_strlit("special1");
    reveal_strlit("special2");
    reveal_strlit("special3");
    reveal_strlit("mwyEntry");
    reveal_strlit("mwyExit");
    reveal_strlit("hov");
    reveal_strlit("on-ramp");
    reveal_strlit("off-ramp");
    reveal_strlit("connecting-ramp");
    reveal_strlit("slip-lane");
    reveal_strlit("road-works");
    assert("none"@.len() == 4 && "none"@[0] == 'n' && "none"@[1] == 'o' && "none"@[2] == 'n' && "none"@[3] == 'e');
    assert("driving"@.len() == 7 && "driving"@[0] == 'd' && "driving"@[1] == 'r' && "driving"@[2] == 'i' && "driving"@[3] == 'v' && "driving"@[4] == 'i');
    assert("bidirectional"@.len() == 13 && "bidirectional"@[0] == 'b' && "bidirectional"@[1] == 'i' && "bidirectional"@[2] == 'd' && "bidirectional"@[3] == 'i' && "bidirectional"@[4] == 'r');
    assert("bus"@.len() == 3 && "bus"@[0] == 'b' && "bus"@[1] == 'u' && "bus"@[2] == 's');
    assert("taxi"@.len() == 4 && "taxi"@[0] == 't' && "taxi"@[1] == 'a' && "taxi"@[2] == 'x' && "taxi"@[3] == 'i');
    assert("HOV"@.len() == 3 && "HOV"@[0] == 'H' && "HOV"@[1] == 'O' && "HOV"@[2] == 'V');
    assert("entry"@.len() == 5 && "entry"@[0] == 'e' && "entry"@[1] == 'n' && "entry"@[2] == 't' && "entry"@[3] == 'r' && "entry"@[4] == 'y');
    assert("exit"@.len() == 4 && "exit"@[0] == 'e' && "exit"@[1] == 'x' && "exit"@[2] == 'i' && "exit"@[3] == 't');
    assert("onRamp"@.len() == 6 && "onRamp"@[0] == 'o' && "onRamp"@[1] == 'n' && "onRamp"@[2] == 'R' && "onRamp"@[3] == 'a' && "onRamp"@[4] == 'm');
    assert("offRamp"@.len() == 7 && "offRamp"@[0] == 'o' && "offRamp"@[1] == 'f' && "offRamp"@[2] == 'f' && "offRamp"@[3] == 'R' && "offRamp"@[4] == 'a');
    assert("connectingRamp"@.len() == 14 && "connectingRamp"@[0] == 'c' && "connectingRamp"@[1] == 'o' && "connectingRamp"@[2] == 'n' && "connectingRamp"@[3] == 'n' && "connectingRamp"@[4] == 'e');
    assert("slipLane"@.len() == 8 && "slipLane"@[0] == 's' && "slipLane"@[1] == 'l' && "slipLane"@[2] == 'i' && "slipLane"@[3] == 'p' && "slipLane"@[4] == 'L');
    assert("parking"@.len() == 7 && "parking"@[0] == 'p' && "parking"@[1] == 'a' && "parking"@[2] == 'r' && "parking"@[3] == 'k' && "parking"@[4] == 'i');
    assert("stop"@.len() == 4 && "stop"@[0] == 's' && "stop"@[1] == 't' && "stop"@[2] == 'o' && "stop"@[3] == 'p');
    assert("restricted"@.len() == 10 && "restricted"@[0] == 'r' && "restricted"@[1] == 'e' && "restricted"@[2] == 's' && "restricted"@[3] == 't' && "restricted"@[4] == 'r');
    assert("biking"@.len() == 6 && "biking"@[0] == 'b' && "biking"@[1] == 'i' && "biking"@[2] == 'k' && "biking"@[3] == 'i' && "biking"@[4] == 'n');
    assert("sidewalk"@.len() == 8 && "sidewalk"@[0] == 's' && "sidewalk"@[1] == 'i' && "sidewalk"@[2] == 'd' && "sidewalk"@[3] == 'e' && "sidewalk"@[4] == 'w');
    assert("shoulder"@.len() == 8 && "shoulder"@[0] == 's' && "shoulder"@[1] == 'h' && "shoulder"@[2] == 'o' && "shoulder"@[3] == 'u' && "shoulder"@[4] == 'l');
    assert("border"@.len() == 6 && "border"@[0] == 'b' && "border"@[1] == 'o' && "border"@[2] == 'r' && "border"@[3] == 'd' && "border"@[4] == 'e');
    assert("curb"@.len() == 4 && "curb"@[0] == 'c' && "curb"@[1] == 'u' && "curb"@[2] == 'r' && "curb"@[3] == 'b');
    assert("median"@.len() == 6 && "median"@[0] == 'm' && "median"@[1] == 'e' && "median"@[2] == 'd' && "median"@[3] == 'i' && "median"@[4] == 'a');
    assert("roadWorks"@.len() == 9 && "roadWorks"@[0] == 'r' && "roadWorks"@[1] == 'o' && "roadWorks"@[2] == 'a' && "roadWorks"@[3] == 'd' && "roadWorks"@[4] == 'W');
    assert("tram"@.len() == 4 && "tram"@[0] == 't' && "tram"@[1] == 'r' && "tram"@[2] == 'a' && "tram"@[3] == 'm');
    assert("rail"@.len() == 4 && "rail"@[0] == 'r' && "rail"@[1] == 'a' && "rail"@[2] == 'i' && "rail"@[3] == 'l');
    assert("special1"@.len() == 8 && "special1"@[0] == 's' && "special1"@[1] == 'p' && "special1"@[2] == 'e' && "special1"@[3] == 'c' && "special1"@[4] == 'i' && "special1"@[5] == 'a' && "special1"@[6] == 'l' && "special1"@[7] == '1');
    assert("special2"@.len() == 8 && "special2"@[0] == 's' && "special2"@[1] == 'p' && "special2"@[2] == 'e' && "special2"@[3] == 'c' && "special2"@[4] == 'i' && "special2"@[5] == 'a' && "special2"@[6] == 'l' && "special2"@[7] == '2');
    assert("special3"@.len() == 8 && "special3"@[0] == 's' && "special3"@[1] == 'p' && "special3"@[2] == 'e' && "special3"@[3] == 'c' && "special3"@[4] == 'i' && "special3"@[5] == 'a' && "special3"@[6] == 'l' && "special3"@[7] == '3');
    assert("mwyEntry"@.len() == 8 && "mwyEntry"@[0] == 'm' && "mwyEntry"@[1] == 'w' && "mwyEntry"@[2] == 'y' && "mwyEntry"@[3] == 'E' && "mwyEntry"@[4] == 'n');
    assert("mwyExit"@.len() == 7 && "mwyExit"@[0] == 'm' && "mwyExit"@[1] == 'w' && "mwyExit"@[2] == 'y' && "mwyExit"@[3] == 'E' && "mwyExit"@[4] == 'x');
    match t {
        LaneType::Unnamed => {
            lemma_camel_plain("none"@);
        },
        LaneType::Driving => {
            lemma_camel_plain("driving"@);
        },
        LaneType::Bidirectional => {
            lemma_camel_plain("bidirectional"@);
        },
        LaneType::Bus => {
            lemma_camel_plain("bus"@);
        },
        LaneType::Taxi => {
            lemma_camel_plain("taxi"@);
        },
        LaneType::Hov => {
            lemma_camel_plain("hov"@);
        },
        LaneType::Entry => {
            lemma_camel_plain("entry"@);
        },
        LaneType::Exit => {
            lemma_camel_plain("exit"@);
        },
        LaneType::OnRamp => {
            let s = "on-ramp"@;
            lemma_camel_split(s, 2);
            lemma_camel_plain(s.subrange(4, s.len() as int));
            assert(camel_case(s) =~= "onRamp"@);
        },
        LaneType::OffRamp => {
            let s = "off-ramp"@;
            lemma_camel_split(s, 3);
            lemma_camel_plain(s.subrange(5, s.len() as int));
            assert(camel_case(s) =~= "offRamp"@);
        },
        LaneType::ConnectingRamp => {
            let s = "connecting-ramp"@;
            lemma_camel_split(s, 10);
            lemma_camel_plain(s.subrange(12, s.len() as int));
            assert(camel_case(s) =~= "connectingRamp"@);
        },
        LaneType::SlipLane => {
            let s = "slip-lane"@;
            lemma_camel_split(s, 4);
            lemma_camel_plain(s.subrange(6, s.len() as int));
            assert(camel_case(s) =~= "slipLane"@);
        },
        LaneType::Parking => {
            lemma_camel_plain("parking"@);
        },
        LaneType::Stop => {
            lemma_camel_plain("stop"@);
        },
        LaneType::Restricted => {
            lemma_camel_plain("restricted"@);
        },
        LaneType::Biking => {
            lemma_camel_plain("biking"@);
        },
        LaneType::Sidewalk => {
            lemma_camel_plain("sidewalk"@);
        },
        LaneType::Shoulder => {
            lemma_camel_plain("shoulder"@);
        },
        LaneType::Border => {
            lemma_camel_plain("border"@);
        },
        LaneType::Curb => {
            lemma_camel_plain("curb"@);
        },
        LaneType::Median => {
            lemma_camel_plain("median"@);
        },
        LaneType::RoadWorks => {
            let s = "road-works"@;
            lemma_camel_split(s, 4);
            lemma_camel_plain(s.subrange(6, s.len() as int));
            assert(camel_case(s) =~= "roadWorks"@);
        },
        LaneType::Tram => {
            lemma_camel_plain("tram"@);
        },
        LaneType::Rail => {
            lemma_camel_plain("rail"@);
        },
        LaneType::Special1 => {
            lemma_camel_plain("special1"@);
        },
        LaneType::Special2 => {
            lemma_camel_plain("special2"@);
        },
        LaneType::Special3 => {
            lemma_camel_plain("special3"@);
        },
        LaneType::Unknown => {},
    }
}

/// Each range `validity_upto` reads is the `fromLane` and `toLane` of one
/// of the listed nodes.
proof fn lemma_validity_upto(doc: Seq<XmlNodeView>, list: Seq<usize>, k: int)
    requires
        0 <= k <= list.len(),
    ensures
        forall|i: int| #![trigger validity_upto(doc, list, k)[i]] 0 <= i < validity_upto(doc, list, k).len() ==> exists|j: int| 0 <= j < k && {
            let v = #[trigger] list[j] as int;
            int_attr(doc, v, "fromLane"@) == Some(validity_upto(doc, list, k)[i].0)
                && int_attr(doc, v, "toLane"@) == Some(validity_upto(doc, list, k)[i].1)
        },
    decreases k,
{
    if k > 0 {
        lemma_validity_upto(doc, list, k - 1);
        let rest = validity_upto(doc, list, k - 1);
        let all = validity_upto(doc, list, k);
        assert forall|i: int| #![trigger all[i]] 0 <= i < all.len() implies exists|j: int| 0 <= j < k && {
            let v = #[trigger] list[j] as int;
            int_attr(doc, v, "fromLane"@) == Some(all[i].0) && int_attr(doc, v, "toLane"@) == Some(all[i].1)
        } by {
            if i < rest.len() {
                assert(all[i] == rest[i]);
                let j = choose|j: int| 0 <= j < k - 1 && {
                    let v = #[trigger] list[j] as int;
                    int_attr(doc, v, "fromLane"@) == Some(rest[i].0) && int_attr(doc, v, "toLane"@) == Some(rest[i].1)
                };
                assert(list[j] == list[j]);
            } else {
                assert(list[k - 1] == list[k - 1]);
            }
        }
    }
}

/// Each `<validity>` range read from a node is the `fromLane` and
/// `toLane`, in that order, of a `<validity>` element directly inside it.
#[verifier::spinoff_prover]
pub proof fn a_validity_range_is_read_from_a_validity_inside_the_node(doc: Seq<XmlNodeView>, node: int)
    requires
        0 <= node < doc.len() <= usize::MAX,
    ensures
        ({
            let list = validity_nodes(doc, node);
            let ranges = validity_upto(doc, list, list.len() as int);
            forall|i: int| #![trigger ranges[i]] 0 <= i < ranges.len() ==> exists|v: int| 0 <= v < doc.len()
                && doc[v].parent == Some(node as usize) && named(doc[v], "validity"@)
                && #[trigger] int_attr(doc, v, "fromLane"@) == Some(ranges[i].0)
                && int_attr(doc, v, "toLane"@) == Some(ranges[i].1)
        }),
{
    let kids = children_of(doc, node);
    let list = validity_nodes(doc, node);
    let ranges = validity_upto(doc, list, list.len() as int);
    lemma_all_named(doc, kids, "validity"@, kids.len() as int);
    lemma_children_are_inside(doc, node, doc.len() as int);
    lemma_validity_upto(doc, list, list.len() as int);
    assert forall|i: int| #![trigger ranges[i]] 0 <= i < ranges.len() implies exists|v: int| 0 <= v < doc.len()
        && doc[v].parent == Some(node as usize) && named(doc[v], "validity"@)
        && #[trigger] int_attr(doc, v, "fromLane"@) == Some(ranges[i].0)
        && int_attr(doc, v, "toLane"@) == Some(ranges[i].1) by {
        let j = choose|j: int| 0 <= j < list.len() && {
            let v = #[trigger] list[j] as int;
            int_attr(doc, v, "fromLane"@) == Some(ranges[i].0) && int_attr(doc, v, "toLane"@) == Some(ranges[i].1)
        };
        assert(kids.contains(list[j]) && named(doc[list[j] as int], "validity"@));
        let m = choose|m: int| 0 <= m < kids.len() && kids[m] == list[j];
        assert(kids[m] == list[j]);
        let v = list[j] as int;
        assert(int_attr(doc, v, "fromLane"@) == Some(ranges[i].0));
    }
}

/// An `orientation` of `+` is the positive direction, `-` the negative,
/// and anything else, or none, both.
pub proof fn an_orientation_reads_plus_minus_or_both(value: Option<Seq<char>>)
    ensures
        orientation_of(value) == Orientation::Positive <==> value == Some("+"@),
        orientation_of(value) == Orientation::Negative <==> value == Some("-"@),
        orientation_of(value) == Orientation::Both <==> value != Some("+"@) && value != Some("-"@),
{
    reveal_strlit("+");
    reveal_strlit("-");
    assert("+"@[0] != "-"@[0]);
}

/// What `lower` does to the number of a character.
proof fn lemma_lower(c: char)
    ensures
        lower(c) as int == if 'A' <= c && c <= 'Z' { c as int + 32 } else { c as int },
{
    if 'A' <= c && c <= 'Z' {
        assert((c as u8) as int == c as int);
        assert(((c as u8) + 32) as int == c as int + 32);
    }
}

/// `pRange` names the arc-length range when it spells `arclength` with any
/// letters capitalised, and only then.
#[verifier::spinoff_prover]
pub proof fn arc_length_is_matched_without_case(v: Seq<char>)
    ensures
        ascii_lowercase(v) == "arclength"@ <==> v.len() == 9 && forall|i: int| 0 <= i < 9
            ==> (#[trigger] v[i] == "arclength"@[i] || v[i] as int == "arclength"@[i] as int - 32),
{
    reveal_strlit("arclength");
    let w = "arclength"@;
    assert(w[0] == 'a');
    assert(w[1] == 'r');
    assert(w[2] == 'c');
    assert(w[3] == 'l');
    assert(w[4] == 'e');
    assert(w[5] == 'n');
    assert(w[6] == 'g');
    assert(w[7] == 't');
    assert(w[8] == 'h');
    let low = ascii_lowercase(v);
    assert(low.len() == v.len());
    assert forall|i: int| 0 <= i < v.len() implies #[trigger] low[i] as int == (if 'A' <= v[i] && v[i] <= 'Z' {
        v[i] as int + 32
    } else {
        v[i] as int
    }) by {
        lemma_lower(v[i]);
    }
    if v.len() == 9 && forall|i: int| 0 <= i < 9 ==> (#[trigger] v[i] == w[i] || v[i] as int == w[i] as int - 32) {
        assert forall|i: int| 0 <= i < 9 implies #[trigger] low[i] == w[i] by {
            assert(low[i] as int == w[i] as int);
        }
        assert(low =~= w);
    }
    if low == w {
        assert forall|i: int| 0 <= i < 9 implies (#[trigger] v[i] == w[i] || v[i] as int == w[i] as int - 32) by {
            assert(low[i] == w[i]);
            assert(low[i] as int == w[i] as int);
        }
    }
}

} // verus!
