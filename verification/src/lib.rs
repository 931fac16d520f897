//! The verified core of an OpenDRIVE (`.xodr`) importer.
//!
//! A map arrives as XML. This crate reads the document's structure, and
//! decides everything about it that is not arithmetic on coordinates: what
//! type a lane or an object is, which `<lane>`s a lane section has and in
//! what order they lie outward from the reference line, which way traffic
//! runs on each and which of them a vehicle may change between, which lanes
//! a `<validity>` admits, which `<object>` an `<objectReference>` names and
//! which corners a marking or a border runs through. It also keeps the
//! integer bookkeeping of the ground-plane index (the spans a lane is cut
//! into, the cells each item lands in, the rings of the outward walk) and of
//! the tessellator (fans, and splicing a hole into its ring), and looks
//! lanes, objects and structures up by identity rather than by position.

pub mod geometry;
pub mod grid;
pub mod network;
pub mod object;
pub mod object_mesh;
pub mod order;
pub mod parse;
pub mod placement;
pub mod section;
pub mod structure;
mod text;
pub mod xml;

pub use geometry::TooFewPoints;
pub use grid::{bucket_items, ring, MAX_DIM};
pub use network::{index_spans, Direction, IdList, LaneId, LaneType, SPAN_SEGMENTS};
pub use object::{ObjectId, ObjectType, ParkingSpace, UserData};
pub use object_mesh::{fan, splice_hole, ObjectSpan};
pub use parse::{
    border_uses_complete_outline, int_attribute, is_dynamic, is_valid, lane_type, object_type,
    geometry_shape, orientation, outline_is_closed, outline_is_hole, p_range_is_arc_length,
    read_document, text_attribute, validity, ImportError, GeometryShape, LaneProvenance, Orientation,
};
pub use placement::{
    border_fits, complete_outline, corner_nodes, corner_path, find_object, object_index,
    outline_nodes, placed_object, structure_tag, Placed, StructureTag,
};
pub use section::{center_outward, lane_change_neighbors, section_lanes, travel_direction};
pub use structure::StructureId;
pub use xml::{sanitize, Document, XmlAttribute, XmlNode};
