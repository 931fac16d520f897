//! Roadside objects: their identities, their vocabulary of types, and the
//! plain descriptions a map attaches to them.

use vstd::prelude::*;

use crate::network::name_char;

verus! {

/// An opaque object identifier. Not a position in the object list: look
/// objects up by identity.
#[derive(Debug, Clone, Copy, PartialEq, Eq, Hash, Structural)]
pub struct ObjectId(pub usize);

/// What an object is. Anything outside the static object vocabulary is
/// [`ObjectType::Unknown`], and the object still bakes.
#[derive(Debug, Clone, Copy, PartialEq, Eq, Hash, Structural)]
pub enum ObjectType {
    /// An object with no category assigned.
    Unnamed,
    /// Something in the way, such as a rock or a bollard.
    Obstacle,
    /// A post: a sign post, a guide post, a bollard.
    Pole,
    /// A single tree.
    Tree,
    /// Plants other than a single tree, such as a hedge.
    Vegetation,
    /// A crash barrier or guard rail.
    Barrier,
    /// A building.
    Building,
    /// A marked parking bay.
    ParkingSpace,
    /// A patch of different surface, such as a pothole repair.
    Patch,
    /// A railing.
    Railing,
    /// A raised island separating traffic.
    TrafficIsland,
    /// A pedestrian crossing.
    Crosswalk,
    /// A street light.
    StreetLamp,
    /// A gantry spanning the road.
    Gantry,
    /// A noise barrier.
    SoundBarrier,
    /// Paint on the road surface that is not a lane marking.
    RoadMark,
    /// A type that is not recognised.
    Unknown,
}

/// The stable lowercase name of an object type.
pub open spec fn object_type_name(t: ObjectType) -> Seq<char> {
    match t {
        ObjectType::Unnamed => "none"@,
        ObjectType::Obstacle => "obstacle"@,
        ObjectType::Pole => "pole"@,
        ObjectType::Tree => "tree"@,
        ObjectType::Vegetation => "vegetation"@,
        ObjectType::Barrier => "barrier"@,
        ObjectType::Building => "building"@,
        ObjectType::ParkingSpace => "parking-space"@,
        ObjectType::Patch => "patch"@,
        ObjectType::Railing => "railing"@,
        ObjectType::TrafficIsland => "traffic-island"@,
        ObjectType::Crosswalk => "crosswalk"@,
        ObjectType::StreetLamp => "street-lamp"@,
        ObjectType::Gantry => "gantry"@,
        ObjectType::SoundBarrier => "sound-barrier"@,
        ObjectType::RoadMark => "road-mark"@,
        ObjectType::Unknown => "unknown"@,
    }
}

impl ObjectType {
    /// A stable lowercase name, for a legend, a log line or a readout.
    pub fn as_str(&self) -> (r: &'static str)
        ensures
            r@ == object_type_name(*self),
    {
        match self {
            ObjectType::Unnamed => "none",
            ObjectType::Obstacle => "obstacle",
            ObjectType::Pole => "pole",
            ObjectType::Tree => "tree",
            ObjectType::Vegetation => "vegetation",
            ObjectType::Barrier => "barrier",
            ObjectType::Building => "building",
            ObjectType::ParkingSpace => "parking-space",
            ObjectType::Patch => "patch",
            ObjectType::Railing => "railing",
            ObjectType::TrafficIsland => "traffic-island",
            ObjectType::Crosswalk => "crosswalk",
            ObjectType::StreetLamp => "street-lamp",
            ObjectType::Gantry => "gantry",
            ObjectType::SoundBarrier => "sound-barrier",
            ObjectType::RoadMark => "road-mark",
            ObjectType::Unknown => "unknown",
        }
    }
}

/// Every object type's name is lowercase and non-empty, and no two object
/// types share one.
pub proof fn object_type_names_are_lowercase_and_distinct(a: ObjectType, b: ObjectType)
    ensures
        object_type_name(a).len() > 0,
        forall|i: int| 0 <= i < object_type_name(a).len() ==> name_char(#[trigger] object_type_name(a)[i]),
        object_type_name(a) == object_type_name(b) ==> a == b,
{
    reveal_strlit("none");
    reveal_strlit("obstacle");
    reveal_strlit("pole");
    reveal_strlit("tree");
    reveal_strlit("vegetation");
    reveal_strlit("barrier");
    reveal_strlit("building");
    reveal_strlit("parking-space");
    reveal_strlit("patch");
    reveal_strlit("railing");
    reveal_strlit("traffic-island");
    reveal_strlit("crosswalk");
    reveal_strlit("street-lamp");
    reveal_strlit("gantry");
    reveal_strlit("sound-barrier");
    reveal_strlit("road-mark");
    reveal_strlit("unknown");
    if object_type_name(a) == object_type_name(b) && a != b {
        let (x, y) = (object_type_name(a), object_type_name(b));
        assert(x.len() > 0 ==> x[0] == y[0]);
        assert(x.len() > 1 ==> x[1] == y[1]);
        assert(x.len() > 2 ==> x[2] == y[2]);
        assert(x.len() > 3 ==> x[3] == y[3]);
        assert(x.len() > 4 ==> x[4] == y[4]);
        assert(x.len() > 5 ==> x[5] == y[5]);
        assert(x.len() > 6 ==> x[6] == y[6]);
        assert(x.len() > 7 ==> x[7] == y[7]);
        assert(x.len() > 8 ==> x[8] == y[8]);
        assert(x.len() > 9 ==> x[9] == y[9]);
    }
}

/// Who may use a parking space, and on what terms.
#[derive(Debug, Clone, PartialEq, Eq)]
pub struct ParkingSpace {
    /// Who may park there, such as `all` or `electric`. Empty if the map
    /// gives none.
    pub access: String,
    /// Any further terms. Empty if the map gives none.
    pub restrictions: String,
}

/// One piece of vendor data a map attaches to an object, kept as text.
#[derive(Debug, Clone, PartialEq, Eq)]
pub struct UserData {
    /// What the data is, in the vendor's own terms.
    pub code: String,
    /// The data. Empty if the map gives no value.
    pub value: String,
}

} // verus!
