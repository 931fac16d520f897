use libopendrive::{lane_type, object_type, LaneType, ObjectType};

const LANE_TYPES: [LaneType; 28] = [
    LaneType::Unnamed,
    LaneType::Driving,
    LaneType::Bidirectional,
    LaneType::Bus,
    LaneType::Taxi,
    LaneType::Hov,
    LaneType::Entry,
    LaneType::Exit,
    LaneType::OnRamp,
    LaneType::OffRamp,
    LaneType::ConnectingRamp,
    LaneType::SlipLane,
    LaneType::Parking,
    LaneType::Stop,
    LaneType::Restricted,
    LaneType::Biking,
    LaneType::Sidewalk,
    LaneType::Shoulder,
    LaneType::Border,
    LaneType::Curb,
    LaneType::Median,
    LaneType::RoadWorks,
    LaneType::Tram,
    LaneType::Rail,
    LaneType::Special1,
    LaneType::Special2,
    LaneType::Special3,
    LaneType::Unknown,
];

#[test]
fn every_lane_type_name_reads_as_its_type() {
    let named = [
        ("none", LaneType::Unnamed),
        ("driving", LaneType::Driving),
        ("bidirectional", LaneType::Bidirectional),
        ("bus", LaneType::Bus),
        ("taxi", LaneType::Taxi),
        ("HOV", LaneType::Hov),
        ("entry", LaneType::Entry),
        ("exit", LaneType::Exit),
        ("onRamp", LaneType::OnRamp),
        ("offRamp", LaneType::OffRamp),
        ("connectingRamp", LaneType::ConnectingRamp),
        ("slipLane", LaneType::SlipLane),
        ("parking", LaneType::Parking),
        ("stop", LaneType::Stop),
        ("restricted", LaneType::Restricted),
        ("biking", LaneType::Biking),
        ("sidewalk", LaneType::Sidewalk),
        ("shoulder", LaneType::Shoulder),
        ("border", LaneType::Border),
        ("curb", LaneType::Curb),
        ("median", LaneType::Median),
        ("roadWorks", LaneType::RoadWorks),
        ("tram", LaneType::Tram),
        ("rail", LaneType::Rail),
        ("special1", LaneType::Special1),
        ("special2", LaneType::Special2),
        ("special3", LaneType::Special3),
    ];
    for (name, want) in named {
        assert_eq!(lane_type(Some(name)), want, "{name}");
    }
}

#[test]
fn older_spellings_land_on_the_same_lane_types() {
    assert_eq!(lane_type(Some("mwyEntry")), LaneType::Entry);
    assert_eq!(lane_type(Some("mwyExit")), LaneType::Exit);
}

#[test]
fn an_unrecognised_or_absent_lane_type_is_unknown() {
    assert_eq!(lane_type(Some("banana")), LaneType::Unknown);
    assert_eq!(lane_type(Some("Driving")), LaneType::Unknown);
    assert_eq!(lane_type(Some("")), LaneType::Unknown);
    assert_eq!(lane_type(None), LaneType::Unknown);
}

#[test]
fn drivable_lane_types_are_the_running_lanes_and_ramps() {
    let drivable = [
        LaneType::Driving,
        LaneType::Bidirectional,
        LaneType::Bus,
        LaneType::Taxi,
        LaneType::Hov,
        LaneType::Entry,
        LaneType::Exit,
        LaneType::OnRamp,
        LaneType::OffRamp,
        LaneType::ConnectingRamp,
        LaneType::SlipLane,
    ];
    for t in LANE_TYPES {
        assert_eq!(t.is_drivable(), drivable.contains(&t), "{t:?}");
    }
    assert!(!LaneType::Parking.is_drivable());
    assert!(!LaneType::Shoulder.is_drivable());
    assert!(!LaneType::Sidewalk.is_drivable());
}

#[test]
fn lane_type_names_are_lowercase_and_distinct() {
    let names: Vec<&str> = LANE_TYPES.iter().map(|t| t.as_str()).collect();
    for (i, a) in names.iter().enumerate() {
        assert!(!a.is_empty());
        assert!(a.chars().all(|c| c.is_ascii_lowercase() || c.is_ascii_digit() || c == '-'), "{a}");
        for b in &names[i + 1..] {
            assert_ne!(a, b);
        }
    }
    assert_eq!(LaneType::Unnamed.as_str(), "none");
    assert_eq!(LaneType::OnRamp.as_str(), "on-ramp");
    assert_eq!(LaneType::RoadWorks.as_str(), "road-works");
    assert_eq!(LaneType::Unknown.as_str(), "unknown");
}

#[test]
fn object_types_read_and_name() {
    assert_eq!(object_type(Some("pole")), ObjectType::Pole);
    assert_eq!(object_type(Some("parkingSpace")), ObjectType::ParkingSpace);
    assert_eq!(object_type(Some("streetLamp")), ObjectType::StreetLamp);
    assert_eq!(object_type(Some("none")), ObjectType::Unnamed);
    // The deprecated moving participants are not in the vocabulary.
    assert_eq!(object_type(Some("car")), ObjectType::Unknown);
    assert_eq!(object_type(None), ObjectType::Unknown);
    assert_eq!(ObjectType::ParkingSpace.as_str(), "parking-space");
    assert_eq!(ObjectType::SoundBarrier.as_str(), "sound-barrier");
    assert_eq!(ObjectType::Unnamed.as_str(), "none");
}
