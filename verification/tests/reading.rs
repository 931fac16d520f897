use libopendrive::{
    border_fits, border_uses_complete_outline, center_outward, corner_nodes, corner_path,
    find_object, int_attribute, is_dynamic, is_valid, lane_change_neighbors, object_index,
    orientation, outline_is_closed, outline_is_hole, outline_nodes, p_range_is_arc_length,
    read_document, sanitize, section_lanes, text_attribute, travel_direction, validity,
    lane_type, Direction, Document, ImportError, LaneType, Orientation,
};

fn doc(xml: &str) -> Document {
    match read_document(xml) {
        Ok(d) => d,
        Err(_) => panic!("not a document"),
    }
}

#[test]
fn sanitize_strips_a_bom_and_the_declaration_after_a_leading_comment() {
    let xml = "\u{feff}<!-- licence --><?xml version=\"1.0\"?><OpenDRIVE/>";
    assert_eq!(sanitize(xml), "<!-- licence --><OpenDRIVE/>");
    assert_eq!(sanitize("\u{feff}\u{feff}<a/>"), "<a/>");
    assert_eq!(sanitize("<a/>"), "<a/>");
    // An unterminated declaration is left alone.
    assert_eq!(sanitize("<?xml <a/>"), "<?xml <a/>");
    // Only the first declaration goes.
    assert_eq!(sanitize("<?xml a?><?xml b?><c/>"), "<?xml b?><c/>");
}

#[test]
fn a_declaration_after_a_comment_still_reads() {
    let d = doc("<!-- exported --><?xml version=\"1.0\"?><OpenDRIVE><road id=\"7\"/></OpenDRIVE>");
    let root = d.root_element();
    assert!(d.has_tag_name(root, "OpenDRIVE"));
    let roads = d.children_named(root, "road");
    assert_eq!(roads.len(), 1);
    assert_eq!(d.attribute(roads[0], "id"), Some("7"));
}

#[test]
fn malformed_xml_is_an_xml_error() {
    assert!(matches!(read_document("<OpenDRIVE><road></OpenDRIVE>"), Err(ImportError::Xml(_))));
    assert!(matches!(read_document(""), Err(ImportError::Xml(_))));
}

#[test]
fn children_and_attributes_read_in_document_order() {
    let d = doc(r#"<r a="1" b="2"><x n="first"/>text<y/><x n="second"/></r>"#);
    let root = d.root_element();
    let xs = d.children_named(root, "x");
    assert_eq!(xs.len(), 2);
    assert_eq!(d.attribute(xs[0], "n"), Some("first"));
    assert_eq!(d.attribute(xs[1], "n"), Some("second"));
    assert_eq!(d.child(root, "x"), Some(xs[0]));
    assert_eq!(d.child(root, "z"), None);
    // Four children: two x, the text between and a y.
    assert_eq!(d.children(root).len(), 4);
    assert_eq!(d.attribute(root, "b"), Some("2"));
    assert_eq!(d.attribute(root, "c"), None);
    assert_eq!(text_attribute(&d, root, "a"), "1");
    assert_eq!(text_attribute(&d, root, "c"), "");
}

#[test]
fn integer_attributes_follow_decimal_syntax() {
    let d = doc(r#"<r a="-3" b="+4" c="2147483647" d="2147483648" e="1.5" f="" g="-" h=" 1"/>"#);
    let r = d.root_element();
    assert_eq!(int_attribute(&d, r, "a"), Some(-3));
    assert_eq!(int_attribute(&d, r, "b"), Some(4));
    assert_eq!(int_attribute(&d, r, "c"), Some(i32::MAX));
    assert_eq!(int_attribute(&d, r, "d"), None);
    assert_eq!(int_attribute(&d, r, "e"), None);
    assert_eq!(int_attribute(&d, r, "f"), None);
    assert_eq!(int_attribute(&d, r, "g"), None);
    assert_eq!(int_attribute(&d, r, "h"), None);
    assert_eq!(int_attribute(&d, r, "missing"), None);
}

#[test]
fn orientation_reads_plus_minus_and_everything_else_as_both() {
    let d = doc(r#"<r><o orientation="+"/><o orientation="-"/><o orientation="none"/><o/></r>"#);
    let os = d.children_named(d.root_element(), "o");
    assert_eq!(orientation(&d, os[0]), Orientation::Positive);
    assert_eq!(orientation(&d, os[1]), Orientation::Negative);
    assert_eq!(orientation(&d, os[2]), Orientation::Both);
    assert_eq!(orientation(&d, os[3]), Orientation::Both);
}

#[test]
fn switches_read_as_the_format_defines_them() {
    let d = doc(r#"<r><o dynamic="yes" closed="false" outer="false" useCompleteOutline="true" pRange="ArcLength"/><o dynamic="no" pRange="normalized"/><o/></r>"#);
    let os = d.children_named(d.root_element(), "o");
    assert!(is_dynamic(&d, os[0]));
    assert!(!is_dynamic(&d, os[1]));
    assert!(!outline_is_closed(&d, os[0]));
    assert!(outline_is_closed(&d, os[1]));
    assert!(outline_is_hole(&d, os[0]));
    assert!(!outline_is_hole(&d, os[2]));
    assert!(border_uses_complete_outline(&d, os[0]));
    assert!(!border_uses_complete_outline(&d, os[1]));
    assert!(p_range_is_arc_length(&d, os[0]));
    assert!(!p_range_is_arc_length(&d, os[1]));
    assert!(!p_range_is_arc_length(&d, os[2]));
}

#[test]
fn validity_ranges_are_read_and_match_either_way_round() {
    let d = doc(r#"<o><validity fromLane="-1" toLane="-3"/><validity fromLane="2"/><validity fromLane="1" toLane="1"/></o>"#);
    let v = validity(&d, d.root_element());
    assert_eq!(v, vec![(-1, -3), (1, 1)]);
    assert!(is_valid(-2, &v));
    assert!(is_valid(1, &v));
    assert!(!is_valid(2, &v));
    assert!(!is_valid(-4, &v));
    // No ranges: every lane is valid.
    assert!(is_valid(5, &[]));
}

#[test]
fn a_section_lists_its_numbered_lanes_left_then_right() {
    let d = doc(r#"<laneSection s="0">
        <right><lane id="-2" type="sidewalk"/><lane id="-1" type="driving"/></right>
        <center><lane id="0"/></center>
        <left><lane id="1" type="driving"/><lane type="driving"/></left>
    </laneSection>"#);
    let lanes = section_lanes(&d, d.root_element());
    let ids: Vec<i32> = lanes.iter().map(|&(_, id)| id).collect();
    assert_eq!(ids, vec![1, -2, -1]);
    assert_eq!(d.attribute(lanes[1].0, "type"), Some("sidewalk"));
}

#[test]
fn lanes_order_from_the_reference_line_outward() {
    let ids = [-2, 3, -1, 1, 0, 2, -3, 2];
    assert_eq!(center_outward(&ids, true), vec![3, 5, 7, 1]);
    assert_eq!(center_outward(&ids, false), vec![2, 0, 6]);
    assert_eq!(travel_direction(1), Direction::Backward);
    assert_eq!(travel_direction(-1), Direction::Forward);
}

#[test]
fn lane_change_edges_need_traffic_on_both_sides() {
    let kinds = [LaneType::Driving, LaneType::Driving, LaneType::Parking, LaneType::Driving, LaneType::Sidewalk];
    let n = lane_change_neighbors(&kinds);
    assert_eq!(n[0], vec![1]);
    assert_eq!(n[1], vec![0]);
    assert!(n[2].is_empty());
    assert!(n[3].is_empty());
    assert!(n[4].is_empty());
    let n = lane_change_neighbors(&[LaneType::Bus, LaneType::Driving, LaneType::Exit]);
    assert_eq!(n[1], vec![0, 2]);
}

#[test]
fn corner_references_resolve_by_corner_id() {
    let d = doc(r#"<object>
        <outline id="a"><cornerLocal id="1"/><cornerRoad id="2"/><other/><cornerLocal id="3"/></outline>
        <marking><cornerReference id="3"/><cornerReference id="1"/></marking>
        <marking><cornerReference id="9"/><cornerReference id="1"/></marking>
        <marking><cornerReference id="2"/></marking>
        <border outlineId="a"/><border outlineId="b"/><border/>
    </object>"#);
    let object = d.root_element();
    let outlines = outline_nodes(&d, object);
    assert_eq!(outlines.len(), 1);
    let corners = corner_nodes(&d, outlines[0]);
    assert_eq!(corners.len(), 3);
    let ids: Vec<Option<&str>> = corners.iter().map(|&c| d.attribute(c, "id")).collect();
    let markings = d.children_named(object, "marking");
    assert_eq!(corner_path(&d, markings[0], &ids), Some(vec![2, 0]));
    assert_eq!(corner_path(&d, markings[1], &ids), None);
    assert_eq!(corner_path(&d, markings[2], &ids), None);
    let borders = d.children_named(object, "border");
    assert!(border_fits(&d, borders[0], outlines[0]));
    assert!(!border_fits(&d, borders[1], outlines[0]));
    assert!(border_fits(&d, borders[2], outlines[0]));
}

#[test]
fn outlines_under_outlines_or_straight_under_the_object() {
    let d = doc(r#"<r><object><outlines><outline/><outline/></outlines><outline/></object><object><outline/></object></r>"#);
    let objects = d.children_named(d.root_element(), "object");
    assert_eq!(outline_nodes(&d, objects[0]).len(), 2);
    assert_eq!(outline_nodes(&d, objects[1]).len(), 1);
}

#[test]
fn an_object_reference_finds_the_first_object_with_its_id() {
    let d = doc(r#"<OpenDRIVE>
        <road id="a"><objects><object id="x" n="1"/><object n="anonymous"/></objects></road>
        <road id="b"><objects><object id="y"/><object id="x" n="2"/></objects></road>
        <road id="c"/>
    </OpenDRIVE>"#);
    let root = d.root_element();
    let index = object_index(&d, root);
    assert_eq!(index.len(), 3);
    let (road, object) = find_object(&d, &index, "x").expect("x is indexed");
    assert_eq!(d.attribute(road, "id"), Some("a"));
    assert_eq!(d.attribute(object, "n"), Some("1"));
    let (road, _) = find_object(&d, &index, "y").expect("y is indexed");
    assert_eq!(d.attribute(road, "id"), Some("b"));
    assert!(find_object(&d, &index, "z").is_none());
}

// A cross-section using most of the lane vocabulary: a sidewalk, a kerb, a
// parking lane and an unnamed strip outboard of two running lanes, a median
// between the two directions, a vendor-specific type, and a type that is
// not in the format at all.
const MANY_TYPES: &str = r#"<?xml version="1.0"?>
<OpenDRIVE>
  <road name="m" length="20.0" id="1" junction="-1">
    <planView>
      <geometry s="0.0" x="0.0" y="0.0" hdg="0.0" length="20.0"><line/></geometry>
    </planView>
    <lanes>
      <laneSection s="0.0">
        <left>
          <lane id="1" type="median"><width sOffset="0.0" a="1.0"/></lane>
          <lane id="2" type="special1"><width sOffset="0.0" a="1.0"/></lane>
          <lane id="3" type="driving"><width sOffset="0.0" a="3.5"/></lane>
          <lane id="4" type="banana"><width sOffset="0.0" a="1.5"/></lane>
        </left>
        <right>
          <lane id="-1" type="driving"><width sOffset="0.0" a="3.5"/></lane>
          <lane id="-2" type="onRamp"><width sOffset="0.0" a="3.0"/></lane>
          <lane id="-3" type="none"><width sOffset="0.0" a="0.5"/></lane>
          <lane id="-4" type="parking"><width sOffset="0.0" a="2.5"/></lane>
          <lane id="-5" type="curb"><width sOffset="0.0" a="0.3"/></lane>
          <lane id="-6" type="sidewalk"><width sOffset="0.0" a="2.0"/></lane>
        </right>
      </laneSection>
    </lanes>
  </road>
</OpenDRIVE>"#;

/// The lanes of a one-road, one-section document: each lane's id and the
/// type the document gives it.
fn section_of(d: &Document) -> Vec<(i32, LaneType)> {
    let road = d.children_named(d.root_element(), "road")[0];
    let lanes = d.child(road, "lanes").expect("lanes");
    let section = d.children_named(lanes, "laneSection")[0];
    section_lanes(d, section)
        .into_iter()
        .map(|(lane, id)| (id, lane_type(d.attribute(lane, "type"))))
        .collect()
}

#[test]
fn every_named_lane_type_bakes_as_itself() {
    let d = doc(MANY_TYPES);
    let lanes = section_of(&d);
    let kind = |od_id: i32| lanes.iter().find(|(id, _)| *id == od_id).map(|(_, t)| *t);
    assert_eq!(kind(1), Some(LaneType::Median));
    assert_eq!(kind(3), Some(LaneType::Driving));
    assert_eq!(kind(-1), Some(LaneType::Driving));
    assert_eq!(kind(-2), Some(LaneType::OnRamp));
    assert_eq!(kind(-3), Some(LaneType::Unnamed), "`none` is paved surface");
    assert_eq!(kind(-4), Some(LaneType::Parking));
    assert_eq!(kind(-5), Some(LaneType::Curb));
    assert_eq!(kind(-6), Some(LaneType::Sidewalk));
    assert_eq!(kind(2), Some(LaneType::Special1));
    assert_eq!(kind(4), Some(LaneType::Unknown), "banana is not a type");
    // Every lane in the section, with nothing dropped for its type.
    assert_eq!(lanes.len(), 10);
    assert_eq!(lanes.iter().filter(|(_, t)| *t == LaneType::Driving).count(), 2);
}

#[test]
fn lane_change_edges_stop_at_the_first_lane_traffic_cannot_use() {
    let d = doc(MANY_TYPES);
    let lanes = section_of(&d);
    let ids: Vec<i32> = lanes.iter().map(|(id, _)| *id).collect();
    // Each lane's lane-change neighbours, by id, on either side.
    let mut neighbors: Vec<(i32, Vec<i32>)> = Vec::new();
    for left in [true, false] {
        let order = center_outward(&ids, left);
        let kinds: Vec<LaneType> = order.iter().map(|&p| lanes[p].1).collect();
        for (k, nbrs) in lane_change_neighbors(&kinds).into_iter().enumerate() {
            neighbors.push((ids[order[k]], nbrs.into_iter().map(|n| ids[order[n]]).collect()));
        }
    }
    let lane = |od_id: i32| {
        neighbors
            .iter()
            .find(|(id, _)| *id == od_id)
            .map(|(_, n)| n.clone())
            .expect("a baked lane")
    };
    // Right side: driving -1 and the onRamp -2 beside it are a lane change
    // apart; the parking lane past them is not, and neither is the sidewalk.
    assert_eq!(lane(-1), vec![-2]);
    assert_eq!(lane(-2), vec![-1]);
    assert!(lane(-4).is_empty(), "parking is not a lane change");
    assert!(lane(-6).is_empty(), "sidewalk is not either");
    assert!(lane(-3).is_empty(), "nor is unnamed surface");
    // Left side: nothing drivable sits beside the only driving lane, so it
    // has nothing to change into at all.
    assert!(lane(3).is_empty(), "a median is not crossable");
}
