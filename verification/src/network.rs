//! The lane vocabulary: identities, lane types and travel directions.

use vstd::prelude::*;

verus! {

/// An opaque lane identifier. Not a position in any lane list: look a lane
/// up by identity.
#[derive(Debug, Clone, Copy, PartialEq, Eq, Hash, Structural)]
pub struct LaneId(pub usize);

/// What a lane is for.
#[derive(Debug, Clone, Copy, PartialEq, Eq, Hash, Structural)]
pub enum LaneType {
    /// Paved surface with no function assigned to it.
    Unnamed,
    /// An ordinary traffic lane.
    Driving,
    /// One lane carrying traffic both ways.
    Bidirectional,
    /// Reserved for buses.
    Bus,
    /// Reserved for taxis.
    Taxi,
    /// Reserved for high-occupancy vehicles.
    Hov,
    /// An acceleration lane joining a road.
    Entry,
    /// A deceleration lane leaving a road.
    Exit,
    /// A ramp onto a motorway.
    OnRamp,
    /// A ramp off a motorway.
    OffRamp,
    /// A ramp linking two motorways.
    ConnectingRamp,
    /// A short bypass lane at an intersection.
    SlipLane,
    /// A lane vehicles park in.
    Parking,
    /// A hard shoulder for emergency stops.
    Stop,
    /// A lane traffic may not use.
    Restricted,
    /// A cycle lane.
    Biking,
    /// A footway.
    Sidewalk,
    /// Hard shoulder, outboard of the running lanes.
    Shoulder,
    /// The paved strip beside a running lane.
    Border,
    /// The kerb between carriageway and footway.
    Curb,
    /// The strip separating opposing carriageways.
    Median,
    /// A lane closed for works.
    RoadWorks,
    /// Tram track sharing the road surface.
    Tram,
    /// Railway track.
    Rail,
    /// Vendor-defined surface.
    Special1,
    /// Vendor-defined surface.
    Special2,
    /// Vendor-defined surface.
    Special3,
    /// A surface whose declared type is not recognised.
    Unknown,
}

/// Travel direction of a lane relative to its geometry's start to end.
#[derive(Debug, Clone, Copy, PartialEq, Eq, Hash, Structural)]
pub enum Direction {
    /// Travel runs along the centerline, start to end.
    Forward,
    /// Travel runs against it, end to start.
    Backward,
}

/// Whether ordinary through traffic belongs on a lane of type `t`: the
/// running lanes and the ramps, not parking, shoulders, footways or
/// anything else beside them.
pub open spec fn drivable(t: LaneType) -> bool {
    match t {
        LaneType::Driving | LaneType::Bidirectional | LaneType::Bus | LaneType::Taxi
        | LaneType::Hov | LaneType::Entry | LaneType::Exit | LaneType::OnRamp
        | LaneType::OffRamp | LaneType::ConnectingRamp | LaneType::SlipLane => true,
        _ => false,
    }
}

/// The stable lowercase name of a lane type.
pub open spec fn lane_type_name(t: LaneType) -> Seq<char> {
    match t {
        LaneType::Unnamed => "none"@,
        LaneType::Driving => "driving"@,
        LaneType::Bidirectional => "bidirectional"@,
        LaneType::Bus => "bus"@,
        LaneType::Taxi => "taxi"@,
        LaneType::Hov => "hov"@,
        LaneType::Entry => "entry"@,
        LaneType::Exit => "exit"@,
        LaneType::OnRamp => "on-ramp"@,
        LaneType::OffRamp => "off-ramp"@,
        LaneType::ConnectingRamp => "connecting-ramp"@,
        LaneType::SlipLane => "slip-lane"@,
        LaneType::Parking => "parking"@,
        LaneType::Stop => "stop"@,
        LaneType::Restricted => "restricted"@,
        LaneType::Biking => "biking"@,
        LaneType::Sidewalk => "sidewalk"@,
        LaneType::Shoulder => "shoulder"@,
        LaneType::Border => "border"@,
        LaneType::Curb => "curb"@,
        LaneType::Median => "median"@,
        LaneType::RoadWorks => "road-works"@,
        LaneType::Tram => "tram"@,
        LaneType::Rail => "rail"@,
        LaneType::Special1 => "special1"@,
        LaneType::Special2 => "special2"@,
        LaneType::Special3 => "special3"@,
        LaneType::Unknown => "unknown"@,
    }
}

impl LaneType {
    /// Whether ordinary through traffic belongs on this lane. This is the
    /// routing predicate, narrower than "has a paved surface".
    pub fn is_drivable(&self) -> (r: bool)
        ensures
            r == drivable(*self),
    {
        match self {
            LaneType::Driving | LaneType::Bidirectional | LaneType::Bus | LaneType::Taxi
            | LaneType::Hov | LaneType::Entry | LaneType::Exit | LaneType::OnRamp
            | LaneType::OffRamp | LaneType::ConnectingRamp | LaneType::SlipLane => true,
            _ => false,
        }
    }

    /// A stable lowercase name, for a legend, a log line or a readout.
    pub fn as_str(&self) -> (r: &'static str)
        ensures
            r@ == lane_type_name(*self),
    {
        match self {
            LaneType::Unnamed => "none",
            LaneType::Driving => "driving",
            LaneType::Bidirectional => "bidirectional",
            LaneType::Bus => "bus",
            LaneType::Taxi => "taxi",
            LaneType::Hov => "hov",
            LaneType::Entry => "entry",
            LaneType::Exit => "exit",
            LaneType::OnRamp => "on-ramp",
            LaneType::OffRamp => "off-ramp",
            LaneType::ConnectingRamp => "connecting-ramp",
            LaneType::SlipLane => "slip-lane",
            LaneType::Parking => "parking",
            LaneType::Stop => "stop",
            LaneType::Restricted => "restricted",
            LaneType::Biking => "biking",
            LaneType::Sidewalk => "sidewalk",
            LaneType::Shoulder => "shoulder",
            LaneType::Border => "border",
            LaneType::Curb => "curb",
            LaneType::Median => "median",
            LaneType::RoadWorks => "road-works",
            LaneType::Tram => "tram",
            LaneType::Rail => "rail",
            LaneType::Special1 => "special1",
            LaneType::Special2 => "special2",
            LaneType::Special3 => "special3",
            LaneType::Unknown => "unknown",
        }
    }
}


/// Where the item with identity `id` is among items whose identities are
/// `ids`: at position `id` if that item has it, which is where importers
/// put it, and otherwise at the first position that has it.
pub open spec fn lookup(ids: Seq<usize>, id: usize) -> Option<int> {
    if (id as int) < ids.len() && ids[id as int] == id {
        Some(id as int)
    } else if exists|p: int| 0 <= p < ids.len() && ids[p] == id {
        Some(choose|p: int| 0 <= p < ids.len() && ids[p] == id && forall|q: int| 0 <= q < p ==> ids[q] != id)
    } else {
        None
    }
}

/// The identities of a list of items, looked up by identity rather than
/// by position, so ids stay valid however an importer assigns them.
#[derive(Debug)]
pub struct IdList {
    /// Each item's identity, in list order.
    pub ids: Vec<usize>,
}

impl IdList {
    /// The position of the item whose identity is `id`: tried at position
    /// `id` first, then by a scan from the start. `None` if no item has it.
    pub fn position(&self, id: usize) -> (r: Option<usize>)
        ensures
            match r {
                Some(p) => p < self.ids@.len() && self.ids@[p as int] == id,
                None => forall|p: int| 0 <= p < self.ids@.len() ==> self.ids@[p] != id,
            },
            match r {
                Some(p) => lookup(self.ids@, id) == Some(p as int),
                None => lookup(self.ids@, id) is None,
            },
    {
        if id < self.ids.len() && self.ids[id] == id {
            return Some(id);
        }
        let mut p: usize = 0;
        while p < self.ids.len()
            invariant
                p <= self.ids@.len(),
                forall|q: int| 0 <= q < p ==> self.ids@[q] != id,
                !((id as int) < self.ids@.len() && self.ids@[id as int] == id),
            decreases self.ids.len() - p,
        {
            if self.ids[p] == id {
                proof {
                    let w = choose|w: int| 0 <= w < self.ids@.len() && self.ids@[w] == id && forall|q: int| 0 <= q < w ==> self.ids@[q] != id;
                    assert(w == p as int) by {
                        if w < p {
                        } else if w > p {
                            assert(self.ids@[p as int] == id);
                        }
                    }
                }
                return Some(p);
            }
            p = p + 1;
        }
        None
    }

    /// The positions of the items whose identities are `targets`, in that
    /// order, skipping any no item has: the lanes reachable off a lane's
    /// exit end, given its successors.
    pub fn resolve(&self, targets: &[usize]) -> (r: Vec<usize>)
        ensures
            r@ == resolved(self.ids@, targets@, targets@.len() as int),
    {
        let mut out: Vec<usize> = Vec::new();
        let mut k: usize = 0;
        while k < targets.len()
            invariant
                k <= targets.len(),
                out@ == resolved(self.ids@, targets@, k as int),
            decreases targets.len() - k,
        {
            if let Some(p) = self.position(targets[k]) {
                out.push(p);
            }
            k = k + 1;
        }
        out
    }
}

/// The positions of the items whose identities are `targets[..k]`, in
/// order, skipping any no item has.
pub open spec fn resolved(ids: Seq<usize>, targets: Seq<usize>, k: int) -> Seq<usize>
    decreases k,
{
    if k <= 0 {
        Seq::empty()
    } else {
        let rest = resolved(ids, targets, k - 1);
        match lookup(ids, targets[k - 1]) {
            Some(p) => rest.push(p as usize),
            None => rest,
        }
    }
}

/// A lookup by identity finds an item that has the identity, and finds
/// none only when no item has it.
pub proof fn lookup_is_by_identity(ids: Seq<usize>, id: usize)
    ensures
        lookup(ids, id) matches Some(p) ==> 0 <= p < ids.len() && ids[p] == id,
        lookup(ids, id) is None <==> forall|p: int| 0 <= p < ids.len() ==> ids[p] != id,
        (id as int) < ids.len() && ids[id as int] == id ==> lookup(ids, id) == Some(id as int),
        lookup(ids, id) matches Some(p) ==> p == id as int || forall|q: int| 0 <= q < p ==> ids[q] != id,
{
    if !((id as int) < ids.len() && ids[id as int] == id) && exists|p: int| 0 <= p < ids.len() && ids[p] == id {
        let p = choose|p: int| 0 <= p < ids.len() && ids[p] == id;
        lemma_first_occurrence(ids, id, p);
    }
}

/// Resolving a list of identities finds every one that some item has, and
/// nothing else: each position found holds one of the identities, and each
/// identity some item has is held at a position found.
pub proof fn resolving_finds_exactly_the_known_identities(ids: Seq<usize>, targets: Seq<usize>, k: int)
    requires
        0 <= k <= targets.len(),
        ids.len() <= usize::MAX,
    ensures
        forall|i: int| 0 <= i < resolved(ids, targets, k).len() ==> {
            let p = #[trigger] resolved(ids, targets, k)[i] as int;
            0 <= p < ids.len() && targets.take(k).contains(ids[p])
        },
        forall|t: int| 0 <= t < k && (exists|p: int| 0 <= p < ids.len() && ids[p] == #[trigger] targets[t])
            ==> exists|i: int| 0 <= i < resolved(ids, targets, k).len() && ids[#[trigger] resolved(ids, targets, k)[i] as int] == targets[t],
    decreases k,
{
    if k > 0 {
        resolving_finds_exactly_the_known_identities(ids, targets, k - 1);
        let rest = resolved(ids, targets, k - 1);
        let all = resolved(ids, targets, k);
        let last = targets[k - 1];
        lookup_is_by_identity(ids, last);
        let before = targets.take(k - 1);
        let upto = targets.take(k);
        assert forall|i: int| 0 <= i < rest.len() implies {
            let p = #[trigger] rest[i] as int;
            0 <= p < ids.len() && upto.contains(ids[p])
        } by {
            let p = rest[i] as int;
            let w = choose|w: int| 0 <= w < before.len() && #[trigger] before[w] == ids[p];
            assert(upto[w] == ids[p]);
        }
        match lookup(ids, last) {
            Some(q) => {
                assert(all == rest.push(q as usize));
                assert(upto[k - 1] == last);
                assert forall|i: int| 0 <= i < all.len() implies {
                    let p = #[trigger] all[i] as int;
                    0 <= p < ids.len() && upto.contains(ids[p])
                } by {
                    if i < rest.len() {
                        assert(all[i] == rest[i]);
                    } else {
                        assert(all[i] == q as usize);
                    }
                }
                assert forall|t: int| 0 <= t < k && (exists|p: int| 0 <= p < ids.len() && ids[p] == #[trigger] targets[t])
                    implies exists|i: int| 0 <= i < all.len() && ids[#[trigger] all[i] as int] == targets[t] by {
                    if t < k - 1 {
                        let i = choose|i: int| 0 <= i < rest.len() && ids[#[trigger] rest[i] as int] == targets[t];
                        assert(all[i] == rest[i]);
                    } else {
                        assert(all[rest.len() as int] == q as usize);
                    }
                }
            },
            None => {
                assert(all == rest);
            },
        }
    }
}

/// Where an identity occurs, a first occurrence exists.
proof fn lemma_first_occurrence(ids: Seq<usize>, id: usize, p: int)
    requires
        0 <= p < ids.len(),
        ids[p] == id,
    ensures
        exists|w: int| 0 <= w < ids.len() && ids[w] == id && forall|q: int| 0 <= q < w ==> ids[q] != id,
    decreases p,
{
    if exists|q: int| 0 <= q < p && ids[q] == id {
        let q = choose|q: int| 0 <= q < p && ids[q] == id;
        lemma_first_occurrence(ids, id, q);
    } else {
        assert(forall|q: int| 0 <= q < p ==> ids[q] != id);
    }
}

/// Segments of a lane's centerline per indexed span. A query projects only
/// onto the spans the index offers it, so its cost tracks how finely the
/// road near it is sampled, not how long the lanes there are.
pub const SPAN_SEGMENTS: usize = 4;

/// The spans, each `(lane, first segment, end segment)`, that cut the
/// segments `from..segments` of lane `lane` into runs of
/// [`SPAN_SEGMENTS`], the last one shorter if it must be.
pub open spec fn lane_spans(lane: usize, segments: int, from: int) -> Seq<(usize, usize, usize)>
    decreases segments - from,
{
    if from < 0 || from >= segments {
        Seq::empty()
    } else {
        let end = if segments - from > SPAN_SEGMENTS { from + SPAN_SEGMENTS } else { segments };
        seq![(lane, from as usize, end as usize)] + lane_spans(lane, segments, end)
    }
}

/// How many segments a centerline of `points` points has.
pub open spec fn segment_count(points: usize) -> int {
    if points == 0 { 0 } else { points - 1 }
}

/// The spans of the first `k` lanes: those of each lane of kind
/// [`LaneType::Driving`] in lane order, then along the lane.
pub open spec fn spans_upto(kinds: Seq<LaneType>, points: Seq<usize>, k: int) -> Seq<(usize, usize, usize)>
    decreases k,
{
    if k <= 0 {
        Seq::empty()
    } else {
        let rest = spans_upto(kinds, points, k - 1);
        if kinds[k - 1] == LaneType::Driving {
            rest + lane_spans((k - 1) as usize, segment_count(points[k - 1]), 0)
        } else {
            rest
        }
    }
}

/// The spans the ground-plane index is built over: the centerlines of the
/// lanes of kind [`LaneType::Driving`] (not everything
/// [`LaneType::is_drivable`] admits, so a body snaps to an ordinary traffic
/// lane), each cut into runs of [`SPAN_SEGMENTS`] segments. `kinds` and
/// `points` give each lane's kind and its centerline's point count. Spans
/// are in lane order, then along the lane, so the index's lowest-index tie
/// break picks what projecting onto each lane whole in turn would.
pub fn index_spans(kinds: &[LaneType], points: &[usize]) -> (r: Vec<(usize, usize, usize)>)
    requires
        kinds@.len() == points@.len(),
    ensures
        r@ == spans_upto(kinds@, points@, kinds@.len() as int),
{
    let mut out: Vec<(usize, usize, usize)> = Vec::new();
    let mut i: usize = 0;
    while i < kinds.len()
        invariant
            i <= kinds@.len() == points@.len(),
            out@ == spans_upto(kinds@, points@, i as int),
        decreases kinds.len() - i,
    {
        if kinds[i] == LaneType::Driving {
            let segments = if points[i] == 0 { 0 } else { points[i] - 1 };
            let ghost before = out@;
            let mut first: usize = 0;
            while first < segments
                invariant
                    i < kinds@.len() == points@.len(),
                    kinds@[i as int] == LaneType::Driving,
                    segments == segment_count(points@[i as int]),
                    first <= segments,
                    before == spans_upto(kinds@, points@, i as int),
                    out@ + lane_spans(i, segments as int, first as int) == before + lane_spans(i, segments as int, 0),
                decreases segments - first,
            {
                let end = if segments - first > SPAN_SEGMENTS { first + SPAN_SEGMENTS } else { segments };
                let ghost old_out = out@;
                out.push((i, first, end));
                assert(old_out + lane_spans(i, segments as int, first as int)
                    =~= out@ + lane_spans(i, segments as int, end as int));
                first = end;
            }
            assert(out@ =~= spans_upto(kinds@, points@, i + 1));
        }
        i = i + 1;
    }
    out
}

/// The spans of a lane cover each of its segments from `from` on exactly
/// once, in order, each span holding one to [`SPAN_SEGMENTS`] segments.
pub proof fn spans_cover_each_segment_once(lane: usize, segments: int, from: int, s: int)
    requires
        0 <= from,
        segments <= usize::MAX,
    ensures
        forall|i: int| 0 <= i < lane_spans(lane, segments, from).len() ==> {
            let (l, a, b) = #[trigger] lane_spans(lane, segments, from)[i];
            &&& l == lane
            &&& from <= a < b <= segments
            &&& b - a <= SPAN_SEGMENTS
        },
        from <= s < segments ==> exists|i: int| 0 <= i < lane_spans(lane, segments, from).len()
            && (#[trigger] lane_spans(lane, segments, from)[i]).1 <= s < lane_spans(lane, segments, from)[i].2,
        forall|i: int, j: int| 0 <= i < j < lane_spans(lane, segments, from).len()
            ==> (#[trigger] lane_spans(lane, segments, from)[i]).2 <= (#[trigger] lane_spans(lane, segments, from)[j]).1,
    decreases segments - from,
{
    if from < segments {
        let end = if segments - from > SPAN_SEGMENTS { from + SPAN_SEGMENTS } else { segments };
        spans_cover_each_segment_once(lane, segments, end, s);
        let rest = lane_spans(lane, segments, end);
        let all = lane_spans(lane, segments, from);
        assert(all == seq![(lane, from as usize, end as usize)] + rest);
        assert forall|i: int| 0 < i < all.len() implies all[i] == rest[i - 1] by {}
        if from <= s < segments {
            if s < end {
                assert(all[0].1 <= s < all[0].2);
            } else {
                let w = choose|w: int| 0 <= w < rest.len() && (#[trigger] rest[w]).1 <= s < rest[w].2;
                assert(all[w + 1] == rest[w]);
            }
        }
        assert forall|i: int, j: int| 0 <= i < j < all.len() implies all[i].2 <= all[j].1 by {
            if i > 0 {
                assert(all[i] == rest[i - 1] && all[j] == rest[j - 1]);
            } else {
                assert(all[j] == rest[j - 1]);
            }
        }
    }
}

/// Every indexed span is a run of one to [`SPAN_SEGMENTS`] segments of the
/// centerline of a lane of kind [`LaneType::Driving`].
pub proof fn every_span_is_part_of_a_driving_lane(kinds: Seq<LaneType>, points: Seq<usize>, k: int)
    requires
        0 <= k <= kinds.len() == points.len(),
        kinds.len() <= usize::MAX,
    ensures
        forall|i: int| 0 <= i < spans_upto(kinds, points, k).len() ==> {
            let (l, a, b) = #[trigger] spans_upto(kinds, points, k)[i];
            &&& (l as int) < k
            &&& kinds[l as int] == LaneType::Driving
            &&& a < b <= points[l as int] - 1
            &&& b - a <= SPAN_SEGMENTS
        },
    decreases k,
{
    if k > 0 {
        every_span_is_part_of_a_driving_lane(kinds, points, k - 1);
        let rest = spans_upto(kinds, points, k - 1);
        let all = spans_upto(kinds, points, k);
        if kinds[k - 1] == LaneType::Driving {
            let segments = segment_count(points[k - 1]);
            let own = lane_spans((k - 1) as usize, segments, 0);
            spans_cover_each_segment_once((k - 1) as usize, segments, 0, 0);
            assert(all == rest + own);
            assert forall|i: int| 0 <= i < all.len() implies {
                let (l, a, b) = #[trigger] all[i];
                &&& (l as int) < k
                &&& kinds[l as int] == LaneType::Driving
                &&& a < b <= points[l as int] - 1
                &&& b - a <= SPAN_SEGMENTS
            } by {
                if i < rest.len() {
                    assert(all[i] == rest[i]);
                } else {
                    assert(all[i] == own[i - rest.len()]);
                }
            }
        }
    }
}

/// Lanes after the first `k` add spans only after theirs: the spans of the
/// first `k` lanes stay where they are.
proof fn lemma_spans_grow(kinds: Seq<LaneType>, points: Seq<usize>, k: int, m: int)
    requires
        0 <= k <= m <= kinds.len() == points.len(),
    ensures
        spans_upto(kinds, points, k).len() <= spans_upto(kinds, points, m).len(),
        forall|i: int| 0 <= i < spans_upto(kinds, points, k).len()
            ==> #[trigger] spans_upto(kinds, points, m)[i] == spans_upto(kinds, points, k)[i],
    decreases m - k,
{
    if k < m {
        lemma_spans_grow(kinds, points, k, m - 1);
        let rest = spans_upto(kinds, points, m - 1);
        if kinds[m - 1] == LaneType::Driving {
            assert(spans_upto(kinds, points, m) == rest + lane_spans((m - 1) as usize, segment_count(points[m - 1]), 0));
        }
    }
}

/// Every segment of a driving lane's centerline lies in one of the lane's
/// indexed spans, so a point near any part of the lane can find it.
pub proof fn every_driving_segment_is_indexed(kinds: Seq<LaneType>, points: Seq<usize>, lane: int, s: int)
    requires
        kinds.len() == points.len() <= usize::MAX,
        0 <= lane < kinds.len(),
        kinds[lane] == LaneType::Driving,
        0 <= s,
        s + 1 < points[lane],
    ensures
        exists|i: int| 0 <= i < spans_upto(kinds, points, kinds.len() as int).len()
            && (#[trigger] spans_upto(kinds, points, kinds.len() as int)[i]).0 == lane
            && spans_upto(kinds, points, kinds.len() as int)[i].1 <= s < spans_upto(kinds, points, kinds.len() as int)[i].2,
{
    let segments = segment_count(points[lane]);
    let rest = spans_upto(kinds, points, lane);
    let own = lane_spans(lane as usize, segments, 0);
    let upto = spans_upto(kinds, points, lane + 1);
    spans_cover_each_segment_once(lane as usize, segments, 0, s);
    assert(upto == rest + own);
    let w = choose|w: int| 0 <= w < own.len() && (#[trigger] own[w]).1 <= s < own[w].2;
    assert(own[w].0 == lane as usize);
    assert(upto[rest.len() + w] == own[w]);
    lemma_spans_grow(kinds, points, lane + 1, kinds.len() as int);
    let all = spans_upto(kinds, points, kinds.len() as int);
    assert(all[rest.len() + w] == upto[rest.len() + w]);
}

/// Whether `c` may stand in a stable name: a lowercase ASCII letter, a
/// digit or a hyphen.
pub open spec fn name_char(c: char) -> bool {
    ('a' <= c && c <= 'z') || ('0' <= c && c <= '9') || c == '-'
}

/// Every lane type's name is lowercase, non-empty, and no two lane types
/// share one, so a name read back identifies the type.
pub proof fn lane_type_names_are_lowercase_and_distinct(a: LaneType, b: LaneType)
    ensures
        lane_type_name(a).len() > 0,
        forall|i: int| 0 <= i < lane_type_name(a).len() ==> name_char(#[trigger] lane_type_name(a)[i]),
        lane_type_name(a) == lane_type_name(b) ==> a == b,
{
    reveal_strlit("none");
    reveal_strlit("driving");
    reveal_strlit("bidirectional");
    reveal_strlit("bus");
    reveal_strlit("taxi");
    reveal_strlit("hov");
    reveal_strlit("entry");
    reveal_strlit("exit");
    reveal_strlit("on-ramp");
    reveal_strlit("off-ramp");
    reveal_strlit("connecting-ramp");
    reveal_strlit("slip-lane");
    reveal_strlit("parking");
    reveal_strlit("stop");
    reveal_strlit("restricted");
    reveal_strlit("biking");
    reveal_strlit("sidewalk");
    reveal_strlit("shoulder");
    reveal_strlit("border");
    reveal_strlit("curb");
    reveal_strlit("median");
    reveal_strlit("road-works");
    reveal_strlit("tram");
    reveal_strlit("rail");
    reveal_strlit("special1");
    reveal_strlit("special2");
    reveal_strlit("special3");
    reveal_strlit("unknown");
    if lane_type_name(a) == lane_type_name(b) && a != b {
        let (x, y) = (lane_type_name(a), lane_type_name(b));
        assert(x.len() > 0 ==> x[0] == y[0]);
        assert(x.len() > 1 ==> x[1] == y[1]);
        assert(x.len() > 2 ==> x[2] == y[2]);
        assert(x.len() > 3 ==> x[3] == y[3]);
        assert(x.len() > 4 ==> x[4] == y[4]);
        assert(x.len() > 5 ==> x[5] == y[5]);
        assert(x.len() > 6 ==> x[6] == y[6]);
        assert(x.len() > 7 ==> x[7] == y[7]);
        assert(x.len() > 8 ==> x[8] == y[8]);
    }
}

} // verus!
