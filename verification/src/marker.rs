//! Markers: points and spans of time in a thread, with data of any kind.

use crate::json::{entries_view, json_text, Json, JsonView, ObjectBuilder};
use crate::sort::Ranked;
use crate::text::{is_text_le, text_le, text_le_total, text_le_transitive};
use crate::timestamp::Timestamp;
use vstd::prelude::*;

verus! {

/// When a marker was.
#[derive(Debug, Clone, Copy, PartialEq, Eq, Structural)]
pub enum MarkerTiming {
    /// At a point in time.
    Instant(Timestamp),
    /// From one point in time to another.
    Interval(Timestamp, Timestamp),
    /// From a point in time. A later marker of the same name says until when.
    IntervalStart(Timestamp),
    /// Until a point in time.
    IntervalEnd(Timestamp),
}

/// How markers of one type are shown.
#[derive(Debug)]
pub struct MarkerSchema {
    /// The name of the marker type.
    pub name: String,
    /// What else the schema says, in the order in which it is written.
    pub properties: Vec<(String, Json)>,
}

/// What a [`MarkerSchema`] says.
#[verifier::ext_equal]
pub struct SchemaView {
    pub name: Seq<char>,
    pub properties: Seq<(Seq<char>, JsonView)>,
}

impl View for MarkerSchema {
    type V = SchemaView;

    open spec fn view(&self) -> SchemaView {
        SchemaView { name: self.name@, properties: entries_view(self.properties@) }
    }
}

/// A type of marker.
pub trait ProfilerMarker {
    /// The name of the type.
    const MARKER_TYPE_NAME: &'static str;

    /// How markers of this type are shown.
    fn schema() -> MarkerSchema;

    /// The data of the marker.
    fn json_marker_data(&self) -> Json;
}

/// A marker of a thread.
#[derive(Debug)]
pub struct MarkerRow {
    /// The name of the marker, as a string of the thread.
    pub name: usize,
    pub timing: MarkerTiming,
    pub data: Json,
}

/// What a [`MarkerRow`] says.
#[verifier::ext_equal]
pub struct MarkerView {
    pub name: usize,
    pub timing: MarkerTiming,
    pub data: JsonView,
}

impl View for MarkerRow {
    type V = MarkerView;

    open spec fn view(&self) -> MarkerView {
        MarkerView { name: self.name, timing: self.timing, data: self.data@ }
    }
}

impl MarkerTiming {
    /// The time at which the marker starts.
    pub open spec fn start(self) -> Option<Timestamp> {
        match self {
            MarkerTiming::Instant(start) => Some(start),
            MarkerTiming::Interval(start, _) => Some(start),
            MarkerTiming::IntervalStart(start) => Some(start),
            MarkerTiming::IntervalEnd(_) => None,
        }
    }

    /// The time at which the marker ends.
    pub open spec fn end(self) -> Option<Timestamp> {
        match self {
            MarkerTiming::Instant(_) => None,
            MarkerTiming::Interval(_, end) => Some(end),
            MarkerTiming::IntervalStart(_) => None,
            MarkerTiming::IntervalEnd(end) => Some(end),
        }
    }

    /// The number by which the format tells the kinds of markers apart.
    pub open spec fn phase(self) -> u64 {
        match self {
            MarkerTiming::Instant(_) => 0,
            MarkerTiming::Interval(_, _) => 1,
            MarkerTiming::IntervalStart(_) => 2,
            MarkerTiming::IntervalEnd(_) => 3,
        }
    }

    /// The start time, end time and phase of the marker.
    pub fn parts(&self) -> (parts: (Option<Timestamp>, Option<Timestamp>, u64))
        ensures
            parts == (self.start(), self.end(), self.phase()),
    {
        match *self {
            MarkerTiming::Instant(start) => (Some(start), None, 0),
            MarkerTiming::Interval(start, end) => (Some(start), Some(end), 1),
            MarkerTiming::IntervalStart(start) => (Some(start), None, 2),
            MarkerTiming::IntervalEnd(end) => (None, Some(end), 3),
        }
    }
}

/// A schema in the profile JSON: the name of the type, then what else it says.
pub open spec fn schema_json(schema: SchemaView) -> JsonView {
    JsonView::Object(seq![("name"@, JsonView::Text(schema.name))] + schema.properties)
}

impl MarkerSchema {
    /// The schema in the profile JSON.
    pub fn to_json(&self) -> (json: Json)
        ensures
            json@ == schema_json(self@),
    {
        let mut object: ObjectBuilder = ObjectBuilder::new();
        object.entry("name", json_text(self.name.as_str()));
        let ghost start = object@;
        let mut i: usize = 0;
        assert(object@ =~= start + entries_view(self.properties@.take(0)));
        while i < self.properties.len()
            invariant
                i <= self.properties@.len(),
                object@ == start + entries_view(self.properties@.take(i as int)),
            decreases self.properties@.len() - i,
        {
            object.entry(self.properties[i].0.as_str(), self.properties[i].1.duplicate());
            proof {
                let entry = self.properties@[i as int];
                assert(entries_view(self.properties@.take(i + 1)) =~= entries_view(
                    self.properties@.take(i as int),
                ).push((entry.0@, entry.1@)));
                assert(object@ =~= start + entries_view(self.properties@.take(i + 1)));
            }
            i = i + 1;
        }
        assert(self.properties@.take(i as int) =~= self.properties@);
        assert(object@ =~= schema_json(self@)->Object_0);
        object.build()
    }
}

/// The order of schemas in the profile JSON: by the name of the type.
impl Ranked for (&'static str, MarkerSchema) {
    open spec fn ranked_le(self, other: Self) -> bool {
        text_le(self.1@.name, other.1@.name)
    }

    proof fn ranked_total(a: Self, b: Self) {
        text_le_total(a.1@.name, b.1@.name);
    }

    proof fn ranked_transitive(a: Self, b: Self, c: Self) {
        text_le_transitive(a.1@.name, b.1@.name, c.1@.name);
    }

    fn is_ranked_le(&self, other: &Self) -> (r: bool) {
        is_text_le(self.1.name.as_str(), other.1.name.as_str())
    }
}

/// A marker starts and ends when its timing says, and the four kinds of timing have the numbers
/// from zero to three.
pub proof fn timing_is_told_by_times_and_phase(start: Timestamp, end: Timestamp)
    ensures
        MarkerTiming::Instant(start).start() == Some(start),
        MarkerTiming::Instant(start).end() is None,
        MarkerTiming::Instant(start).phase() == 0,
        MarkerTiming::Interval(start, end).start() == Some(start),
        MarkerTiming::Interval(start, end).end() == Some(end),
        MarkerTiming::Interval(start, end).phase() == 1,
        MarkerTiming::IntervalStart(start).start() == Some(start),
        MarkerTiming::IntervalStart(start).end() is None,
        MarkerTiming::IntervalStart(start).phase() == 2,
        MarkerTiming::IntervalEnd(end).start() is None,
        MarkerTiming::IntervalEnd(end).end() == Some(end),
        MarkerTiming::IntervalEnd(end).phase() == 3,
{
}

/// Start, end and phase of a marker are enough to tell its timing.
pub proof fn timing_can_be_told_back(a: MarkerTiming, b: MarkerTiming)
    requires
        a.start() == b.start(),
        a.end() == b.end(),
        a.phase() == b.phase(),
    ensures
        a == b,
{
}

/// The views of schemas and markers hold their fields.
pub proof fn schemas_and_markers_are_viewed_field_by_field(schema: MarkerSchema, marker: MarkerRow)
    ensures
        schema@.name == schema.name@,
        schema@.properties.len() == schema.properties@.len(),
        forall|i: int|
            0 <= i < schema.properties@.len() ==> {
                &&& (#[trigger] schema@.properties[i]).0 == schema.properties@[i].0@
                &&& schema@.properties[i].1 == schema.properties@[i].1@
            },
        marker@.name == marker.name,
        marker@.timing == marker.timing,
        marker@.data == marker.data@,
{
}

/// A schema in the profile JSON is the name of the marker type and then all that the schema says,
/// in its order.
pub proof fn schema_json_holds_the_schema(schema: SchemaView)
    ensures
        schema_json(schema) matches JsonView::Object(entries) && {
            &&& entries.len() == schema.properties.len() + 1
            &&& entries[0] == ("name"@, JsonView::Text(schema.name))
            &&& forall|i: int|
                0 <= i < schema.properties.len() ==> entries[i + 1]
                    == #[trigger] schema.properties[i]
        },
{
}

} // verus!
