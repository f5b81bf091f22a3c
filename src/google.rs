//! Events in the shape of the Google Calendar API.

use vstd::prelude::*;

verus! {

/// A point in time as the calendar API takes it.
#[derive(Clone, Debug, PartialEq)]
pub struct Time {
    pub datetime: String,
}

/// A calendar event resource for insertion.
#[derive(Clone, Debug, PartialEq)]
pub struct Event {
    pub id: String,
    pub start: Time,
    pub end: Time,
    pub summary: String,
    pub description: String,
    pub location: String,
}

/// What a calendar event resource holds.
pub struct EventView {
    pub id: Seq<char>,
    pub start: Seq<char>,
    pub end: Seq<char>,
    pub summary: Seq<char>,
    pub description: Seq<char>,
    pub location: Seq<char>,
}

impl View for Event {
    type V = EventView;

    open spec fn view(&self) -> EventView {
        EventView {
            id: self.id@,
            start: self.start.datetime@,
            end: self.end.datetime@,
            summary: self.summary@,
            description: self.description@,
            location: self.location@,
        }
    }
}

} // verus!
