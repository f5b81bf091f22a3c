//! Records as the timetable feed delivers them.

pub mod groups_parser;

pub use groups_parser::parse_group_range;

use vstd::prelude::*;

verus! {

/// An event as the timetable feed delivers it.
#[derive(Clone, Debug, PartialEq)]
pub struct Event {
    pub code: String,
    pub date: String,
    pub title: Option<String>,
    pub type_: Option<String>,
    pub start_time: String,
    pub end_time: String,
    pub groups: Option<String>,
    pub staff: Option<String>,
    pub room: Option<String>,
    pub campus: Option<String>,
}

/// The text of an optional field.
pub open spec fn text_of(o: Option<String>) -> Option<Seq<char>> {
    match o {
        Some(s) => Some(s@),
        None => None,
    }
}

/// What a feed record holds.
pub struct RecordView {
    pub code: Seq<char>,
    pub date: Seq<char>,
    pub title: Option<Seq<char>>,
    pub type_: Option<Seq<char>>,
    pub start_time: Seq<char>,
    pub end_time: Seq<char>,
    pub groups: Option<Seq<char>>,
    pub staff: Option<Seq<char>>,
    pub room: Option<Seq<char>>,
    pub campus: Option<Seq<char>>,
}

impl View for Event {
    type V = RecordView;

    open spec fn view(&self) -> RecordView {
        RecordView {
            code: self.code@,
            date: self.date@,
            title: text_of(self.title),
            type_: text_of(self.type_),
            start_time: self.start_time@,
            end_time: self.end_time@,
            groups: text_of(self.groups),
            staff: text_of(self.staff),
            room: text_of(self.room),
            campus: text_of(self.campus),
        }
    }
}

} // verus!
