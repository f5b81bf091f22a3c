//! Keeps an external calendar in step with a timetable feed: parses group
//! ranges, turns feed records into content-addressed events and works out
//! which calendar events to create and which to delete.

pub mod clock;
pub mod google;
pub mod identity;
pub mod keats;

use vstd::prelude::*;

use crate::clock::{
    date_in_text, london_times, parse_date, parse_time, resolve_london, rfc3339_text,
    time_in_text, Instant, InstantView, LocalTimes,
};
use crate::identity::{content_digest, digest, encode_id, id_text};
use crate::keats::groups_parser::{group_listing, lemma_group_listing, parse_group_range};
use crate::keats::{text_of, RecordView};

verus! {

/// The content of a normalised event; its identity is a digest of it.
#[derive(Clone, Debug, PartialEq, Hash)]
pub struct EventInner {
    pub start: Instant,
    pub end: Instant,
    pub code: String,
    pub groups: Vec<u32>,
    pub groups_raw: Option<String>,
    pub title: Option<String>,
    pub type_: Option<String>,
    pub staff: Option<String>,
    pub room: Option<String>,
    pub campus: Option<String>,
}

/// A feed record normalised: fixed instants, its groups and an identity.
#[derive(Clone, Debug, PartialEq)]
pub struct Event {
    pub id: String,
    pub inner: EventInner,
}

/// What an event's content is.
pub struct ContentView {
    pub start: InstantView,
    pub end: InstantView,
    pub code: Seq<char>,
    pub groups: Seq<u32>,
    pub groups_raw: Option<Seq<char>>,
    pub title: Option<Seq<char>>,
    pub type_: Option<Seq<char>>,
    pub staff: Option<Seq<char>>,
    pub room: Option<Seq<char>>,
    pub campus: Option<Seq<char>>,
}

/// What an event is.
pub struct EventView {
    pub id: Seq<char>,
    pub inner: ContentView,
}

impl View for EventInner {
    type V = ContentView;

    open spec fn view(&self) -> ContentView {
        ContentView {
            start: self.start@,
            end: self.end@,
            code: self.code@,
            groups: self.groups@,
            groups_raw: text_of(self.groups_raw),
            title: text_of(self.title),
            type_: text_of(self.type_),
            staff: text_of(self.staff),
            room: text_of(self.room),
            campus: text_of(self.campus),
        }
    }
}

impl View for Event {
    type V = EventView;

    open spec fn view(&self) -> EventView {
        EventView { id: self.id@, inner: self.inner@ }
    }
}

/// Why a feed record could not be normalised.
#[derive(Clone, Copy, Debug, PartialEq)]
pub enum DateTimeParseError {
    /// The date or a time of day is not in the feed's format.
    Format(chrono::ParseError),
    /// A time of day does not occur on that date in London: the clocks
    /// skip it.
    Nonexistent,
}

/// The first instant at which a wall-clock time occurs.
pub open spec fn earliest(lt: LocalTimes) -> Option<i64> {
    match lt {
        LocalTimes::Unique(a) => Some(a),
        LocalTimes::Folded(a, _) => Some(a),
        LocalTimes::Missing => None,
    }
}

/// The last instant at which a wall-clock time occurs.
pub open spec fn latest(lt: LocalTimes) -> Option<i64> {
    match lt {
        LocalTimes::Unique(b) => Some(b),
        LocalTimes::Folded(_, b) => Some(b),
        LocalTimes::Missing => None,
    }
}

/// The group-range text of a record; none counts as empty.
pub open spec fn groups_text(r: RecordView) -> Seq<char> {
    match r.groups {
        Some(g) => g,
        None => Seq::empty(),
    }
}

/// The date and both times of day of a record are in the feed's format.
pub open spec fn formats_read(r: RecordView) -> bool {
    &&& date_in_text(r.date) is Some
    &&& time_in_text(r.start_time) is Some
    &&& time_in_text(r.end_time) is Some
}

/// The content of a record once normalised: it starts at the earliest
/// instant of its London start time and ends at the latest instant of its
/// London end time, both shown in UTC.
pub open spec fn normalized_content(r: RecordView) -> Option<ContentView> {
    if formats_read(r) {
        let d = date_in_text(r.date)->0;
        let s = earliest(london_times(d, time_in_text(r.start_time)->0));
        let e = latest(london_times(d, time_in_text(r.end_time)->0));
        if s is Some && e is Some {
            Some(
                ContentView {
                    start: InstantView { timestamp: s->0 as int, offset: 0 },
                    end: InstantView { timestamp: e->0 as int, offset: 0 },
                    code: r.code,
                    groups: group_listing(groups_text(r)),
                    groups_raw: r.groups,
                    title: r.title,
                    type_: r.type_,
                    staff: r.staff,
                    room: r.room,
                    campus: r.campus,
                },
            )
        } else {
            None
        }
    } else {
        None
    }
}

/// A record normalised: its content and the identity written from the
/// content's digest.
pub open spec fn normalized(r: RecordView) -> Option<EventView> {
    match normalized_content(r) {
        Some(c) => Some(EventView { id: id_text(content_digest(c)), inner: c }),
        None => None,
    }
}

impl Event {
    /// Normalises a feed record.
    pub fn try_from(event: keats::Event) -> (r: Result<Event, DateTimeParseError>)
        ensures
            match r {
                Ok(e) => normalized(event@) == Some(e@),
                Err(DateTimeParseError::Format(_)) => !formats_read(event@),
                Err(DateTimeParseError::Nonexistent) => formats_read(event@) && normalized(
                    event@,
                ) is None,
            },
            event@.start_time == event@.end_time ==> (r matches Ok(e) ==> e@.inner.start.timestamp
                <= e@.inner.end.timestamp),
    {
        let date = match parse_date(event.date.as_str()) {
            Ok(d) => d,
            Err(e) => {
                return Err(DateTimeParseError::Format(e));
            },
        };
        let start_time = match parse_time(event.start_time.as_str()) {
            Ok(t) => t,
            Err(e) => {
                return Err(DateTimeParseError::Format(e));
            },
        };
        let end_time = match parse_time(event.end_time.as_str()) {
            Ok(t) => t,
            Err(e) => {
                return Err(DateTimeParseError::Format(e));
            },
        };
        let start = match resolve_london(date, start_time) {
            LocalTimes::Unique(a) => Instant::utc(a),
            LocalTimes::Folded(a, _) => Instant::utc(a),
            LocalTimes::Missing => {
                return Err(DateTimeParseError::Nonexistent);
            },
        };
        let end = match resolve_london(date, end_time) {
            LocalTimes::Unique(b) => Instant::utc(b),
            LocalTimes::Folded(_, b) => Instant::utc(b),
            LocalTimes::Missing => {
                return Err(DateTimeParseError::Nonexistent);
            },
        };
        let groups = match &event.groups {
            Some(g) => parse_group_range(g.as_str()),
            None => parse_group_range(String::new().as_str()),
        };
        proof {
            lemma_group_listing(groups@, groups_text(event@));
        }
        let ghost record = event@;
        let inner = EventInner {
            start,
            end,
            code: event.code,
            groups,
            groups_raw: event.groups,
            title: event.title,
            type_: event.type_,
            staff: event.staff,
            room: event.room,
            campus: event.campus,
        };
        let id = encode_id(digest(&inner));
        let e = Event { id, inner };
        assert(normalized_content(record) == Some(e@.inner));
        Ok(e)
    }
}

/// The texts among `ps` that are present and not empty, in order.
pub open spec fn present_texts(ps: Seq<Option<Seq<char>>>) -> Seq<Seq<char>>
    decreases ps.len(),
{
    if ps.len() == 0 {
        Seq::empty()
    } else {
        let rest = present_texts(ps.drop_last());
        match ps.last() {
            Some(s) => if s.len() > 0 {
                rest.push(s)
            } else {
                rest
            },
            None => rest,
        }
    }
}

/// `ss` written one after another with `sep` between each two.
pub open spec fn joined(ss: Seq<Seq<char>>, sep: Seq<char>) -> Seq<char>
    decreases ss.len(),
{
    if ss.len() == 0 {
        Seq::empty()
    } else if ss.len() == 1 {
        ss[0]
    } else {
        joined(ss.drop_last(), sep) + sep + ss.last()
    }
}

/// The texts among `some_strings` that are present and not empty, joined
/// with `separator`.
fn join_some_strings(some_strings: Vec<Option<String>>, separator: &str) -> (r: String)
    ensures
        r@ == joined(present_texts(text_list(some_strings@)), separator@),
{
    let ghost items = text_list(some_strings@);
    let mut out = String::new();
    let mut any = false;
    let mut k: usize = 0;
    while k < some_strings.len()
        invariant
            k <= some_strings@.len(),
            items == text_list(some_strings@),
            out@ == joined(present_texts(items.take(k as int)), separator@),
            any == (present_texts(items.take(k as int)).len() > 0),
        decreases some_strings@.len() - k,
    {
        assert(items.take(k + 1).drop_last() == items.take(k as int));
        assert(items.take(k + 1).last() == text_of(some_strings@[k as int]));
        let ghost prev = present_texts(items.take(k as int));
        match &some_strings[k] {
            Some(s) => {
                if s.as_str().unicode_len() > 0 {
                    if any {
                        out.append(separator);
                    }
                    out.append(s.as_str());
                    any = true;
                    assert(present_texts(items.take(k + 1)) == prev.push(s@));
                    assert(prev.push(s@).drop_last() == prev);
                }
            },
            None => {},
        }
        k = k + 1;
    }
    assert(items.take(some_strings@.len() as int) == items);
    out
}

/// The texts of a list of optional strings.
pub open spec fn text_list(v: Seq<Option<String>>) -> Seq<Option<Seq<char>>> {
    v.map_values(|o: Option<String>| text_of(o))
}

/// An event as the calendar shows it: as summary the title (or else the
/// code), followed by `", "` and the group-range text where there is one;
/// as description the code, staff and type; as location the room and
/// campus.
pub open spec fn presented(e: EventView) -> google::EventView {
    let c = e.inner;
    let title = match c.title {
        Some(t) => t,
        None => c.code,
    };
    google::EventView {
        id: e.id,
        start: rfc3339_text(c.start.timestamp, c.start.offset),
        end: rfc3339_text(c.end.timestamp, c.end.offset),
        summary: match c.groups_raw {
            Some(g) => title + ", "@ + g,
            None => title,
        },
        description: joined(present_texts(seq![Some(c.code), c.staff, c.type_]), "\n"@),
        location: joined(present_texts(seq![c.room, c.campus]), ", "@),
    }
}

impl google::Event {
    /// The calendar resource for an event.
    pub fn from(event: Event) -> (r: google::Event)
        ensures
            r@ == presented(event@),
    {
        let ghost ev = event@;
        let Event { id, inner } = event;
        let start = google::Time { datetime: inner.start.to_rfc3339() };
        let end = google::Time { datetime: inner.end.to_rfc3339() };
        let title = match inner.title {
            Some(t) => t,
            None => inner.code.clone(),
        };
        let location = join_some_strings(vec![inner.room, inner.campus], ", ");
        assert(text_list(seq![inner.room, inner.campus]) == seq![ev.inner.room, ev.inner.campus]);
        let mut summary = title;
        match inner.groups_raw {
            Some(g) => {
                summary.append(", ");
                summary.append(g.as_str());
            },
            None => {},
        }
        let description = join_some_strings(
            vec![Some(inner.code), inner.staff, inner.type_],
            "\n",
        );
        assert(text_list(seq![Some(inner.code), inner.staff, inner.type_]) == seq![
            Some(ev.inner.code),
            ev.inner.staff,
            ev.inner.type_,
        ]);
        google::Event { id, start, end, summary, description, location }
    }
}

impl Event {
    /// Whether the event is for `group`.
    pub fn has_group(&self, group: u32) -> (r: bool)
        ensures
            r == self@.inner.groups.contains(group),
    {
        let mut k: usize = 0;
        while k < self.inner.groups.len()
            invariant
                k <= self.inner.groups@.len(),
                forall|m: int| 0 <= m < k ==> self.inner.groups@[m] != group,
            decreases self.inner.groups@.len() - k,
        {
            if self.inner.groups[k] == group {
                assert(self.inner.groups@[k as int] == group);
                return true;
            }
            k = k + 1;
        }
        false
    }

    /// Whether the event ends after `min`.
    pub fn is_after(&self, min: &Instant) -> (r: bool)
        ensures
            r == (self@.inner.end.timestamp > min@.timestamp),
    {
        self.inner.end.timestamp() > min.timestamp()
    }
}

/// What the calendar holds and what the feed now says.
#[derive(Clone, Debug, PartialEq)]
pub struct CalendarUpdateRequest {
    /// Ids of the events already in the calendar; those that no feed event
    /// matches are to be deleted.
    pub existing: Vec<String>,
    /// The feed's records.
    pub new: Vec<keats::Event>,
    /// Only events for this group are kept.
    pub group: u32,
    /// Where given, only events that end after it are kept.
    pub time_min: Option<Instant>,
}

/// The changes that bring the calendar in step with the feed.
#[derive(Clone, Debug, PartialEq)]
pub struct CalendarUpdateResponse {
    /// Calendar events to create.
    pub created: Vec<google::Event>,
    /// Ids of calendar events to delete.
    pub deleted: Vec<String>,
}

/// Every record normalises.
pub open spec fn all_normalize(rs: Seq<RecordView>) -> bool {
    forall|i: int| 0 <= i < rs.len() ==> (#[trigger] normalized(rs[i])) is Some
}

/// Record `i` is the first that does not normalise.
pub open spec fn first_failure(rs: Seq<RecordView>, i: int) -> bool {
    &&& 0 <= i < rs.len()
    &&& normalized(rs[i]) is None
    &&& forall|j: int| 0 <= j < i ==> (#[trigger] normalized(rs[j])) is Some
}

/// The records normalised, in order.
pub open spec fn normalized_events(rs: Seq<RecordView>) -> Seq<EventView> {
    rs.map_values(|r: RecordView| normalized(r)->0)
}

/// The event is for `group` and, where there is a bound, ends after it.
pub open spec fn retained(e: EventView, group: u32, time_min: Option<InstantView>) -> bool {
    &&& e.inner.groups.contains(group)
    &&& match time_min {
        Some(t) => e.inner.end.timestamp > t.timestamp,
        None => true,
    }
}

/// The events of `es` that are kept, in order.
pub open spec fn retained_events(
    es: Seq<EventView>,
    group: u32,
    time_min: Option<InstantView>,
) -> Seq<EventView>
    decreases es.len(),
{
    if es.len() == 0 {
        Seq::empty()
    } else {
        let rest = retained_events(es.drop_last(), group, time_min);
        if retained(es.last(), group, time_min) {
            rest.push(es.last())
        } else {
            rest
        }
    }
}

/// The ids of `es`.
pub open spec fn ids_of(es: Seq<EventView>) -> Set<Seq<char>> {
    Set::new(|id: Seq<char>| exists|k: int| 0 <= k < es.len() && (#[trigger] es[k]).id == id)
}

pub open spec fn bound_of(time_min: Option<Instant>) -> Option<InstantView> {
    match time_min {
        Some(t) => Some(t@),
        None => None,
    }
}

pub open spec fn texts(v: Seq<String>) -> Seq<Seq<char>> {
    v.map_values(|s: String| s@)
}

pub open spec fn created_ids(created: Seq<google::EventView>) -> Seq<Seq<char>> {
    created.map_values(|g: google::EventView| g.id)
}

/// `created` and `deleted` bring a calendar holding `existing` in step with
/// the kept events: they delete, once each, the ids that no kept event
/// has, and create, once each, the kept events whose ids it lacks.
pub open spec fn is_calendar_update(
    created: Seq<google::EventView>,
    deleted: Seq<Seq<char>>,
    kept: Seq<EventView>,
    existing: Set<Seq<char>>,
) -> bool {
    let new_ids = ids_of(kept);
    &&& deleted.no_duplicates()
    &&& forall|x: Seq<char>| deleted.contains(x) <==> existing.contains(x) && !new_ids.contains(x)
    &&& created_ids(created).no_duplicates()
    &&& forall|x: Seq<char>|
        created_ids(created).contains(x) <==> new_ids.contains(x) && !existing.contains(x)
    &&& all_presented(created, kept)
}

/// Each of `created` is the calendar resource of one of `kept`.
pub open spec fn all_presented(created: Seq<google::EventView>, kept: Seq<EventView>) -> bool {
    forall|i: int|
        0 <= i < created.len() ==> exists|k: int|
            0 <= k < kept.len() && (#[trigger] created[i]) == presented(#[trigger] kept[k])
}

proof fn lemma_push_contains<A>(s: Seq<A>, a: A)
    ensures
        forall|x: A| s.push(a).contains(x) <==> s.contains(x) || x == a,
{
    assert forall|x: A| s.push(a).contains(x) implies s.contains(x) || x == a by {
        let m = choose|m: int| 0 <= m < s.push(a).len() && s.push(a)[m] == x;
        if m < s.len() {
            assert(s[m] == x);
        }
    }
    assert forall|x: A| s.contains(x) || x == a implies s.push(a).contains(x) by {
        if s.contains(x) {
            let m = choose|m: int| 0 <= m < s.len() && s[m] == x;
            assert(s.push(a)[m] == x);
        } else {
            assert(s.push(a)[s.len() as int] == x);
        }
    }
}

proof fn lemma_push_no_duplicates<A>(s: Seq<A>, a: A)
    requires
        s.no_duplicates(),
        !s.contains(a),
    ensures
        s.push(a).no_duplicates(),
{
    assert forall|i: int, j: int|
        0 <= i < s.push(a).len() && 0 <= j < s.push(a).len() && i != j implies s.push(a)[i]
        != s.push(a)[j] by {
        if i == s.len() {
            assert(s[j] != a);
        } else if j == s.len() {
            assert(s[i] != a);
        }
    }
}

fn holds_id(es: &Vec<Event>, id: &String) -> (r: bool)
    ensures
        r == exists|k: int| 0 <= k < es@.len() && (#[trigger] es@[k]).id@ == id@,
{
    let mut k: usize = 0;
    while k < es.len()
        invariant
            k <= es@.len(),
            forall|m: int| 0 <= m < k ==> (#[trigger] es@[m]).id@ != id@,
        decreases es@.len() - k,
    {
        if es[k].id == *id {
            return true;
        }
        k = k + 1;
    }
    false
}

fn holds_text(ss: &Vec<String>, s: &String) -> (r: bool)
    ensures
        r == texts(ss@).contains(s@),
{
    let mut k: usize = 0;
    while k < ss.len()
        invariant
            k <= ss@.len(),
            forall|m: int| 0 <= m < k ==> (#[trigger] ss@[m])@ != s@,
        decreases ss@.len() - k,
    {
        if ss[k] == *s {
            assert(texts(ss@)[k as int] == s@);
            return true;
        }
        k = k + 1;
    }
    false
}

pub open spec fn records(v: Seq<keats::Event>) -> Seq<RecordView> {
    v.map_values(|r: keats::Event| r@)
}

pub open spec fn events_view(v: Seq<Event>) -> Seq<EventView> {
    v.map_values(|e: Event| e@)
}

pub open spec fn resources_view(v: Seq<google::Event>) -> Seq<google::EventView> {
    v.map_values(|g: google::Event| g@)
}

/// How normalising fails: by the first record that does not normalise.
pub open spec fn failure_explained(rs: Seq<RecordView>, e: DateTimeParseError) -> bool {
    exists|i: int|
        first_failure(rs, i) && (e matches DateTimeParseError::Format(_) <==> !formats_read(
            #[trigger] rs[i],
        ))
}

/// Normalises the records in order and keeps the events for `group` that
/// end after `time_min`; fails as the first record that does not normalise.
fn kept_events(new: Vec<keats::Event>, group: u32, time_min: Option<Instant>) -> (r: Result<
    Vec<Event>,
    DateTimeParseError,
>)
    ensures
        match r {
            Ok(kept) => all_normalize(records(new@)) && events_view(kept@) == retained_events(
                normalized_events(records(new@)),
                group,
                bound_of(time_min),
            ),
            Err(e) => failure_explained(records(new@), e),
        },
{
    let ghost rs = records(new@);
    let ghost bound = bound_of(time_min);
    let mut kept: Vec<Event> = Vec::new();
    for record in it: new
        invariant
            rs == records(it.seq()),
            bound == bound_of(time_min),
            forall|j: int| 0 <= j < it.index() ==> (#[trigger] normalized(rs[j])) is Some,
            events_view(kept@) == retained_events(
                normalized_events(rs.take(it.index() as int)),
                group,
                bound,
            ),
    {
        let ghost k = it.index() as int;
        let e = match Event::try_from(record) {
            Ok(e) => e,
            Err(err) => {
                assert(first_failure(rs, k));
                return Err(err);
            },
        };
        assert(normalized_events(rs.take(k + 1)).drop_last() == normalized_events(rs.take(k)));
        assert(normalized_events(rs.take(k + 1)).last() == e@);
        let keep = e.has_group(group) && match &time_min {
            Some(t) => e.is_after(t),
            None => true,
        };
        if keep {
            kept.push(e);
            assert(events_view(kept@) == events_view(kept@).drop_last().push(e@));
        }
    }
    assert(rs.take(rs.len() as int) == rs);
    Ok(kept)
}

/// The ids of `existing`, once each, that no event of `kept` has.
fn deleted_ids(existing: &Vec<String>, kept: &Vec<Event>) -> (r: Vec<String>)
    ensures
        texts(r@).no_duplicates(),
        forall|x: Seq<char>|
            texts(r@).contains(x) <==> texts(existing@).contains(x) && !ids_of(
                events_view(kept@),
            ).contains(x),
{
    let ghost kv = events_view(kept@);
    let ghost ex = texts(existing@);
    let mut deleted: Vec<String> = Vec::new();
    let mut i: usize = 0;
    while i < existing.len()
        invariant
            i <= existing@.len(),
            kv == events_view(kept@),
            ex == texts(existing@),
            texts(deleted@).no_duplicates(),
            forall|x: Seq<char>|
                #![trigger texts(deleted@).contains(x)]
                #![trigger ex.take(i as int).contains(x)]
                texts(deleted@).contains(x) <==> ex.take(i as int).contains(x) && !ids_of(
                    kv,
                ).contains(x),
        decreases existing@.len() - i,
    {
        let id = &existing[i];
        let ghost before = texts(deleted@);
        assert(ex.take(i + 1) == ex.take(i as int).push(id@));
        let in_kept = holds_id(kept, id);
        assert(in_kept == ids_of(kv).contains(id@)) by {
            if in_kept {
                let k = choose|k: int| 0 <= k < kept@.len() && (#[trigger] kept@[k]).id@ == id@;
                assert(kv[k].id == id@);
            }
            if ids_of(kv).contains(id@) {
                let k = choose|k: int| 0 <= k < kv.len() && (#[trigger] kv[k]).id == id@;
                assert(kept@[k].id@ == id@);
            }
        }
        proof {
            lemma_push_contains(ex.take(i as int), id@);
        }
        let seen = holds_text(&deleted, id);
        if !in_kept && !seen {
            deleted.push(id.clone());
            assert(texts(deleted@) == before.push(id@));
            proof {
                lemma_push_contains(before, id@);
                lemma_push_no_duplicates(before, id@);
            }
        }
        assert forall|x: Seq<char>|
            #![trigger texts(deleted@).contains(x)]
            #![trigger ex.take(i + 1).contains(x)]
            texts(deleted@).contains(x) <==> ex.take(i + 1).contains(x) && !ids_of(kv).contains(
                x,
            ) by {
            assert(ex.take(i + 1) == ex.take(i as int).push(id@));
            lemma_push_contains(ex.take(i as int), id@);
            assert(before.contains(x) ==> ex.take(i as int).contains(x));
            assert(ex.take(i as int).contains(x) ==> ex.take(i + 1).contains(x));
            assert(x == id@ ==> ex.take(i + 1).contains(x));
            if in_kept || seen {
                assert(texts(deleted@) == before);
            } else {
                assert(texts(deleted@) == before.push(id@));
                lemma_push_contains(before, id@);
            }
        }
        i = i + 1;
    }
    assert(ex.take(existing@.len() as int) == ex);
    assert(kv == events_view(kept@));
    deleted
}

/// The calendar resources of the events of `kept`, once for each id, whose
/// ids `existing` lacks.
fn created_events(kept: Vec<Event>, existing: &Vec<String>) -> (r: Vec<google::Event>)
    ensures
        created_ids(resources_view(r@)).no_duplicates(),
        forall|x: Seq<char>|
            created_ids(resources_view(r@)).contains(x) <==> ids_of(events_view(kept@)).contains(x)
                && !texts(existing@).contains(x),
        all_presented(resources_view(r@), events_view(kept@)),
{
    let ghost kv = events_view(kept@);
    let mut created: Vec<google::Event> = Vec::new();
    let mut ids: Vec<String> = Vec::new();
    for e in it: kept
        invariant
            kv == events_view(it.seq()),
            texts(ids@) == created_ids(resources_view(created@)),
            texts(ids@).no_duplicates(),
            forall|x: Seq<char>|
                texts(ids@).contains(x) <==> ids_of(kv.take(it.index() as int)).contains(x)
                    && !texts(existing@).contains(x),
            all_presented(resources_view(created@), kv),
    {
        let ghost k = it.index() as int;
        let ghost ev = e@;
        let ghost before = texts(ids@);
        let ghost before_created = resources_view(created@);
        assert(kv[k] == ev);
        assert forall|x: Seq<char>|
            ids_of(kv.take(k + 1)).contains(x) <==> ids_of(kv.take(k)).contains(x) || x
                == ev.id by {
            if ids_of(kv.take(k + 1)).contains(x) {
                let m = choose|m: int| 0 <= m < k + 1 && (#[trigger] kv.take(k + 1)[m]).id == x;
                if m < k {
                    assert(kv.take(k)[m].id == x);
                }
            }
            if ids_of(kv.take(k)).contains(x) {
                let m = choose|m: int| 0 <= m < k && (#[trigger] kv.take(k)[m]).id == x;
                assert(kv.take(k + 1)[m].id == x);
            }
            if x == ev.id {
                assert(kv.take(k + 1)[k].id == x);
            }
        }
        let in_existing = holds_text(existing, &e.id);
        let in_ids = holds_text(&ids, &e.id);
        if !in_existing && !in_ids {
            ids.push(e.id.clone());
            let g = google::Event::from(e);
            created.push(g);
            assert(texts(ids@) == before.push(ev.id));
            proof {
                lemma_push_contains(before, ev.id);
                lemma_push_no_duplicates(before, ev.id);
            }
            assert(resources_view(created@) == before_created.push(presented(ev)));
            assert(created_ids(resources_view(created@)) == created_ids(before_created).push(ev.id));
            assert forall|i: int|
                0 <= i < created@.len() implies exists|m: int|
                    0 <= m < kv.len() && (#[trigger] resources_view(created@)[i]) == presented(
                        #[trigger] kv[m],
                    ) by {
                if i < created@.len() - 1 {
                    assert(resources_view(created@)[i] == before_created[i]);
                } else {
                    assert(resources_view(created@)[i] == presented(kv[k]));
                }
            }
        }
        assert forall|x: Seq<char>|
            texts(ids@).contains(x) <==> ids_of(kv.take(k + 1)).contains(x) && !texts(
                existing@,
            ).contains(x) by {
            if !in_existing && !in_ids {
                assert(texts(ids@).contains(x) <==> before.contains(x) || x == ev.id);
            } else {
                assert(texts(ids@) == before);
                if x == ev.id && !in_existing {
                    assert(before.contains(x));
                }
            }
        }
    }
    assert(kv.take(kv.len() as int) == kv);
    assert(kv == events_view(kept@));
    created
}

/// Works out how to bring the calendar in step with the feed: normalises
/// every record, keeps the events for the group that end after the bound,
/// and compares their ids with the existing ones. Fails as the first record
/// that does not normalise.
pub fn calculate_calendar_update(request: CalendarUpdateRequest) -> (r: Result<
    CalendarUpdateResponse,
    DateTimeParseError,
>)
    ensures
        match r {
            Ok(resp) => {
                &&& all_normalize(records(request.new@))
                &&& is_calendar_update(
                    resources_view(resp.created@),
                    texts(resp.deleted@),
                    retained_events(
                        normalized_events(records(request.new@)),
                        request.group,
                        bound_of(request.time_min),
                    ),
                    texts(request.existing@).to_set(),
                )
            },
            Err(e) => failure_explained(records(request.new@), e),
        },
{
    let CalendarUpdateRequest { existing, new, group, time_min } = request;
    let kept = match kept_events(new, group, time_min) {
        Ok(kept) => kept,
        Err(e) => {
            return Err(e);
        },
    };
    let deleted = deleted_ids(&existing, &kept);
    let created = created_events(kept, &existing);
    Ok(CalendarUpdateResponse { created, deleted })
}

/// Every kept event passes the filter and is one of the events it was
/// kept from: an event that is not for the group, or that ends at or
/// before the bound, adds no id to the new ones.
pub proof fn lemma_retained_pass(es: Seq<EventView>, group: u32, time_min: Option<InstantView>)
    ensures
        forall|k: int|
            0 <= k < retained_events(es, group, time_min).len() ==> {
                &&& retained(#[trigger] retained_events(es, group, time_min)[k], group, time_min)
                &&& es.contains(retained_events(es, group, time_min)[k])
            },
        forall|x: Seq<char>|
            #[trigger] ids_of(retained_events(es, group, time_min)).contains(x) ==> exists|e: EventView|
                es.contains(e) && retained(e, group, time_min) && e.id == x,
    decreases es.len(),
{
    let kept = retained_events(es, group, time_min);
    if es.len() > 0 {
        let rest = retained_events(es.drop_last(), group, time_min);
        lemma_retained_pass(es.drop_last(), group, time_min);
        assert forall|k: int| 0 <= k < kept.len() implies {
            &&& retained(#[trigger] kept[k], group, time_min)
            &&& es.contains(kept[k])
        } by {
            if k < rest.len() {
                assert(kept[k] == rest[k]);
                let m = choose|m: int| 0 <= m < es.drop_last().len() && es.drop_last()[m] == rest[k];
                assert(es[m] == kept[k]);
            } else {
                assert(kept[k] == es.last());
                assert(es[es.len() - 1] == kept[k]);
            }
        }
    }
    assert forall|x: Seq<char>| #[trigger] ids_of(kept).contains(x) implies exists|e: EventView|
        es.contains(e) && retained(e, group, time_min) && e.id == x by {
        let k = choose|k: int| 0 <= k < kept.len() && (#[trigger] kept[k]).id == x;
        assert(retained(kept[k], group, time_min) && es.contains(kept[k]));
    }
}

/// A second update against the calendar that the first one produced, with
/// its deletions done and its creations added, has nothing to create and
/// nothing to delete.
pub proof fn lemma_update_idempotent(
    rs: Seq<RecordView>,
    group: u32,
    time_min: Option<InstantView>,
    existing: Set<Seq<char>>,
    created: Seq<google::EventView>,
    deleted: Seq<Seq<char>>,
    created_again: Seq<google::EventView>,
    deleted_again: Seq<Seq<char>>,
)
    requires
        is_calendar_update(
            created,
            deleted,
            retained_events(normalized_events(rs), group, time_min),
            existing,
        ),
        is_calendar_update(
            created_again,
            deleted_again,
            retained_events(normalized_events(rs), group, time_min),
            existing.difference(deleted.to_set()).union(created_ids(created).to_set()),
        ),
    ensures
        created_again.len() == 0,
        deleted_again.len() == 0,
{
    let new_ids = ids_of(retained_events(normalized_events(rs), group, time_min));
    let second = existing.difference(deleted.to_set()).union(created_ids(created).to_set());
    assert forall|x: Seq<char>| second.contains(x) <==> new_ids.contains(x) by {
        if existing.contains(x) && !new_ids.contains(x) {
            assert(deleted.contains(x));
        }
    }
    if deleted_again.len() > 0 {
        assert(deleted_again.contains(deleted_again[0]));
    }
    if created_again.len() > 0 {
        let x = created_ids(created_again)[0];
        assert(created_ids(created_again).contains(x));
        assert(second.contains(x) == new_ids.contains(x));
    }
}

/// Normalising is a function of the record: the same record gives the
/// same event, and events with the same content have the same identity.
pub proof fn lemma_normalize_deterministic(a: RecordView, b: RecordView)
    ensures
        a == b ==> normalized(a) == normalized(b),
        normalized(a) is Some && normalized(b) is Some && normalized(a)->0.inner == normalized(
            b,
        )->0.inner ==> normalized(a)->0.id == normalized(b)->0.id,
{
}

} // verus!
