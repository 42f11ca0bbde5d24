//! What travels between the stages: tasks for the searches, and the events
//! that the searches report.

use vstd::prelude::*;

verus! {

/// One file to search, with its rank in discovery order.
#[derive(Clone, Debug, PartialEq, Eq)]
pub struct SearchTask {
    pub sequence_index: usize,
    pub file_path: String,
}

/// One matching line of a file.
#[derive(Clone, Debug, PartialEq, Eq)]
pub struct MatchEvent {
    pub sequence_index: usize,
    pub line_number: usize,
    pub rendered_line: String,
}

/// The end of a file's matches: no event for `sequence_index` follows it.
#[derive(Clone, Debug, PartialEq, Eq)]
pub struct FileDone {
    pub sequence_index: usize,
    pub file_path: String,
    pub match_count: usize,
}

/// What a search reports.
#[derive(Clone, Debug, PartialEq, Eq)]
pub enum Event {
    Match(MatchEvent),
    Done(FileDone),
}

pub struct SearchTaskView {
    pub sequence_index: usize,
    pub file_path: Seq<char>,
}

pub enum EventView {
    Match { sequence_index: usize, line_number: usize, rendered_line: Seq<char> },
    Done { sequence_index: usize, file_path: Seq<char>, match_count: usize },
}

impl EventView {
    /// The rank of the file that the event speaks of.
    pub open spec fn index(self) -> usize {
        match self {
            EventView::Match { sequence_index, .. } => sequence_index,
            EventView::Done { sequence_index, .. } => sequence_index,
        }
    }
}

impl View for SearchTask {
    type V = SearchTaskView;

    open spec fn view(&self) -> SearchTaskView {
        SearchTaskView { sequence_index: self.sequence_index, file_path: self.file_path@ }
    }
}

impl View for MatchEvent {
    type V = EventView;

    open spec fn view(&self) -> EventView {
        EventView::Match {
            sequence_index: self.sequence_index,
            line_number: self.line_number,
            rendered_line: self.rendered_line@,
        }
    }
}

impl View for FileDone {
    type V = EventView;

    open spec fn view(&self) -> EventView {
        EventView::Done {
            sequence_index: self.sequence_index,
            file_path: self.file_path@,
            match_count: self.match_count,
        }
    }
}

impl View for Event {
    type V = EventView;

    open spec fn view(&self) -> EventView {
        match self {
            Event::Match(found) => found@,
            Event::Done(done) => done@,
        }
    }
}

impl Event {
    /// The rank of the file that the event speaks of.
    pub fn sequence_index(&self) -> (index: usize)
        ensures
            index == self@.index(),
    {
        match self {
            Event::Match(found) => found.sequence_index,
            Event::Done(done) => done.sequence_index,
        }
    }
}

/// The views of a list of events, in order.
pub open spec fn event_views(events: Seq<Event>) -> Seq<EventView> {
    events.map_values(|event: Event| event@)
}

/// The views of a list of texts, in order.
pub open spec fn texts(lines: Seq<String>) -> Seq<Seq<char>> {
    lines.map_values(|line: String| line@)
}

} // verus!
