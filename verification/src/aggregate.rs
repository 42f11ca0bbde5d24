//! The aggregator: puts the events of many searches back into discovery order.
//!
//! Lines are buffered per file until the file's search says it is done. Only
//! then may the file be written, and only when every file before it has been
//! dealt with. So a group is never split, and groups never change places.

use crate::events::{event_views, texts, Event, EventView, FileDone, MatchEvent};
use crate::writer::{RecordView, Writer, WriterView};
use std::collections::HashMap;
use vstd::prelude::*;

verus! {

broadcast use vstd::std_specs::hash::group_hash_axioms;

/// What is buffered for one file.
pub struct SlotView {
    /// The rendered lines that have arrived, in order of arrival.
    pub lines: Seq<Seq<char>>,
    /// The file's path, once its search has said that it is done.
    pub done: Option<Seq<char>>,
}

/// The state of the aggregator.
pub struct AggregatorView {
    /// The files that have sent an event and are not written yet.
    pub slots: Map<usize, SlotView>,
    /// The smallest rank that has not been dealt with.
    pub next_to_emit: usize,
    /// Whether any group has been written.
    pub emitted_any: bool,
}

/// The result of a transition: the new state and what was written on the way.
pub struct Outcome {
    pub state: AggregatorView,
    pub written: Seq<RecordView>,
}

/// The state before any event.
pub open spec fn initial() -> AggregatorView {
    AggregatorView { slots: Map::empty(), next_to_emit: 0, emitted_any: false }
}

/// What is buffered for `index`: nothing, if no event for it has arrived.
pub open spec fn slot_of(state: AggregatorView, index: usize) -> SlotView {
    if state.slots.contains_key(index) {
        state.slots[index]
    } else {
        SlotView { lines: Seq::empty(), done: None }
    }
}

/// The state after one more line for `index` was buffered.
pub open spec fn buffered(state: AggregatorView, index: usize, line: Seq<char>) -> AggregatorView {
    let slot = slot_of(state, index);
    AggregatorView {
        slots: state.slots.insert(index, SlotView { lines: slot.lines.push(line), ..slot }),
        ..state
    }
}

/// The state after `index` was marked as done.
pub open spec fn completed(state: AggregatorView, index: usize, path: Seq<char>) -> AggregatorView {
    let slot = slot_of(state, index);
    AggregatorView {
        slots: state.slots.insert(index, SlotView { done: Some(path), ..slot }),
        ..state
    }
}

/// The lines of a group as records.
pub open spec fn line_records(lines: Seq<Seq<char>>) -> Seq<RecordView> {
    lines.map_values(|line: Seq<char>| RecordView::Line(line))
}

/// What is written for one file: nothing if it has no lines; else a separator
/// if a group was written before, the header, and the lines.
pub open spec fn group_records(separated: bool, path: Seq<char>, lines: Seq<Seq<char>>) -> Seq<
    RecordView,
> {
    if lines.len() == 0 {
        Seq::empty()
    } else {
        let lead = if separated {
            seq![RecordView::Separator, RecordView::Header(path)]
        } else {
            seq![RecordView::Header(path)]
        };
        lead + line_records(lines)
    }
}

/// Whether the file that is next in order can be written now. The rank
/// `usize::MAX` never is: the count of the files dealt with cannot go past it.
pub open spec fn ready(state: AggregatorView) -> bool {
    &&& state.next_to_emit < usize::MAX
    &&& state.slots.contains_key(state.next_to_emit)
    &&& state.slots[state.next_to_emit].done is Some
}

/// The state after the file that is next in order was written and forgotten.
pub open spec fn advanced(state: AggregatorView) -> AggregatorView {
    let slot = state.slots[state.next_to_emit];
    AggregatorView {
        slots: state.slots.remove(state.next_to_emit),
        next_to_emit: (state.next_to_emit + 1) as usize,
        emitted_any: state.emitted_any || slot.lines.len() > 0,
    }
}

/// The drain: writes the files that are done, from the next in order on, up
/// to the first that is not done yet.
pub open spec fn drained(state: AggregatorView) -> Outcome
    decreases usize::MAX - state.next_to_emit,
{
    if ready(state) {
        let slot = state.slots[state.next_to_emit];
        let rest = drained(advanced(state));
        Outcome {
            state: rest.state,
            written: group_records(state.emitted_any, slot.done->0, slot.lines) + rest.written,
        }
    } else {
        Outcome { state, written: Seq::empty() }
    }
}

/// The transition for one event. A match is buffered and nothing is written.
/// The end of a file marks it as done and starts the drain.
pub open spec fn stepped(state: AggregatorView, event: EventView) -> Outcome {
    match event {
        EventView::Match { sequence_index, rendered_line, .. } => Outcome {
            state: buffered(state, sequence_index, rendered_line),
            written: Seq::empty(),
        },
        EventView::Done { sequence_index, file_path, .. } => drained(
            completed(state, sequence_index, file_path),
        ),
    }
}

/// The transitions for a list of events, one after the other.
pub open spec fn ran(state: AggregatorView, events: Seq<EventView>) -> Outcome
    decreases events.len(),
{
    if events.len() == 0 {
        Outcome { state, written: Seq::empty() }
    } else {
        let before = ran(state, events.drop_last());
        let last = stepped(before.state, events.last());
        Outcome { state: last.state, written: before.written + last.written }
    }
}

struct Slot {
    lines: Vec<String>,
    done: Option<String>,
}

impl View for Slot {
    type V = SlotView;

    closed spec fn view(&self) -> SlotView {
        SlotView {
            lines: texts(self.lines@),
            done: match self.done {
                Some(path) => Some(path@),
                None => None,
            },
        }
    }
}

/// Buffers the events of the searches and writes the files in order.
pub struct Aggregator {
    slots: HashMap<usize, Slot>,
    next_to_emit: usize,
    emitted_any: bool,
}

impl View for Aggregator {
    type V = AggregatorView;

    closed spec fn view(&self) -> AggregatorView {
        AggregatorView {
            slots: Map::new(
                |index: usize| self.slots@.contains_key(index),
                |index: usize| self.slots@[index]@,
            ),
            next_to_emit: self.next_to_emit,
            emitted_any: self.emitted_any,
        }
    }
}

/// Writes one group.
fn write_group(writer: &mut Writer, separated: bool, path: &String, lines: &Vec<String>)
    ensures
        final(writer)@ == (WriterView {
            records: old(writer)@.records + group_records(separated, path@, texts(lines@)),
            ..old(writer)@
        }),
{
    if lines.len() == 0 {
        assert(writer@.records =~= old(writer)@.records + Seq::<RecordView>::empty());
        return ;
    }
    if separated {
        writer.separator();
    }
    writer.header(path.as_str());
    let ghost lead = writer@.records;
    let ghost all = texts(lines@);
    assert(lead =~= old(writer)@.records + if separated {
        seq![RecordView::Separator, RecordView::Header(path@)]
    } else {
        seq![RecordView::Header(path@)]
    });
    assert(line_records(all.take(0)) =~= Seq::empty());
    let mut i: usize = 0;
    while i < lines.len()
        invariant
            i <= lines.len(),
            all == texts(lines@),
            writer@.hide_filepath == old(writer)@.hide_filepath,
            writer@.records == lead + line_records(all.take(i as int)),
        decreases lines.len() - i,
    {
        writer.line(lines[i].as_str());
        proof {
            assert(all.take(i + 1) =~= all.take(i as int).push(all[i as int]));
            assert(line_records(all.take(i + 1)) =~= line_records(all.take(i as int)).push(
                RecordView::Line(all[i as int]),
            ));
        }
        i += 1;
    }
    proof {
        assert(all.take(i as int) =~= all);
        assert(writer@.records =~= old(writer)@.records + group_records(separated, path@, all));
    }
}

impl Aggregator {
    /// An aggregator that has seen no event.
    pub fn new() -> (aggregator: Aggregator)
        ensures
            aggregator@ == initial(),
    {
        let aggregator = Aggregator { slots: HashMap::new(), next_to_emit: 0, emitted_any: false };
        assert(aggregator@.slots =~= Map::empty());
        aggregator
    }

    /// The smallest rank that has not been dealt with.
    pub fn next_to_emit(&self) -> (next: usize)
        ensures
            next == self@.next_to_emit,
    {
        self.next_to_emit
    }

    /// Whether any group has been written.
    pub fn emitted_any(&self) -> (any: bool)
        ensures
            any == self@.emitted_any,
    {
        self.emitted_any
    }

    /// Whether the work is over for a traversal that found `total` files:
    /// all of them are dealt with and nothing is buffered.
    pub fn is_finished(&self, total: usize) -> (finished: bool)
        ensures
            finished == (self@.next_to_emit == total && self@.slots =~= Map::empty()),
    {
        let empty = self.slots.is_empty();
        proof {
            if empty {
                assert(self@.slots =~= Map::empty());
            } else {
                let index = choose|index: usize| self.slots@.contains_key(index);
                assert(self@.slots.contains_key(index));
            }
        }
        self.next_to_emit == total && empty
    }

    /// Takes one event. A match is buffered. The end of a file marks the file
    /// as done; then every file that is done is written, from the next in
    /// order on, up to the first that is not done yet.
    pub fn on_event(&mut self, event: Event, writer: &mut Writer)
        ensures
            final(self)@ == stepped(old(self)@, event@).state,
            final(writer)@ == (WriterView {
                records: old(writer)@.records + stepped(old(self)@, event@).written,
                ..old(writer)@
            }),
    {
        match event {
            Event::Match(found) => {
                let MatchEvent { sequence_index, line_number: _, rendered_line } = found;
                let mut slot = match self.slots.remove(&sequence_index) {
                    Some(slot) => slot,
                    None => Slot { lines: Vec::new(), done: None },
                };
                let ghost before = slot@;
                assert(before.lines =~= slot_of(old(self)@, sequence_index).lines);
                assert(before == slot_of(old(self)@, sequence_index));
                slot.lines.push(rendered_line);
                assert(slot@.lines =~= before.lines.push(rendered_line@));
                self.slots.insert(sequence_index, slot);
                assert(self@.slots =~= buffered(old(self)@, sequence_index, rendered_line@).slots);
                assert(writer@.records =~= old(writer)@.records + Seq::<RecordView>::empty());
            },
            Event::Done(done) => {
                let FileDone { sequence_index, file_path, match_count: _ } = done;
                let mut slot = match self.slots.remove(&sequence_index) {
                    Some(slot) => slot,
                    None => Slot { lines: Vec::new(), done: None },
                };
                let ghost before = slot@;
                assert(before.lines =~= slot_of(old(self)@, sequence_index).lines);
                assert(before == slot_of(old(self)@, sequence_index));
                slot.done = Some(file_path);
                self.slots.insert(sequence_index, slot);
                assert(self@.slots =~= completed(old(self)@, sequence_index, file_path@).slots);
                self.drain(writer);
            },
        }
    }

    /// Takes a list of events, one after the other.
    pub fn on_events(&mut self, events: Vec<Event>, writer: &mut Writer)
        ensures
            final(self)@ == ran(old(self)@, event_views(events@)).state,
            final(writer)@ == (WriterView {
                records: old(writer)@.records + ran(old(self)@, event_views(events@)).written,
                ..old(writer)@
            }),
    {
        let ghost all = event_views(events@);
        let ghost start = self@;
        let ghost lead = writer@.records;
        assert(all.take(0) =~= Seq::empty());
        assert(lead + ran(start, all.take(0)).written =~= lead);
        for event in it: events.into_iter()
            invariant
                all == event_views(it.seq()),
                self@ == ran(start, all.take(it.index() as int)).state,
                writer@.records == lead + ran(start, all.take(it.index() as int)).written,
                writer@.hide_filepath == old(writer)@.hide_filepath,
        {
            let ghost taken = it.index() as int;
            proof {
                assert(all.take(taken + 1).drop_last() =~= all.take(taken));
                assert(all.take(taken + 1).last() == event@);
            }
            self.on_event(event, writer);
            assert(writer@.records =~= lead + ran(start, all.take(taken + 1)).written);
        }
        assert(all.take(all.len() as int) =~= all);
    }

    /// Writes the files that are done, from the next in order on.
    fn drain(&mut self, writer: &mut Writer)
        ensures
            final(self)@ == drained(old(self)@).state,
            final(writer)@ == (WriterView {
                records: old(writer)@.records + drained(old(self)@).written,
                ..old(writer)@
            }),
    {
        assert(writer@.records + drained(self@).written =~= old(writer)@.records + drained(
            old(self)@,
        ).written);
        loop
            invariant_except_break
                drained(self@).state == drained(old(self)@).state,
                writer@.records + drained(self@).written == old(writer)@.records + drained(
                    old(self)@,
                ).written,
            invariant
                writer@.hide_filepath == old(writer)@.hide_filepath,
            ensures
                self@ == drained(old(self)@).state,
                writer@.records == old(writer)@.records + drained(old(self)@).written,
            decreases usize::MAX - self.next_to_emit,
        {
            let next = self.next_to_emit;
            let is_ready = next < usize::MAX && match self.slots.get(&next) {
                Some(slot) => slot.done.is_some(),
                None => false,
            };
            if !is_ready {
                assert(!ready(self@));
                assert(writer@.records + Seq::<RecordView>::empty() =~= writer@.records);
                break ;
            }
            assert(ready(self@));
            let ghost state = self@;
            let ghost records = writer@.records;
            let slot = self.slots.remove(&next).unwrap();
            assert(slot@ == state.slots[next]);
            let Slot { lines, done } = slot;
            let path = done.unwrap();
            write_group(writer, self.emitted_any, &path, &lines);
            if lines.len() > 0 {
                self.emitted_any = true;
            }
            self.next_to_emit = next + 1;
            proof {
                assert(self@.slots =~= advanced(state).slots);
                assert(self@ == advanced(state));
                let group = group_records(state.emitted_any, path@, texts(lines@));
                assert(writer@.records == records + group);
                assert(drained(state).written == group + drained(self@).written);
                assert((records + group) + drained(self@).written =~= records + (group + drained(
                    self@,
                ).written));
            }
        }
    }
}

} // verus!
