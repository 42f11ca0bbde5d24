//! Why the order in which the searches end does not show in the output.
//!
//! Each search reports its matches and then its end. The reports of all
//! searches reach the aggregator mixed in any way. The laws here say that the
//! aggregator nevertheless writes what one search after the other, in
//! discovery order, would have given.

use crate::aggregate::{
    advanced, buffered, completed, drained, group_records, initial, ran, ready, slot_of, stepped,
    AggregatorView, SlotView,
};
use crate::events::EventView;
use crate::writer::RecordView;
use vstd::prelude::*;

verus! {

/// The events among `events` that speak of the file with rank `index`, in
/// order of arrival.
pub open spec fn events_of(events: Seq<EventView>, index: usize) -> Seq<EventView>
    decreases events.len(),
{
    if events.len() == 0 {
        Seq::empty()
    } else {
        let before = events_of(events.drop_last(), index);
        if events.last().index() == index {
            before.push(events.last())
        } else {
            before
        }
    }
}

/// The rendered lines of the matches among `events`, in order.
pub open spec fn lines_of(events: Seq<EventView>) -> Seq<Seq<char>>
    decreases events.len(),
{
    if events.len() == 0 {
        Seq::empty()
    } else {
        let before = lines_of(events.drop_last());
        match events.last() {
            EventView::Match { rendered_line, .. } => before.push(rendered_line),
            EventView::Done { .. } => before,
        }
    }
}

/// The path that `events` ends with, if its last event is the end of a file.
pub open spec fn done_of(events: Seq<EventView>) -> Option<Seq<char>> {
    if events.len() == 0 {
        None
    } else {
        match events.last() {
            EventView::Match { .. } => None,
            EventView::Done { file_path, .. } => Some(file_path),
        }
    }
}

/// `report` is what the search of the file with rank `index` sends: its
/// matches, then its end, and nothing else.
pub open spec fn is_report(report: Seq<EventView>, index: usize) -> bool {
    &&& report.len() > 0
    &&& report.last() is Done
    &&& forall|k: int| 0 <= k < report.len() ==> (#[trigger] report[k]).index() == index
    &&& forall|k: int| 0 <= k < report.len() - 1 ==> #[trigger] report[k] is Match
}

/// `reports` holds one report for each rank from 0 on.
pub open spec fn are_reports(reports: Seq<Seq<EventView>>) -> bool {
    &&& reports.len() <= usize::MAX
    &&& forall|i: int| 0 <= i < reports.len() ==> is_report(#[trigger] reports[i], i as usize)
}

/// `events` mixes the reports: each report arrives whole and in its own
/// order, and nothing else arrives.
pub open spec fn interleaves(events: Seq<EventView>, reports: Seq<Seq<EventView>>) -> bool {
    &&& forall|k: int| 0 <= k < events.len() ==> (#[trigger] events[k]).index() < reports.len()
    &&& forall|i: int|
        0 <= i < reports.len() ==> events_of(events, i as usize) == #[trigger] reports[i]
}

/// What is written when the first `upto` reports are dealt with one after the
/// other: for each report that has a match, its group, with a separator
/// before every group but the first.
pub open spec fn in_order(reports: Seq<Seq<EventView>>, upto: int) -> Seq<RecordView>
    decreases upto,
{
    if upto <= 0 {
        Seq::empty()
    } else {
        let before = in_order(reports, upto - 1);
        let report = reports[upto - 1];
        before + group_records(before.len() > 0, done_of(report).unwrap(), lines_of(report))
    }
}

/// `part` is a beginning of `whole`.
spec fn begins(part: Seq<EventView>, whole: Seq<EventView>) -> bool {
    part.len() <= whole.len() && part == whole.take(part.len() as int)
}

/// What holds between the state, the records written and the events seen,
/// whenever the aggregator has taken some events of a mix of `reports`.
spec fn coherent(
    state: AggregatorView,
    written: Seq<RecordView>,
    seen: Seq<EventView>,
    reports: Seq<Seq<EventView>>,
) -> bool {
    let next = state.next_to_emit;
    &&& next <= reports.len()
    &&& forall|i: int| 0 <= i < next ==> events_of(seen, i as usize) == #[trigger] reports[i]
    &&& forall|i: usize|
        #![trigger state.slots.contains_key(i)]
        #![trigger events_of(seen, i)]
        state.slots.contains_key(i) <==> (next <= i < reports.len() && events_of(seen, i).len()
            > 0)
    &&& forall|i: usize| #[trigger]
        state.slots.contains_key(i) ==> state.slots[i].lines == lines_of(events_of(seen, i))
            && state.slots[i].done == done_of(events_of(seen, i))
    &&& written == in_order(reports, next as int)
    &&& state.emitted_any == (written.len() > 0)
}

/// Every file's events seen so far are a beginning of its report.
spec fn on_track(seen: Seq<EventView>, reports: Seq<Seq<EventView>>) -> bool {
    forall|i: int|
        0 <= i < reports.len() ==> begins(events_of(seen, i as usize), #[trigger] reports[i])
}

/// One more event adds to the events of its own file, and to no other's.
proof fn lemma_events_of_push(seen: Seq<EventView>, event: EventView, index: usize)
    ensures
        events_of(seen.push(event), index) == if event.index() == index {
            events_of(seen, index).push(event)
        } else {
            events_of(seen, index)
        },
{
    assert(seen.push(event).drop_last() =~= seen);
}

/// A match adds its line to the lines; the end of a file adds none.
proof fn lemma_lines_of_push(seen: Seq<EventView>, event: EventView)
    ensures
        lines_of(seen.push(event)) == match event {
            EventView::Match { rendered_line, .. } => lines_of(seen).push(rendered_line),
            EventView::Done { .. } => lines_of(seen),
        },
{
    assert(seen.push(event).drop_last() =~= seen);
}

/// What has arrived for a file at some point is a beginning of all that
/// arrives for it.
proof fn lemma_events_of_begin(events: Seq<EventView>, k: int, index: usize)
    requires
        0 <= k <= events.len(),
    ensures
        begins(events_of(events.take(k), index), events_of(events, index)),
    decreases events.len() - k,
{
    if k == events.len() {
        assert(events.take(k) =~= events);
        assert(events_of(events, index).take(events_of(events, index).len() as int) =~= events_of(
            events,
            index,
        ));
    } else {
        lemma_events_of_begin(events, k + 1, index);
        assert(events.take(k + 1) =~= events.take(k).push(events[k]));
        lemma_events_of_push(events.take(k), events[k], index);
        let shorter = events_of(events.take(k), index);
        let longer = events_of(events.take(k + 1), index);
        let whole = events_of(events, index);
        assert(shorter =~= whole.take(shorter.len() as int)) by {
            assert(longer == whole.take(longer.len() as int));
            assert(shorter =~= longer.take(shorter.len() as int));
        }
    }
}

/// A beginning of a report that ends with the end of the file is the whole
/// report.
proof fn lemma_done_is_last(part: Seq<EventView>, report: Seq<EventView>, index: usize)
    requires
        is_report(report, index),
        begins(part, report),
        done_of(part) is Some,
    ensures
        part == report,
{
    let at = part.len() - 1;
    assert(part[at] == report.take(part.len() as int)[at]);
    assert(report[at] is Done);
    if at < report.len() - 1 {
        assert(report[at] is Match);
    }
    assert(part =~= report);
}

/// The drain keeps state, output and events coherent, and ends at a file that
/// is not done.
proof fn lemma_drained_keeps_order(
    state: AggregatorView,
    written: Seq<RecordView>,
    seen: Seq<EventView>,
    reports: Seq<Seq<EventView>>,
)
    requires
        are_reports(reports),
        coherent(state, written, seen, reports),
        on_track(seen, reports),
    ensures
        coherent(drained(state).state, written + drained(state).written, seen, reports),
        !ready(drained(state).state),
    decreases usize::MAX - state.next_to_emit,
{
    if ready(state) {
        let next = state.next_to_emit;
        let slot = state.slots[next];
        let report = reports[next as int];
        assert(state.slots.contains_key(next));
        let part = events_of(seen, next);
        assert(begins(part, report));
        lemma_done_is_last(part, report, next);
        let group = group_records(state.emitted_any, slot.done->0, slot.lines);
        let after = advanced(state);
        assert(group == group_records(written.len() > 0, done_of(report).unwrap(), lines_of(report)));
        assert(written + group == in_order(reports, next + 1));
        assert(slot.lines.len() > 0 <==> group.len() > 0);
        assert(coherent(after, written + group, seen, reports)) by {
            assert forall|i: int| 0 <= i < after.next_to_emit implies events_of(seen, i as usize)
                == #[trigger] reports[i] by {
                if i == next {
                } else {
                    assert(events_of(seen, i as usize) == reports[i]);
                }
            }
            assert forall|i: usize|
                #![trigger after.slots.contains_key(i)]
                #![trigger events_of(seen, i)]
                after.slots.contains_key(i) <==> (after.next_to_emit <= i < reports.len()
                    && events_of(seen, i).len() > 0) by {
                assert(state.slots.contains_key(i) <==> (next <= i < reports.len() && events_of(
                    seen,
                    i,
                ).len() > 0));
            }
            assert forall|i: usize| #[trigger] after.slots.contains_key(i) implies after.slots[i].lines
                == lines_of(events_of(seen, i)) && after.slots[i].done == done_of(
                events_of(seen, i),
            ) by {
                assert(state.slots.contains_key(i));
            }
        }
        lemma_drained_keeps_order(after, written + group, seen, reports);
        assert((written + group) + drained(after).written =~= written + drained(state).written);
    } else {
        assert(written + drained(state).written =~= written);
    }
}

/// One event that continues its file's report keeps state, output and events
/// coherent.
proof fn lemma_stepped_keeps_order(
    state: AggregatorView,
    written: Seq<RecordView>,
    seen: Seq<EventView>,
    event: EventView,
    reports: Seq<Seq<EventView>>,
)
    requires
        are_reports(reports),
        coherent(state, written, seen, reports),
        !ready(state),
        event.index() < reports.len(),
        on_track(seen.push(event), reports),
    ensures
        coherent(
            stepped(state, event).state,
            written + stepped(state, event).written,
            seen.push(event),
            reports,
        ),
        !ready(stepped(state, event).state),
{
    let index = event.index();
    let next = state.next_to_emit;
    let report = reports[index as int];
    let part = events_of(seen, index);
    let more = seen.push(event);
    lemma_events_of_push(seen, event, index);
    lemma_lines_of_push(part, event);
    assert(events_of(more, index) == part.push(event));
    assert(begins(part.push(event), report));
    assert(part.len() < report.len());
    assert(report[part.len() as int] == report.take(part.len() as int + 1)[part.len() as int]);
    assert(report[part.len() as int] == event);
    assert(index >= next) by {
        if index < next {
            assert(events_of(seen, index) == reports[index as int]);
        }
    }
    assert(part.len() > 0 ==> part.last() is Match) by {
        if part.len() > 0 {
            let at = part.len() - 1;
            assert(part.push(event)[at] == report.take(part.len() as int + 1)[at]);
            assert(report[at] is Match);
        }
    }
    assert(state.slots.contains_key(index) <==> part.len() > 0);
    assert(slot_of(state, index).lines == lines_of(part) && slot_of(state, index).done is None) by {
        if state.slots.contains_key(index) {
        } else {
            assert(part.len() == 0);
        }
    }
    let marked = match event {
        EventView::Match { rendered_line, .. } => buffered(state, index, rendered_line),
        EventView::Done { file_path, .. } => completed(state, index, file_path),
    };
    assert(coherent(marked, written, more, reports)) by {
        assert forall|i: int| 0 <= i < marked.next_to_emit implies events_of(more, i as usize)
            == #[trigger] reports[i] by {
            lemma_events_of_push(seen, event, i as usize);
            assert(events_of(seen, i as usize) == reports[i]);
        }
        assert forall|i: usize|
            #![trigger marked.slots.contains_key(i)]
            #![trigger events_of(more, i)]
            marked.slots.contains_key(i) <==> (marked.next_to_emit <= i < reports.len()
                && events_of(more, i).len() > 0) by {
            lemma_events_of_push(seen, event, i);
            assert(state.slots.contains_key(i) <==> (next <= i < reports.len() && events_of(
                seen,
                i,
            ).len() > 0));
        }
        assert forall|i: usize| #[trigger] marked.slots.contains_key(i) implies marked.slots[i].lines
            == lines_of(events_of(more, i)) && marked.slots[i].done == done_of(
            events_of(more, i),
        ) by {
            lemma_events_of_push(seen, event, i);
            if i != index {
                assert(state.slots.contains_key(i));
            }
        }
    }
    match event {
        EventView::Match { .. } => {
            assert(written + stepped(state, event).written =~= written);
            assert(!ready(marked));
        },
        EventView::Done { .. } => {
            lemma_drained_keeps_order(marked, written, more, reports);
        },
    }
}

/// State, output and events are coherent after any number of the events of a
/// mix of reports.
proof fn lemma_ran_keeps_order(events: Seq<EventView>, reports: Seq<Seq<EventView>>, k: int)
    requires
        are_reports(reports),
        interleaves(events, reports),
        0 <= k <= events.len(),
    ensures
        coherent(
            ran(initial(), events.take(k)).state,
            ran(initial(), events.take(k)).written,
            events.take(k),
            reports,
        ),
        !ready(ran(initial(), events.take(k)).state),
    decreases k,
{
    if k == 0 {
        assert(events.take(0) =~= Seq::empty());
    } else {
        lemma_ran_keeps_order(events, reports, k - 1);
        let seen = events.take(k - 1);
        let event = events[k - 1];
        assert(events.take(k).drop_last() =~= seen);
        assert(events.take(k) =~= seen.push(event));
        assert forall|i: int| 0 <= i < reports.len() implies begins(
            events_of(seen.push(event), i as usize),
            #[trigger] reports[i],
        ) by {
            lemma_events_of_begin(events, k, i as usize);
        }
        let before = ran(initial(), seen);
        lemma_stepped_keeps_order(before.state, before.written, seen, event, reports);
    }
}

/// However the reports of the searches are mixed on their way to the
/// aggregator, what it has written in the end is what the reports give when
/// they are dealt with one after the other in discovery order. By then every
/// file has been dealt with and nothing is left in the buffers.
pub proof fn lemma_written_in_discovery_order(
    events: Seq<EventView>,
    reports: Seq<Seq<EventView>>,
)
    requires
        are_reports(reports),
        interleaves(events, reports),
    ensures
        ran(initial(), events).written == in_order(reports, reports.len() as int),
        ran(initial(), events).state.next_to_emit == reports.len(),
        ran(initial(), events).state.slots == Map::<usize, SlotView>::empty(),
{
    lemma_ran_keeps_order(events, reports, events.len() as int);
    assert(events.take(events.len() as int) =~= events);
    let end = ran(initial(), events);
    let next = end.state.next_to_emit;
    if next < reports.len() {
        let report = reports[next as int];
        assert(events_of(events, next) == report);
        assert(end.state.slots.contains_key(next));
        assert(ready(end.state));
    }
    assert(end.state.slots =~= Map::empty());
}

/// Two runs over the same reports write the same, whatever the order in
/// which the events of different files arrive in either.
pub proof fn lemma_same_reports_same_output(
    first: Seq<EventView>,
    second: Seq<EventView>,
    reports: Seq<Seq<EventView>>,
)
    requires
        are_reports(reports),
        interleaves(first, reports),
        interleaves(second, reports),
    ensures
        ran(initial(), first).written == ran(initial(), second).written,
{
    lemma_written_in_discovery_order(first, reports);
    lemma_written_in_discovery_order(second, reports);
}

/// What the first reports give does not change when a report without a match
/// is taken out.
proof fn lemma_in_order_without(reports: Seq<Seq<EventView>>, silent: int, upto: int)
    requires
        0 <= silent < reports.len(),
        lines_of(reports[silent]).len() == 0,
        0 <= upto <= reports.len(),
    ensures
        in_order(reports, upto) == if upto <= silent {
            in_order(reports.remove(silent), upto)
        } else {
            in_order(reports.remove(silent), upto - 1)
        },
    decreases upto,
{
    if upto > 0 {
        lemma_in_order_without(reports, silent, upto - 1);
        if upto - 1 == silent {
            assert(in_order(reports, upto) =~= in_order(reports, upto - 1));
        } else if upto - 1 < silent {
            assert(reports[upto - 1] == reports.remove(silent)[upto - 1]);
        } else {
            assert(reports[upto - 1] == reports.remove(silent)[upto - 2]);
        }
    }
}

/// A file without a match leaves no trace in what is written: the output
/// is the same as if the file had not been there.
pub proof fn lemma_no_match_no_trace(reports: Seq<Seq<EventView>>, silent: int)
    requires
        0 <= silent < reports.len(),
        lines_of(reports[silent]).len() == 0,
    ensures
        in_order(reports, reports.len() as int) == in_order(
            reports.remove(silent),
            reports.len() - 1,
        ),
{
    lemma_in_order_without(reports, silent, reports.len() as int);
}

/// The events of the first `upto` reports, one report after the other: what
/// arrives when the files are searched one at a time in discovery order.
pub open spec fn one_after_the_other(reports: Seq<Seq<EventView>>, upto: int) -> Seq<EventView>
    decreases upto,
{
    if upto <= 0 {
        Seq::empty()
    } else {
        one_after_the_other(reports, upto - 1) + reports[upto - 1]
    }
}

/// The events of a file in two lists joined are its events in the first, then
/// its events in the second.
proof fn lemma_events_of_joined(first: Seq<EventView>, second: Seq<EventView>, index: usize)
    ensures
        events_of(first + second, index) == events_of(first, index) + events_of(second, index),
    decreases second.len(),
{
    if second.len() == 0 {
        assert(first + second =~= first);
        assert(events_of(first, index) + events_of(second, index) =~= events_of(first, index));
    } else {
        lemma_events_of_joined(first, second.drop_last(), index);
        assert((first + second).drop_last() =~= first + second.drop_last());
        assert((first + second).last() == second.last());
        if second.last().index() == index {
            assert(events_of(first + second, index) =~= events_of(first, index) + events_of(
                second,
                index,
            ));
        }
    }
}

/// All that a report holds belongs to its own file.
proof fn lemma_events_of_report(report: Seq<EventView>, own: usize, index: usize, upto: int)
    requires
        is_report(report, own),
        0 <= upto <= report.len(),
    ensures
        events_of(report.take(upto), index) == if index == own {
            report.take(upto)
        } else {
            Seq::empty()
        },
    decreases upto,
{
    if upto > 0 {
        lemma_events_of_report(report, own, index, upto - 1);
        assert(report.take(upto).drop_last() =~= report.take(upto - 1));
        assert(report.take(upto).last() == report[upto - 1]);
        assert(report.take(upto) =~= report.take(upto - 1).push(report[upto - 1]));
    } else {
        assert(report.take(0) =~= Seq::empty());
    }
}

/// Among the first reports, one after the other, each file's events are its
/// own report.
proof fn lemma_events_of_in_turn(reports: Seq<Seq<EventView>>, upto: int, index: usize)
    requires
        are_reports(reports),
        0 <= upto <= reports.len(),
    ensures
        events_of(one_after_the_other(reports, upto), index) == if index < upto {
            reports[index as int]
        } else {
            Seq::empty()
        },
        forall|k: int|
            0 <= k < one_after_the_other(reports, upto).len() ==> (#[trigger] one_after_the_other(
                reports,
                upto,
            )[k]).index() < upto,
    decreases upto,
{
    if upto > 0 {
        let before = one_after_the_other(reports, upto - 1);
        let report = reports[upto - 1];
        lemma_events_of_in_turn(reports, upto - 1, index);
        lemma_events_of_joined(before, report, index);
        lemma_events_of_report(report, (upto - 1) as usize, index, report.len() as int);
        assert(report.take(report.len() as int) =~= report);
        if index < upto - 1 {
            assert(reports[index as int] + Seq::<EventView>::empty() =~= reports[index as int]);
        } else {
            assert(Seq::<EventView>::empty() + report =~= report);
        }
    }
}

/// The reports one after the other are one of the ways in which they can
/// arrive.
pub proof fn lemma_in_turn_is_a_mix(reports: Seq<Seq<EventView>>)
    requires
        are_reports(reports),
    ensures
        interleaves(one_after_the_other(reports, reports.len() as int), reports),
{
    let count = reports.len() as int;
    lemma_events_of_in_turn(reports, count, 0);
    assert forall|i: int| 0 <= i < reports.len() implies events_of(
        one_after_the_other(reports, count),
        i as usize,
    ) == #[trigger] reports[i] by {
        lemma_events_of_in_turn(reports, count, i as usize);
    }
}

/// Searches that run at the same time give the output of searches that run
/// one after the other: whichever search is slow or fast, what is written is
/// what is written when the files are searched one at a time in discovery
/// order.
pub proof fn lemma_same_as_one_after_the_other(
    events: Seq<EventView>,
    reports: Seq<Seq<EventView>>,
)
    requires
        are_reports(reports),
        interleaves(events, reports),
    ensures
        ran(initial(), events).written == ran(
            initial(),
            one_after_the_other(reports, reports.len() as int),
        ).written,
{
    lemma_in_turn_is_a_mix(reports);
    lemma_same_reports_same_output(
        events,
        one_after_the_other(reports, reports.len() as int),
        reports,
    );
}

} // verus!
