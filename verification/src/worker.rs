//! The search of one file: from its lines to the events that it reports.

use crate::config::Config;
use crate::events::{event_views, texts, Event, EventView, FileDone, MatchEvent, SearchTask};
use crate::render::{format_line, renders};
use crate::reorder::is_report;
use crate::text::{line_matches, matches_line};
use vstd::prelude::*;

verus! {

/// The positions of the lines that match, counted from 0, in order.
pub open spec fn hits(config: Config, lines: Seq<Seq<char>>) -> Seq<int>
    decreases lines.len(),
{
    if lines.len() == 0 {
        Seq::empty()
    } else {
        let before = hits(config, lines.drop_last());
        if matches_line(
            config.exact_match,
            config.case_insensitive,
            config.pattern@,
            lines.last(),
        ) {
            before.push(lines.len() - 1)
        } else {
            before
        }
    }
}

/// The event that ends the report of `task` with `count` matches.
pub open spec fn end_of_file(task: SearchTask, count: int) -> EventView {
    EventView::Done {
        sequence_index: task.sequence_index,
        file_path: task.file_path@,
        match_count: count as usize,
    }
}

/// `event` reports the line at position `at` of the file of `task`: under
/// the task's rank, with the line's number, counted from 1, and a rendering
/// of the line.
pub open spec fn reports_line(
    config: Config,
    task: SearchTask,
    lines: Seq<Seq<char>>,
    at: int,
    event: EventView,
) -> bool {
    &&& event matches EventView::Match { sequence_index, line_number, rendered_line }
    &&& sequence_index == task.sequence_index
    &&& line_number == at + 1
    &&& renders(config, lines[at], line_number, rendered_line)
}

/// `report` is what the search of `lines` gives: one event for each line
/// that matches, in order, and then the end of the file with the number of
/// lines that matched. A quiet run leaves the events for the lines out.
pub open spec fn is_search_report(
    config: Config,
    task: SearchTask,
    lines: Seq<Seq<char>>,
    report: Seq<EventView>,
) -> bool {
    let found = hits(config, lines);
    let shown = if config.quiet {
        0
    } else {
        found.len()
    };
    &&& report.len() == shown + 1
    &&& report.last() == end_of_file(task, found.len() as int)
    &&& forall|k: int|
        0 <= k < shown ==> reports_line(config, task, lines, found[k], #[trigger] report[k])
}

/// There are no more hits than lines, and each hit is the position of a line.
proof fn lemma_hits_in_range(config: Config, lines: Seq<Seq<char>>)
    ensures
        hits(config, lines).len() <= lines.len(),
        forall|k: int|
            0 <= k < hits(config, lines).len() ==> 0 <= #[trigger] hits(config, lines)[k]
                < lines.len(),
    decreases lines.len(),
{
    if lines.len() > 0 {
        lemma_hits_in_range(config, lines.drop_last());
    }
}

/// Searches the lines of one file.
pub fn search_lines(config: &Config, task: &SearchTask, lines: &Vec<String>) -> (report: Vec<Event>)
    ensures
        is_search_report(*config, *task, texts(lines@), event_views(report@)),
        is_report(event_views(report@), task.sequence_index),
{
    let mut report: Vec<Event> = Vec::new();
    let mut count: usize = 0;
    let mut i: usize = 0;
    let ghost all = texts(lines@);
    assert(all.take(0) =~= Seq::empty());
    while i < lines.len()
        invariant
            i <= lines.len(),
            all == texts(lines@),
            count == hits(*config, all.take(i as int)).len(),
            count <= i,
            report.len() == if config.quiet {
                0
            } else {
                count
            },
            forall|k: int|
                0 <= k < report.len() ==> reports_line(
                    *config,
                    *task,
                    all,
                    hits(*config, all.take(i as int))[k],
                    #[trigger] event_views(report@)[k],
                ),
        decreases lines.len() - i,
    {
        let ghost before = event_views(report@);
        proof {
            assert(all.take(i + 1).drop_last() =~= all.take(i as int));
            assert(all.take(i + 1).last() == all[i as int]);
            lemma_hits_in_range(*config, all.take(i as int));
        }
        if line_matches(
            config.exact_match,
            config.case_insensitive,
            config.pattern.as_str(),
            &lines[i],
        ) {
            count += 1;
            let line_number: usize = i + 1;
            match format_line(config, &lines[i], &line_number) {
                Some(rendered_line) => {
                    let event = Event::Match(
                        MatchEvent {
                            sequence_index: task.sequence_index,
                            line_number,
                            rendered_line,
                        },
                    );
                    report.push(event);
                    assert(event_views(report@) =~= before.push(event@));
                },
                None => {},
            }
        }
        i += 1;
        assert(event_views(report@).len() == report.len());
    }
    assert(all.take(i as int) =~= all);
    let ghost found = hits(*config, all);
    let ghost before = event_views(report@);
    let done = Event::Done(
        FileDone {
            sequence_index: task.sequence_index,
            file_path: task.file_path.clone(),
            match_count: count,
        },
    );
    report.push(done);
    proof {
        let views = event_views(report@);
        assert(views =~= before.push(done@));
        assert forall|k: int| 0 <= k < views.len() - 1 implies reports_line(
            *config,
            *task,
            all,
            found[k],
            #[trigger] views[k],
        ) by {
            assert(views[k] == before[k]);
        }
    }
    report
}

/// What is reported of a file that could not be read: its end, with no
/// match.
pub fn unreadable_file(task: &SearchTask) -> (done: Event)
    ensures
        done@ == end_of_file(*task, 0),
        is_report(seq![done@], task.sequence_index),
{
    Event::Done(
        FileDone {
            sequence_index: task.sequence_index,
            file_path: task.file_path.clone(),
            match_count: 0,
        },
    )
}

} // verus!
