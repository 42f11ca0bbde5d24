use textsearch::aggregate::Aggregator;
use textsearch::config::Config;
use textsearch::events::{Event, FileDone, MatchEvent, SearchTask};
use textsearch::worker::{search_lines, unreadable_file};
use textsearch::writer::Writer;

fn config_for(pattern: &str) -> Config {
    colored::control::set_override(false);
    Config {
        pattern: String::from(pattern),
        path: String::from("."),
        exact_match: false,
        case_insensitive: false,
        hide_line_numbers: false,
        no_pattern_highlight: false,
        recursive: false,
        hide_filepath: false,
        quiet: false,
    }
}

fn task(index: usize, path: &str) -> SearchTask {
    SearchTask { sequence_index: index, file_path: String::from(path) }
}

fn lines(text: &[&str]) -> Vec<String> {
    text.iter().map(|line| String::from(*line)).collect()
}

fn found(index: usize, line_number: usize, text: &str) -> Event {
    Event::Match(MatchEvent {
        sequence_index: index,
        line_number,
        rendered_line: String::from(text),
    })
}

fn done(index: usize, path: &str, count: usize) -> Event {
    Event::Done(FileDone { sequence_index: index, file_path: String::from(path), match_count: count })
}

fn written_by(events: Vec<Event>, hide_filepath: bool) -> Vec<String> {
    colored::control::set_override(false);
    let mut aggregator = Aggregator::new();
    let mut writer = Writer::new(hide_filepath);
    for event in events {
        aggregator.on_event(event, &mut writer);
    }
    writer.flush()
}

#[test]
fn single_file_gives_header_and_numbered_lines() {
    let config = config_for("foo");
    let report = search_lines(&config, &task(0, "a.txt"), &lines(&["foo", "bar foo", "baz"]));
    assert_eq!(report.len(), 3);
    assert_eq!(written_by(report, false), vec!["a.txt", "1:foo", "2:bar foo"]);
}

#[test]
fn groups_follow_discovery_order_not_arrival_order() {
    let config = config_for("foo");
    let first = search_lines(&config, &task(0, "b.txt"), &lines(&["x", "foo in b"]));
    let second = search_lines(&config, &task(1, "a.txt"), &lines(&["foo in a"]));
    let mut events = Vec::new();
    events.extend(second);
    events.extend(first);
    assert_eq!(
        written_by(events, false),
        vec!["b.txt", "2:foo in b", "", "a.txt", "1:foo in a"]
    );
}

#[test]
fn search_reports_matches_and_then_the_end() {
    let config = config_for("foo");
    let report = search_lines(&config, &task(4, "a.txt"), &lines(&["foo", "bar", "a foo"]));
    assert_eq!(report.len(), 3);
    match &report[0] {
        Event::Match(event) => {
            assert_eq!(event.sequence_index, 4);
            assert_eq!(event.line_number, 1);
            assert_eq!(event.rendered_line, "1:foo");
        }
        Event::Done(_) => panic!("expected a match"),
    }
    match &report[1] {
        Event::Match(event) => {
            assert_eq!(event.sequence_index, 4);
            assert_eq!(event.line_number, 3);
            assert_eq!(event.rendered_line, "3:a foo");
        }
        Event::Done(_) => panic!("expected a match"),
    }
    match &report[2] {
        Event::Done(event) => {
            assert_eq!(event.sequence_index, 4);
            assert_eq!(event.file_path, "a.txt");
            assert_eq!(event.match_count, 2);
        }
        Event::Match(_) => panic!("expected the end of the file"),
    }
}

#[test]
fn search_of_an_empty_file_reports_its_end_only() {
    let config = config_for("foo");
    let report = search_lines(&config, &task(0, "empty.txt"), &Vec::new());
    assert_eq!(report.len(), 1);
    match &report[0] {
        Event::Done(event) => assert_eq!(event.match_count, 0),
        Event::Match(_) => panic!("expected the end of the file"),
    }
}

#[test]
fn quiet_search_counts_and_shows_nothing() {
    let mut config = config_for("foo");
    config.quiet = true;
    let report = search_lines(&config, &task(0, "a.txt"), &lines(&["foo", "bar foo", "baz"]));
    assert_eq!(report.len(), 1);
    match &report[0] {
        Event::Done(event) => assert_eq!(event.match_count, 2),
        Event::Match(_) => panic!("expected the end of the file"),
    }
    assert_eq!(written_by(report, false), Vec::<String>::new());
}

#[test]
fn unreadable_file_reports_its_end_without_a_match() {
    match unreadable_file(&task(3, "locked.txt")) {
        Event::Done(event) => {
            assert_eq!(event.sequence_index, 3);
            assert_eq!(event.file_path, "locked.txt");
            assert_eq!(event.match_count, 0);
        }
        Event::Match(_) => panic!("expected the end of the file"),
    }
}

#[test]
fn unreadable_file_does_not_hold_back_later_files() {
    let events = vec![
        found(1, 1, "1:late"),
        done(1, "b.txt", 1),
        unreadable_file(&task(0, "locked.txt")),
    ];
    assert_eq!(written_by(events, false), vec!["b.txt", "1:late"]);
}

#[test]
fn file_without_a_match_is_silent() {
    let events = vec![
        done(0, "none.txt", 0),
        found(1, 5, "5:hit"),
        done(1, "some.txt", 1),
        done(2, "none_either.txt", 0),
    ];
    assert_eq!(written_by(events, false), vec!["some.txt", "5:hit"]);
}

#[test]
fn output_is_the_same_for_every_arrival_order() {
    let in_turn = vec![
        found(0, 1, "1:a"),
        found(0, 2, "2:b"),
        done(0, "x", 2),
        done(1, "y", 0),
        found(2, 9, "9:c"),
        done(2, "z", 1),
    ];
    let mixed = vec![
        found(2, 9, "9:c"),
        found(0, 1, "1:a"),
        done(1, "y", 0),
        done(2, "z", 1),
        found(0, 2, "2:b"),
        done(0, "x", 2),
    ];
    let expected = vec!["x", "1:a", "2:b", "", "z", "9:c"];
    assert_eq!(written_by(in_turn, false), expected);
    assert_eq!(written_by(mixed, false), expected);
}

#[test]
fn later_file_waits_for_earlier_file() {
    colored::control::set_override(false);
    let mut aggregator = Aggregator::new();
    let mut writer = Writer::new(false);
    aggregator.on_event(found(1, 1, "1:second"), &mut writer);
    aggregator.on_event(done(1, "b.txt", 1), &mut writer);
    assert_eq!(aggregator.next_to_emit(), 0);
    assert!(!aggregator.emitted_any());
    assert_eq!(writer.flush(), Vec::<String>::new());
    aggregator.on_event(found(0, 1, "1:first"), &mut writer);
    assert_eq!(writer.flush(), Vec::<String>::new());
    aggregator.on_event(done(0, "a.txt", 1), &mut writer);
    assert_eq!(aggregator.next_to_emit(), 2);
    assert!(aggregator.emitted_any());
    assert_eq!(writer.flush(), vec!["a.txt", "1:first", "", "b.txt", "1:second"]);
}

#[test]
fn lines_are_not_written_before_the_end_of_their_file() {
    colored::control::set_override(false);
    let mut aggregator = Aggregator::new();
    let mut writer = Writer::new(false);
    aggregator.on_event(found(0, 1, "1:one"), &mut writer);
    aggregator.on_event(found(0, 2, "2:two"), &mut writer);
    assert_eq!(aggregator.next_to_emit(), 0);
    assert_eq!(writer.flush(), Vec::<String>::new());
    aggregator.on_event(done(0, "a.txt", 2), &mut writer);
    assert_eq!(writer.flush(), vec!["a.txt", "1:one", "2:two"]);
}

#[test]
fn separator_comes_between_groups_written_at_different_times() {
    colored::control::set_override(false);
    let mut aggregator = Aggregator::new();
    let mut writer = Writer::new(false);
    aggregator.on_event(found(0, 1, "1:one"), &mut writer);
    aggregator.on_event(done(0, "a.txt", 1), &mut writer);
    assert_eq!(writer.flush(), vec!["a.txt", "1:one"]);
    aggregator.on_event(done(1, "b.txt", 0), &mut writer);
    assert_eq!(writer.flush(), Vec::<String>::new());
    aggregator.on_event(found(2, 3, "3:three"), &mut writer);
    aggregator.on_event(done(2, "c.txt", 1), &mut writer);
    assert_eq!(writer.flush(), vec!["", "c.txt", "3:three"]);
}

#[test]
fn hidden_file_paths_leave_the_headers_out() {
    let events = vec![
        found(0, 1, "1:a"),
        done(0, "x", 1),
        found(1, 2, "2:b"),
        done(1, "y", 1),
    ];
    assert_eq!(written_by(events, true), vec!["1:a", "", "2:b"]);
}

#[test]
fn aggregator_is_finished_when_every_file_is_written() {
    colored::control::set_override(false);
    let mut aggregator = Aggregator::new();
    let mut writer = Writer::new(false);
    assert!(aggregator.is_finished(0));
    assert!(!aggregator.is_finished(2));
    aggregator.on_event(done(1, "b.txt", 0), &mut writer);
    assert!(!aggregator.is_finished(2));
    aggregator.on_event(found(0, 1, "1:a"), &mut writer);
    assert!(!aggregator.is_finished(2));
    aggregator.on_event(done(0, "a.txt", 1), &mut writer);
    assert!(aggregator.is_finished(2));
    assert!(!aggregator.is_finished(3));
}

#[test]
fn writer_keeps_records_in_order() {
    colored::control::set_override(false);
    let mut writer = Writer::new(false);
    writer.header("a.txt");
    writer.line("1:x");
    writer.separator();
    writer.header("b.txt");
    writer.line("2:y");
    assert_eq!(writer.flush(), vec!["a.txt", "1:x", "", "b.txt", "2:y"]);
    assert_eq!(writer.flush(), Vec::<String>::new());
}

#[test]
fn exact_and_case_insensitive_search_of_a_file() {
    let mut config = config_for("Cat");
    config.exact_match = true;
    config.case_insensitive = true;
    config.hide_line_numbers = true;
    let report = search_lines(
        &config,
        &task(0, "pets.txt"),
        &lines(&["category is fun", "the cat sat", "THE CAT SAT", "concat"]),
    );
    assert_eq!(written_by(report, false), vec!["pets.txt", "the cat sat", "THE CAT SAT"]);
}

#[test]
fn list_of_events_is_taken_one_after_the_other() {
    colored::control::set_override(false);
    let events = vec![
        found(1, 4, "4:late"),
        done(1, "b.txt", 1),
        found(0, 2, "2:early"),
        done(0, "a.txt", 1),
    ];
    let mut aggregator = Aggregator::new();
    let mut writer = Writer::new(false);
    aggregator.on_events(events.clone(), &mut writer);
    assert_eq!(aggregator.next_to_emit(), 2);
    assert!(aggregator.is_finished(2));
    let all_at_once = writer.flush();
    assert_eq!(all_at_once, vec!["a.txt", "2:early", "", "b.txt", "4:late"]);
    assert_eq!(written_by(events, false), all_at_once);
}

#[test]
fn second_end_of_a_file_that_waits_replaces_its_path() {
    let events = vec![
        found(1, 1, "1:x"),
        done(1, "old.txt", 1),
        done(1, "new.txt", 1),
        done(0, "first.txt", 0),
    ];
    assert_eq!(written_by(events, false), vec!["new.txt", "1:x"]);
}

#[test]
fn second_run_on_the_same_input_writes_the_same() {
    let config = config_for("foo");
    let files = [
        ("b.txt", lines(&["x", "foo in b", "foo again"])),
        ("empty.txt", lines(&[])),
        ("a.txt", lines(&["foo in a"])),
    ];
    let mut outputs = Vec::new();
    for _ in 0..2 {
        let mut events = Vec::new();
        for (index, (path, content)) in files.iter().enumerate().rev() {
            events.extend(search_lines(&config, &task(index, path), content));
        }
        outputs.push(written_by(events, false));
    }
    assert_eq!(outputs[0], outputs[1]);
    assert_eq!(
        outputs[0],
        vec!["b.txt", "2:foo in b", "3:foo again", "", "a.txt", "1:foo in a"]
    );
}

#[test]
fn rank_at_the_limit_is_buffered_and_never_written() {
    colored::control::set_override(false);
    let mut aggregator = Aggregator::new();
    let mut writer = Writer::new(false);
    aggregator.on_event(found(usize::MAX, 1, "1:x"), &mut writer);
    aggregator.on_event(done(usize::MAX, "far.txt", 1), &mut writer);
    assert_eq!(aggregator.next_to_emit(), 0);
    assert!(!aggregator.is_finished(0));
    assert_eq!(writer.flush(), Vec::<String>::new());
}
