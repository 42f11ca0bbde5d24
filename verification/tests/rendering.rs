use textsearch::config::Config;
use textsearch::render::{
    decimal_text, format_line, highlight, highlight_found, highlight_spans, number_label,
    render_line,
};

fn plain_config(pattern: &str) -> Config {
    colored::control::set_override(false);
    Config {
        pattern: String::from(pattern),
        path: String::from("a.txt"),
        exact_match: false,
        case_insensitive: false,
        hide_line_numbers: false,
        no_pattern_highlight: false,
        recursive: false,
        hide_filepath: false,
        quiet: false,
    }
}

#[test]
fn decimal_text_writes_digits() {
    assert_eq!(decimal_text(0), "0");
    assert_eq!(decimal_text(7), "7");
    assert_eq!(decimal_text(10), "10");
    assert_eq!(decimal_text(12345), "12345");
    assert_eq!(decimal_text(9007199254740993), "9007199254740993");
    assert_eq!(decimal_text(usize::MAX), usize::MAX.to_string());
}

#[test]
fn number_label_without_colour_is_the_number() {
    colored::control::set_override(false);
    assert_eq!(number_label(42), "42");
}

#[test]
fn render_line_puts_the_label_first() {
    assert_eq!(render_line(false, "3", "some text"), "3:some text");
    assert_eq!(render_line(true, "3", "some text"), "some text");
    assert_eq!(render_line(false, "", ""), ":");
}

#[test]
fn format_line_shows_number_and_line() {
    let config = plain_config("foo");
    assert_eq!(
        format_line(&config, &String::from("bar foo"), &2),
        Some(String::from("2:bar foo"))
    );
}

#[test]
fn format_line_hides_the_number() {
    let mut config = plain_config("foo");
    config.hide_line_numbers = true;
    assert_eq!(format_line(&config, &String::from("bar foo"), &2), Some(String::from("bar foo")));
}

#[test]
fn format_line_is_silent_in_a_quiet_run() {
    let mut config = plain_config("foo");
    config.quiet = true;
    assert_eq!(format_line(&config, &String::from("bar foo"), &2), None);
}

#[test]
fn format_line_without_highlight_keeps_the_line() {
    let mut config = plain_config("foo");
    config.no_pattern_highlight = true;
    assert_eq!(format_line(&config, &String::from("a foo b"), &10), Some(String::from("10:a foo b")));
}

#[test]
fn highlight_without_colour_keeps_the_line() {
    colored::control::set_override(false);
    assert_eq!(highlight("foo", "bar Foo baz foo"), "bar Foo baz foo");
    assert_eq!(highlight("", "abc"), "abc");
    assert_eq!(highlight("é", "café É"), "café É");
}

#[test]
fn highlight_spans_without_colour_keeps_the_line() {
    colored::control::set_override(false);
    let spans = vec![(0, 1), (3, 5)];
    assert_eq!(highlight_spans("ab cd ef", &spans), "ab cd ef");
    assert_eq!(highlight_spans("ab cd ef", &Vec::new()), "ab cd ef");
    assert_eq!(highlight_spans("", &vec![(0, 0)]), "");
}

#[test]
fn highlight_found_keeps_the_line_where_nothing_was_searched() {
    colored::control::set_override(false);
    assert_eq!(highlight_found("ab cd", &None), "ab cd");
    assert_eq!(highlight_found("ab cd", &Some(vec![(3, 5)])), "ab cd");
}
