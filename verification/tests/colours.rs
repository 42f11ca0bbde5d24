use colored::Colorize;
use regex::{Captures, Regex};
use textsearch::config::Config;
use textsearch::render::{format_line, highlight, highlight_found, highlight_spans, number_label};
use textsearch::writer::Writer;

fn coloured_config(pattern: &str) -> Config {
    colored::control::set_override(true);
    Config {
        pattern: String::from(pattern),
        path: String::from("a.txt"),
        exact_match: false,
        case_insensitive: false,
        hide_line_numbers: false,
        no_pattern_highlight: false,
        recursive: false,
        hide_filepath: false,
        quiet: false,
    }
}

#[test]
fn number_label_is_bold_blue() {
    colored::control::set_override(true);
    assert_eq!(number_label(7), "\u{1b}[1;34m7\u{1b}[0m");
    assert_eq!(number_label(120), "\u{1b}[1;34m120\u{1b}[0m");
}

#[test]
fn header_is_bold_red() {
    colored::control::set_override(true);
    let mut writer = Writer::new(false);
    writer.header("dir/a.txt");
    assert_eq!(writer.flush(), vec![String::from("\u{1b}[1;31mdir/a.txt\u{1b}[0m")]);
}

#[test]
fn highlight_is_bold_yellow_and_ignores_case() {
    colored::control::set_override(true);
    assert_eq!(
        highlight("foo", "bar Foo baz foo"),
        "bar \u{1b}[1;33mFoo\u{1b}[0m baz \u{1b}[1;33mfoo\u{1b}[0m"
    );
}

#[test]
fn highlight_leaves_a_line_without_the_pattern_alone() {
    colored::control::set_override(true);
    assert_eq!(highlight("foo", "nothing here"), "nothing here");
}

#[test]
fn highlight_takes_the_pattern_as_it_is_written() {
    colored::control::set_override(true);
    assert_eq!(highlight("a.c", "abc a.c"), "abc \u{1b}[1;33ma.c\u{1b}[0m");
    assert_eq!(highlight("(x)", "x (x)"), "x \u{1b}[1;33m(x)\u{1b}[0m");
    assert_eq!(highlight("a\\b", "a\\b"), "\u{1b}[1;33ma\\b\u{1b}[0m");
}

#[test]
fn highlight_works_on_characters_of_several_bytes() {
    colored::control::set_override(true);
    assert_eq!(highlight("é", "café É!"), "caf\u{1b}[1;33mé\u{1b}[0m \u{1b}[1;33mÉ\u{1b}[0m!");
}

#[test]
fn highlight_spans_puts_emphasis_on_each_span() {
    colored::control::set_override(true);
    let spans = vec![(0, 2), (3, 5)];
    assert_eq!(
        highlight_spans("ab cd ef", &spans),
        "\u{1b}[1;33mab\u{1b}[0m \u{1b}[1;33mcd\u{1b}[0m ef"
    );
}

#[test]
fn format_line_with_colour() {
    let config = coloured_config("foo");
    assert_eq!(
        format_line(&config, &String::from("bar foo"), &2),
        Some(String::from("\u{1b}[1;34m2\u{1b}[0m:bar \u{1b}[1;33mfoo\u{1b}[0m"))
    );
}

#[test]
fn format_line_with_colour_and_no_highlight() {
    let mut config = coloured_config("foo");
    config.no_pattern_highlight = true;
    assert_eq!(
        format_line(&config, &String::from("bar foo"), &2),
        Some(String::from("\u{1b}[1;34m2\u{1b}[0m:bar foo"))
    );
}

#[test]
fn empty_pattern_is_found_between_all_characters() {
    colored::control::set_override(true);
    let mark = "\u{1b}[1;33m\u{1b}[0m";
    assert_eq!(highlight("", "aé"), format!("{}a{}é{}", mark, mark, mark));
}

#[test]
fn highlight_finds_neighbours_and_ends() {
    colored::control::set_override(true);
    let open = "\u{1b}[1;33m";
    let close = "\u{1b}[0m";
    assert_eq!(
        highlight("ab", "ababxab"),
        format!("{}ab{}{}ab{}x{}ab{}", open, close, open, close, open, close)
    );
}

#[test]
fn highlight_found_puts_emphasis_on_the_spans_given() {
    colored::control::set_override(true);
    assert_eq!(highlight_found("ab cd", &None), "ab cd");
    assert_eq!(highlight_found("ab cd", &Some(vec![(3, 5)])), "ab \u{1b}[1;33mcd\u{1b}[0m");
}

#[test]
fn highlight_agrees_with_replacing_every_match() {
    colored::control::set_override(true);
    let samples = [
        ("foo", "foo bar FOO baz Foo"),
        ("a.c", "abc a.c A.C"),
        ("", "xyz"),
        ("é", "café É été"),
        ("aa", "aaaaa"),
        ("$1", "cost $1 or $10"),
        ("straße", "Straße und STRASSE"),
        ("x", ""),
    ];
    for (pattern, line) in samples {
        let compiled = Regex::new(&format!("(?i){}", regex::escape(pattern))).unwrap();
        let expected = compiled
            .replace_all(line, |found: &Captures| {
                format!("{}", found.get(0).unwrap().as_str().yellow().bold())
            })
            .to_string();
        assert_eq!(highlight(pattern, line), expected);
    }
}
