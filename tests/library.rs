use cc_uniq::decimal::decimal_string;
use cc_uniq::{collapse, parse_args, Config, Endpoint, Mode, Processor};

fn lines(text: &str) -> Vec<String> {
    text.split_inclusive('\n').map(|l| l.to_string()).collect()
}

fn config(mode: Mode, count: bool) -> Config {
    Config { source: Endpoint::Standard, count, mode }
}

fn strings(args: &[&str]) -> Vec<String> {
    args.iter().map(|a| a.to_string()).collect()
}

#[test]
fn all_distinct_lines_pass_through() {
    let input = lines("line1\nline2\nline3\nline4\n");
    let out = collapse(config(Mode::All, false), &input);
    assert_eq!(out.concat(), "line1\nline2\nline3\nline4\n");
}

#[test]
fn counts_prefix_each_record() {
    let input = lines("line1\nline1\nline2\nline3\n");
    let out = collapse(config(Mode::All, true), &input);
    assert_eq!(out, vec!["2 line1\n", "1 line2\n", "1 line3\n"]);
}

#[test]
fn empty_input_gives_no_records() {
    for mode in [Mode::All, Mode::Repeated, Mode::Unique] {
        assert!(collapse(config(mode, true), &Vec::new()).is_empty());
    }
    assert_eq!(Processor::new(config(Mode::All, false)).finish(), None);
}

#[test]
fn repeated_run_of_five_is_the_only_record() {
    let input = lines("first\nsame\nsame\nsame\nsame\nsame\nlast\n");
    assert_eq!(collapse(config(Mode::Repeated, true), &input), vec!["5 same\n"]);
    assert_eq!(collapse(config(Mode::Repeated, false), &input), vec!["same\n"]);
}

#[test]
fn unique_mode_drops_runs_longer_than_one() {
    let input = lines("a\na\nb\nc\nc\nd\n");
    assert_eq!(collapse(config(Mode::Unique, false), &input), vec!["b\n", "d\n"]);
    assert_eq!(collapse(config(Mode::Unique, true), &input), vec!["1 b\n", "1 d\n"]);
}

#[test]
fn collapsing_twice_changes_nothing() {
    let input = lines("a\na\nb\nb\nb\na\nc\nc\n");
    let once = collapse(config(Mode::All, false), &input);
    let twice = collapse(config(Mode::All, false), &once);
    assert_eq!(once, vec!["a\n", "b\n", "a\n", "c\n"]);
    assert_eq!(once, twice);
    for pair in once.windows(2) {
        assert_ne!(pair[0], pair[1]);
    }
}

#[test]
fn counts_add_up_to_the_number_of_lines() {
    let input = lines("x\nx\ny\nz\nz\nz\nx\nw");
    let out = collapse(config(Mode::All, true), &input);
    let sum: u64 = out
        .iter()
        .map(|r| r.split(' ').next().unwrap().parse::<u64>().unwrap())
        .sum();
    assert_eq!(sum, input.len() as u64);
    assert_eq!(out, vec!["2 x\n", "1 y\n", "3 z\n", "1 x\n", "1 w"]);
}

#[test]
fn representatives_keep_input_order() {
    let input = lines("c\nb\nb\na\nc\nc\n");
    let out = collapse(config(Mode::All, false), &input);
    assert_eq!(out, vec!["c\n", "b\n", "a\n", "c\n"]);
    let repeated = collapse(config(Mode::Repeated, false), &input);
    assert_eq!(repeated, vec!["b\n", "c\n"]);
}

#[test]
fn processor_hands_out_a_record_when_a_run_closes() {
    let mut p = Processor::new(config(Mode::All, true));
    assert_eq!(p.pending_count(), 0);
    assert_eq!(p.feed("a\n".to_string()), None);
    assert_eq!(p.feed("a\n".to_string()), None);
    assert_eq!(p.pending_count(), 2);
    assert_eq!(p.feed("b\n".to_string()), Some("2 a\n".to_string()));
    assert_eq!(p.pending_count(), 1);
    assert_eq!(p.finish(), Some("1 b\n".to_string()));
}

#[test]
fn processor_withholds_records_the_mode_rejects() {
    let mut p = Processor::new(config(Mode::Repeated, false));
    assert_eq!(p.feed("a\n".to_string()), None);
    assert_eq!(p.feed("b\n".to_string()), None);
    assert_eq!(p.feed("b\n".to_string()), None);
    assert_eq!(p.feed("c\n".to_string()), Some("b\n".to_string()));
    assert_eq!(p.finish(), None);
}

#[test]
fn decimal_rendering() {
    assert_eq!(decimal_string(0), "0");
    assert_eq!(decimal_string(7), "7");
    assert_eq!(decimal_string(10), "10");
    assert_eq!(decimal_string(12345), "12345");
    assert_eq!(decimal_string(u64::MAX), "18446744073709551615");
}

#[test]
fn parse_no_arguments() {
    let (c, d) = parse_args(&Vec::new());
    assert_eq!(c.mode, Mode::All);
    assert!(!c.count);
    assert!(matches!(c.source, Endpoint::Standard));
    assert!(matches!(d, Endpoint::Standard));
}

#[test]
fn parse_flags_and_paths() {
    let (c, d) = parse_args(&strings(&["-c", "-d", "in.txt", "out.txt", "extra"]));
    assert_eq!(c.mode, Mode::Repeated);
    assert!(c.count);
    assert!(matches!(&c.source, Endpoint::Path(p) if p == "in.txt"));
    assert!(matches!(&d, Endpoint::Path(p) if p == "out.txt"));
}

#[test]
fn parse_last_mode_flag_wins() {
    let (c, _) = parse_args(&strings(&["-d", "-u"]));
    assert_eq!(c.mode, Mode::Unique);
    let (c, _) = parse_args(&strings(&["-u", "--repeated", "--count"]));
    assert_eq!(c.mode, Mode::Repeated);
    assert!(c.count);
}

#[test]
fn parse_dash_means_standard_streams() {
    let (c, d) = parse_args(&strings(&["-", "-"]));
    assert!(matches!(c.source, Endpoint::Standard));
    assert!(matches!(d, Endpoint::Standard));
    let (c, d) = parse_args(&strings(&["-", "out.txt"]));
    assert!(matches!(c.source, Endpoint::Standard));
    assert!(matches!(&d, Endpoint::Path(p) if p == "out.txt"));
}

#[test]
fn parse_flags_stop_at_the_first_other_token() {
    let (c, d) = parse_args(&strings(&["-x", "-c"]));
    assert_eq!(c.mode, Mode::All);
    assert!(!c.count);
    assert!(matches!(&c.source, Endpoint::Path(p) if p == "-x"));
    assert!(matches!(&d, Endpoint::Path(p) if p == "-c"));
}

#[test]
fn repeated_mode_with_single_lines_on_both_sides() {
    let input = lines("p\nq\nr\nr\nr\ns\nt\n");
    assert_eq!(collapse(config(Mode::Repeated, true), &input), vec!["3 r\n"]);
    let input = lines("x\nx\nx\nx\nx\n");
    assert_eq!(collapse(config(Mode::Repeated, false), &input), vec!["x\n"]);
}
