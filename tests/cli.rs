use cc_uniq::{parse_args, Endpoint, Processor};

/// Contents of the `test.txt` fixture that the command-line runs read.
const TEST_TXT: &str = "line1\nline2\nline2\nline3\nline4";

/// Resolves `args`, runs a processor over `input` line by line as the program
/// does, and returns what it would write: the records, then one newline.
fn run(args: &[&str], input: &str) -> (Endpoint, String) {
    let args: Vec<String> = args.iter().map(|a| a.to_string()).collect();
    let (config, destination) = parse_args(&args);
    let source = config.source;
    let mut processor = Processor::new(cc_uniq::Config {
        source: Endpoint::Standard,
        count: config.count,
        mode: config.mode,
    });
    let mut output = String::new();
    for line in input.split_inclusive('\n') {
        if let Some(record) = processor.feed(line.to_string()) {
            output.push_str(&record);
        }
    }
    if let Some(record) = processor.finish() {
        output.push_str(&record);
    }
    output.push('\n');
    assert!(matches!(destination, Endpoint::Standard));
    (source, output)
}

#[test]
fn test_step_1() {
    let (source, output) = run(&["test.txt"], TEST_TXT);
    assert!(matches!(&source, Endpoint::Path(p) if p == "test.txt"));
    assert_eq!("line1\nline2\nline3\nline4\n", output);
}

#[test]
fn test_step_2() {
    let (source, output) = run(&["-"], "line1\nline2\nline3\nline4");
    assert!(matches!(source, Endpoint::Standard));
    assert_eq!("line1\nline2\nline3\nline4\n", output);
}

#[test]
fn test_step_3() {
    let (source, output) = run(&["-c", "test.txt"], TEST_TXT);
    assert!(matches!(&source, Endpoint::Path(p) if p == "test.txt"));
    assert_eq!("1 line1\n2 line2\n1 line3\n1 line4\n", output);
}

#[test]
fn empty_input_writes_a_single_newline() {
    let (_, output) = run(&[], "");
    assert_eq!("\n", output);
    let (_, output) = run(&["-c", "-d"], "");
    assert_eq!("\n", output);
}

#[test]
fn distinct_lines_from_a_path_and_from_standard_input_agree() {
    let input = "line1\nline2\nline3\nline4\n";
    let (from_file, a) = run(&["in.txt"], input);
    let (from_stdin, b) = run(&["-"], input);
    assert!(matches!(&from_file, Endpoint::Path(p) if p == "in.txt"));
    assert!(matches!(from_stdin, Endpoint::Standard));
    assert_eq!(a, b);
    assert_eq!("line1\nline2\nline3\nline4\n\n", a);
}

#[test]
fn counted_run_at_the_start() {
    let (_, output) = run(&["--count"], "line1\nline1\nline2\nline3\n");
    assert_eq!("2 line1\n1 line2\n1 line3\n\n", output);
}

#[test]
fn repeated_mode_keeps_only_the_long_run() {
    let input = "a\nb\nb\nb\nb\nb\nc\n";
    let (_, output) = run(&["-d"], input);
    assert_eq!("b\n\n", output);
    let (_, output) = run(&["-c", "--repeated"], input);
    assert_eq!("5 b\n\n", output);
}

#[test]
fn unique_mode_keeps_only_single_lines() {
    let (_, output) = run(&["-u"], "a\nb\nb\nc\n");
    assert_eq!("a\nc\n\n", output);
}

#[test]
fn last_line_without_newline_differs_from_one_with_it() {
    let (_, output) = run(&["-c"], "x\nx");
    assert_eq!("1 x\n1 x\n", output);
}
