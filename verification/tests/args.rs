use proteus::args::{ArgParser, ParsedArgs};

fn make_parser() -> ArgParser {
    ArgParser::new()
        .add_opt('a', "all", false, "show all")
        .add_opt('l', "long", false, "long format")
        .add_opt('n', "lines", true, "number of lines")
        .add_opt('f', "file", true, "input file")
}

fn parse_strs(parser: &ArgParser, args: &[&str]) -> Result<ParsedArgs, String> {
    let owned: Vec<String> = args.iter().map(|s| s.to_string()).collect();
    parser.parse(&owned)
}

#[test]
fn test_short_flags_combined() {
    let parser = make_parser();
    let result = parse_strs(&parser, &["-al"]).unwrap();
    assert!(result.has_opt('a'));
    assert!(result.has_opt('l'));
    assert_eq!(result.positional.len(), 0);
}

#[test]
fn test_short_flag_with_value() {
    let parser = make_parser();
    let result = parse_strs(&parser, &["-n", "10"]).unwrap();
    assert_eq!(result.opt_value('n'), Some("10"));
}

#[test]
fn test_long_flag() {
    let parser = make_parser();
    let result = parse_strs(&parser, &["--all"]).unwrap();
    assert!(result.has_opt('a'));
}

#[test]
fn test_long_flag_with_equals() {
    let parser = make_parser();
    let result = parse_strs(&parser, &["--lines=20"]).unwrap();
    assert_eq!(result.opt_value('n'), Some("20"));
}

#[test]
fn test_positional_args() {
    let parser = make_parser();
    let result = parse_strs(&parser, &["-a", "file1.txt", "file2.txt"]).unwrap();
    assert!(result.has_opt('a'));
    assert_eq!(result.positional, vec!["file1.txt", "file2.txt"]);
}

#[test]
fn test_separator() {
    let parser = make_parser();
    let result = parse_strs(&parser, &["-a", "--", "-n", "10"]).unwrap();
    assert!(result.has_opt('a'));
    assert_eq!(result.positional, vec!["-n", "10"]);
}

#[test]
fn test_unknown_option() {
    let parser = make_parser();
    let result = parse_strs(&parser, &["-z"]);
    assert!(result.is_err());
}

#[test]
fn test_opt_count() {
    let parser = make_parser();
    let result = parse_strs(&parser, &["-a", "-a", "-a"]).unwrap();
    assert_eq!(result.opt_count('a'), 3);
}

#[test]
fn test_short_value_combined() {
    let parser = make_parser();
    let result = parse_strs(&parser, &["-n10"]).unwrap();
    assert_eq!(result.opt_value('n'), Some("10"));
}

#[test]
fn test_dash_as_positional() {
    let parser = make_parser();
    let result = parse_strs(&parser, &["-"]).unwrap();
    assert_eq!(result.positional, vec!["-"]);
}

#[test]
fn long_option_takes_the_next_argument() {
    let parser = make_parser();
    let result = parse_strs(&parser, &["--file", "x.txt"]).unwrap();
    assert_eq!(result.opt_value('f'), Some("x.txt"));
}

#[test]
fn missing_value_is_an_error() {
    let parser = make_parser();
    assert!(parse_strs(&parser, &["-n"]).is_err());
    assert!(parse_strs(&parser, &["--bogus"]).is_err());
}
