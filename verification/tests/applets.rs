use proteus::applets::cat::{CatOptions, CatState};
use proteus::applets::cut::{cut_characters, cut_fields, parse_selection};
use proteus::applets::echo::{echo_output, interpret_escape_sequences, printf_output};
use proteus::applets::files::{basename_of, dirname_of, matches_name, od_line, parse_mode, parse_owner_spec};
use proteus::applets::find::{find_selects, normalize_path, FindOptions, FindUsage, PathWalk};
use proteus::applets::grep::{
    build_matcher, grep_inputs, grep_status, GrepOptions, GrepScan, GrepStep, GrepUsage, MatchMode,
};
use proteus::applets::gzip::{crc32, decode_gzip, encode_gzip, output_path, GzipError, GzipOptions};
use proteus::applets::headtail::{head_line, parse_count_args, CountUsage, TailWindow};
use proteus::applets::lines::{sort_lines, sort_output, strip_line_ending, UniqState};
use proteus::applets::ls::{
    days_to_date, format_mtime, format_permissions, is_leap_year, long_entry, total_blocks, visible_names, LsOptions,
};
use proteus::applets::sed::{apply_substitute, parse_substitute_command};
use proteus::applets::seq::{seq_bounds, SeqCounter};
use proteus::applets::switches::{cp_switches, is_yes, parse_switches, pwd_switches, rm_switches, touch_switches};
use proteus::applets::tar::{archive_name, build_header, list_entries, padding_len, read_octal, read_string, TarOptions, TarUsage};
use proteus::applets::tr::tr_output;
use proteus::applets::wc::{columns, print_counts, WcOptions, WcState};
use proteus::applets::xargs::{command_line, line_item, null_item, XargsOptions};
use proteus::regex::RegexSyntax;

fn strings(v: &[&str]) -> Vec<String> {
    v.iter().map(|s| s.to_string()).collect()
}

// ---- grep ----

#[test]
fn grep_parses_flags_pattern_and_files() {
    let o = GrepOptions::parse(&strings(&["-in", "foo", "a.txt", "-v"]), MatchMode::Fixed);
    // `i` is no option of this grep
    assert!(matches!(o, Err(GrepUsage::InvalidOption('i'))));
    let o = GrepOptions::parse(&strings(&["-nc", "foo", "a.txt", "-v", "b.txt"]), MatchMode::Fixed).unwrap();
    assert!(o.line_number && o.count_only && o.invert_match);
    assert_eq!(o.pattern, "foo");
    assert_eq!(o.files, vec!["a.txt", "b.txt"]);
    assert_eq!(o.mode, MatchMode::Fixed);
}

#[test]
fn grep_mode_follows_the_last_mode_option() {
    let o = GrepOptions::parse(&strings(&["-F", "-E", "x"]), MatchMode::Fixed).unwrap();
    assert_eq!(o.mode, MatchMode::Regex(RegexSyntax::Extended));
    let o = GrepOptions::parse(&strings(&["x"]), MatchMode::Regex(RegexSyntax::Basic)).unwrap();
    assert_eq!(o.mode, MatchMode::Regex(RegexSyntax::Basic));
}

#[test]
fn grep_e_and_double_dash() {
    let o = GrepOptions::parse(&strings(&["-e", "-x", "f"]), MatchMode::Fixed).unwrap();
    assert_eq!(o.pattern, "-x");
    assert_eq!(o.files, vec!["f"]);
    let o = GrepOptions::parse(&strings(&["--", "-v", "-q"]), MatchMode::Fixed).unwrap();
    assert_eq!(o.pattern, "-v");
    assert_eq!(o.files, vec!["-q"]);
    assert!(!o.quiet);
}

#[test]
fn grep_usage_errors() {
    assert!(matches!(GrepOptions::parse(&strings(&[]), MatchMode::Fixed), Err(GrepUsage::MissingPattern)));
    assert!(matches!(GrepOptions::parse(&strings(&["-e"]), MatchMode::Fixed), Err(GrepUsage::MissingArgument('e'))));
    assert!(matches!(GrepOptions::parse(&strings(&["--"]), MatchMode::Fixed), Err(GrepUsage::MissingPattern)));
    assert_eq!(GrepUsage::InvalidOption('z').message(), "grep: invalid option -- 'z'");
    assert_eq!(GrepUsage::MissingPattern.message(), "grep: missing pattern");
    assert_eq!(GrepUsage::MissingArgument('e').message(), "grep: option requires an argument -- 'e'");
    assert_eq!(GrepUsage::MissingPattern.code(), 2);
}

#[test]
fn grep_prints_selected_lines_with_labels() {
    let o = GrepOptions::parse(&strings(&["-n", "a.c", "x", "y"]), MatchMode::Regex(RegexSyntax::Extended)).unwrap();
    let m = build_matcher(&o).unwrap();
    let mut scan = GrepScan::new();
    match scan.step("abc\n", &m, &o, true, "x") {
        GrepStep::Print(s) => assert_eq!(s, "x:1:abc\n"),
        GrepStep::Matched => panic!(),
    }
    match scan.step("zzz\n", &m, &o, true, "x") {
        GrepStep::Print(s) => assert_eq!(s, ""),
        GrepStep::Matched => panic!(),
    }
    match scan.step("axc", &m, &o, true, "x") {
        GrepStep::Print(s) => assert_eq!(s, "x:3:axc\n"),
        GrepStep::Matched => panic!(),
    }
    let (tail, any) = scan.finish(&o, true, "x");
    assert_eq!(tail, "");
    assert!(any);
}

#[test]
fn grep_counts_lists_and_stops() {
    let o = GrepOptions::parse(&strings(&["-c", "a"]), MatchMode::Fixed).unwrap();
    let m = build_matcher(&o).unwrap();
    let mut scan = GrepScan::new();
    for line in ["a\n", "b\n", "ca\n"] {
        let _ = scan.step(line, &m, &o, false, "-");
    }
    assert_eq!(scan.finish(&o, false, "-"), ("2\n".to_string(), true));
    let o = GrepOptions::parse(&strings(&["-l", "a"]), MatchMode::Fixed).unwrap();
    let mut scan = GrepScan::new();
    match scan.step("a\n", &m, &o, false, "f.txt") {
        GrepStep::Print(s) => assert_eq!(s, "f.txt\n"),
        GrepStep::Matched => panic!(),
    }
    match scan.step("aa\n", &m, &o, false, "f.txt") {
        GrepStep::Print(s) => assert_eq!(s, ""),
        GrepStep::Matched => panic!(),
    }
    let o = GrepOptions::parse(&strings(&["-q", "a"]), MatchMode::Fixed).unwrap();
    let mut scan = GrepScan::new();
    assert!(matches!(scan.step("a", &m, &o, false, "-"), GrepStep::Matched));
}

#[test]
fn grep_invert_and_status() {
    let o = GrepOptions::parse(&strings(&["-v", "a"]), MatchMode::Fixed).unwrap();
    let m = build_matcher(&o).unwrap();
    let mut scan = GrepScan::new();
    match scan.step("b\n", &m, &o, false, "-") {
        GrepStep::Print(s) => assert_eq!(s, "b\n"),
        GrepStep::Matched => panic!(),
    }
    assert_eq!(grep_status(true, true), 2);
    assert_eq!(grep_status(false, true), 0);
    assert_eq!(grep_status(false, false), 1);
    assert_eq!(grep_inputs(&o), vec!["-"]);
}

#[test]
fn grep_rejects_a_bad_expression() {
    let o = GrepOptions::parse(&strings(&["(ab"]), MatchMode::Regex(RegexSyntax::Extended)).unwrap();
    assert!(build_matcher(&o).is_err());
}

// ---- ls ----

#[test]
fn ls_options() {
    let o = LsOptions::parse(&strings(&["-la", "dir", "--recursive"])).unwrap();
    assert!(o.show_all && o.long_format && o.recursive);
    assert_eq!(o.paths, vec!["dir"]);
    assert_eq!(LsOptions::parse(&strings(&["-x"])).err(), Some('x'));
    let o = LsOptions::parse(&strings(&[])).unwrap();
    assert_eq!(o.listed_paths(), vec!["."]);
}

#[test]
fn ls_names_are_filtered_and_sorted() {
    let names = strings(&["b", ".hidden", "a", "C"]);
    assert_eq!(visible_names(&names, false), vec!["C", "a", "b"]);
    assert_eq!(visible_names(&names, true), vec![".", "..", ".hidden", "C", "a", "b"]);
}

#[test]
fn ls_permissions_and_blocks() {
    assert_eq!(format_permissions(0o755), "rwxr-xr-x");
    assert_eq!(format_permissions(0o640), "rw-r-----");
    assert_eq!(total_blocks(&[0, 1, 1024, 1025]), Some(0 + 1 + 1 + 2));
    assert_eq!(total_blocks(&[u64::MAX]), None);
}

#[test]
fn ls_dates() {
    assert!(is_leap_year(2000));
    assert!(!is_leap_year(1900));
    assert!(is_leap_year(2024));
    assert_eq!(days_to_date(0), (1970, 1, 1));
    assert_eq!(days_to_date(59), (1970, 3, 1));
    assert_eq!(days_to_date(365 + 365 + 59), (1972, 2, 29));
    // 2001-09-09 01:46:40 UTC
    assert_eq!(format_mtime(Some(1_000_000_000), 1_000_000_000), "Sep  9 01:46");
    assert_eq!(format_mtime(Some(0), 1_000_000_000), "Jan  1  1970");
    assert_eq!(format_mtime(None, 0), "???");
}

#[test]
fn ls_long_entry_line() {
    let line = long_entry(false, false, 0o644, 1, 1000, 100, 42, "Jan  1  1970", "f.txt", None);
    assert_eq!(line, "-rw-r--r--   1     1000      100       42 Jan  1  1970 f.txt");
    let line = long_entry(false, true, 0o777, 1, 0, 0, 3, "T", "l", Some("target"));
    assert_eq!(line, "lrwxrwxrwx   1        0        0        3 T l -> target");
}

// ---- head / tail ----

#[test]
fn head_and_tail_options() {
    let o = parse_count_args(&strings(&["-n", "5", "a"]), 'n', None).unwrap();
    assert_eq!(o.count, 5);
    assert!(!o.switch);
    assert_eq!(o.files, vec!["a"]);
    let o = parse_count_args(&strings(&["-3", "-n"]), 'n', None);
    assert!(matches!(o, Err(CountUsage::MissingArgument)));
    let o = parse_count_args(&strings(&["-7", "--follow", "x"]), 'f', Some("--follow")).unwrap();
    assert_eq!(o.count, 7);
    assert!(o.switch);
    let o = parse_count_args(&strings(&["-nn"]), 'n', None).unwrap();
    assert!(o.switch);
    assert_eq!(o.count, 10);
    let e = parse_count_args(&strings(&["-n", "x"]), 'n', None).err().unwrap();
    assert_eq!(e.message("head"), "head: invalid number of lines: 'x'");
    let e = parse_count_args(&strings(&["-fz"]), 'f', Some("--follow")).err().unwrap();
    assert_eq!(e.message("tail"), "tail: invalid option -- 'z'");
}

#[test]
fn head_numbers_lines() {
    assert_eq!(head_line("abc\n", 3, true), "     3\tabc\n");
    assert_eq!(head_line("abc\n", 3, false), "abc\n");
}

#[test]
fn tail_keeps_the_last_lines() {
    let mut w = TailWindow::new(2);
    for l in ["1\n", "2\n", "3\n", "4\n"] {
        w.push_line(l);
    }
    assert_eq!(w.lines(), vec!["3\n", "4\n"]);
    let mut w = TailWindow::new(0);
    w.push_line("x\n");
    assert!(w.lines().is_empty());
}

// ---- gzip ----

#[test]
fn crc32_known_value() {
    assert_eq!(crc32(b"123456789"), 0xCBF4_3926);
    assert_eq!(crc32(b""), 0);
}

#[test]
fn gzip_round_trip() {
    let data = b"hello hello hello hello gzip".to_vec();
    let packed = encode_gzip(&data);
    assert_eq!(&packed[..3], &[0x1f, 0x8b, 0x08]);
    assert_eq!(decode_gzip(&packed).unwrap(), data);
    assert_eq!(decode_gzip(&encode_gzip(b"")).unwrap(), Vec::<u8>::new());
}

#[test]
fn gzip_detects_damage() {
    assert!(matches!(decode_gzip(b"short"), Err(GzipError::InvalidStream)));
    let mut packed = encode_gzip(b"some data");
    let n = packed.len();
    packed[n - 8] ^= 1;
    assert!(matches!(decode_gzip(&packed), Err(GzipError::CrcMismatch)));
    let mut packed = encode_gzip(b"some data");
    let n = packed.len();
    packed[n - 1] ^= 1;
    assert!(matches!(decode_gzip(&packed), Err(GzipError::SizeMismatch)));
    assert_eq!(GzipError::CrcMismatch.message(), "gzip: crc mismatch");
}

#[test]
fn gzip_options_and_names() {
    let o = GzipOptions::parse(&strings(&["-d", "a.gz"])).unwrap();
    assert!(o.decompress && !o.to_stdout);
    assert_eq!(GzipOptions::parse(&strings(&["-k"])).err(), Some("-k".to_string()));
    assert_eq!(output_path("a.txt", false), "a.txt.gz");
    assert_eq!(output_path("a.gz", true), "a");
    assert_eq!(output_path("a.gz.gz", true), "a");
    assert_eq!(output_path("a", true), "a.out");
}

// ---- tar ----

#[test]
fn tar_options() {
    let o = TarOptions::parse(&strings(&["-cf", "x.tar", "a", "b"])).unwrap();
    assert!(o.create && !o.extract);
    assert_eq!(o.archive, "x.tar");
    assert_eq!(o.operands, vec!["a", "b"]);
    assert_eq!(TarOptions::parse(&strings(&["-c"])).err(), Some(TarUsage::MissingArchive));
    assert_eq!(TarOptions::parse(&strings(&["-f", "x"])).err(), Some(TarUsage::NotExactlyOneMode));
    assert_eq!(TarOptions::parse(&strings(&["-xz"])).err(), Some(TarUsage::UnsupportedOption('z')));
    assert_eq!(TarOptions::parse(&strings(&["-xf"])).err(), Some(TarUsage::MissingArchiveArgument));
    assert_eq!(TarUsage::MissingArchive.message(), "tar: missing archive path (-f)");
}

#[test]
fn tar_header_layout() {
    let h = build_header("dir/file.txt", 5, 0o644);
    assert_eq!(h.len(), 512);
    assert_eq!(&h[0..12], b"dir/file.txt");
    assert_eq!(h[12], 0);
    assert_eq!(&h[100..108], b"0000644\0");
    assert_eq!(&h[124..136], b"00000000005\0");
    assert_eq!(h[156], b'0');
    assert_eq!(&h[257..265], b"ustar\000");
    let mut copy = h.clone();
    for b in &mut copy[148..156] {
        *b = b' ';
    }
    let sum: u32 = copy.iter().map(|b| *b as u32).sum();
    assert_eq!(read_octal(&h[148..156]), sum as u64);
    assert_eq!(h[154], 0);
    assert_eq!(h[155], b' ');
}

#[test]
fn tar_reads_back_what_it_writes() {
    let mut archive = build_header("a.txt", 3, 0o600);
    archive.extend_from_slice(b"abc");
    archive.extend(std::iter::repeat(0u8).take(padding_len(3)));
    archive.extend(std::iter::repeat(0u8).take(1024));
    let listing = list_entries(&archive);
    assert!(!listing.truncated);
    assert_eq!(listing.entries.len(), 1);
    let e = &listing.entries[0];
    assert_eq!(e.path, "a.txt");
    assert!(!e.is_dir);
    assert_eq!(&archive[e.start..e.end], b"abc");
}

#[test]
fn tar_notices_truncation_and_fields() {
    let mut archive = build_header("a.txt", 600, 0o600);
    archive.extend_from_slice(b"abc");
    let listing = list_entries(&archive);
    assert!(listing.truncated);
    assert!(listing.entries.is_empty());
    assert_eq!(padding_len(0), 0);
    assert_eq!(padding_len(1), 511);
    assert_eq!(padding_len(512), 0);
    assert_eq!(read_string(b"  name \0junk"), "name");
    assert_eq!(read_octal(b" 0017\0"), 15);
    assert_eq!(read_octal(b"zz"), 0);
    assert_eq!(archive_name("//etc/passwd"), "etc/passwd");
}

// ---- switches ----

#[test]
fn switch_tables() {
    let r = parse_switches(&strings(&["-rf", "a", "--interactive", "b"]), &cp_switches()).unwrap();
    assert!(r.has('r') && r.has('f') && r.has('i'));
    assert_eq!(r.operands, vec!["a", "b"]);
    let r = parse_switches(&strings(&["-R", "--", "-f"]), &rm_switches()).unwrap();
    assert!(r.has('r') && !r.has('f'));
    assert_eq!(r.operands, vec!["-f"]);
    assert_eq!(parse_switches(&strings(&["-x"]), &rm_switches()).err(), Some('x'));
    let r = parse_switches(&strings(&["--", "a", "-c"]), &touch_switches()).unwrap();
    assert!(r.has('c'));
    assert_eq!(r.operands, vec!["a"]);
    let r = parse_switches(&strings(&["x", "--", "-P"]), &pwd_switches()).unwrap();
    assert!(!r.has('P'));
    assert!(is_yes("yes\n"));
    assert!(is_yes("Y"));
    assert!(!is_yes("no"));
    assert!(!is_yes(""));
}

// ---- seq / xargs / find ----

#[test]
fn seq_counts_both_ways() {
    assert_eq!(seq_bounds(&strings(&["3"])), Some((1, 3)));
    assert_eq!(seq_bounds(&strings(&["x", "2"])), Some((1, 2)));
    assert_eq!(seq_bounds(&strings(&[])), None);
    let mut c = SeqCounter::new(3, 1);
    let mut got = Vec::new();
    while let Some(v) = c.next_value() {
        got.push(v);
    }
    assert_eq!(got, vec![3, 2, 1]);
    let mut c = SeqCounter::new(i64::MAX - 1, i64::MAX);
    assert_eq!(c.next_value(), Some(i64::MAX - 1));
    assert_eq!(c.next_value(), Some(i64::MAX));
    assert_eq!(c.next_value(), None);
}

#[test]
fn xargs_items_and_command() {
    let o = XargsOptions::parse(&strings(&["-0"]));
    assert!(o.null_delimited);
    assert_eq!(o.command, vec!["echo"]);
    let o = XargsOptions::parse(&strings(&["rm", "-f"]));
    assert!(!o.null_delimited);
    assert_eq!(command_line(&o, &strings(&["a", "b"])), vec!["rm", "-f", "a", "b"]);
    assert_eq!(line_item("  x y \n"), Some("x y".to_string()));
    assert_eq!(line_item(" \n"), None);
    assert_eq!(null_item(b" a b\0"), Some("a b".to_string()));
    assert_eq!(null_item(b"\0"), None);
}

#[test]
fn find_options_and_selection() {
    let o = FindOptions::parse(&strings(&["src", "-name", "*.rs", "-type", "f"])).unwrap();
    assert_eq!(o.start_paths, vec!["src"]);
    assert!(find_selects(&o, true, false, "lib.rs"));
    assert!(!find_selects(&o, true, false, "lib.c"));
    assert!(!find_selects(&o, false, true, "x.rs"));
    assert!(matches!(FindOptions::parse(&strings(&["-name"])), Err(FindUsage::MissingName)));
    let e = FindOptions::parse(&strings(&["-print"])).err().unwrap();
    assert_eq!(e.message(), "find: unsupported option '-print'");
    assert_eq!(normalize_path(b"a/b"), "a/b");
}

#[test]
fn walk_visits_children_in_order() {
    let mut w = PathWalk::new(vec![]);
    assert_eq!(w.next_path(), Some(b".".to_vec()));
    w.push_children(vec![b"./b".to_vec(), b"./a".to_vec(), b"./c".to_vec()]);
    assert_eq!(w.next_path(), Some(b"./a".to_vec()));
    assert_eq!(w.next_path(), Some(b"./b".to_vec()));
    assert_eq!(w.next_path(), Some(b"./c".to_vec()));
    assert_eq!(w.next_path(), None);
}

// ---- text applets ----

#[test]
fn cat_numbers_and_marks() {
    let o = CatOptions::parse(&strings(&["-nE", "f"])).unwrap();
    assert!(o.flags.number_lines && o.flags.show_ends);
    let mut st = CatState::new();
    let out = st.feed(b"a\nb", o.flags);
    let rest = st.finish(o.flags);
    let mut all = out;
    all.extend(rest);
    assert_eq!(all, b"     1\ta$\n     2\tb$\n".to_vec());
    assert_eq!(CatOptions::parse(&strings(&["-z"])).err(), Some('z'));
}

#[test]
fn wc_counts_and_formats() {
    let mut st = WcState::new();
    st.feed("one two\nthree".as_bytes());
    let c = st.finish();
    assert_eq!((c.lines, c.words, c.bytes), (1, 3, 13));
    let show = columns(false, false, false, false);
    assert_eq!(print_counts(c, show, Some("f")), "       1        3       13 f");
    let o = WcOptions::parse(&strings(&["-l", "x"])).unwrap();
    assert!(o.count_lines && !o.count_words);
    assert_eq!(WcOptions::parse(&strings(&["-q"])).err(), Some('q'));
}

#[test]
fn cut_tr_sed() {
    let sel = parse_selection("2-3").unwrap();
    assert_eq!(cut_characters("abcd", &sel), "bc");
    assert_eq!(cut_fields("a:b:c", &parse_selection("2").unwrap(), ':'), "b");
    assert!(parse_selection("x").is_none());
    assert_eq!(tr_output("hello", "[:lower:]", "[:upper:]", false), "HELLO");
    assert_eq!(tr_output("a-z", "a-z", "A-Z", false), "A-Z");
    assert_eq!(tr_output("abc", "abc", "x", false), "xxx");
    assert_eq!(tr_output("hello", "l", "", true), "heo");
    let cmd = parse_substitute_command("s/o/0/g").unwrap();
    assert_eq!(apply_substitute("foo", &cmd), "f00");
    assert!(parse_substitute_command("x/a/b").is_none());
}

#[test]
fn echo_printf_and_files() {
    assert_eq!(echo_output(&strings(&["-n", "a", "b"])), ("a b".to_string(), false));
    assert_eq!(interpret_escape_sequences("a\\tb"), "a\tb");
    assert_eq!(printf_output(&strings(&["%s-%s\\n", "x", "y"])), "x-y\\n");
    assert_eq!(printf_output(&strings(&["%b|%d|%q", "a\\tb", "7"])), "a\tb|7|%q");
    assert_eq!(parse_mode("755"), Some(0o755));
    assert_eq!(parse_owner_spec("1:2"), (Some(1), Some(2)));
    assert_eq!(basename_of("/a/b.txt", Some(".txt")), "b");
    assert_eq!(dirname_of("/a/b"), "/a");
    assert!(matches_name("main.rs", "*.rs"));
    assert_eq!(od_line(16, &[1, 2]), "0000020 001 002 ");
}

#[test]
fn sort_and_uniq() {
    assert_eq!(sort_lines(strings(&["b", "a", "c", "a"])), vec!["a", "a", "b", "c"]);
    assert_eq!(sort_output(strings(&["b", "a", "a"]), true, true), vec!["b", "a"]);
    assert_eq!(strip_line_ending("x\r\n"), "x");
    let mut u = UniqState::new();
    assert_eq!(u.push_line("a", true, false, false), None);
    assert_eq!(u.push_line("a", true, false, false), None);
    assert_eq!(u.push_line("b", true, false, false), Some("   2 a".to_string()));
    assert_eq!(u.finish(true, false, false), Some("   1 b".to_string()));
}
