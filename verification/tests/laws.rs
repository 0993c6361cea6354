use proteus::applets::cat::{CatFlags, CatState};
use proteus::path::base_name;
use proteus::applets::switches::{
    asks_first, lands_inside, plan_transfer, rm_missing_operand, rm_reports_failure, TransferPlan,
};
use proteus::applets::wc::{wc_inputs, wc_label, wc_shows_total, WcCounts};
use proteus::applets::grep::grep_stops_after;
use proteus::applets::headtail::input_header;
use proteus::applets::lines::sort_by_name;
use proteus::path::{is_absolute, join, normalize};
use proteus::regex::{CharClass, ClassItem};
use proteus::sandbox::{Capability, SandboxPolicy, SyscallClass};
use proteus::permissions::PermissionMask;
use proteus::regex::{Regex, RegexSyntax};
use proteus::sandbox::{apply_sandbox_policy, sandbox_report_for, SandboxBackend, SandboxMode, SandboxStep};
use proteus::utf8::{char_count, validate, Utf8Chars};

fn strings(items: &[&str]) -> Vec<String> {
    items.iter().map(|s| s.to_string()).collect()
}

#[test]
fn wc_totals_and_inputs() {
    let a = WcCounts { lines: 1, words: 2, bytes: 3, chars: 3 };
    let b = WcCounts { lines: 4, words: 5, bytes: 6, chars: 5 };
    let t = a.add(b);
    assert_eq!((t.lines, t.words, t.bytes, t.chars), (5, 7, 9, 8));
    assert_eq!(wc_inputs(&Vec::new()), strings(&["-"]));
    assert_eq!(wc_inputs(&strings(&["a", "b"])), strings(&["a", "b"]));
    assert_eq!(wc_label("-"), None);
    assert_eq!(wc_label("f.txt"), Some("f.txt"));
    assert!(!wc_shows_total(1));
    assert!(wc_shows_total(2));
}

#[test]
fn transfer_operands_and_prompts() {
    assert!(matches!(plan_transfer(&strings(&["only"])), TransferPlan::MissingDestination));
    assert!(matches!(plan_transfer(&Vec::new()), TransferPlan::MissingDestination));
    match plan_transfer(&strings(&["a", "b", "dir"])) {
        TransferPlan::Transfer { sources, dest } => {
            assert_eq!(sources, strings(&["a", "b"]));
            assert_eq!(dest, "dir");
        }
        TransferPlan::MissingDestination => panic!("two sources and a destination"),
    }
    assert!(lands_inside(2, false));
    assert!(lands_inside(1, true));
    assert!(!lands_inside(1, false));
    assert!(asks_first(true, false));
    assert!(!asks_first(true, true));
    assert!(!asks_first(false, false));
    assert!(rm_missing_operand(0, false));
    assert!(!rm_missing_operand(0, true));
    assert!(!rm_missing_operand(1, false));
    assert!(rm_reports_failure(false));
    assert!(!rm_reports_failure(true));
}

#[test]
fn absolute_paths() {
    assert!(is_absolute("/usr/lib"));
    assert!(!is_absolute("usr/lib"));
    assert!(!is_absolute(""));
    assert_eq!(join("/usr", "/etc/passwd"), "/etc/passwd");
    assert_eq!(join("a/b", "/c"), "/c");
    assert_eq!(join("a", "b"), "a/b");
}

#[test]
fn report_equals_apply() {
    for applet in ["cat", "chmod", "ls", "no-such-applet"] {
        for mode in [SandboxMode::Off, SandboxMode::Permissive, SandboxMode::Strict] {
            for backend in [SandboxBackend::Seccomp, SandboxBackend::Capsicum, SandboxBackend::Pledge, SandboxBackend::Noop] {
                let r = sandbox_report_for(applet, mode, backend);
                let a = apply_sandbox_policy(applet, mode, backend);
                match (r, a) {
                    (Ok(SandboxStep::Done(x)), Ok(SandboxStep::Done(y))) => assert_eq!(x, y),
                    (
                        Ok(SandboxStep::DropCapabilities { keep: k1, report: x }),
                        Ok(SandboxStep::DropCapabilities { keep: k2, report: y }),
                    ) => {
                        assert_eq!(k1, k2);
                        assert_eq!(x, y);
                    }
                    (Err(e1), Err(e2)) => assert_eq!(e1, e2),
                    _ => panic!("the two results differ in kind"),
                }
            }
        }
    }
}

#[test]
fn applying_a_clause_twice_changes_nothing() {
    for clause in ["u+x", "g-w", "o=r", "a+X", "u=rwX", "go-X", "+t", "u=s"] {
        for start in [0o000u32, 0o644, 0o755, 0o010, 0o7777] {
            let once = PermissionMask::parse_symbolic(clause, start).unwrap().mode;
            let twice = PermissionMask::parse_symbolic(clause, once).unwrap().mode;
            assert_eq!(once, twice, "{clause} from {start:o}");
        }
    }
}

#[test]
fn plain_patterns_match_where_they_occur() {
    for pattern in ["abc", "a", "hello world", "x-y", "é"] {
        let regex = Regex::new(pattern, RegexSyntax::Extended).unwrap();
        for input in ["", "abc", "zzabczz", "ab", "say hello world", "x-y-z", "café", "a"] {
            assert_eq!(regex.is_match(input), input.contains(pattern), "{pattern} in {input}");
        }
    }
}

#[test]
fn decoding_strings_and_damage() {
    let s = "aé€😀";
    let mut it = Utf8Chars::new(s.as_bytes());
    let mut left = s.len();
    for c in s.chars() {
        assert_eq!(it.next_char(), Some(c));
        left -= c.len_utf8();
        assert_eq!(it.remaining(), left);
    }
    assert_eq!(it.next_char(), None);
    assert_eq!(it.next_char(), None);
    let mut cut = Utf8Chars::new(&[0xC3]);
    assert_eq!(cut.next_char(), Some('\u{FFFD}'));
    assert_eq!(cut.remaining(), 0);
    assert_eq!(char_count(s.as_bytes()), 4);
    assert_eq!(char_count("héllo".as_bytes()), 5);
}

#[test]
fn validation_stops_at_the_first_fault() {
    assert_eq!(validate("aé€😀".as_bytes()), Ok(()));
    assert_eq!(validate(&[0x61, 0x80]), Err(1));
    assert_eq!(validate(&[0xE2, 0x82]), Err(0));
    assert_eq!(validate(&[0xFF]), Err(0));
    assert_eq!(validate(&[0x61, 0x62, 0xE2, 0x82, 0xAC, 0xC3]), Err(5));
    assert_eq!(validate(&[0x61, 0x62, 0xE2, 0x82, 0xAC]), Ok(()));
}

#[test]
fn normal_forms() {
    assert_eq!(normalize("a/./b/../c"), "a/c");
    assert_eq!(normalize("/usr//lib/"), "/usr/lib");
    assert_eq!(normalize("../a"), "../a");
    assert_eq!(normalize(""), ".");
    for p in ["a/./b/../c", "/usr//lib/", "../a", "./x/y/", "a/..", "/a/b/../../c"] {
        let once = normalize(p);
        assert_eq!(normalize(&once), once, "{p}");
    }
}

#[test]
fn classes_and_their_negation() {
    let items = vec![ClassItem::Single('x'), ClassItem::Range('a', 'c'), ClassItem::Digit];
    let plain = CharClass::new(false, items.clone());
    let negated = CharClass::new(true, items);
    for c in ['x', 'b', '7', 'z', ' ', 'é'] {
        assert_eq!(negated.matches(c), !plain.matches(c));
    }
    assert!(plain.matches('a') && plain.matches('5') && !plain.matches('d'));
}

#[test]
fn env_listing_and_headers() {
    let vars = vec![
        ("PATH".to_string(), "/bin".to_string()),
        ("A-B".to_string(), "1".to_string()),
        ("A".to_string(), "2".to_string()),
        ("HOME".to_string(), "/root".to_string()),
    ];
    let sorted = sort_by_name(&vars);
    let names: Vec<&str> = sorted.iter().map(|p| p.0.as_str()).collect();
    assert_eq!(names, vec!["A", "A-B", "HOME", "PATH"]);
    assert_eq!(sorted[0].1, "2");
    assert_eq!(input_header(1, 0, "a"), None);
    assert_eq!(input_header(2, 0, "a"), Some("==> a <==".to_string()));
    assert_eq!(input_header(2, 1, "b"), Some("\n==> b <==".to_string()));
    assert!(grep_stops_after(true, true));
    assert!(!grep_stops_after(true, false));
    assert!(!grep_stops_after(false, true));
}

#[test]
fn policies_normalise_their_sets() {
    let mut p = SandboxPolicy::new("x");
    p.syscall_classes = vec![SyscallClass::Time, SyscallClass::ReadOnlyFs, SyscallClass::Time];
    p.capabilities_to_keep = vec![Capability::Kill, Capability::Chown, Capability::Kill];
    let p = p.with_syscalls(&[SyscallClass::Memory, SyscallClass::ReadOnlyFs]);
    assert_eq!(p.syscall_classes, vec![SyscallClass::ReadOnlyFs, SyscallClass::Memory, SyscallClass::Time]);
    let p = p.with_capabilities(&[Capability::SysAdmin]);
    assert_eq!(p.capabilities_to_keep, vec![Capability::SysAdmin, Capability::Chown, Capability::Kill]);
}

#[test]
fn cat_carries_numbering_across_files() {
    let flags = CatFlags { number_lines: true, squeeze_blank: false, show_ends: false, show_tabs: false };
    let mut st = CatState::new();
    let mut out = st.feed(b"one\ntwo", flags);
    out.extend(st.finish(flags));
    assert!(st.pending.is_empty());
    assert_eq!(st.line_number, 3);
    out.extend(st.feed(b"three\n", flags));
    out.extend(st.finish(flags));
    assert_eq!(String::from_utf8(out).unwrap(), "     1\tone\n     2\ttwo\n     3\tthree\n");
}

#[test]
fn file_names_follow_components() {
    assert_eq!(base_name("/usr/bin/"), "bin");
    assert_eq!(base_name("tmp/foo.txt"), "foo.txt");
    assert_eq!(base_name("foo.txt/."), "foo.txt");
    assert_eq!(base_name("foo.txt/.."), "");
    assert_eq!(base_name("/"), "");
}
