use proteus::compliance::{AppletCategory, AppletMetadata, PosixLevel};
use proteus::glob::{matches_path, GlobError};
use proteus::io::buffer_size;
use proteus::locale::Locale;
use proteus::path::{base_name, dir_name, is_absolute, join, normalize};
use proteus::platform::{parse_process_line, parse_process_list, Platform, UnsupportedPlatform};
use proteus::utf8::{char_count, to_lowercase, to_uppercase, validate, Utf8Chars};
use proteus::ProteusError;

#[test]
fn glob_matches_names_and_paths() {
    assert_eq!(proteus::glob::matches("*.rs", "src/lib.rs"), Ok(true));
    assert_eq!(proteus::glob::matches("l?b.rs", "src/lib.rs"), Ok(true));
    assert_eq!(proteus::glob::matches("[a-c]*", "dir/beta"), Ok(true));
    assert_eq!(proteus::glob::matches("[!a-c]*", "dir/beta"), Ok(false));
    assert_eq!(matches_path("src/*.rs", "src/lib.rs"), Ok(true));
    assert_eq!(matches_path("", ""), Ok(true));
    assert!(matches!(matches_path("[abc", "a"), Err(GlobError::InvalidPattern(_))));
}

#[test]
fn utf8_decoding_and_validation() {
    let text = "aé€😀";
    let mut it = Utf8Chars::new(text.as_bytes());
    let mut got = Vec::new();
    while let Some(c) = it.next_char() {
        got.push(c);
    }
    assert_eq!(got, vec!['a', 'é', '€', '😀']);
    assert_eq!(it.remaining(), 0);
    assert_eq!(char_count(text.as_bytes()), 4);
    assert_eq!(validate(text.as_bytes()), Ok(()));
    assert_eq!(validate(&[0x61, 0xff, 0x62]), Err(1));
    assert_eq!(to_uppercase('a'), 'A');
    assert_eq!(to_lowercase('Ä'), 'ä');
    assert_eq!(to_uppercase('1'), '1');
}

#[test]
fn paths() {
    assert_eq!(base_name("/usr/bin/ls"), "ls");
    assert_eq!(base_name("/"), "");
    assert_eq!(dir_name("/usr/bin/ls"), "/usr/bin");
    assert_eq!(dir_name("ls"), "");
    assert_eq!(dir_name("/"), ".");
    assert_eq!(join("/usr", "bin"), "/usr/bin");
    assert_eq!(join("/usr", "/etc"), "/etc");
    assert!(is_absolute("/etc"));
    assert!(!is_absolute("etc"));
    assert_eq!(normalize("/a/./b/../c"), "/a/c");
    assert_eq!(normalize("../x"), "../x");
    assert_eq!(normalize(""), ".");
    assert_eq!(normalize("a/.."), ".");
}

#[test]
fn locale_from_settings() {
    let l = Locale::from_settings(None, Some("tr_TR.UTF-8".to_string()), Some("en_US".to_string()));
    assert_eq!(l.lang, "tr_TR");
    assert_eq!(l.encoding, "UTF-8");
    assert!(l.utf8);
    assert!(l.is_turkish());
    let l = Locale::from_settings(None, None, None);
    assert_eq!(l.lang, "C");
    assert_eq!(l.encoding, "ASCII");
    assert!(!l.utf8);
    let l = Locale::from_settings(Some("de_DE.utf8".to_string()), None, None);
    assert!(l.utf8);
    assert!(!l.is_turkish());
}

#[test]
fn compliance_report() {
    let m = AppletMetadata::new("cat", AppletCategory::Coreutils, PosixLevel::Full, "concatenate", "cat", true);
    let lines = m.to_report_lines();
    assert_eq!(lines[0], "name: cat");
    assert_eq!(lines[1], "category: coreutils");
    assert_eq!(lines[2], "posix_level: FULL");
    assert_eq!(lines[3], "feature_flag: cat");
    assert_eq!(lines[4], "multi_call: yes");
    assert_eq!(lines[5], "description: concatenate");
    assert_eq!(AppletCategory::TextProcessing.as_str(), "text-processing");
    assert_eq!(PosixLevel::Unsupported.as_str(), "NONE");
}

#[test]
fn io_buffer_size() {
    assert_eq!(buffer_size(), 8192);
}

#[test]
fn unsupported_platform_refuses() {
    let p = UnsupportedPlatform;
    assert_eq!(p.name(), "unsupported");
    assert_eq!(p.page_size(), 4096);
    match p.mount("a", "b", "ext4", 0) {
        Err(ProteusError::Other(m)) => assert_eq!(m, "mount is unsupported on this platform"),
        _ => panic!("expected an error"),
    }
    assert!(p.hostname().is_err());
}

#[test]
fn process_table_is_read() {
    let p = parse_process_line("  1   0 S  1024 /sbin/init splash").unwrap();
    assert_eq!(p.pid, 1);
    assert_eq!(p.parent_pid, 0);
    assert_eq!(p.state, "S");
    assert_eq!(p.memory_bytes, 1024 * 1024);
    assert_eq!(p.command, "/sbin/init splash");
    assert!(parse_process_line("1 2 3").is_none());
    let list = parse_process_list(b"1 0 S 4 init\r\nbad\n2 1 R x sh\n");
    assert_eq!(list.len(), 2);
    assert_eq!(list[1].memory_bytes, 0);
    assert_eq!(list[1].command, "sh");
}
