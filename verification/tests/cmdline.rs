use proteus::applets::awk::AwkAction;
use proteus::applets::cat::{CatFlags, CatState};
use proteus::applets::cmdline::{
    id_line, invalid_word_message, parse_mkdir_args, parse_plain_args, parse_target_args, parse_tee_args,
    parse_words, split_assignment, uname_line, MkdirUsage, TargetUsage,
};
use proteus::applets::textopts::{
    parse_awk_args, parse_cut_args, parse_sed_args, parse_tr_args, AwkUsage, CutMode, CutUsage, SedUsage, TrUsage,
};
use proteus::applets::wc::WcState;
use proteus::path::expand_tilde;
use proteus::ProteusError;

fn strings(v: &[&str]) -> Vec<String> {
    v.iter().map(|s| s.to_string()).collect()
}

#[test]
fn exact_word_options() {
    let p = parse_words(&strings(&["-r", "a", "--", "b"]), &["-r", "-u"], true).unwrap();
    assert!(p.has("-r"));
    assert!(!p.has("-u"));
    assert_eq!(p.operands, vec!["a", "b"]);
    assert_eq!(parse_words(&strings(&["--"]), &["-c"], false).err(), Some("--".to_string()));
    assert_eq!(invalid_word_message("uniq", "-x"), "uniq: invalid option -- '-x'");
}

#[test]
fn chmod_chown_chgrp_lines() {
    let p = parse_target_args(&strings(&["-R", "755", "a", "b"]), true).unwrap();
    assert!(p.recursive);
    assert_eq!(p.spec, "755");
    assert_eq!(p.files, vec!["a", "b"]);
    let e = parse_target_args(&strings(&["9z", "a"]), true).err().unwrap();
    assert!(matches!(&e, TargetUsage::InvalidMode(m) if m == "9z"));
    assert_eq!(e.message("chmod"), "chmod: invalid mode: '9z'");
    let e = parse_target_args(&strings(&["--", "755", "a"]), true).err().unwrap();
    assert_eq!(e.message("chmod"), "chmod: missing mode operand");
    let e = parse_target_args(&strings(&["1000"]), false).err().unwrap();
    assert_eq!(e.message("chown"), "chown: missing operand after '1000'");
    let e = parse_target_args(&strings(&["-Rx"]), false).err().unwrap();
    assert_eq!(e.message("chgrp"), "chgrp: invalid option -- 'x'");
}

#[test]
fn mkdir_lines() {
    let p = parse_mkdir_args(&strings(&["-p", "-m", "0700", "d"])).unwrap();
    assert!(p.parents);
    assert_eq!(p.mode, 0o700);
    assert_eq!(p.dirs, vec!["d"]);
    let p = parse_mkdir_args(&strings(&["x"])).unwrap();
    assert_eq!(p.mode, 0o755);
    assert!(matches!(parse_mkdir_args(&strings(&["-m", "0", "d"])), Err(MkdirUsage::InvalidMode(_))));
    assert!(matches!(parse_mkdir_args(&strings(&["-m"])), Err(MkdirUsage::MissingModeArgument)));
    assert!(matches!(parse_mkdir_args(&strings(&[])), Err(MkdirUsage::MissingOperand)));
    assert_eq!(parse_mkdir_args(&strings(&["-q"])).err().unwrap().message(), "mkdir: invalid option -- 'q'");
}

#[test]
fn plain_tee_env_uname_id() {
    assert_eq!(parse_plain_args(&strings(&["--", "a", "-"])).unwrap(), vec!["a", "-"]);
    assert_eq!(parse_plain_args(&strings(&["-xy"])).err(), Some("xy".to_string()));
    assert_eq!(parse_tee_args(&strings(&["f", "-a", "g"])), (true, strings(&["f", "g"])));
    assert_eq!(split_assignment("A=b=c"), Some(("A".to_string(), "b=c".to_string())));
    assert_eq!(split_assignment("cmd"), None);
    assert_eq!(uname_line(false, "linux", "h", "r", "m"), "linux");
    assert_eq!(uname_line(true, "linux", "h", "r", "m"), "linux h r m");
    assert_eq!(id_line(0, 20), "uid=0 gid=20");
}

#[test]
fn cut_tr_sed_awk_lines() {
    let p = parse_cut_args(&strings(&["-f", "2", "-d", ":", "x"])).unwrap();
    assert!(matches!(p.mode, CutMode::Fields(s, ':') if s.start == 2 && s.end == Some(2)));
    assert_eq!(p.files, vec!["x"]);
    assert!(matches!(parse_cut_args(&strings(&["-d", ":"])), Err(CutUsage::DelimiterWithoutFields)));
    assert!(matches!(parse_cut_args(&strings(&["-c", "x"])), Err(CutUsage::NoMode)));
    assert_eq!(parse_cut_args(&strings(&["-z"])).err().unwrap().message(), "cut: invalid option -- '-z'");
    let t = parse_tr_args(&strings(&["-d", "abc", "f"])).unwrap();
    assert!(t.delete && t.set2.is_none());
    assert_eq!(t.files, vec!["f"]);
    assert_eq!(parse_tr_args(&strings(&["a"])).err(), Some(TrUsage::MissingReplacement));
    assert_eq!(parse_tr_args(&strings(&[])).err(), Some(TrUsage::MissingOperand));
    let s = parse_sed_args(&strings(&["s/a/b/", "f"])).unwrap();
    assert_eq!(s.command.pattern, "a");
    assert_eq!(s.files, vec!["f"]);
    assert!(matches!(parse_sed_args(&strings(&["-e"])), Err(SedUsage::MissingArgument)));
    assert!(matches!(parse_sed_args(&strings(&["p"])), Err(SedUsage::Unsupported)));
    let a = parse_awk_args(&strings(&["{print $2}", "f"])).unwrap();
    assert_eq!(a.action, AwkAction::PrintField(2));
    assert!(matches!(parse_awk_args(&strings(&[])), Err(AwkUsage::MissingProgram)));
}

#[test]
fn counting_in_pieces_is_counting_at_once() {
    let text = b"alpha beta\ngamma  delta\n\nepsilon";
    let mut whole = WcState::new();
    whole.feed(text);
    let mut pieces = WcState::new();
    for chunk in text.chunks(3) {
        pieces.feed(chunk);
    }
    let (a, b) = (whole.finish(), pieces.finish());
    assert_eq!((a.lines, a.words, a.bytes, a.chars), (b.lines, b.words, b.bytes, b.chars));
}

#[test]
fn cat_output_does_not_depend_on_reads() {
    let flags = CatFlags { number_lines: true, squeeze_blank: true, show_ends: false, show_tabs: true };
    let text = b"a\tb\n\n\n\nc\nd";
    let mut whole = CatState::new();
    let mut out1 = whole.feed(text, flags);
    out1.extend(whole.finish(flags));
    let mut pieces = CatState::new();
    let mut out2 = Vec::new();
    for chunk in text.chunks(2) {
        out2.extend(pieces.feed(chunk, flags));
    }
    out2.extend(pieces.finish(flags));
    assert_eq!(out1, out2);
    assert_eq!(out1, b"     1\ta^Ib\n\n     2\tc\n     3\td\n".to_vec());
}

#[test]
fn error_messages_and_home() {
    assert_eq!(ProteusError::InvalidArgument("x".to_string()).message(), "invalid argument: x");
    assert_eq!(ProteusError::Other("y".to_string()).message(), "y");
    assert!(ProteusError::Other("y".to_string()).source().is_none());
    assert_eq!(expand_tilde("~/a", Some("/home/u")), "/home/u/a");
    assert_eq!(expand_tilde("~", Some("/home/u")), "/home/u");
    assert_eq!(expand_tilde("~x", Some("/home/u")), "~x");
    assert_eq!(expand_tilde("~/a", None), "~/a");
}
