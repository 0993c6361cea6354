use proteus::regex::{Ast, CharClass, ClassItem, Regex, RegexError, RegexSyntax};

#[test]
fn matches_literal() {
    let regex = Regex::new("abc", RegexSyntax::Extended).unwrap();
    assert!(regex.is_match("abc"));
    assert!(regex.is_match("zabcx"));
    assert!(!regex.is_match("abx"));
}

#[test]
fn matches_any_and_repeat() {
    let regex = Regex::new("a.*c", RegexSyntax::Extended).unwrap();
    assert!(regex.is_match("abc"));
    assert!(regex.is_match("axyzc"));
    assert!(!regex.is_match("abx"));
}

#[test]
fn matches_alternation() {
    let regex = Regex::new("cat|dog", RegexSyntax::Extended).unwrap();
    assert!(regex.is_match("cat"));
    assert!(regex.is_match("dog"));
    assert!(!regex.is_match("cow"));
}

#[test]
fn matches_class_and_range() {
    let regex = Regex::new("[a-c][0-9]", RegexSyntax::Extended).unwrap();
    assert!(regex.is_match("a7"));
    assert!(regex.is_match("c3"));
    assert!(!regex.is_match("d3"));
}

#[test]
fn matches_anchor() {
    let regex = Regex::new("^abc$", RegexSyntax::Extended).unwrap();
    assert!(regex.is_match("abc"));
    assert!(!regex.is_match("zabc"));
    assert!(!regex.is_match("abcz"));
}

#[test]
fn matches_basic_group() {
    let regex = Regex::new("\\(ab\\)*c", RegexSyntax::Basic).unwrap();
    assert!(regex.is_match("abc"));
    assert!(regex.is_match("ababc"));
    assert!(regex.is_match("c"));
}

#[test]
fn parses_ast() {
    let regex = Regex::new("ab+", RegexSyntax::Extended).unwrap();
    assert!(matches!(regex.ast(), Ast::Concat(_)));
}

#[test]
fn reports_parse_errors() {
    assert_eq!(Regex::new("", RegexSyntax::Extended).unwrap_err(), RegexError::EmptyPattern);
    assert_eq!(Regex::new("(ab", RegexSyntax::Extended).unwrap_err(), RegexError::UnclosedGroup);
    assert_eq!(Regex::new("[ab", RegexSyntax::Extended).unwrap_err(), RegexError::UnclosedClass);
    assert_eq!(Regex::new("[z-a]", RegexSyntax::Extended).unwrap_err(), RegexError::InvalidRange('z', 'a'));
    assert_eq!(Regex::new("*a", RegexSyntax::Extended).unwrap_err(), RegexError::UnexpectedToken('*'));
    assert_eq!(Regex::new("a\\", RegexSyntax::Extended).unwrap_err(), RegexError::UnexpectedEnd);
    assert_eq!(Regex::new("[[:nope:]]", RegexSyntax::Extended).unwrap_err(), RegexError::UnexpectedToken('['));
    assert_eq!(Regex::new("a)", RegexSyntax::Basic).unwrap_err(), RegexError::UnexpectedToken(')'));
}

#[test]
fn keeps_syntax() {
    assert_eq!(Regex::new("a", RegexSyntax::Basic).unwrap().syntax(), RegexSyntax::Basic);
    assert_eq!(Regex::new("a", RegexSyntax::Extended).unwrap().syntax(), RegexSyntax::Extended);
}

#[test]
fn matches_posix_and_escape_classes() {
    let regex = Regex::new("[[:digit:]]+x", RegexSyntax::Extended).unwrap();
    assert!(regex.is_match("a12x"));
    assert!(!regex.is_match("ax"));
    let word = Regex::new("\\w\\s\\d", RegexSyntax::Extended).unwrap();
    assert!(word.is_match("_ 7"));
    assert!(!word.is_match("- 7"));
    let negated = Regex::new("^[^abc]$", RegexSyntax::Extended).unwrap();
    assert!(negated.is_match("d"));
    assert!(!negated.is_match("a"));
}

#[test]
fn basic_syntax_treats_plus_and_bar_literally() {
    let regex = Regex::new("a+|b", RegexSyntax::Basic).unwrap();
    assert!(regex.is_match("a+|b"));
    assert!(!regex.is_match("aab"));
    let plus = Regex::new("ab\\+c", RegexSyntax::Basic).unwrap();
    assert!(plus.is_match("abbbc"));
    assert!(!plus.is_match("ac"));
}

#[test]
fn optional_and_anchor_end() {
    let regex = Regex::new("colou?r$", RegexSyntax::Extended).unwrap();
    assert!(regex.is_match("my color"));
    assert!(regex.is_match("colour"));
    assert!(!regex.is_match("colors"));
}

#[test]
fn empty_repeat_does_not_loop() {
    let regex = Regex::new("(a*)*b", RegexSyntax::Extended).unwrap();
    assert!(regex.is_match("aaab"));
    assert!(regex.is_match("b"));
    assert!(!regex.is_match("aaa"));
}

#[test]
fn char_class_matches() {
    let class = CharClass::new(false, vec![ClassItem::Range('a', 'c'), ClassItem::Digit]);
    assert!(class.matches('b'));
    assert!(class.matches('5'));
    assert!(!class.matches('z'));
    let negated = CharClass::new(true, vec![ClassItem::Upper, ClassItem::Space]);
    assert!(negated.matches('a'));
    assert!(!negated.matches('A'));
    assert!(!negated.matches(' '));
    let word = CharClass::new(false, vec![ClassItem::Word, ClassItem::Alpha, ClassItem::Alnum, ClassItem::Lower]);
    assert!(word.matches('_'));
    assert!(word.matches('é'));
    assert!(!word.matches('-'));
}
