use proteus::permissions::{apply_clause, format_mode, parse_clause, parse_mode, PermissionMask, PermissionOp};
use proteus::ProteusError;

#[test]
fn parses_octal_modes() {
    assert_eq!(PermissionMask::parse_octal("755").unwrap().mode, 0o755);
    assert_eq!(PermissionMask::parse_octal("0644").unwrap().mode, 0o644);
}

#[test]
fn rejects_invalid_octal_modes() {
    assert!(PermissionMask::parse_octal("888").is_err());
    assert!(PermissionMask::parse_octal("12345").is_err());
    assert!(PermissionMask::parse_octal("").is_err());
}

#[test]
fn formats_symbolic_string() {
    assert_eq!(PermissionMask::from_mode(0o755).to_symbolic_string(), "rwxr-xr-x");
    assert_eq!(PermissionMask::from_mode(0o4755).to_symbolic_string(), "rwsr-xr-x");
    assert_eq!(PermissionMask::from_mode(0o1777).to_symbolic_string(), "rwxrwxrwt");
}

#[test]
fn applies_symbolic_add_clause() {
    assert_eq!(parse_mode("u+x", 0o644).unwrap(), 0o744);
    assert_eq!(parse_mode("go-w", 0o776).unwrap(), 0o754);
}

#[test]
fn applies_symbolic_set_clause() {
    assert_eq!(parse_mode("u=rw,g=r,o=", 0o777).unwrap(), 0o640);
}

#[test]
fn applies_conditional_execute() {
    assert_eq!(parse_mode("a+X", 0o644).unwrap(), 0o644);
    assert_eq!(parse_mode("a+X", 0o755).unwrap(), 0o755);
    assert_eq!(parse_mode("g+X", 0o744).unwrap(), 0o754);
}

#[test]
fn formats_octal_string() {
    assert_eq!(PermissionMask::from_mode(0o755).to_octal_string(), "0755");
}

#[test]
fn format_mode_helper_matches_symbolic() {
    assert_eq!(format_mode(0o640), "rw-r-----");
}

#[test]
fn octal_string_reads_back() {
    for mode in [0u32, 0o7, 0o640, 0o755, 0o4755, 0o7777, 0o17777] {
        let text = PermissionMask::from_mode(mode).to_octal_string();
        assert_eq!(PermissionMask::parse_octal(&text).unwrap().mode, mode & 0o7777);
    }
}

#[test]
fn from_mode_masks_high_bits() {
    assert_eq!(PermissionMask::from_mode(0o17777).mode, 0o7777);
    assert_eq!(PermissionMask::default().mode, 0);
}

#[test]
fn special_bits_without_execute_are_upper_case() {
    assert_eq!(format_mode(0o7000), "--S--S--T");
    assert_eq!(format_mode(0o2070), "---rws---");
}

#[test]
fn symbolic_error_messages() {
    match parse_mode("u", 0o644) {
        Err(ProteusError::InvalidArgument(m)) => assert_eq!(m, "missing symbolic operator in mode clause: u"),
        _ => panic!("expected an error"),
    }
    assert_eq!(parse_mode("u+", 0o644).unwrap(), 0o644);
    assert_eq!(parse_mode("a=", 0o777).unwrap(), 0);
    match parse_mode("u*r", 0o644) {
        Err(ProteusError::InvalidArgument(m)) => assert_eq!(m, "invalid symbolic operator in mode clause: u*r"),
        _ => panic!("expected an error"),
    }
    match parse_mode("u+q", 0o644) {
        Err(ProteusError::InvalidArgument(m)) => assert_eq!(m, "invalid symbolic permission in mode clause: u+q"),
        _ => panic!("expected an error"),
    }
    match parse_mode("u+x,,g+w", 0o644) {
        Err(ProteusError::InvalidArgument(m)) => assert_eq!(m, "empty symbolic mode clause"),
        _ => panic!("expected an error"),
    }
    match PermissionMask::parse_octal("9") {
        Err(ProteusError::InvalidArgument(m)) => assert_eq!(m, "invalid octal mode: 9"),
        _ => panic!("expected an error"),
    }
}

#[test]
fn empty_input_is_an_octal_error() {
    assert!(parse_mode("", 0o644).is_err());
}

#[test]
fn set_clause_clears_targets_and_special_bits() {
    assert_eq!(parse_mode("=r", 0o4777).unwrap(), 0o444);
    assert_eq!(parse_mode("u+s,g+s,+t", 0o755).unwrap(), 0o7755);
    assert_eq!(parse_mode("o-rwx", 0o777).unwrap(), 0o770);
}

#[test]
fn clause_parts() {
    let clause: Vec<char> = "go-w".chars().collect();
    let c = parse_clause(&clause).unwrap();
    assert_eq!(c.targets, 0b110);
    assert_eq!(c.op, PermissionOp::Remove);
    assert_eq!(c.perms, 0o022);
    assert_eq!(apply_clause(0o777, c), 0o755);
}
