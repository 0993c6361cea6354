use proteus::sandbox::{
    apply_sandbox_policy, default_policy_for, detect_backend, sandbox_report_for, SandboxBackend, SandboxError,
    SandboxMode, SandboxStep, SyscallClass,
};

#[test]
fn returns_policy_for_known_applet() {
    let policy = default_policy_for("cat").unwrap();
    assert_eq!(policy.applet, "cat");
    assert!(policy.syscall_classes.contains(&SyscallClass::ReadOnlyFs));
}

#[test]
fn unknown_applet_returns_none() {
    assert!(default_policy_for("unknown-applet").is_none());
}

#[test]
fn off_mode_returns_noop_report() {
    let step = apply_sandbox_policy("cat", SandboxMode::Off, detect_backend("linux")).unwrap();
    let report = match step {
        SandboxStep::Done(report) => report,
        SandboxStep::DropCapabilities { .. } => panic!("off mode drops nothing"),
    };
    assert_eq!(report.mode, SandboxMode::Off);
    assert!(!report.applied);
}

#[test]
fn backend_detection_returns_known_backend() {
    let backend = detect_backend("linux");
    assert!(matches!(
        backend,
        SandboxBackend::Seccomp | SandboxBackend::Capsicum | SandboxBackend::Pledge | SandboxBackend::Noop
    ));
}

#[test]
fn backend_follows_the_operating_system() {
    assert_eq!(detect_backend("linux"), SandboxBackend::Seccomp);
    assert_eq!(detect_backend("freebsd"), SandboxBackend::Capsicum);
    assert_eq!(detect_backend("openbsd"), SandboxBackend::Pledge);
    assert_eq!(detect_backend("macos"), SandboxBackend::Noop);
}

#[test]
fn unknown_applet_is_an_error() {
    let result = sandbox_report_for("no-such-applet", SandboxMode::Strict, SandboxBackend::Seccomp);
    match result {
        Err(SandboxError::UnknownApplet(name)) => assert_eq!(name, "no-such-applet"),
        _ => panic!("expected an unknown-applet error"),
    }
}

#[test]
fn sandbox_mode_names_round_trip() {
    for mode in [SandboxMode::Strict, SandboxMode::Permissive, SandboxMode::Off] {
        assert_eq!(SandboxMode::parse(mode.name()), Some(mode));
    }
    assert_eq!(SandboxMode::parse("bogus"), None);
}

#[test]
fn error_message_names_the_applet() {
    let e = SandboxError::UnknownApplet("zz".to_string());
    assert_eq!(e.message(), "unknown sandbox applet: zz");
}
