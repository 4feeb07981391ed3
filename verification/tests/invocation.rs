use procdrift::invocation::{help_text, invocation, version_line, Invocation, VERSION};

#[test]
fn elevated_replacement_argument_is_strictly_parsed() {
    assert_eq!(
        invocation(vec!["--replace-instance".into(), "42".into()]).unwrap(),
        Invocation::Open(Some(42))
    );
    assert!(invocation(vec!["--replace-instance".into()]).is_err());
    assert!(invocation(vec!["--replace-instance".into(), "x".into()]).is_err());
    assert!(
        invocation(vec!["--replace-instance".into(), "42".into(), "43".into()]).is_err(),
        "a trailing argument must not be ignored"
    );
    assert!(invocation(vec!["--other".into()]).is_err());
}

#[test]
fn no_arguments_opens_the_window() {
    assert_eq!(invocation(Vec::<String>::new()).unwrap(), Invocation::Open(None));
}

#[test]
fn version_and_help_are_answered_instead_of_refused() {
    assert_eq!(
        invocation(vec!["--version".into()]).unwrap(),
        Invocation::Report(version_line())
    );
    assert_eq!(
        invocation(vec!["-v".into()]).unwrap(),
        Invocation::Report(version_line())
    );
    for spelling in ["--help", "-h", "/?"] {
        let Ok(Invocation::Report(text)) = invocation(vec![spelling.to_owned()]) else {
            panic!("{spelling} was not answered");
        };
        assert!(text.starts_with(&version_line()), "{spelling}: {text}");
        assert!(text.contains("--version"), "{spelling} omits --version");
    }
    assert!(invocation(vec!["--version".into(), "extra".into()]).is_err());
    assert!(invocation(vec!["--help".into(), "extra".into()]).is_err());
}

#[test]
fn the_reported_version_is_the_compiled_in_one() {
    assert!(version_line().ends_with(VERSION));
    assert!(help_text().starts_with(&version_line()));
}

#[test]
fn refusals_name_the_argument() {
    assert_eq!(
        invocation(vec!["--other".into()]).unwrap_err(),
        "Unrecognized argument: --other\n\nRun ProcDrift --help for the ones it accepts."
    );
    assert_eq!(
        invocation(vec!["-h".into(), "x".into()]).unwrap_err(),
        "-h takes no further arguments."
    );
    assert_eq!(
        invocation(vec!["--replace-instance".into()]).unwrap_err(),
        "--replace-instance requires a PID"
    );
    assert_eq!(
        invocation(vec!["--replace-instance".into(), "4294967296".into()]).unwrap_err(),
        "--replace-instance PID is invalid"
    );
    assert_eq!(
        invocation(vec!["--replace-instance".into(), "+7".into()]).unwrap(),
        Invocation::Open(Some(7))
    );
    assert_eq!(version_line(), "ProcDrift 1.0.1");
}
