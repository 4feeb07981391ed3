use procdrift::paths::{
    command_executable, expand_environment_with, normalize_path, registry_text, service_executable,
};
use procdrift::state::{JsonValue, Snapshot, State, CURRENT_VERSION};

/// An environment that defines no variables.
fn no_environment(_: &str) -> Option<String> {
    None
}

fn object(members: Vec<(&str, JsonValue)>) -> JsonValue {
    JsonValue::Object(
        members
            .into_iter()
            .map(|(name, value)| (name.to_owned(), value))
            .collect(),
    )
}

fn text(value: &str) -> JsonValue {
    JsonValue::String(value.to_owned())
}

fn legacy(processes: JsonValue) -> JsonValue {
    object(vec![("processes", processes)])
}

fn paths_of(state: &State, name: &str) -> Option<Vec<String>> {
    state
        .snapshot
        .as_ref()?
        .executables
        .iter()
        .find(|(candidate, _)| candidate == name)
        .map(|(_, paths)| paths.clone())
}

#[test]
fn persistence_command_matching_is_quoted_and_exact() {
    assert_eq!(
        command_executable(r#""C:\Program Files\App\app.exe" --quiet"#, no_environment),
        Some(normalize_path(r"c:\program files\app\APP.exe"))
    );
    assert_ne!(
        command_executable(r#""C:\Program Files\App\app-helper.exe" --quiet"#, no_environment),
        Some(normalize_path(r"C:\Program Files\App\app.exe"))
    );
    assert_ne!(
        command_executable(r#"rundll32.exe "C:\Program Files\App\app.exe""#, no_environment),
        Some(normalize_path(r"C:\Program Files\App\app.exe"))
    );
}

#[test]
fn persistence_environment_expansion_preserves_unknown_variables() {
    assert_eq!(
        expand_environment_with(r"%ROOT%\App\app.exe --quiet", |name: &str| {
            if name.eq_ignore_ascii_case("root") {
                Some(r"C:\Root".to_owned())
            } else {
                None
            }
        }),
        r"C:\Root\App\app.exe --quiet"
    );
    assert_eq!(
        expand_environment_with(r"%UNKNOWN%\app.exe", |_: &str| None),
        r"%UNKNOWN%\app.exe"
    );
}

#[test]
fn expansion_keeps_an_unterminated_percent() {
    assert_eq!(
        expand_environment_with("50% of %ROOT", |_: &str| Some("x".to_owned())),
        "50xROOT"
    );
    assert_eq!(
        expand_environment_with("100%", |_: &str| Some("x".to_owned())),
        "100%"
    );
}

#[test]
fn commands_expand_variables_before_picking_the_executable() {
    assert_eq!(
        command_executable(r#""%ROOT%\App\app.exe" --quiet"#, |name: &str| {
            if name == "ROOT" {
                Some(r"C:\Root".to_owned())
            } else {
                None
            }
        }),
        Some(r"c:\root\app\app.exe".to_owned())
    );
    assert_eq!(command_executable("   ", no_environment), None);
    assert_eq!(command_executable(r#""unterminated"#, no_environment), None);
    assert_eq!(
        command_executable("app.exe\t-flag", no_environment),
        Some("app.exe".to_owned())
    );
}

#[test]
fn paths_normalize_to_one_comparison_form() {
    assert_eq!(
        normalize_path(r#"  "C:/Program Files/App/"  "#),
        r"c:\program files\app"
    );
    assert_eq!(normalize_path(""), "");
    assert_eq!(normalize_path(r"\\"), "");
}

#[test]
fn service_image_paths_resolve_nt_prefixes_and_relative_drivers() {
    assert_eq!(
        service_executable(r"\??\C:\Program Files\App\svc.exe", no_environment),
        Some(r"c:\program files\app\svc.exe".to_owned())
    );
    assert_eq!(
        service_executable(r#""C:\Program Files\App\svc.exe" -k netsvcs"#, no_environment),
        Some(r"c:\program files\app\svc.exe".to_owned())
    );
    let relative = service_executable(r"system32\drivers\http.sys", no_environment).unwrap();
    assert!(
        relative.ends_with(r"\system32\drivers\http.sys"),
        "relative driver paths must be anchored to the Windows directory, got {relative}"
    );
    assert!(relative.starts_with("c:\\") || relative.contains(":\\"));
}

#[test]
fn unquoted_service_paths_keep_embedded_spaces() {
    assert_eq!(
        service_executable(r"C:\Program Files\App\svc.exe -k netsvcs", no_environment),
        Some(r"c:\program files\app\svc.exe".to_owned())
    );
    assert_eq!(
        service_executable(r"\SystemRoot\x.sys", |name: &str| {
            if name == "SystemRoot" {
                Some(r"D:\Win\".to_owned())
            } else {
                None
            }
        }),
        Some(r"d:\win\systemroot\x.sys".to_owned())
    );
    assert_eq!(service_executable("   ", no_environment), None);
}

#[test]
fn registry_strings_stop_at_the_terminator() {
    let bytes = [b'a', 0, b'b', 0, 0, 0, b'c', 0];
    assert_eq!(registry_text(&bytes, 8), Some("ab".to_owned()));
    assert_eq!(registry_text(&bytes, 2), Some("a".to_owned()));
    assert_eq!(registry_text(&bytes, 1), None);
    assert_eq!(registry_text(&[0, 0], 2), None);
    assert_eq!(registry_text(&bytes, 100), Some("ab".to_owned()));
}

#[test]
fn v1_import_is_known_snapshot_never_allowed() {
    let root = object(vec![
        ("version", JsonValue::Number),
        ("recorded_at", text("then")),
        (
            "processes",
            object(vec![(
                "A.EXE",
                object(vec![("paths", JsonValue::Array(vec![text("C:/A.exe")]))]),
            )]),
        ),
    ]);
    let state = State::import_v1(&root).unwrap();
    assert_eq!(state.version, 2);
    assert!(state.allowed_paths.is_empty());
    assert!(!state.onboarding_complete);
    assert_eq!(state.snapshot.as_ref().unwrap().recorded_at, "then");
    assert!(paths_of(&state, "a.exe")
        .unwrap()
        .contains(&r"c:\a.exe".to_owned()));
}

#[test]
fn a_file_that_is_not_a_baseline_is_refused_rather_than_adopted() {
    let cases = vec![
        ("empty object", object(vec![])),
        (
            "unrelated json",
            object(vec![
                ("name", text("something else")),
                (
                    "values",
                    JsonValue::Array(vec![
                        JsonValue::Number,
                        JsonValue::Number,
                        JsonValue::Number,
                    ]),
                ),
            ]),
        ),
        (
            "processes is not an object",
            legacy(JsonValue::Array(vec![])),
        ),
        (
            "no process carries a path",
            legacy(object(vec![(
                "a.exe",
                object(vec![("paths", JsonValue::Array(vec![]))]),
            )])),
        ),
        (
            "paths are all blank",
            legacy(object(vec![(
                "a.exe",
                object(vec![("paths", JsonValue::Array(vec![text(""), text("  ")]))]),
            )])),
        ),
    ];
    for (label, body) in cases {
        assert!(
            State::import_v1(&body).is_err(),
            "{label} was accepted as a reference snapshot"
        );
    }
}

#[test]
fn import_errors_say_what_is_missing() {
    assert_eq!(
        State::import_v1(&object(vec![])).unwrap_err(),
        "not a baseline: no 'processes' object"
    );
    assert_eq!(
        State::import_v1(&legacy(object(vec![]))).unwrap_err(),
        "not a baseline: no executable carried a path"
    );
}

#[test]
fn only_newer_state_versions_are_refused() {
    let older = State {
        version: 1,
        snapshot: None,
        allowed_paths: Vec::new(),
        onboarding_complete: false,
    };
    assert!(State::load(older).is_ok());
    let newer = State {
        version: 99,
        snapshot: None,
        allowed_paths: Vec::new(),
        onboarding_complete: false,
    };
    assert_eq!(
        State::load(newer).unwrap_err(),
        "state file was written by a newer version of ProcDrift (state version 99, this build understands 2). Refusing to load it so the existing baseline is not overwritten."
    );
}

#[test]
fn loaded_state_is_normalized() {
    let saved = State {
        version: CURRENT_VERSION,
        snapshot: Some(Snapshot {
            recorded_at: "t".to_owned(),
            executables: vec![(
                "App.EXE".to_owned(),
                vec![r"C:/App/App.exe".to_owned(), "  ".to_owned(), r"c:\app\app.exe".to_owned()],
            )],
        }),
        allowed_paths: vec![r"D:/X.exe".to_owned(), r"d:\x.exe".to_owned(), String::new()],
        onboarding_complete: true,
    };
    let state = State::load(saved).unwrap();
    assert_eq!(state.allowed_paths, vec![r"d:\x.exe".to_owned()]);
    assert_eq!(paths_of(&state, "app.exe"), Some(vec![r"c:\app\app.exe".to_owned()]));
    assert!(state.onboarding_complete);
}

#[test]
fn a_first_run_state_is_current_and_empty() {
    let state = State::default();
    assert_eq!(state.version, CURRENT_VERSION);
    assert!(state.snapshot.is_none());
    assert!(state.allowed_paths.is_empty());
    assert!(!state.onboarding_complete);
}

#[test]
fn service_images_expand_variables_and_default_the_windows_directory() {
    let environment = |name: &str| {
        if name == "SystemRoot" {
            Some(r"D:\Win".to_owned())
        } else {
            None
        }
    };
    assert_eq!(
        service_executable(r#""%SystemRoot%\App\svc.exe" -k"#, environment),
        Some(r"d:\win\app\svc.exe".to_owned())
    );
    assert_eq!(
        service_executable(r"system32\drivers\http.sys", environment),
        Some(r"d:\win\system32\drivers\http.sys".to_owned())
    );
    assert_eq!(
        service_executable(r"system32\drivers\http.sys", no_environment),
        Some(r"c:\windows\system32\drivers\http.sys".to_owned())
    );
    assert_eq!(
        command_executable(r"%TEMP%\a.exe /s", |name: &str| {
            if name == "TEMP" {
                Some(r"C:\T".to_owned())
            } else {
                None
            }
        }),
        Some(r"c:\t\a.exe".to_owned())
    );
}

#[test]
fn paths_compare_the_same_whatever_the_separator_or_ascii_case() {
    let path = r#" "C:\Program Files\App\App.EXE\" "#;
    let normal = normalize_path(path);
    assert_eq!(normalize_path(&path.replace('\\', "/")), normal);
    assert_eq!(normalize_path(&path.to_ascii_uppercase()), normal);
    assert!(!normal.contains('/'));
    assert!(!normal.ends_with('\\'));
    let unknown = r"%A%\b %% c %";
    assert_eq!(expand_environment_with(unknown, no_environment), unknown);
}
