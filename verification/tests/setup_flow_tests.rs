use nbv::setup::windows::{win_setup_step, PsOutcome, WinAction, WinEvent, WinState};
use nbv::setup::flow::{is_yes, rc_block, setup_step, SetupAction, SetupEvent, SetupStage, SetupState};

fn started(bin: Option<&str>, path: &str, shell: &str, home: Option<&str>) -> SetupEvent {
    SetupEvent::Started {
        bin_dir: bin.map(|s| s.to_string()),
        path_env: path.to_string(),
        shell: shell.to_string(),
        home: home.map(|s| s.to_string()),
    }
}

fn exit_of(a: &SetupAction) -> (i32, String, String) {
    match a {
        SetupAction::Exit { code, out, err } => (*code, out.clone(), err.clone()),
        _ => panic!("expected an exit"),
    }
}

#[test]
fn rc_block_adds_leading_newline_only_when_needed() {
    assert_eq!(rc_block(Some("a"), "L"), "\n# Added by `nbv setup`\nL\n");
    assert_eq!(rc_block(Some("a\n"), "L"), "# Added by `nbv setup`\nL\n");
    assert_eq!(rc_block(Some(""), "L"), "# Added by `nbv setup`\nL\n");
    assert_eq!(rc_block(None, "L"), "# Added by `nbv setup`\nL\n");
}

#[test]
fn answers_are_read_case_insensitively() {
    assert!(is_yes("y\n"));
    assert!(is_yes("  YES "));
    assert!(is_yes("Yes"));
    assert!(!is_yes("n"));
    assert!(!is_yes(""));
    assert!(!is_yes("yess"));
}

#[test]
fn setup_without_binary_dir_fails() {
    let (_, a) = setup_step(SetupState::new(), started(None, "", "/bin/zsh", Some("/h")), false);
    let (code, out, err) = exit_of(&a);
    assert_eq!(code, 1);
    assert_eq!(out, "");
    assert_eq!(err, "nbv setup: could not determine the nbv binary directory\n");
}

#[test]
fn setup_already_in_path_is_a_no_op() {
    let (s, a) = setup_step(SetupState::new(), started(Some("/opt/nbv"), "/usr/bin:/opt/nbv", "/bin/zsh", None), false);
    assert!(matches!(s.stage, SetupStage::Done));
    assert_eq!(exit_of(&a), (0, "'/opt/nbv' is already in PATH. Nothing to do.\n".to_string(), String::new()));
}

#[test]
fn setup_without_home_fails() {
    let (_, a) = setup_step(SetupState::new(), started(Some("/opt/nbv"), "/usr/bin", "/bin/zsh", None), false);
    assert_eq!(exit_of(&a), (1, String::new(), "nbv setup: HOME environment variable is not set\n".to_string()));
}

#[test]
fn setup_unknown_shell_prints_the_line() {
    let (_, a) = setup_step(SetupState::new(), started(Some("/opt/nbv"), "/usr/bin", "/bin/tcsh", Some("/h")), false);
    let (code, _, err) = exit_of(&a);
    assert_eq!(code, 1);
    assert_eq!(
        err,
        "nbv setup: unsupported shell '/bin/tcsh'. Add this line to your shell config manually:\n    export PATH=\"/opt/nbv:$PATH\"\n"
    );
}

#[test]
fn setup_full_dialogue_with_confirmation() {
    let (s, a) = setup_step(SetupState::new(), started(Some("/opt/nbv"), "/usr/bin", "/usr/bin/fish", Some("/h")), false);
    match &a {
        SetupAction::ReadRc { path } => assert_eq!(path, "/h/.config/fish/config.fish"),
        _ => panic!("expected a read"),
    }
    let (s, a) = setup_step(s, SetupEvent::RcRead { content: Some("set x 1".into()) }, false);
    match &a {
        SetupAction::Ask { out } => {
            assert!(out.starts_with("nbv binary directory: /opt/nbv\ndetected shell:       fish\n"));
            assert!(out.contains("    fish_add_path /opt/nbv\n"));
        }
        _ => panic!("expected a question"),
    }
    let (s, a) = setup_step(s, SetupEvent::Answered { accepted: true }, false);
    match &a {
        SetupAction::Append { path, block, .. } => {
            assert_eq!(path, "/h/.config/fish/config.fish");
            assert_eq!(block, "\n# Added by `nbv setup`\nfish_add_path /opt/nbv\n");
        }
        _ => panic!("expected an append"),
    }
    let (_, a) = setup_step(s, SetupEvent::Written { error: None }, false);
    assert_eq!(
        exit_of(&a),
        (0, "\nDone. Open a new terminal or run:\n    source /h/.config/fish/config.fish\n".to_string(), String::new())
    );
}

#[test]
fn setup_declined_aborts() {
    let (s, _) = setup_step(SetupState::new(), started(Some("/b"), "", "/bin/bash", Some("/h")), false);
    let (s, _) = setup_step(s, SetupEvent::RcRead { content: None }, false);
    let (_, a) = setup_step(s, SetupEvent::Answered { accepted: false }, false);
    assert_eq!(exit_of(&a), (0, "Aborted.\n".to_string(), String::new()));
}

#[test]
fn setup_with_yes_appends_without_asking_and_reports_write_errors() {
    let (s, _) = setup_step(SetupState::new(), started(Some("/b"), "", "/bin/bash", Some("/h")), true);
    let (s, a) = setup_step(s, SetupEvent::RcRead { content: None }, true);
    match &a {
        SetupAction::Append { path, block, out } => {
            assert_eq!(path, "/h/.bashrc");
            assert_eq!(block, "# Added by `nbv setup`\nexport PATH=\"/b:$PATH\"\n");
            assert!(out.contains("config file:          /h/.bashrc\n"));
        }
        _ => panic!("expected an append"),
    }
    let (_, a) = setup_step(s, SetupEvent::Written { error: Some("denied".into()) }, true);
    assert_eq!(exit_of(&a), (1, String::new(), "nbv setup: failed to write '/h/.bashrc': denied\n".to_string()));
}

#[test]
fn setup_stops_when_rc_already_references_dir() {
    let (s, _) = setup_step(SetupState::new(), started(Some("/b"), "", "/bin/zsh", Some("/h/")), false);
    let (_, a) = setup_step(s, SetupEvent::RcRead { content: Some("export PATH=\"/b:$PATH\"\n".into()) }, false);
    let (code, out, _) = exit_of(&a);
    assert_eq!(code, 0);
    assert_eq!(out, "'/h/.zshrc' already references '/b'.\nIf nbv is still not found, open a new terminal or run:\n    source /h/.zshrc\n");
}

#[test]
fn windows_setup_dialogue() {
    let start = |bin: Option<&str>, path: &str| WinEvent::Started { bin_dir: bin.map(|s| s.to_string()), path_env: path.to_string() };
    let (_, a) = win_setup_step(WinState::new(), start(Some(r"C:\nbv"), r"C:\x;C:\nbv"), false);
    assert!(matches!(a, WinAction::Exit { code: 0, ref out, .. } if out == "'C:\\nbv' is already in PATH. Nothing to do.\n"));
    let (s, a) = win_setup_step(WinState::new(), start(Some(r"C:\nbv"), r"C:\x"), false);
    assert!(matches!(a, WinAction::Ask { ref out } if out.starts_with("nbv binary directory: C:\\nbv\n")));
    let (s, a) = win_setup_step(s, WinEvent::Answered { accepted: true }, false);
    assert!(matches!(a, WinAction::Persist { ref dir, .. } if dir == r"C:\nbv"));
    let (_, a) = win_setup_step(s, WinEvent::Ran { outcome: PsOutcome::Exited("exit code: 1".into()) }, false);
    match a {
        WinAction::Exit { code, err, .. } => {
            assert_eq!(code, 1);
            assert!(err.starts_with("nbv setup: failed to update user PATH (powershell exited with exit code: 1).\nAdd it manually in PowerShell:\n"));
        }
        _ => panic!("expected an exit"),
    }
    let (_, a) = win_setup_step(WinState::new(), start(None, ""), true);
    assert!(matches!(a, WinAction::Exit { code: 1, .. }));
}
