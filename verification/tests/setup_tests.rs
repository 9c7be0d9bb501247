use nbv::setup::windows::PS_PERSIST;
use nbv::setup::{path_already_includes, rc_already_references, ShellKind};

#[test]
fn detects_zsh() {
    assert_eq!(ShellKind::from_shell_path("/bin/zsh"), ShellKind::Zsh);
    assert_eq!(ShellKind::from_shell_path("/usr/local/bin/zsh"), ShellKind::Zsh);
}

#[test]
fn detects_bash() {
    assert_eq!(ShellKind::from_shell_path("/bin/bash"), ShellKind::Bash);
}

#[test]
fn detects_fish() {
    assert_eq!(ShellKind::from_shell_path("/opt/homebrew/bin/fish"), ShellKind::Fish);
}

#[test]
fn detects_unknown_shell() {
    match ShellKind::from_shell_path("/bin/csh") {
        ShellKind::Unknown(s) => assert_eq!(s, "csh"),
        _ => panic!("expected Unknown"),
    }
    match ShellKind::from_shell_path("") {
        ShellKind::Unknown(s) => assert_eq!(s, ""),
        _ => panic!("expected Unknown for empty"),
    }
}

#[test]
fn rc_paths_match_convention() {
    let h = "/home/u";
    assert_eq!(ShellKind::Zsh.rc_path(h), Some("/home/u/.zshrc".to_string()));
    assert_eq!(ShellKind::Bash.rc_path(h), Some("/home/u/.bashrc".to_string()));
    assert_eq!(ShellKind::Fish.rc_path(h), Some("/home/u/.config/fish/config.fish".to_string()));
    assert_eq!(ShellKind::Unknown("csh".into()).rc_path(h), None);
}

#[test]
fn path_line_formats() {
    let dir = "/u/.cargo/bin";
    assert_eq!(ShellKind::Zsh.path_line(dir), r#"export PATH="/u/.cargo/bin:$PATH""#);
    assert_eq!(ShellKind::Bash.path_line(dir), r#"export PATH="/u/.cargo/bin:$PATH""#);
    assert_eq!(ShellKind::Fish.path_line(dir), "fish_add_path /u/.cargo/bin");
}

#[test]
fn path_already_includes_exact_segment() {
    assert!(path_already_includes("/foo:/bar:/baz", "/bar"));
    assert!(path_already_includes("/bar", "/bar"));
    assert!(!path_already_includes("/foo:/barz:/baz", "/bar"));
    assert!(!path_already_includes("", "/bar"));
}

#[test]
fn rc_already_references_matches_substring() {
    assert!(rc_already_references("export PATH=\"/home/u/.cargo/bin:$PATH\"\n", "/home/u/.cargo/bin"));
    assert!(!rc_already_references("export PATH=\"/usr/local/bin:$PATH\"\n", "/home/u/.cargo/bin"));
}

#[test]
fn path_already_includes_detects_exact_entry() {
    let sep = ':';
    let dir = "/bar";
    let foo = "/foo";
    let barz = "/barz";
    let path_env = format!("{foo}{sep}{dir}{sep}{barz}");
    assert!(path_already_includes(&path_env, dir));
    assert!(!path_already_includes(barz, dir));
    assert!(!path_already_includes("", dir));
}

#[test]
fn ps_persist_has_expected_shape() {
    assert!(PS_PERSIST.contains("SetEnvironmentVariable"));
    assert!(PS_PERSIST.contains("-notcontains"));
    assert!(PS_PERSIST.contains("'Path'"));
    assert!(PS_PERSIST.contains("'User'"));
    assert!(PS_PERSIST.contains("$env:NBV_SETUP_DIR"));
}

#[test]
fn shell_names_and_trailing_slash_homes() {
    assert_eq!(ShellKind::Unknown("tcsh".into()).name(), "tcsh");
    assert_eq!(ShellKind::Fish.name(), "fish");
    assert_eq!(ShellKind::Zsh.rc_path("/root/"), Some("/root/.zshrc".to_string()));
    assert!(path_already_includes("/a::/b", ""));
    assert!(path_already_includes("/a:", ""));
    assert_eq!(ShellKind::from_shell_path("zsh"), ShellKind::Zsh);
    assert_eq!(ShellKind::from_shell_path("/bin/zsh/"), ShellKind::Unknown(String::new()));
}
