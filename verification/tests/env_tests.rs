use nbv::env::{detect_with, resolve_ctx, ImageBackend, TestEnv};

fn env(
    is_tty: bool,
    no_color: bool,
    term_program: Option<&str>,
    term: Option<&str>,
    columns: Option<usize>,
) -> TestEnv {
    TestEnv {
        is_tty,
        no_color,
        term_program: term_program.map(|s| s.to_string()),
        term: term.map(|s| s.to_string()),
        columns,
    }
}

#[test]
fn ghostty_tty_picks_kitty() {
    let env = env(true, false, Some("ghostty"), Some("xterm-ghostty"), Some(120));
    let ctx = detect_with(&env, false, false, None, None);
    assert_eq!(ctx.image_backend, ImageBackend::Kitty);
    assert!(ctx.use_color);
    assert!(ctx.is_tty);
    assert_eq!(ctx.width, 120);
}

#[test]
fn iterm_tty_picks_iterm2() {
    let env = env(true, false, Some("iTerm.app"), None, None);
    let ctx = detect_with(&env, false, false, None, None);
    assert_eq!(ctx.image_backend, ImageBackend::ITerm2);
    assert_eq!(ctx.width, 80);
}

#[test]
fn kitty_term_var_picks_kitty() {
    let env = env(true, false, None, Some("xterm-kitty"), None);
    let ctx = detect_with(&env, false, false, None, None);
    assert_eq!(ctx.image_backend, ImageBackend::Kitty);
}

#[test]
fn other_terminal_picks_placeholder() {
    let env = env(true, false, Some("Apple_Terminal"), Some("xterm-256color"), None);
    let ctx = detect_with(&env, false, false, None, None);
    assert_eq!(ctx.image_backend, ImageBackend::Placeholder);
}

#[test]
fn non_tty_forces_placeholder_and_no_color() {
    let env = env(false, false, Some("ghostty"), None, None);
    let ctx = detect_with(&env, false, false, None, None);
    assert_eq!(ctx.image_backend, ImageBackend::Placeholder);
    assert!(!ctx.use_color);
}

#[test]
fn no_color_env_var_disables_color() {
    let env = env(true, true, Some("ghostty"), None, None);
    let ctx = detect_with(&env, false, false, None, None);
    assert!(!ctx.use_color);
}

#[test]
fn no_color_flag_overrides() {
    let env = env(true, false, None, None, None);
    let ctx = detect_with(&env, true, false, None, None);
    assert!(!ctx.use_color);
}

#[test]
fn no_images_flag_forces_placeholder() {
    let env = env(true, false, Some("ghostty"), None, None);
    let ctx = detect_with(&env, false, true, None, None);
    assert_eq!(ctx.image_backend, ImageBackend::Placeholder);
}

#[test]
fn theme_arg_overrides_default() {
    let env = env(true, false, Some("ghostty"), None, Some(120));
    let ctx = detect_with(&env, false, false, Some("InspiredGitHub".into()), None);
    assert_eq!(ctx.code_theme, "InspiredGitHub");
}

#[test]
fn default_theme_when_arg_none() {
    let env = env(true, false, Some("ghostty"), None, Some(120));
    let ctx = detect_with(&env, false, false, None, None);
    assert_eq!(ctx.code_theme, "base16-ocean.dark");
}

#[test]
fn width_arg_overrides_env_columns() {
    let env = env(true, false, Some("ghostty"), None, Some(80));
    let ctx = detect_with(&env, false, false, None, Some(120));
    assert_eq!(ctx.width, 120);
}

#[test]
fn width_falls_back_to_env_then_default() {
    let env = env(true, false, None, None, None);
    let ctx = detect_with(&env, false, false, None, None);
    assert_eq!(ctx.width, 80);
}

#[test]
fn resolve_ctx_combines_answers_and_flags() {
    let ctx = resolve_ctx(
        true,
        false,
        Some("iTerm.app".to_string()),
        None,
        Some(100),
        false,
        false,
        None,
        None,
    );
    assert!(ctx.is_tty && ctx.use_color);
    assert_eq!(ctx.width, 100);
    assert_eq!(ctx.image_backend, ImageBackend::ITerm2);
    assert_eq!(ctx.code_theme, "base16-ocean.dark");
    let ctx = resolve_ctx(
        true,
        false,
        Some("ghostty".to_string()),
        None,
        Some(100),
        false,
        true,
        Some("Solarized (dark)".to_string()),
        Some(50),
    );
    assert_eq!(ctx.image_backend, ImageBackend::Placeholder);
    assert_eq!(ctx.width, 50);
    assert_eq!(ctx.code_theme, "Solarized (dark)");
}
