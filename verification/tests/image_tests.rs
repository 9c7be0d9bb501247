use base64::Engine;
use nbv::env::{ImageBackend, RenderCtx};
use nbv::render::image::iterm::ITermRenderer;
use nbv::render::image::kitty::KittyRenderer;
use nbv::render::image::placeholder::PlaceholderRenderer;
use nbv::render::image::png_info::dimensions;
use nbv::render::image::{dispatch, sanitize_base64, ImageRenderer};

const ONE_PIXEL: &str = "iVBORw0KGgoAAAANSUhEUgAAAAEAAAABCAYAAAAfFcSJAAAADUlEQVR42mP8/5+hHgAHggJ/PchI7wAAAABJRU5ErkJggg==";

fn ctx_with(b: ImageBackend) -> RenderCtx {
    RenderCtx {
        is_tty: true,
        use_color: false,
        width: 60,
        image_backend: b,
        code_theme: "base16-ocean.dark".into(),
    }
}

fn render_with(r: &dyn Fn(&mut String) -> bool) -> String {
    let mut s = String::new();
    assert!(r(&mut s));
    s
}

#[test]
fn emits_osc_1337_with_base64() {
    let b64 = "iVBORw0KGgoAAAANS";
    let s = render_with(&|o| ITermRenderer.render(b64, 0, 0, &ctx_with(ImageBackend::ITerm2), o));
    assert!(s.starts_with("\x1b]1337;File=inline=1"));
    assert!(s.contains(b64));
    assert!(s.contains("\x07"));
}

#[test]
fn emits_kitty_apc_with_png_data() {
    let b64 = "iVBORw0KGgoAAAANS";
    let s = render_with(&|o| KittyRenderer.render(b64, 0, 0, &ctx_with(ImageBackend::Kitty), o));
    assert!(s.starts_with("\x1b_G"));
    assert!(s.contains("f=100"));
    assert!(s.contains("a=T"));
    assert!(s.contains(b64));
    assert!(s.ends_with("\x1b\\\n"));
}

#[test]
fn chunks_large_payloads() {
    let big = "A".repeat(5000);
    let s = render_with(&|o| KittyRenderer.render(&big, 0, 0, &ctx_with(ImageBackend::Kitty), o));
    assert!(s.matches("\x1b\\").count() >= 2);
    assert!(s.contains("m=1"));
    assert!(s.contains("m=0"));
}

#[test]
fn empty_b64_does_not_panic() {
    let s = render_with(&|o| KittyRenderer.render("", 0, 0, &ctx_with(ImageBackend::Kitty), o));
    assert!(!s.contains("\x1b_G"));
}

#[test]
fn kitty_chunks_reassemble_the_payload() {
    let big: String = (0..9000).map(|i| if i % 7 == 0 { 'B' } else { 'a' }).collect();
    let s = render_with(&|o| KittyRenderer.render(&big, 0, 0, &ctx_with(ImageBackend::Kitty), o));
    let parts: Vec<&str> = s.trim_end_matches('\n').split("\x1b\\").filter(|p| !p.is_empty()).collect();
    assert_eq!(parts.len(), 3);
    let data: String = parts.iter().map(|p| &p[p.find(';').unwrap() + 1..]).collect();
    assert_eq!(data, big);
    assert!(parts[0].starts_with("\x1b_Gf=100,a=T,m=1;"));
    assert!(parts[1].starts_with("\x1b_Gm=1;"));
    assert!(parts[2].starts_with("\x1b_Gm=0;"));
}

#[test]
fn placeholder_dispatches_to_placeholder() {
    let mut s = String::new();
    dispatch("Z2FyYmFnZQ==", 0, 0, &ctx_with(ImageBackend::Placeholder), &mut s);
    assert!(s.contains("│"));
}

#[test]
fn kitty_dispatches_to_kitty() {
    let mut s = String::new();
    dispatch("Zm9v", 0, 0, &ctx_with(ImageBackend::Kitty), &mut s);
    assert!(s.starts_with("\x1b_G"));
}

#[test]
fn iterm2_dispatches_to_iterm() {
    let mut s = String::new();
    dispatch("Zm9v", 0, 0, &ctx_with(ImageBackend::ITerm2), &mut s);
    assert!(s.starts_with("\x1b]1337;"));
}

#[test]
fn dispatch_strips_injected_escapes_from_iterm2_payload() {
    let mut s = String::new();
    let malicious = "iVBORw\u{001b}]0;PWNED\u{0007}w0KGgo";
    dispatch(malicious, 0, 0, &ctx_with(ImageBackend::ITerm2), &mut s);
    assert!(!s.contains("PWNED"), "injected OSC must not reach terminal output: {s:?}");
}

#[test]
fn dispatch_strips_injected_escapes_from_kitty_payload() {
    let mut s = String::new();
    let malicious = "iVBORw\u{001b}]0;PWNED\u{0007}w0KGgo";
    dispatch(malicious, 0, 0, &ctx_with(ImageBackend::Kitty), &mut s);
    assert!(!s.contains("PWNED"), "injected OSC must not reach terminal output: {s:?}");
}

#[test]
fn dispatch_preserves_valid_base64_payload() {
    let mut s = String::new();
    dispatch(ONE_PIXEL, 0, 0, &ctx_with(ImageBackend::ITerm2), &mut s);
    assert!(s.contains(ONE_PIXEL), "valid base64 must pass through: {s:?}");
}

#[test]
fn sanitized_payload_is_base64_or_empty() {
    assert_eq!(sanitize_base64("not base64!"), "");
    assert_eq!(sanitize_base64("Zm9v"), "Zm9v");
    let s = sanitize_base64(ONE_PIXEL);
    assert!(s.chars().all(|c| c.is_ascii_alphanumeric() || c == '+' || c == '/' || c == '='));
}

#[test]
fn shows_dimensions_for_valid_png() {
    let s = render_with(&|o| PlaceholderRenderer.render(ONE_PIXEL, 3, 0, &ctx_with(ImageBackend::Placeholder), o));
    assert!(s.contains("1×1") || s.contains("1x1") || s.contains("1") && s.contains("PNG"));
    assert!(s.contains("cell #3"));
}

#[test]
fn unknown_format_for_valid_base64_non_png() {
    let s = render_with(&|o| PlaceholderRenderer.render("Z2FyYmFnZQ==", 0, 0, &ctx_with(ImageBackend::Placeholder), o));
    assert!(s.contains("unknown format"));
}

#[test]
fn decode_failed_for_invalid_base64() {
    let s = render_with(&|o| PlaceholderRenderer.render("!!!not-base64!!!", 0, 0, &ctx_with(ImageBackend::Placeholder), o));
    assert!(s.contains("image decode failed"));
}

#[test]
fn placeholder_lines_are_exact() {
    let c = ctx_with(ImageBackend::Placeholder);
    let s = render_with(&|o| PlaceholderRenderer.render(ONE_PIXEL, 2, 5, &c, o));
    let mut want = String::new();
    nbv::render::frame::wrap_line("🖼  PNG 1×1  (0 KB)", &c, &mut want);
    nbv::render::frame::wrap_line("   cell #2, output #5", &c, &mut want);
    assert_eq!(s, want);
}

#[test]
fn reads_1x1_dimensions() {
    let b = base64::engine::general_purpose::STANDARD.decode(ONE_PIXEL).unwrap();
    assert_eq!(dimensions(&b), Some((1, 1)));
}

#[test]
fn rejects_non_png_signature() {
    let b = b"not-a-png-file";
    assert_eq!(dimensions(b), None);
}

#[test]
fn rejects_too_short_bytes() {
    let b = b"\x89PNG";
    assert_eq!(dimensions(b), None);
}

#[test]
fn rejects_missing_ihdr() {
    let mut b = vec![0x89, b'P', b'N', b'G', 0x0d, 0x0a, 0x1a, 0x0a];
    b.extend_from_slice(&[0, 0, 0, 13]);
    b.extend_from_slice(b"XXXX");
    b.extend_from_slice(&[0u8; 13]);
    b.extend_from_slice(&[0u8; 4]);
    assert_eq!(dimensions(&b), None);
}

#[test]
fn reads_big_endian_dimensions() {
    let mut b = vec![0x89, b'P', b'N', b'G', 0x0d, 0x0a, 0x1a, 0x0a, 0, 0, 0, 13];
    b.extend_from_slice(b"IHDR");
    b.extend_from_slice(&[0x00, 0x00, 0x03, 0x20, 0xff, 0xff, 0xff, 0xff]);
    assert_eq!(dimensions(&b), Some((800, u32::MAX)));
}

#[test]
fn reencoding_matches_the_stated_encoding() {
    assert_eq!(sanitize_base64("aGk="), "aGk=");
    assert_eq!(sanitize_base64("YQ=="), "YQ==");
    assert_eq!(sanitize_base64("AAEC/+8="), "AAEC/+8=");
    assert_eq!(sanitize_base64("+/+/"), "+/+/");
    assert_eq!(sanitize_base64(""), "");
}

#[test]
fn kitty_refuses_a_payload_that_is_not_ascii() {
    let c = RenderCtx {
        is_tty: true,
        use_color: false,
        width: 40,
        image_backend: ImageBackend::Kitty,
        code_theme: "base16-ocean.dark".into(),
    };
    let mut out = String::from("x");
    assert!(!KittyRenderer.render("é", 0, 0, &c, &mut out));
    assert_eq!(out, "x");
    assert!(KittyRenderer.render("AA", 0, 0, &c, &mut out));
    assert_eq!(out, "x\x1b_Gf=100,a=T,m=0;AA\x1b\\\n");
}
