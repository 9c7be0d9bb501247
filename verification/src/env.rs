//! Terminal and environment detection, resolved once into a `RenderCtx`.

use vstd::prelude::*;

use crate::strs::str_is;

verus! {

/// How `image/png` outputs reach the terminal.
#[derive(Debug, Clone, Copy, PartialEq, Eq, Structural)]
pub enum ImageBackend {
    Kitty,
    ITerm2,
    Placeholder,
}

/// Everything a renderer needs to know about the terminal.
#[derive(Debug, Clone)]
pub struct RenderCtx {
    pub is_tty: bool,
    pub use_color: bool,
    pub width: usize,
    pub image_backend: ImageBackend,
    pub code_theme: String,
}

/// What the environment reports about the terminal. The program's own
/// probe reads the process environment; tests supply fixed answers.
pub trait EnvProbe {
    fn is_tty(&self) -> bool;

    fn no_color(&self) -> bool;

    fn term_program(&self) -> Option<String>;

    fn term(&self) -> Option<String>;

    fn columns(&self) -> Option<usize>;
}

/// A probe with fixed answers.
pub struct TestEnv {
    pub is_tty: bool,
    pub no_color: bool,
    pub term_program: Option<String>,
    pub term: Option<String>,
    pub columns: Option<usize>,
}

fn clone_opt(s: &Option<String>) -> (r: Option<String>)
    ensures
        opt_view(r) == opt_view(*s),
{
    match s {
        Some(x) => Some(x.clone()),
        None => None,
    }
}

impl EnvProbe for TestEnv {
    fn is_tty(&self) -> (r: bool)
        ensures
            r == self.is_tty,
    {
        self.is_tty
    }

    fn no_color(&self) -> (r: bool)
        ensures
            r == self.no_color,
    {
        self.no_color
    }

    fn term_program(&self) -> (r: Option<String>)
        ensures
            opt_view(r) == opt_view(self.term_program),
    {
        clone_opt(&self.term_program)
    }

    fn term(&self) -> (r: Option<String>)
        ensures
            opt_view(r) == opt_view(self.term),
    {
        clone_opt(&self.term)
    }

    fn columns(&self) -> (r: Option<usize>)
        ensures
            r == self.columns,
    {
        self.columns
    }
}

/// An optional string, by its characters.
pub open spec fn opt_view(s: Option<String>) -> Option<Seq<char>> {
    match s {
        Some(x) => Some(x@),
        None => None,
    }
}

/// The theme used when none is asked for.
pub open spec fn default_theme() -> Seq<char> {
    "base16-ocean.dark"@
}

/// The image backend for a terminal: Kitty graphics for Ghostty and Kitty,
/// the iTerm2 protocol for iTerm2, text placeholders everywhere else and
/// whenever images are off or output is not a TTY.
pub open spec fn backend_for(
    no_images: bool,
    is_tty: bool,
    term_program: Option<Seq<char>>,
    term: Option<Seq<char>>,
) -> ImageBackend {
    if no_images || !is_tty {
        ImageBackend::Placeholder
    } else if term_program == Some("ghostty"@) || term == Some("xterm-kitty"@) {
        ImageBackend::Kitty
    } else if term_program == Some("iTerm.app"@) {
        ImageBackend::ITerm2
    } else {
        ImageBackend::Placeholder
    }
}

fn opt_is(s: &Option<String>, lit: &str) -> (r: bool)
    ensures
        r == (opt_view(*s) == Some(lit@)),
{
    match s {
        Some(x) => str_is(x.as_str(), lit),
        None => false,
    }
}

/// Picks the image backend from what the environment reported.
pub fn backend_from(
    no_images: bool,
    is_tty: bool,
    term_program: &Option<String>,
    term: &Option<String>,
) -> (b: ImageBackend)
    ensures
        b == backend_for(no_images, is_tty, opt_view(*term_program), opt_view(*term)),
{
    if no_images || !is_tty {
        ImageBackend::Placeholder
    } else if opt_is(term_program, "ghostty") || opt_is(term, "xterm-kitty") {
        ImageBackend::Kitty
    } else if opt_is(term_program, "iTerm.app") {
        ImageBackend::ITerm2
    } else {
        ImageBackend::Placeholder
    }
}

/// Whether a context is what `resolve_ctx` makes of these answers and flags.
pub open spec fn resolves_to(
    ctx: RenderCtx,
    is_tty: bool,
    env_no_color: bool,
    term_program: Option<Seq<char>>,
    term: Option<Seq<char>>,
    columns: Option<usize>,
    args_no_color: bool,
    args_no_images: bool,
    args_theme: Option<Seq<char>>,
    args_width: Option<usize>,
) -> bool {
    &&& ctx.is_tty == is_tty
    &&& ctx.use_color == (is_tty && !args_no_color && !env_no_color)
    &&& ctx.width == (match args_width {
        Some(w) => w,
        None => match columns {
            Some(c) => c,
            None => 80,
        },
    })
    &&& ctx.image_backend == backend_for(args_no_images, is_tty, term_program, term)
    &&& ctx.code_theme@ == (match args_theme {
        Some(t) => t,
        None => default_theme(),
    })
}

/// Builds the context from the environment's answers and the command-line
/// flags: color only on a TTY with neither `--no-color` nor `NO_COLOR`;
/// width from `--width`, else the terminal, else 80; the backend as
/// `backend_for` picks it; the theme from `--theme`, else the default.
pub fn resolve_ctx(
    is_tty: bool,
    env_no_color: bool,
    term_program: Option<String>,
    term: Option<String>,
    columns: Option<usize>,
    args_no_color: bool,
    args_no_images: bool,
    args_theme: Option<String>,
    args_width: Option<usize>,
) -> (ctx: RenderCtx)
    ensures
        resolves_to(
            ctx,
            is_tty,
            env_no_color,
            opt_view(term_program),
            opt_view(term),
            columns,
            args_no_color,
            args_no_images,
            opt_view(args_theme),
            args_width,
        ),
{
    let use_color = is_tty && !args_no_color && !env_no_color;
    let width = match args_width {
        Some(w) => w,
        None => match columns {
            Some(c) => c,
            None => 80,
        },
    };
    let image_backend = backend_from(args_no_images, is_tty, &term_program, &term);
    let code_theme = match args_theme {
        Some(t) => t,
        None => String::from_str("base16-ocean.dark"),
    };
    RenderCtx { is_tty, use_color, width, image_backend, code_theme }
}

/// Resolves the context from a probe and the command-line flags.
///
/// The probe's answers are not known here, so what is stated is what holds
/// whatever it reports: the flags' own effects, and that every field is
/// what `resolve_ctx` makes of some answers.
pub fn detect_with<E: EnvProbe>(
    env: &E,
    args_no_color: bool,
    args_no_images: bool,
    args_theme: Option<String>,
    args_width: Option<usize>,
) -> (ctx: RenderCtx)
    ensures
        args_no_color ==> !ctx.use_color,
        ctx.use_color ==> ctx.is_tty,
        (args_no_images || !ctx.is_tty) ==> ctx.image_backend == ImageBackend::Placeholder,
        args_width matches Some(w) ==> ctx.width == w,
        ctx.code_theme@ == (match opt_view(args_theme) {
            Some(t) => t,
            None => default_theme(),
        }),
        exists|
            is_tty: bool,
            env_no_color: bool,
            term_program: Option<Seq<char>>,
            term: Option<Seq<char>>,
            columns: Option<usize>,
        |
            resolves_to(
                ctx,
                is_tty,
                env_no_color,
                term_program,
                term,
                columns,
                args_no_color,
                args_no_images,
                opt_view(args_theme),
                args_width,
            ),
{
    let is_tty = env.is_tty();
    let env_no_color = env.no_color();
    let columns = match args_width {
        Some(_) => None,
        None => env.columns(),
    };
    let (term_program, term) = if args_no_images || !is_tty {
        (None, None)
    } else {
        (env.term_program(), env.term())
    };
    let ghost tp = opt_view(term_program);
    let ghost tm = opt_view(term);
    let ghost theme = opt_view(args_theme);
    let ctx = resolve_ctx(
        is_tty,
        env_no_color,
        term_program,
        term,
        columns,
        args_no_color,
        args_no_images,
        args_theme,
        args_width,
    );
    assert(resolves_to(
        ctx,
        is_tty,
        env_no_color,
        tp,
        tm,
        columns,
        args_no_color,
        args_no_images,
        theme,
        args_width,
    ));
    ctx
}

} // verus!
