//! Output seam shared by every renderer. `BoxedSink` draws the framed
//! `│ … │` lines used inside notebook cells; `BareSink` emits border-free
//! document lines, prose word-wrapped to the terminal width.

use vstd::prelude::*;

use crate::env::RenderCtx;
use crate::render::frame::{bare_line, bare_line_text, wrap_line, wrap_line_text};
use crate::render::reflow::{reflow_line, reflowed_text};

verus! {

/// A renderer's only way to emit a line. `text_line` is prose that a bare
/// sink may reflow; `raw_line` is pre-formatted (code, table borders, rules)
/// and is never reflowed.
pub trait LineSink {
    /// Everything emitted so far.
    spec fn output(&self) -> Seq<char>;

    /// What one emitted line looks like.
    spec fn line_text(content: Seq<char>, ctx: RenderCtx, raw: bool) -> Seq<char>;

    fn text_line(&mut self, content: &str, ctx: &RenderCtx)
        ensures
            final(self).output() == old(self).output() + Self::line_text(content@, *ctx, false),
    ;

    fn raw_line(&mut self, content: &str, ctx: &RenderCtx)
        ensures
            final(self).output() == old(self).output() + Self::line_text(content@, *ctx, true),
    ;
}

/// Framed output: every line becomes `│ {content} │`, padded/truncated to
/// `ctx.width`, exactly as `frame::wrap_line` draws it.
pub struct BoxedSink {
    out: String,
}

impl BoxedSink {
    /// A sink that appends to `out`.
    pub fn new(out: String) -> (s: BoxedSink)
        ensures
            s.output() == out@,
    {
        BoxedSink { out }
    }

    /// The text with everything emitted appended.
    pub fn into_string(self) -> (r: String)
        ensures
            r@ == self.output(),
    {
        self.out
    }
}

impl LineSink for BoxedSink {
    closed spec fn output(&self) -> Seq<char> {
        self.out@
    }

    open spec fn line_text(content: Seq<char>, ctx: RenderCtx, raw: bool) -> Seq<char> {
        wrap_line_text(content, ctx)
    }

    fn text_line(&mut self, content: &str, ctx: &RenderCtx) {
        wrap_line(content, ctx, &mut self.out);
    }

    fn raw_line(&mut self, content: &str, ctx: &RenderCtx) {
        wrap_line(content, ctx, &mut self.out);
    }
}

/// Border-free output for standalone documents: every line is truncated to
/// `ctx.width`, as `frame::bare_line` writes it.
pub struct BareSink {
    out: String,
}

impl BareSink {
    /// A sink that appends to `out`.
    pub fn new(out: String) -> (s: BareSink)
        ensures
            s.output() == out@,
    {
        BareSink { out }
    }

    /// The text with everything emitted appended.
    pub fn into_string(self) -> (r: String)
        ensures
            r@ == self.output(),
    {
        self.out
    }
}

impl LineSink for BareSink {
    closed spec fn output(&self) -> Seq<char> {
        self.out@
    }

    /// Prose is wrapped to the terminal width; pre-formatted lines are
    /// emitted as they are, cut at the width.
    open spec fn line_text(content: Seq<char>, ctx: RenderCtx, raw: bool) -> Seq<char> {
        if raw {
            bare_line_text(content, ctx)
        } else {
            reflowed_text(content, ctx)
        }
    }

    fn text_line(&mut self, content: &str, ctx: &RenderCtx) {
        reflow_line(content, ctx, &mut self.out);
    }

    fn raw_line(&mut self, content: &str, ctx: &RenderCtx) {
        bare_line(content, ctx, &mut self.out);
    }
}

} // verus!
