//! iTerm2's inline image protocol (OSC 1337).

use vstd::prelude::*;

use crate::env::RenderCtx;
use crate::render::image::ImageRenderer;

verus! {

pub struct ITermRenderer;

/// `ESC ] 1337 ; File=inline=1 : {payload} BEL` and a newline.
pub open spec fn iterm_text(b64: Seq<char>) -> Seq<char> {
    "\x1b]1337;File=inline=1:"@ + b64 + "\x07\n"@
}

impl ImageRenderer for ITermRenderer {
    open spec fn accepts(&self, b64: Seq<char>) -> bool {
        true
    }

    open spec fn image_text(&self, b64: Seq<char>, cell_idx: usize, out_idx: usize, ctx: RenderCtx) -> Seq<char> {
        iterm_text(b64)
    }

    fn render(&self, b64: &str, _cell_idx: usize, _out_idx: usize, _ctx: &RenderCtx, out: &mut String) -> bool {
        out.append("\x1b]1337;File=inline=1:");
        out.append(b64);
        out.append("\x07\n");
        true
    }
}

} // verus!
