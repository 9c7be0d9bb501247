//! A text stand-in for terminals without a graphics protocol: the image's
//! format, size and place in the notebook.

use vstd::prelude::*;

use crate::env::RenderCtx;
use crate::render::frame::{wrap_line, wrap_line_text};
use crate::render::image::png_info::{dimensions, png_dims};
use crate::render::image::{b64_decode, base64_decoded, ImageRenderer};
use crate::strs::{decimal, push_decimal};

verus! {

pub struct PlaceholderRenderer;

/// `PNG W×H` for a PNG, `image (unknown format)` for anything else.
pub open spec fn size_label(bytes: Seq<u8>) -> Seq<char> {
    match png_dims(bytes) {
        Some((w, h)) => "PNG "@ + decimal(w as nat) + "×"@ + decimal(h as nat),
        None => "image (unknown format)"@,
    }
}

/// The size label of a PNG names the IHDR width first, then the height:
/// the big-endian numbers in bytes 16..20 and 20..24.
pub proof fn lemma_size_label_width_first(b: Seq<u8>)
    requires
        b.len() >= 24,
        b.subrange(0, 8) == crate::render::image::png_info::png_signature(),
        b.subrange(12, 16) == crate::render::image::png_info::ihdr(),
    ensures
        size_label(b) == "PNG "@ + decimal(
            (b[16] as nat) * 16777216 + (b[17] as nat) * 65536 + (b[18] as nat) * 256 + (b[19] as nat),
        ) + "×"@ + decimal((b[20] as nat) * 16777216 + (b[21] as nat) * 65536 + (b[22] as nat) * 256 + (b[23] as nat)),
{
    let w = (b[16] as nat) * 16777216 + (b[17] as nat) * 65536 + (b[18] as nat) * 256 + (b[19] as nat);
    let h = (b[20] as nat) * 16777216 + (b[21] as nat) * 65536 + (b[22] as nat) * 256 + (b[23] as nat);
    assert(w <= 0xffff_ffff);
    assert(h <= 0xffff_ffff);
    assert(crate::render::image::png_info::be32(b, 16) == w);
    assert(crate::render::image::png_info::be32(b, 20) == h);
    assert((w as u32) as nat == w);
    assert((h as u32) as nat == h);
}

/// Two framed lines — the picture glyph, the size label and the size in
/// whole KiB; then where the image sits — or one line when the payload does
/// not decode.
pub open spec fn placeholder_text(b64: Seq<char>, cell_idx: usize, out_idx: usize, ctx: RenderCtx) -> Seq<char> {
    match base64_decoded(b64) {
        None => wrap_line_text("(image decode failed)"@, ctx),
        Some(bytes) => {
            let line1 = "🖼  "@ + size_label(bytes) + "  ("@ + decimal(bytes.len() / 1024) + " KB)"@;
            let line2 = "   cell #"@ + decimal(cell_idx as nat) + ", output #"@ + decimal(
                out_idx as nat,
            );
            wrap_line_text(line1, ctx) + wrap_line_text(line2, ctx)
        },
    }
}

impl ImageRenderer for PlaceholderRenderer {
    open spec fn accepts(&self, b64: Seq<char>) -> bool {
        true
    }

    open spec fn image_text(&self, b64: Seq<char>, cell_idx: usize, out_idx: usize, ctx: RenderCtx) -> Seq<char> {
        placeholder_text(b64, cell_idx, out_idx, ctx)
    }

    fn render(&self, b64: &str, cell_idx: usize, out_idx: usize, ctx: &RenderCtx, out: &mut String) -> bool {
        let bytes = match b64_decode(b64) {
            Some(b) => b,
            None => {
                wrap_line("(image decode failed)", ctx, out);
                return true;
            },
        };
        let mut line1 = String::from_str("🖼  ");
        match dimensions(bytes.as_slice()) {
            Some((w, h)) => {
                line1.append("PNG ");
                push_decimal(&mut line1, w as u64);
                line1.append("×");
                push_decimal(&mut line1, h as u64);
            },
            None => {
                line1.append("image (unknown format)");
            },
        }
        line1.append("  (");
        push_decimal(&mut line1, (bytes.len() / 1024) as u64);
        line1.append(" KB)");
        let mut line2 = String::from_str("   cell #");
        push_decimal(&mut line2, cell_idx as u64);
        line2.append(", output #");
        push_decimal(&mut line2, out_idx as u64);
        proof {
            let bs = bytes@;
            assert(line1@ =~= "🖼  "@ + size_label(bs) + "  ("@ + decimal(bs.len() / 1024) + " KB)"@);
        }
        wrap_line(line1.as_str(), ctx, out);
        wrap_line(line2.as_str(), ctx, out);
        true
    }
}

} // verus!
