//! The integer part of turning HarfBuzz's shaping output into glyphs: which
//! glyph, which cluster, where it goes in font units, and whether the text
//! may be broken before it.

use vstd::prelude::*;

verus! {

/// Glyph flag that marks a glyph before which the text is unsafe to break.
pub const HB_GLYPH_FLAG_UNSAFE_TO_BREAK: u32 = 1;

/// Where HarfBuzz places one glyph: its advance and offset, in the units the
/// font backend reports.
#[derive(Clone, Copy, Debug, PartialEq, Eq, Structural)]
pub struct GlyphPosition {
    pub x_advance: i32,
    pub y_advance: i32,
    pub x_offset: i32,
    pub y_offset: i32,
}

/// What HarfBuzz reports of one glyph besides its position: the glyph id
/// (the info's codepoint after shaping), the cluster it belongs to, and its
/// glyph flags.
#[derive(Clone, Copy, Debug, PartialEq, Eq, Structural)]
pub struct GlyphInfo {
    pub codepoint: u32,
    pub cluster: u32,
    pub flags: u32,
}

/// What a HarfBuzz font was created from: a platform font (CoreText,
/// DirectWrite or FreeType), or the font file's data read by HarfBuzz itself.
#[derive(Clone, Copy, Debug, PartialEq, Eq, Structural)]
pub enum FontLoader {
    CoreText,
    DirectWrite,
    FreeType,
    FontData,
}

/// A HarfBuzz font, by the backend it was created from: that decides the
/// units of the glyph positions it gives.
#[derive(Clone, Copy, Debug, PartialEq, Eq, Structural)]
pub struct HbFont {
    pub loader: FontLoader,
}

/// One shaped glyph, in font units.
#[derive(Clone, Copy, Debug, PartialEq, Eq, Structural)]
pub struct ShapedGlyph {
    pub cluster: u32,
    pub glyph_id: u32,
    pub x_advance: i32,
    pub y_advance: i32,
    pub x_offset: i32,
    pub y_offset: i32,
    pub unsafe_to_break: bool,
}

/// `v` in 26.6 fixed point, rounded down to a whole number.
pub open spec fn from_26_6(v: i32) -> i32 {
    (v as int / 64) as i32
}

/// A position in font units: FreeType reports 26.6 fixed point, which is
/// rounded down to whole units; the other backends report font units.
pub open spec fn font_units_position(loader: FontLoader, pos: GlyphPosition) -> GlyphPosition {
    match loader {
        FontLoader::FreeType => GlyphPosition {
            x_advance: from_26_6(pos.x_advance),
            y_advance: from_26_6(pos.y_advance),
            x_offset: from_26_6(pos.x_offset),
            y_offset: from_26_6(pos.y_offset),
        },
        _ => pos,
    }
}

/// The glyph that HarfBuzz's `info` and `pos` describe, with its position in
/// font units.
pub open spec fn shaped_glyph(loader: FontLoader, info: GlyphInfo, pos: GlyphPosition) -> ShapedGlyph {
    let p = font_units_position(loader, pos);
    ShapedGlyph {
        cluster: info.cluster,
        glyph_id: info.codepoint,
        x_advance: p.x_advance,
        y_advance: p.y_advance,
        x_offset: p.x_offset,
        y_offset: p.y_offset,
        unsafe_to_break: info.flags & HB_GLYPH_FLAG_UNSAFE_TO_BREAK != 0,
    }
}

/// Each field of `r` is the matching field of `pos` in 26.6 fixed point,
/// rounded down: `r * 64 <= v < r * 64 + 64`.
pub open spec fn rounds_down_26_6(pos: GlyphPosition, r: GlyphPosition) -> bool {
    &&& r.x_advance * 64 <= pos.x_advance < r.x_advance * 64 + 64
    &&& r.y_advance * 64 <= pos.y_advance < r.y_advance * 64 + 64
    &&& r.x_offset * 64 <= pos.x_offset < r.x_offset * 64 + 64
    &&& r.y_offset * 64 <= pos.y_offset < r.y_offset * 64 + 64
}

/// FreeType positions are turned into whole font units by rounding each
/// 26.6 fixed-point field down; the other backends' positions are kept.
pub proof fn lemma_font_units_position(loader: FontLoader, pos: GlyphPosition)
    ensures
        loader == FontLoader::FreeType ==> rounds_down_26_6(pos, font_units_position(loader, pos)),
        loader != FontLoader::FreeType ==> font_units_position(loader, pos) == pos,
{
}

/// A shaped glyph keeps the glyph id and cluster of its info, is unsafe to
/// break exactly when the info's flag says so, and has the position in
/// font units: rounded down from 26.6 fixed point for FreeType, unchanged
/// for the other backends.
pub proof fn lemma_shaped_glyph(loader: FontLoader, info: GlyphInfo, pos: GlyphPosition)
    ensures
        shaped_glyph(loader, info, pos).glyph_id == info.codepoint,
        shaped_glyph(loader, info, pos).cluster == info.cluster,
        shaped_glyph(loader, info, pos).unsafe_to_break == (info.flags & 1 != 0),
        loader == FontLoader::FreeType ==> rounds_down_26_6(pos, glyph_position(shaped_glyph(loader, info, pos))),
        loader != FontLoader::FreeType ==> glyph_position(shaped_glyph(loader, info, pos)) == pos,
{
    lemma_font_units_position(loader, pos);
}

/// The position fields of a shaped glyph.
pub open spec fn glyph_position(g: ShapedGlyph) -> GlyphPosition {
    GlyphPosition {
        x_advance: g.x_advance,
        y_advance: g.y_advance,
        x_offset: g.x_offset,
        y_offset: g.y_offset,
    }
}

/// Arithmetic shift right by 6 rounds a 26.6 fixed-point value down.
fn shift_26_6(v: i32) -> (r: i32)
    ensures
        r == from_26_6(v),
{
    let r = v >> 6;
    assert(r as int * 64 <= v as int && (v as int) < r as int * 64 + 64) by (bit_vector)
        requires
            r == v >> 6,
    ;
    r
}

impl HbFont {
    /// The glyph position `pos` in font units.
    pub fn convert_hb_pos(&self, pos: &GlyphPosition) -> (r: GlyphPosition)
        ensures
            r == font_units_position(self.loader, *pos),
            self.loader == FontLoader::FreeType ==> rounds_down_26_6(*pos, r),
            self.loader != FontLoader::FreeType ==> r == *pos,
    {
        proof {
            lemma_font_units_position(self.loader, *pos);
        }
        match self.loader {
            FontLoader::FreeType => GlyphPosition {
                x_advance: shift_26_6(pos.x_advance),
                y_advance: shift_26_6(pos.y_advance),
                x_offset: shift_26_6(pos.x_offset),
                y_offset: shift_26_6(pos.y_offset),
            },
            _ => *pos,
        }
    }
}

/// The glyphs of a shaped buffer: one for each pair of glyph info and glyph
/// position, in order, as far as both lists go.
pub fn shape_glyphs(font: &HbFont, infos: &[GlyphInfo], positions: &[GlyphPosition]) -> (r: Vec<
    ShapedGlyph,
>)
    ensures
        r@.len() == if infos@.len() <= positions@.len() {
            infos@.len()
        } else {
            positions@.len()
        },
        forall|i: int|
            0 <= i < r@.len() ==> #[trigger] r@[i] == shaped_glyph(
                font.loader,
                infos@[i],
                positions@[i],
            ),
        forall|i: int|
            0 <= i < r@.len() ==> {
                &&& (#[trigger] r@[i]).glyph_id == infos@[i].codepoint
                &&& r@[i].cluster == infos@[i].cluster
                &&& r@[i].unsafe_to_break == (infos@[i].flags & 1 != 0)
                &&& font.loader == FontLoader::FreeType ==> rounds_down_26_6(
                    positions@[i],
                    glyph_position(r@[i]),
                )
                &&& font.loader != FontLoader::FreeType ==> glyph_position(r@[i]) == positions@[i]
            },
{
    let n = if infos.len() <= positions.len() {
        infos.len()
    } else {
        positions.len()
    };
    let mut glyphs: Vec<ShapedGlyph> = Vec::new();
    let mut i: usize = 0;
    while i < n
        invariant
            n <= infos@.len(),
            n <= positions@.len(),
            0 <= i <= n,
            glyphs@.len() == i,
            forall|k: int|
                0 <= k < i ==> #[trigger] glyphs@[k] == shaped_glyph(
                    font.loader,
                    infos@[k],
                    positions@[k],
                ),
        decreases n - i,
    {
        let info = infos[i];
        let pos = font.convert_hb_pos(&positions[i]);
        let unsafe_to_break = info.flags & HB_GLYPH_FLAG_UNSAFE_TO_BREAK != 0;
        glyphs.push(
            ShapedGlyph {
                cluster: info.cluster,
                glyph_id: info.codepoint,
                x_advance: pos.x_advance,
                y_advance: pos.y_advance,
                x_offset: pos.x_offset,
                y_offset: pos.y_offset,
                unsafe_to_break,
            },
        );
        i = i + 1;
    }
    assert forall|i: int| 0 <= i < glyphs@.len() implies {
        &&& (#[trigger] glyphs@[i]).glyph_id == infos@[i].codepoint
        &&& glyphs@[i].cluster == infos@[i].cluster
        &&& glyphs@[i].unsafe_to_break == (infos@[i].flags & 1 != 0)
        &&& font.loader == FontLoader::FreeType ==> rounds_down_26_6(
            positions@[i],
            glyph_position(glyphs@[i]),
        )
        &&& font.loader != FontLoader::FreeType ==> glyph_position(glyphs@[i]) == positions@[i]
    } by {
        lemma_shaped_glyph(font.loader, infos@[i], positions@[i]);
    }
    glyphs
}

} // verus!
