use skribo::shape::{
    shape_glyphs, FontLoader, GlyphInfo, GlyphPosition, HbFont, ShapedGlyph,
    HB_GLYPH_FLAG_UNSAFE_TO_BREAK,
};

fn pos(xa: i32, ya: i32, xo: i32, yo: i32) -> GlyphPosition {
    GlyphPosition { x_advance: xa, y_advance: ya, x_offset: xo, y_offset: yo }
}

#[test]
fn freetype_positions_are_26_6_fixed_point() {
    let font = HbFont { loader: FontLoader::FreeType };
    assert_eq!(font.convert_hb_pos(&pos(640, 0, 63, 64)), pos(10, 0, 0, 1));
    assert_eq!(font.convert_hb_pos(&pos(-1, -64, -65, -128)), pos(-1, -1, -2, -2));
}

#[test]
fn other_backends_keep_positions() {
    for loader in [FontLoader::CoreText, FontLoader::DirectWrite, FontLoader::FontData] {
        let font = HbFont { loader };
        assert_eq!(font.convert_hb_pos(&pos(640, -3, 63, 7)), pos(640, -3, 63, 7));
    }
}

#[test]
fn shape_glyphs_pairs_infos_and_positions() {
    let font = HbFont { loader: FontLoader::FreeType };
    let infos = vec![
        GlyphInfo { codepoint: 36, cluster: 0, flags: 0 },
        GlyphInfo { codepoint: 37, cluster: 1, flags: HB_GLYPH_FLAG_UNSAFE_TO_BREAK },
        GlyphInfo { codepoint: 38, cluster: 2, flags: 2 },
    ];
    let positions = vec![pos(640, 0, 0, 0), pos(704, 0, -64, 128)];
    let glyphs = shape_glyphs(&font, &infos, &positions);
    assert_eq!(
        glyphs,
        vec![
            ShapedGlyph {
                cluster: 0,
                glyph_id: 36,
                x_advance: 10,
                y_advance: 0,
                x_offset: 0,
                y_offset: 0,
                unsafe_to_break: false,
            },
            ShapedGlyph {
                cluster: 1,
                glyph_id: 37,
                x_advance: 11,
                y_advance: 0,
                x_offset: -1,
                y_offset: 2,
                unsafe_to_break: true,
            },
        ]
    );
}

#[test]
fn unsafe_to_break_reads_only_its_flag() {
    let font = HbFont { loader: FontLoader::CoreText };
    let infos = vec![
        GlyphInfo { codepoint: 1, cluster: 0, flags: 2 },
        GlyphInfo { codepoint: 2, cluster: 1, flags: 3 },
    ];
    let positions = vec![pos(1, 2, 3, 4), pos(5, 6, 7, 8), pos(9, 9, 9, 9)];
    let glyphs = shape_glyphs(&font, &infos, &positions);
    assert_eq!(glyphs.len(), 2);
    assert!(!glyphs[0].unsafe_to_break);
    assert!(glyphs[1].unsafe_to_break);
    assert_eq!(glyphs[1].x_advance, 5);
    assert_eq!(glyphs[1].y_offset, 8);
}

#[test]
fn shape_glyphs_of_nothing_is_empty() {
    let font = HbFont { loader: FontLoader::FreeType };
    assert!(shape_glyphs(&font, &[], &[pos(1, 1, 1, 1)]).is_empty());
}
