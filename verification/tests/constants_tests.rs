#[test]
fn script_tags_match_harfbuzz() {
    assert_eq!(skribo::script::HB_SCRIPT_COMMON, harfbuzz::sys::HB_SCRIPT_COMMON);
    assert_eq!(skribo::script::HB_SCRIPT_INHERITED, harfbuzz::sys::HB_SCRIPT_INHERITED);
    assert_eq!(skribo::script::HB_SCRIPT_UNKNOWN, harfbuzz::sys::HB_SCRIPT_UNKNOWN);
}

#[test]
fn unsafe_to_break_flag_matches_harfbuzz() {
    assert_eq!(
        skribo::shape::HB_GLYPH_FLAG_UNSAFE_TO_BREAK,
        harfbuzz::sys::HB_GLYPH_FLAG_UNSAFE_TO_BREAK
    );
}
