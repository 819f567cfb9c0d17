use skribo::script::{ScriptTable, HB_SCRIPT_UNKNOWN};
use skribo::table::CodepointMap;
use skribo::unicode_funcs::{
    unicode_combining_class, unicode_compose, unicode_decompose, unicode_mirror, unicode_script,
};

fn decomp_table() -> CodepointMap<(u32, u32)> {
    CodepointMap::new(vec![0xC0, 0xC1, 0x1E0A], vec![(0x41, 0x300), (0x41, 0x301), (0x44, 0x307)])
        .unwrap()
}

fn mirror_table() -> CodepointMap<u32> {
    CodepointMap::new(vec![0x28, 0x29, 0x3C, 0x3E], vec![0x29, 0x28, 0x3E, 0x3C]).unwrap()
}

#[test]
fn codepoint_map_rejects_unsorted_or_mismatched() {
    assert!(CodepointMap::new(vec![2u32, 1], vec![0u32, 0]).is_none());
    assert!(CodepointMap::new(vec![1u32, 1], vec![0u32, 0]).is_none());
    assert!(CodepointMap::new(vec![1u32], vec![0u32, 0]).is_none());
    assert_eq!(mirror_table().len(), 4);
    assert_eq!(mirror_table().get(0x3C), Some(0x3E));
    assert_eq!(mirror_table().get(0x3D), None);
}

#[test]
fn decompose_hangul_lv_syllable() {
    let t = decomp_table();
    assert_eq!(unicode_decompose(&t, 0xAC00), Some((0x1100, 0x1161)));
    assert_eq!(unicode_decompose(&t, 0xB098), Some((0x1102, 0x1161)));
}

#[test]
fn decompose_hangul_lvt_syllable() {
    let t = decomp_table();
    assert_eq!(unicode_decompose(&t, 0xAC01), Some((0xAC00, 0x11A8)));
    assert_eq!(unicode_decompose(&t, 0xD7A3), Some((0xD788, 0x11C2)));
}

#[test]
fn decompose_from_table() {
    let t = decomp_table();
    assert_eq!(unicode_decompose(&t, 0xC1), Some((0x41, 0x301)));
    assert_eq!(unicode_decompose(&t, 0x1E0A), Some((0x44, 0x307)));
    assert_eq!(unicode_decompose(&t, 0x41), None);
    assert_eq!(unicode_decompose(&t, 0xD7A4), None);
    assert_eq!(unicode_decompose(&t, 0xABFF), None);
}

#[test]
fn mirror_from_table_or_zero() {
    let t = mirror_table();
    assert_eq!(unicode_mirror(&t, 0x28), 0x29);
    assert_eq!(unicode_mirror(&t, 0x3E), 0x3C);
    assert_eq!(unicode_mirror(&t, 0x41), 0);
}

#[test]
fn compose_hangul_pairs() {
    assert_eq!(unicode_compose(0x1100, 0x1161), Some(0xAC00));
    assert_eq!(unicode_compose(0xAC00, 0x11A8), Some(0xAC01));
    assert_eq!(unicode_compose(0xD788, 0x11C2), Some(0xD7A3));
    assert_eq!(unicode_compose(0xAC01, 0x11A8), None);
}

#[test]
fn compose_from_table() {
    assert_eq!(unicode_compose(0x41, 0x301), Some(0xC1));
    assert_eq!(unicode_compose(0x41, 0x300), Some(0xC0));
    assert_eq!(unicode_compose(0x41, 0x42), None);
}

#[test]
fn decompose_then_compose_gives_hangul_syllable_back() {
    let t = decomp_table();
    for ab in [0xAC00u32, 0xAC01, 0xB098, 0xC544, 0xD7A3] {
        let (a, b) = unicode_decompose(&t, ab).unwrap();
        assert_eq!(unicode_compose(a, b), Some(ab));
    }
}

#[test]
fn combining_classes() {
    assert_eq!(unicode_combining_class(0x301), 230);
    assert_eq!(unicode_combining_class(0x316), 220);
    assert_eq!(unicode_combining_class(0x41), 0);
}

#[test]
fn script_callback_uses_table() {
    let t = ScriptTable::new(vec![(0x61, 0x7A)], vec![0x4C61_746E]).unwrap();
    assert_eq!(unicode_script(&t, 0x62), 0x4C61_746E);
    assert_eq!(unicode_script(&t, 0x41), HB_SCRIPT_UNKNOWN);
}

#[test]
fn compose_then_decompose_gives_hangul_pair_back() {
    let t = decomp_table();
    for (a, b) in [(0x1100u32, 0x1161u32), (0x1112, 0x1175), (0xAC00, 0x11A8), (0xD788, 0x11C2)] {
        let ab = unicode_compose(a, b).unwrap();
        assert_eq!(unicode_decompose(&t, ab), Some((a, b)));
    }
}
