use skribo::script::{
    lookup_script, Itemizer, ScriptTable, HB_SCRIPT_COMMON, HB_SCRIPT_INHERITED,
    HB_SCRIPT_UNKNOWN,
};

const LATN: u32 = 0x4C61_746E;
const GREK: u32 = 0x4772_656B;

fn sample_table() -> ScriptTable {
    ScriptTable::new(
        vec![
            (0x20, 0x20),
            (0x61, 0x7A),
            (0x300, 0x36F),
            (0x391, 0x3C9),
        ],
        vec![HB_SCRIPT_COMMON, LATN, HB_SCRIPT_INHERITED, GREK],
    )
    .unwrap()
}

fn runs(text: &str, table: &ScriptTable) -> Vec<(usize, usize, u32)> {
    let mut it = Itemizer::new(text, table);
    let mut out = Vec::new();
    while let Some((range, script)) = it.next() {
        out.push((range.start, range.end, script));
    }
    out
}

#[test]
fn table_rejects_bad_ranges() {
    assert!(ScriptTable::new(vec![(5, 4)], vec![LATN]).is_none());
    assert!(ScriptTable::new(vec![(1, 5), (5, 8)], vec![LATN, GREK]).is_none());
    assert!(ScriptTable::new(vec![(10, 20), (1, 5)], vec![LATN, GREK]).is_none());
    assert!(ScriptTable::new(vec![(1, 5)], vec![LATN, GREK]).is_none());
    assert!(ScriptTable::new(vec![], vec![]).is_some());
    assert_eq!(sample_table().len(), 4);
}

#[test]
fn lookup_finds_ranges_and_boundaries() {
    let t = sample_table();
    assert_eq!(lookup_script(&t, 0x61), LATN);
    assert_eq!(lookup_script(&t, 0x7A), LATN);
    assert_eq!(lookup_script(&t, 0x6D), LATN);
    assert_eq!(lookup_script(&t, 0x20), HB_SCRIPT_COMMON);
    assert_eq!(lookup_script(&t, 0x301), HB_SCRIPT_INHERITED);
    assert_eq!(lookup_script(&t, 0x3B1), GREK);
}

#[test]
fn lookup_gives_unknown_outside_ranges() {
    let t = sample_table();
    assert_eq!(lookup_script(&t, 0x0), HB_SCRIPT_UNKNOWN);
    assert_eq!(lookup_script(&t, 0x5A), HB_SCRIPT_UNKNOWN);
    assert_eq!(lookup_script(&t, 0x7B), HB_SCRIPT_UNKNOWN);
    assert_eq!(lookup_script(&t, 0x10FFFF), HB_SCRIPT_UNKNOWN);
    let empty = ScriptTable::new(vec![], vec![]).unwrap();
    assert_eq!(lookup_script(&empty, 0x61), HB_SCRIPT_UNKNOWN);
}

#[test]
fn unknown_script_tag_is_zzzz() {
    assert_eq!(HB_SCRIPT_UNKNOWN, u32::from_be_bytes(*b"Zzzz"));
    assert_eq!(HB_SCRIPT_COMMON, u32::from_be_bytes(*b"Zyyy"));
    assert_eq!(HB_SCRIPT_INHERITED, u32::from_be_bytes(*b"Zinh"));
}

#[test]
fn itemize_latin_then_greek() {
    let t = sample_table();
    // "ab αβ": the space joins the Latin run; Greek letters take two bytes each.
    assert_eq!(runs("ab \u{3B1}\u{3B2}", &t), vec![(0, 3, LATN), (3, 7, GREK)]);
}

#[test]
fn itemize_leading_common_joins_following_script() {
    let t = sample_table();
    assert_eq!(runs(" a", &t), vec![(0, 2, LATN)]);
    assert_eq!(runs("a \u{3B1} b", &t), vec![(0, 2, LATN), (2, 5, GREK), (5, 6, LATN)]);
}

#[test]
fn itemize_weak_only_text_is_common() {
    let t = sample_table();
    assert_eq!(runs("  ", &t), vec![(0, 2, HB_SCRIPT_COMMON)]);
    assert_eq!(runs("\u{301}", &t), vec![(0, 2, HB_SCRIPT_COMMON)]);
    assert_eq!(runs(" \u{301}", &t), vec![(0, 3, HB_SCRIPT_COMMON)]);
}

#[test]
fn itemize_inherited_mark_stays_in_run() {
    let t = sample_table();
    assert_eq!(runs("a\u{301}\u{3B1}", &t), vec![(0, 3, LATN), (3, 5, GREK)]);
}

#[test]
fn itemize_unknown_characters_form_their_own_run() {
    let t = sample_table();
    assert_eq!(runs("aZ", &t), vec![(0, 1, LATN), (1, 2, HB_SCRIPT_UNKNOWN)]);
    assert_eq!(runs("a\u{1F600}", &t), vec![(0, 1, LATN), (1, 5, HB_SCRIPT_UNKNOWN)]);
}

#[test]
fn itemize_empty_text_has_no_runs() {
    let t = sample_table();
    assert_eq!(runs("", &t), vec![]);
    let mut it = Itemizer::new("", &t);
    assert!(it.next().is_none());
    assert!(it.next().is_none());
}

#[test]
fn itemized_runs_tile_the_text_and_adjacent_scripts_differ() {
    let t = sample_table();
    let text = "ab \u{3B1}\u{301} c, \u{3B3}Z\u{1F600} ";
    let rs = runs(text, &t);
    assert_eq!(rs.first().unwrap().0, 0);
    assert_eq!(rs.last().unwrap().1, text.len());
    for w in rs.windows(2) {
        assert_eq!(w[0].1, w[1].0);
        assert_ne!(w[0].2, w[1].2);
    }
    for r in &rs {
        assert!(r.0 < r.1);
        assert!(!text[r.0..r.1].is_empty());
        assert_ne!(r.2, HB_SCRIPT_INHERITED);
    }
}

#[test]
fn itemizing_twice_gives_the_same_runs() {
    let t = sample_table();
    let text = " \u{301}a\u{3B1}Z";
    assert_eq!(runs(text, &t), runs(text, &t));
    assert_eq!(
        runs(text, &t),
        vec![(0, 4, LATN), (4, 6, GREK), (6, 7, HB_SCRIPT_UNKNOWN)]
    );
}

#[test]
fn itemize_collects_every_run() {
    let t = sample_table();
    let text = "ab \u{3B1}\u{3B2} c";
    let all: Vec<(usize, usize, u32)> = skribo::script::itemize(text, &t)
        .into_iter()
        .map(|(r, s)| (r.start, r.end, s))
        .collect();
    assert_eq!(all, runs(text, &t));
    assert_eq!(all, vec![(0, 3, LATN), (3, 8, GREK), (8, 9, LATN)]);
    assert!(skribo::script::itemize("", &t).is_empty());
}

#[test]
fn itemize_gives_no_more_runs_than_characters() {
    let t = sample_table();
    let text = "a\u{3B1}a\u{3B1}Z";
    let all = skribo::script::itemize(text, &t);
    assert_eq!(all.len(), text.chars().count());
    for (r, _) in &all {
        assert!(text.is_char_boundary(r.start) && text.is_char_boundary(r.end));
    }
}

#[test]
fn common_run_only_when_whole_text_is_weak() {
    let t = sample_table();
    assert_eq!(skribo::script::itemize(" \u{301} ", &t).len(), 1);
    assert_eq!(skribo::script::itemize(" \u{301} ", &t)[0].1, HB_SCRIPT_COMMON);
    assert_eq!(skribo::script::itemize(" \u{301} ", &t)[0].0, 0..4);
    for (_, s) in skribo::script::itemize(" a \u{3B1} ", &t) {
        assert_ne!(s, HB_SCRIPT_COMMON);
    }
}

#[test]
fn none_stays_none() {
    let t = sample_table();
    let mut it = Itemizer::new("ab", &t);
    assert!(it.next().is_some());
    assert!(it.next().is_none());
    assert!(it.next().is_none());
}

#[test]
fn common_item_covers_the_whole_text() {
    let t = sample_table();
    let mut it = Itemizer::new("\u{301} ", &t);
    let (r, s) = it.next().unwrap();
    assert_eq!((r, s), (0..3, HB_SCRIPT_COMMON));
    assert!(it.next().is_none());
    let mut it = Itemizer::new("a \u{3B1} ", &t);
    while let Some((_, s)) = it.next() {
        assert_ne!(s, HB_SCRIPT_COMMON);
    }
}
