//! Unicode property functions that a shaper asks for: canonical combining
//! class, composition, decomposition, mirroring and script.

use crate::script::{lookup_script, ScriptTable};
use crate::table::CodepointMap;
use vstd::prelude::*;
use vstd::utf8::{char_u32_cast, is_scalar};

verus! {

/// First precomposed Hangul syllable (U+AC00).
pub const HANGUL_SYL_BASE: u32 = 0xAC00;

/// Number of precomposed Hangul syllables.
pub const HANGUL_SYL_COUNT: u32 = 11172;

/// First leading consonant jamo (U+1100).
pub const HANGUL_L_BASE: u32 = 0x1100;

/// First vowel jamo (U+1161).
pub const HANGUL_V_BASE: u32 = 0x1161;

/// One before the first trailing consonant jamo (U+11A7).
pub const HANGUL_T_BASE: u32 = 0x11A7;

/// Number of leading consonant jamo.
pub const HANGUL_L_COUNT: u32 = 19;

/// Number of vowel jamo.
pub const HANGUL_V_COUNT: u32 = 21;

/// Number of trailing consonant jamo, counting "no trailing consonant".
pub const HANGUL_T_COUNT: u32 = 28;

/// Number of syllables that share one leading consonant.
pub const HANGUL_N_COUNT: u32 = HANGUL_V_COUNT * HANGUL_T_COUNT;

/// `ab` is a precomposed Hangul syllable.
pub open spec fn is_hangul_syllable(ab: u32) -> bool {
    HANGUL_SYL_BASE <= ab < HANGUL_SYL_BASE + HANGUL_SYL_COUNT
}

/// The canonical decomposition of a Hangul syllable into two parts, by the
/// algorithm of the Unicode standard (section 3.12): an LV syllable splits
/// into its leading consonant and vowel, an LVT syllable into its LV syllable
/// and trailing consonant.
pub open spec fn hangul_decomposition(ab: u32) -> (u32, u32) {
    let s_index = ab - HANGUL_SYL_BASE;
    let t_index = s_index % (HANGUL_T_COUNT as int);
    if t_index == 0 {
        (
            (HANGUL_L_BASE + s_index / (HANGUL_N_COUNT as int)) as u32,
            (HANGUL_V_BASE + (s_index % (HANGUL_N_COUNT as int)) / (HANGUL_T_COUNT as int)) as u32,
        )
    } else {
        ((ab - t_index) as u32, (HANGUL_T_BASE + t_index) as u32)
    }
}

/// The decomposition of a codepoint into two: algorithmic for Hangul
/// syllables, from `table` for all others.
pub open spec fn decomposition(table: &CodepointMap<(u32, u32)>, ab: u32) -> Option<(u32, u32)> {
    if is_hangul_syllable(ab) {
        Some(hangul_decomposition(ab))
    } else {
        table.entry(ab)
    }
}

/// Splits `ab` into the two codepoints of its canonical decomposition.
///
/// Hangul syllables are split algorithmically; other codepoints are looked up
/// in `table`. `None` when `ab` does not decompose.
pub fn unicode_decompose(table: &CodepointMap<(u32, u32)>, ab: u32) -> (r: Option<(u32, u32)>)
    ensures
        r == decomposition(table, ab),
        !(0xAC00 <= ab < 0xD7A4) ==> forall|i: int|
            0 <= i < table.keys().len() && #[trigger] table.keys()[i] == ab ==> r == Some(
                table.values()[i],
            ),
        !(0xAC00 <= ab < 0xD7A4) ==> (r is None <==> forall|i: int|
            0 <= i < table.keys().len() ==> #[trigger] table.keys()[i] != ab),
        0xAC00 <= ab < 0xD7A4 ==> (r matches Some((a, b)) && if (ab - 0xAC00) % 28 == 0 {
            a == 0x1100 + (ab - 0xAC00) / 588 && b == 0x1161 + ((ab - 0xAC00) % 588) / 28
        } else {
            a == ab - (ab - 0xAC00) % 28 && b == 0x11A7 + (ab - 0xAC00) % 28
        }),
{
    if ab >= HANGUL_SYL_BASE && ab < HANGUL_SYL_BASE + HANGUL_SYL_COUNT {
        let syl = ab - HANGUL_SYL_BASE;
        let t = syl % HANGUL_T_COUNT;
        if t == 0 {
            let a = HANGUL_L_BASE + syl / HANGUL_N_COUNT;
            let b = HANGUL_V_BASE + (syl % HANGUL_N_COUNT) / HANGUL_T_COUNT;
            return Some((a, b));
        } else {
            let a = ab - t;
            let b = HANGUL_T_BASE + t;
            return Some((a, b));
        }
    }
    table.get(ab)
}

/// The mirrored counterpart of `unicode` from `table`, or 0 when it has none.
pub fn unicode_mirror(table: &CodepointMap<u32>, unicode: u32) -> (r: u32)
    ensures
        r == (match table.entry(unicode) {
            Some(m) => m,
            None => 0,
        }),
        forall|i: int|
            0 <= i < table.keys().len() && #[trigger] table.keys()[i] == unicode ==> r
                == table.values()[i],
        (forall|i: int| 0 <= i < table.keys().len() ==> #[trigger] table.keys()[i] != unicode) ==> r
            == 0,
{
    match table.get(unicode) {
        Some(m) => m,
        None => 0,
    }
}

/// The script of `unicode`, by `table`.
pub fn unicode_script(table: &ScriptTable, unicode: u32) -> (r: u32)
    ensures
        r == table.script_of(unicode),
{
    lookup_script(table, unicode)
}

/// `a` is a leading consonant jamo and `b` a vowel jamo.
pub open spec fn hangul_lv_pair(a: u32, b: u32) -> bool {
    &&& HANGUL_L_BASE <= a < HANGUL_L_BASE + HANGUL_L_COUNT
    &&& HANGUL_V_BASE <= b < HANGUL_V_BASE + HANGUL_V_COUNT
}

/// `a` is an LV syllable (one without trailing consonant) and `b` a trailing
/// consonant jamo.
pub open spec fn hangul_lvt_pair(a: u32, b: u32) -> bool {
    &&& is_hangul_syllable(a)
    &&& (a - HANGUL_SYL_BASE) % (HANGUL_T_COUNT as int) == 0
    &&& HANGUL_T_BASE < b < HANGUL_T_BASE + HANGUL_T_COUNT
}

/// The syllable that a leading consonant and a vowel compose to.
pub open spec fn hangul_lv_composition(a: u32, b: u32) -> int {
    HANGUL_SYL_BASE + (a - HANGUL_L_BASE) * (HANGUL_N_COUNT as int) + (b - HANGUL_V_BASE) * (
    HANGUL_T_COUNT as int)
}

/// What `unicode_normalization::char::compose` gives for a pair that the Hangul
/// algorithm does not compose: the entry of its composition table.
pub uninterp spec fn table_composition(a: char, b: char) -> Option<char>;

/// The canonical composition of `a` and `b`: algorithmic for Hangul jamo and
/// syllables, from the composition table for all other pairs.
pub open spec fn canonical_composition(a: char, b: char) -> Option<char> {
    let x = a as u32;
    let y = b as u32;
    if hangul_lv_pair(x, y) {
        Some(hangul_lv_composition(x, y) as char)
    } else if hangul_lvt_pair(x, y) {
        Some((x + (y - HANGUL_T_BASE)) as char)
    } else {
        table_composition(a, b)
    }
}

/// Calls `unicode_normalization::char::compose`, whose source first composes
/// Hangul jamo by the Unicode algorithm (`compose_hangul`) and otherwise
/// looks the pair up in its composition table. The contract states the Hangul
/// cases as that source computes them and names the table's answer.
#[verifier::external_body]
fn compose_chars(a: char, b: char) -> (r: Option<char>)
    ensures
        hangul_lv_pair(a as u32, b as u32) ==> r == Some(
            hangul_lv_composition(a as u32, b as u32) as char,
        ),
        hangul_lvt_pair(a as u32, b as u32) ==> r == Some(
            ((a as u32) + ((b as u32) - HANGUL_T_BASE)) as char,
        ),
        !hangul_lv_pair(a as u32, b as u32) && !hangul_lvt_pair(a as u32, b as u32) ==> r
            == table_composition(a, b),
{
    unicode_normalization::char::compose(a, b)
}

/// The canonical combining class that `unicode_normalization` gives `c`.
pub uninterp spec fn combining_class_of(c: char) -> u8;

/// Calls `unicode_normalization::char::canonical_combining_class`, a lookup
/// in the crate's Unicode Character Database tables; its result is named,
/// not stated.
#[verifier::external_body]
fn canonical_combining_class(c: char) -> (r: u8)
    ensures
        r == combining_class_of(c),
{
    unicode_normalization::char::canonical_combining_class(c)
}

/// Calls `char::from_u32`, which the standard library documents to return the
/// `char` of the given value when that value is a Unicode scalar value
/// (at most U+10FFFF and not a surrogate), and `None` otherwise.
#[verifier::external_body]
fn char_from_u32(v: u32) -> (r: Option<char>)
    ensures
        r is Some <==> is_scalar(v),
        r matches Some(c) ==> c as u32 == v,
{
    char::from_u32(v)
}

/// The `char` of a Unicode scalar value.
fn scalar_to_char(v: u32) -> (c: char)
    requires
        is_scalar(v),
    ensures
        c == v as char,
        c as u32 == v,
{
    match char_from_u32(v) {
        Some(c) => {
            proof {
                char_u32_cast(c, v);
            }
            c
        },
        None => {
            proof {
                assert(false);
            }
            '\0'
        },
    }
}

/// The canonical combining class of the character `unicode`.
pub fn unicode_combining_class(unicode: u32) -> (r: u32)
    requires
        is_scalar(unicode),
    ensures
        r == combining_class_of(unicode as char) as u32,
{
    let c = scalar_to_char(unicode);
    let class = canonical_combining_class(c);
    class as u32
}

/// The canonical composition of the characters `a` and `b`, or `None` when
/// the pair does not compose.
pub fn unicode_compose(a: u32, b: u32) -> (r: Option<u32>)
    requires
        is_scalar(a),
        is_scalar(b),
    ensures
        r == (match canonical_composition(a as char, b as char) {
            Some(c) => Some(c as u32),
            None => None::<u32>,
        }),
        0x1100 <= a < 0x1113 && 0x1161 <= b < 0x1176 ==> r == Some(
            (0xAC00 + (a - 0x1100) * 588 + (b - 0x1161) * 28) as u32,
        ),
        0xAC00 <= a < 0xD7A4 && (a - 0xAC00) % 28 == 0 && 0x11A7 < b < 0x11C3 ==> r == Some(
            (a + b - 0x11A7) as u32,
        ),
        !(0x1100 <= a < 0x1113 && 0x1161 <= b < 0x1176) && !(0xAC00 <= a < 0xD7A4 && (a - 0xAC00)
            % 28 == 0 && 0x11A7 < b < 0x11C3) ==> r == (match table_composition(
            a as char,
            b as char,
        ) {
            Some(c) => Some(c as u32),
            None => None::<u32>,
        }),
{
    let ca = scalar_to_char(a);
    let cb = scalar_to_char(b);
    match compose_chars(ca, cb) {
        Some(c) => Some(c as u32),
        None => None,
    }
}

/// Decomposing a Hangul syllable and composing the two parts gives the
/// syllable back.
pub proof fn lemma_hangul_decompose_compose(ab: u32)
    requires
        is_hangul_syllable(ab),
    ensures
        is_scalar(hangul_decomposition(ab).0),
        is_scalar(hangul_decomposition(ab).1),
        canonical_composition(hangul_decomposition(ab).0 as char, hangul_decomposition(ab).1 as char)
            == Some(ab as char),
{
    let s_index: int = ab - HANGUL_SYL_BASE;
    let (a, b) = hangul_decomposition(ab);
    let t_index = s_index % 28;
    if t_index == 0 {
        let l = s_index / 588;
        let v = (s_index % 588) / 28;
        assert(0 <= l < 19 && 0 <= v < 21 && l * 588 + v * 28 == s_index) by (nonlinear_arith)
            requires
                0 <= s_index < 11172,
                s_index % 28 == 0,
                l == s_index / 588,
                v == (s_index % 588) / 28,
        ;
        assert(a == HANGUL_L_BASE + l && b == HANGUL_V_BASE + v);
        assert(a as char as u32 == a);
        assert(b as char as u32 == b);
        assert(hangul_lv_pair(a, b));
        assert(hangul_lv_composition(a, b) == ab);
    } else {
        assert(a == ab - t_index && b == HANGUL_T_BASE + t_index);
        assert((a - HANGUL_SYL_BASE) % 28 == 0) by {
            assert(s_index == 28 * (s_index / 28) + t_index);
        }
        assert(a as char as u32 == a);
        assert(b as char as u32 == b);
        assert(!hangul_lv_pair(a, b));
        assert(hangul_lvt_pair(a, b));
    }
}

/// Composing a Hangul pair and decomposing the result gives the pair back.
pub proof fn lemma_hangul_compose_decompose(a: u32, b: u32)
    requires
        hangul_lv_pair(a, b) || hangul_lvt_pair(a, b),
    ensures
        canonical_composition(a as char, b as char) matches Some(c) && is_hangul_syllable(c as u32)
            && hangul_decomposition(c as u32) == (a, b),
{
    assert(a as char as u32 == a);
    assert(b as char as u32 == b);
    if hangul_lv_pair(a, b) {
        let l: int = a - HANGUL_L_BASE;
        let v: int = b - HANGUL_V_BASE;
        let s_index = l * 588 + v * 28;
        assert(0 <= s_index < 11172 && s_index % 28 == 0 && s_index / 588 == l && (s_index % 588)
            / 28 == v) by (nonlinear_arith)
            requires
                0 <= l < 19,
                0 <= v < 21,
                s_index == l * 588 + v * 28,
        ;
        let c = hangul_lv_composition(a, b);
        assert(c == HANGUL_SYL_BASE + s_index);
        assert(c as char as u32 == c);
    } else {
        let t: int = b - HANGUL_T_BASE;
        let c = a + t;
        let s_index: int = a - HANGUL_SYL_BASE;
        assert(s_index < 11172 - 27) by (nonlinear_arith)
            requires
                0 <= s_index < 11172,
                s_index % 28 == 0,
        ;
        assert((s_index + t) % 28 == t) by (nonlinear_arith)
            requires
                s_index % 28 == 0,
                0 < t < 28,
                s_index >= 0,
        ;
        assert(c as char as u32 == c);
    }
}

/// A codepoint that is not a Hangul syllable decomposes exactly as the
/// decomposition table says: into the table's entry for it, and not at all
/// when the table has none.
pub proof fn lemma_decomposition_outside_hangul(table: &CodepointMap<(u32, u32)>, ab: u32)
    requires
        !(0xAC00 <= ab < 0xD7A4),
    ensures
        decomposition(table, ab) == table.entry(ab),
{
}

/// A Hangul syllable splits by the Unicode algorithm: with no trailing
/// consonant into its leading consonant and vowel, otherwise into the
/// syllable without its trailing consonant and that consonant.
pub proof fn lemma_decomposition_of_hangul(table: &CodepointMap<(u32, u32)>, ab: u32)
    requires
        0xAC00 <= ab < 0xD7A4,
    ensures
        decomposition(table, ab) matches Some((a, b)) && if (ab - 0xAC00) % 28 == 0 {
            a == 0x1100 + (ab - 0xAC00) / 588 && b == 0x1161 + ((ab - 0xAC00) % 588) / 28
        } else {
            a == ab - (ab - 0xAC00) % 28 && b == 0x11A7 + (ab - 0xAC00) % 28
        },
{
}

/// A pair that the Hangul algorithm does not compose composes exactly as the
/// composition table says, whatever the characters' combining classes.
pub proof fn lemma_composition_outside_hangul(a: char, b: char)
    requires
        !(0x1100 <= (a as u32) < 0x1113 && 0x1161 <= (b as u32) < 0x1176),
        !(0xAC00 <= (a as u32) < 0xD7A4 && ((a as u32) - 0xAC00) % 28 == 0 && 0x11A7 < (b as u32)
            < 0x11C3),
    ensures
        canonical_composition(a, b) == table_composition(a, b),
{
}

/// A leading consonant and a vowel compose to the syllable
/// U+AC00 + (L − U+1100) × 588 + (V − U+1161) × 28, and an LV syllable and a
/// trailing consonant T to the syllable plus T − U+11A7.
pub proof fn lemma_composition_of_hangul(a: char, b: char)
    ensures
        0x1100 <= (a as u32) < 0x1113 && 0x1161 <= (b as u32) < 0x1176 ==> (canonical_composition(
            a,
            b,
        ) matches Some(c) && c as u32 == 0xAC00 + ((a as u32) - 0x1100) * 588 + ((b as u32)
            - 0x1161) * 28),
        0xAC00 <= (a as u32) < 0xD7A4 && ((a as u32) - 0xAC00) % 28 == 0 && 0x11A7 < (b as u32)
            < 0x11C3 ==> (canonical_composition(a, b) matches Some(c) && c as u32 == (a as u32) + (
        b as u32) - 0x11A7),
{
    let x = a as u32;
    let y = b as u32;
    if 0x1100 <= x < 0x1113 && 0x1161 <= y < 0x1176 {
        let v = hangul_lv_composition(x, y);
        assert(0xAC00 <= v < 0xD7A4) by (nonlinear_arith)
            requires
                v == 0xAC00 + (x - 0x1100) * 588 + (y - 0x1161) * 28,
                0x1100 <= x < 0x1113,
                0x1161 <= y < 0x1176,
        ;
        assert(v as char as u32 == v);
    }
    if 0xAC00 <= x < 0xD7A4 && (x - 0xAC00) % 28 == 0 && 0x11A7 < y < 0x11C3 {
        let v = x + (y - 0x11A7);
        assert(v < 0xD7A4) by (nonlinear_arith)
            requires
                v == x + (y - 0x11A7),
                0xAC00 <= x < 0xD7A4,
                (x - 0xAC00) % 28 == 0,
                0x11A7 < y < 0x11C3,
        ;
        assert(v as char as u32 == v);
    }
}

} // verus!
