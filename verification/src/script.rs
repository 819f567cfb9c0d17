//! Script lookup for codepoints and itemization of text into script runs.

use crate::ranges::tiles;
use std::ops::Range;
use vstd::prelude::*;
use vstd::string::StringSliceAdditionalSpecFns;
use vstd::utf8::{
    char_is_scalar, encode_scalar, encode_utf8, encode_utf8_first_scalar, encode_utf8_valid_utf8,
    is_char_boundary, pop_first_scalar,
};

verus! {

/// Script tag for characters used by several scripts (`Zyyy`).
pub const HB_SCRIPT_COMMON: u32 = 1517910393;

/// Script tag for combining characters that inherit the script of their base (`Zinh`).
pub const HB_SCRIPT_INHERITED: u32 = 1516858984;

/// Script tag for characters whose script is not known (`Zzzz`).
pub const HB_SCRIPT_UNKNOWN: u32 = 1517976186;

/// True when the inclusive codepoint range `r` holds `q`.
pub open spec fn range_holds(r: (u32, u32), q: u32) -> bool {
    r.0 <= q <= r.1
}

/// A script table is a list of non-empty inclusive codepoint ranges in increasing
/// order, none overlapping, each with the script of its codepoints.
pub open spec fn well_formed_ranges(ranges: Seq<(u32, u32)>, scripts: Seq<u32>) -> bool {
    &&& ranges.len() == scripts.len()
    &&& forall|i: int| 0 <= i < ranges.len() ==> (#[trigger] ranges[i]).0 <= ranges[i].1
    &&& forall|i: int, j: int|
        0 <= i < j < ranges.len() ==> (#[trigger] ranges[i]).1 < (#[trigger] ranges[j]).0
}

/// The script that a table gives a codepoint: that of the range holding it,
/// or `HB_SCRIPT_UNKNOWN` where no range does.
pub open spec fn script_in(ranges: Seq<(u32, u32)>, scripts: Seq<u32>, q: u32) -> u32 {
    if exists|i: int| 0 <= i < ranges.len() && range_holds(#[trigger] ranges[i], q) {
        scripts[choose|i: int| 0 <= i < ranges.len() && range_holds(#[trigger] ranges[i], q)]
    } else {
        HB_SCRIPT_UNKNOWN
    }
}

/// The Unicode script property, as sorted codepoint ranges with a script tag each.
pub struct ScriptTable {
    ranges: Vec<(u32, u32)>,
    scripts: Vec<u32>,
}

impl ScriptTable {
    #[verifier::type_invariant]
    closed spec fn inv(&self) -> bool {
        well_formed_ranges(self.ranges@, self.scripts@)
    }

    /// The codepoint ranges of the table, in order.
    pub closed spec fn ranges(&self) -> Seq<(u32, u32)> {
        self.ranges@
    }

    /// The script of each range.
    pub closed spec fn scripts(&self) -> Seq<u32> {
        self.scripts@
    }

    /// The script this table gives to codepoint `q`.
    pub open spec fn script_of(&self, q: u32) -> u32 {
        script_in(self.ranges(), self.scripts(), q)
    }

    /// Builds a table from its ranges and scripts; `None` when the ranges are
    /// not increasing, overlap, are empty, or do not match the scripts in number.
    pub fn new(ranges: Vec<(u32, u32)>, scripts: Vec<u32>) -> (r: Option<ScriptTable>)
        ensures
            r is Some <==> well_formed_ranges(ranges@, scripts@),
            r matches Some(t) ==> t.ranges() == ranges@ && t.scripts() == scripts@,
    {
        if ranges.len() != scripts.len() {
            return None;
        }
        let n = ranges.len();
        let mut k: usize = 0;
        while k < n
            invariant
                n == ranges@.len(),
                ranges@.len() == scripts@.len(),
                0 <= k <= n,
                forall|i: int| 0 <= i < k ==> (#[trigger] ranges@[i]).0 <= ranges@[i].1,
                forall|i: int, j: int|
                    0 <= i < j < k ==> (#[trigger] ranges@[i]).1 < (#[trigger] ranges@[j]).0,
            decreases n - k,
        {
            let (s, e) = ranges[k];
            if s > e {
                return None;
            }
            if k > 0 {
                let (_, prev_end) = ranges[k - 1];
                if prev_end >= s {
                    return None;
                }
                assert forall|i: int, j: int|
                    0 <= i < j < k + 1 implies (#[trigger] ranges@[i]).1 < (
                    #[trigger] ranges@[j]).0 by {
                    if j == k && i < k - 1 {
                        assert(ranges@[i].1 < ranges@[k - 1].0);
                    }
                }
            }
            k = k + 1;
        }
        Some(ScriptTable { ranges, scripts })
    }

    /// Number of ranges in the table.
    pub fn len(&self) -> (r: usize)
        ensures
            r == self.ranges().len(),
    {
        self.ranges.len()
    }
}

/// Looks up the script property of a codepoint.
///
/// The result is the script of the table range that holds `query`, and
/// `HB_SCRIPT_UNKNOWN` ("Zzzz") where no range does.
pub fn lookup_script(table: &ScriptTable, query: u32) -> (r: u32)
    ensures
        r == table.script_of(query),
        forall|i: int|
            0 <= i < table.ranges().len() && (#[trigger] table.ranges()[i]).0 <= query
                <= table.ranges()[i].1 ==> i < table.scripts().len() && r == table.scripts()[i],
        (forall|i: int|
            0 <= i < table.ranges().len() ==> !((#[trigger] table.ranges()[i]).0 <= query
                <= table.ranges()[i].1)) ==> r == HB_SCRIPT_UNKNOWN,
{
    proof {
        use_type_invariant(table);
        let rs = table.ranges@;
        assert forall|i: int|
            0 <= i < rs.len() && (#[trigger] rs[i]).0 <= query <= rs[i].1 implies table.script_of(
            query,
        ) == table.scripts@[i] by {
            assert(range_holds(rs[i], query));
            let w = choose|j: int| 0 <= j < rs.len() && range_holds(#[trigger] rs[j], query);
            if w < i {
                assert(rs[w].1 < rs[i].0);
            } else if w > i {
                assert(rs[i].1 < rs[w].0);
            }
        }
    }
    let ghost rs = table.ranges@;
    let mut lo: usize = 0;
    let mut hi: usize = table.ranges.len();
    while lo < hi
        invariant
            rs == table.ranges@,
            well_formed_ranges(table.ranges@, table.scripts@),
            0 <= lo <= hi <= rs.len(),
            forall|i: int| 0 <= i < lo ==> (#[trigger] rs[i]).1 < query,
            forall|i: int| hi <= i < rs.len() ==> query < (#[trigger] rs[i]).0,
        decreases hi - lo,
    {
        let mid = lo + (hi - lo) / 2;
        let (s, e) = table.ranges[mid];
        if s > query {
            assert forall|i: int| mid <= i < rs.len() implies query < (#[trigger] rs[i]).0 by {
                if i > mid {
                    assert(rs[mid as int].1 < rs[i].0);
                }
            }
            hi = mid;
        } else if e < query {
            assert forall|i: int| 0 <= i < mid + 1 implies (#[trigger] rs[i]).1 < query by {
                if i < mid {
                    assert(rs[i].1 < rs[mid as int].0);
                }
            }
            lo = mid + 1;
        } else {
            assert(range_holds(rs[mid as int], query));
            let ghost w = choose|i: int| 0 <= i < rs.len() && range_holds(#[trigger] rs[i], query);
            assert(w == mid) by {
                if w < mid {
                    assert(rs[w].1 < rs[mid as int].0);
                } else if w > mid {
                    assert(rs[mid as int].1 < rs[w].0);
                }
            }
            assert(table.ranges()[mid as int].0 <= query <= table.ranges()[mid as int].1);
            return table.scripts[mid];
        }
    }
    assert forall|i: int| 0 <= i < rs.len() implies !range_holds(#[trigger] rs[i], query) by {
        if i < lo {
            assert(rs[i].1 < query);
        } else {
            assert(query < rs[i].0);
        }
    }
    HB_SCRIPT_UNKNOWN
}


/// Number of bytes in the UTF-8 encoding of the first `k` characters of `chars`.
pub open spec fn byte_offset(chars: Seq<char>, k: int) -> nat {
    encode_utf8(chars.take(k)).len()
}

/// The script of each character of `chars`, by `table`.
pub open spec fn script_sequence(table: &ScriptTable, chars: Seq<char>) -> Seq<u32> {
    Seq::new(chars.len(), |i: int| table.script_of(chars[i] as u32))
}

/// Common and inherited characters take the script of the text around them.
pub open spec fn is_weak(s: u32) -> bool {
    s == HB_SCRIPT_COMMON || s == HB_SCRIPT_INHERITED
}

/// Some character in positions `p..e` has a script of its own.
pub open spec fn has_strong_in(s: Seq<u32>, p: int, e: int) -> bool {
    exists|k: int| p <= k < e && !is_weak(#[trigger] s[k])
}

/// All characters in positions `p..e` that have a script of their own have the same one.
pub open spec fn strong_agree(s: Seq<u32>, p: int, e: int) -> bool {
    forall|k1: int, k2: int|
        p <= k1 < e && p <= k2 < e && !is_weak(#[trigger] s[k1]) && !is_weak(#[trigger] s[k2])
            ==> s[k1] == s[k2]
}

/// Positions `p..e` form a script run: it is not empty, it holds at most one
/// script besides common and inherited characters, and it is as long as it can
/// be: it ends with the text or just before a character of another script.
pub open spec fn is_run(s: Seq<u32>, p: int, e: int) -> bool {
    &&& 0 <= p < e <= s.len()
    &&& strong_agree(s, p, e)
    &&& (e == s.len() || (!is_weak(s[e]) && exists|k: int|
        p <= k < e && !is_weak(#[trigger] s[k]) && s[k] != s[e]))
}

/// The script of a run: the one script of its own characters, or
/// `HB_SCRIPT_COMMON` when all its characters are common or inherited.
pub open spec fn run_script(s: Seq<u32>, p: int, e: int) -> u32 {
    if has_strong_in(s, p, e) {
        s[choose|k: int| p <= k < e && !is_weak(#[trigger] s[k])]
    } else {
        HB_SCRIPT_COMMON
    }
}

/// From a given position there is at most one script run: the end of a run
/// is fixed by where it starts.
pub proof fn lemma_run_end_unique(s: Seq<u32>, p: int, e1: int, e2: int)
    requires
        is_run(s, p, e1),
        is_run(s, p, e2),
    ensures
        e1 == e2,
{
    if e1 < e2 {
        let k = choose|k: int| p <= k < e1 && !is_weak(#[trigger] s[k]) && s[k] != s[e1];
        assert(s[k] == s[e1]);
    } else if e2 < e1 {
        let k = choose|k: int| p <= k < e2 && !is_weak(#[trigger] s[k]) && s[k] != s[e2];
        assert(s[k] == s[e2]);
    }
}

/// Two runs that follow one another have different scripts.
pub proof fn lemma_adjacent_runs_differ(s: Seq<u32>, p: int, e: int, f: int)
    requires
        is_run(s, p, e),
        is_run(s, e, f),
    ensures
        run_script(s, p, e) != run_script(s, e, f),
{
    let k = choose|k: int| p <= k < e && !is_weak(#[trigger] s[k]) && s[k] != s[e];
    let k1 = choose|k: int| p <= k < e && !is_weak(#[trigger] s[k]);
    assert(s[k1] == s[k]);
    assert(has_strong_in(s, e, f)) by {
        assert(!is_weak(s[e]));
    }
    let k2 = choose|k: int| e <= k < f && !is_weak(#[trigger] s[k]);
    assert(s[k2] == s[e]);
}

/// A run never has the inherited script: a run of inherited characters alone
/// is common.
pub proof fn lemma_run_script_not_inherited(s: Seq<u32>, p: int, e: int)
    requires
        is_run(s, p, e),
    ensures
        run_script(s, p, e) != HB_SCRIPT_INHERITED,
{
    if has_strong_in(s, p, e) {
        let k = choose|k: int| p <= k < e && !is_weak(#[trigger] s[k]);
        assert(!is_weak(s[k]));
    }
}

/// The end of the script run that starts at position `p`.
pub open spec fn run_end(s: Seq<u32>, p: int) -> int {
    choose|e: int| is_run(s, p, e)
}

/// The ends of the successive script runs from position `p` to the end of
/// the text: the first run is `p..b[0]`, the next `b[0]..b[1]`, and so on.
pub open spec fn run_boundaries(s: Seq<u32>, p: int) -> Seq<int>
    decreases s.len() - p,
{
    let e = run_end(s, p);
    if 0 <= p < e <= s.len() {
        seq![e] + run_boundaries(s, e)
    } else {
        Seq::empty()
    }
}

/// Where the `k`-th run of `b`, counted from position `p`, starts.
pub open spec fn run_start(b: Seq<int>, p: int, k: int) -> int {
    if k == 0 {
        p
    } else {
        b[k - 1]
    }
}

proof fn lemma_run_extends(s: Seq<u32>, p: int, j: int)
    requires
        0 <= p < j <= s.len(),
        strong_agree(s, p, j),
    ensures
        exists|e: int| is_run(s, p, e),
    decreases s.len() - j,
{
    if j == s.len() {
        assert(is_run(s, p, j));
    } else if !is_weak(s[j]) && exists|k: int| p <= k < j && !is_weak(#[trigger] s[k]) && s[k]
        != s[j] {
        assert(is_run(s, p, j));
    } else {
        assert forall|k1: int, k2: int|
            p <= k1 < j + 1 && p <= k2 < j + 1 && !is_weak(#[trigger] s[k1]) && !is_weak(
                #[trigger] s[k2],
            ) implies s[k1] == s[k2] by {}
        lemma_run_extends(s, p, j + 1);
    }
}

/// From every position inside the text a script run starts.
pub proof fn lemma_run_exists(s: Seq<u32>, p: int)
    requires
        0 <= p < s.len(),
    ensures
        is_run(s, p, run_end(s, p)),
{
    lemma_run_extends(s, p, p + 1);
}

/// Only a script run that truly starts at `p` is the one `run_end` names.
pub proof fn lemma_run_end_is_the_run(s: Seq<u32>, p: int, e: int)
    requires
        is_run(s, p, e),
    ensures
        run_end(s, p) == e,
{
    lemma_run_exists(s, p);
    lemma_run_end_unique(s, p, e, run_end(s, p));
}

/// The runs from `p` partition the rest of the text: there is none exactly
/// when `p` is at the end, each one is a script run that starts where the
/// one before ended, the last one ends with the text, and there are no more
/// of them than characters.
pub proof fn lemma_run_boundaries(s: Seq<u32>, p: int)
    requires
        0 <= p <= s.len(),
    ensures
        run_boundaries(s, p).len() <= s.len() - p,
        run_boundaries(s, p).len() == 0 <==> p == s.len(),
        run_boundaries(s, p).len() > 0 ==> run_boundaries(s, p).last() == s.len(),
        forall|k: int|
            0 <= k < run_boundaries(s, p).len() ==> is_run(
                s,
                run_start(run_boundaries(s, p), p, k),
                #[trigger] run_boundaries(s, p)[k],
            ),
    decreases s.len() - p,
{
    let b = run_boundaries(s, p);
    if p == s.len() {
        assert(b.len() == 0);
    } else {
        lemma_run_exists(s, p);
        let e = run_end(s, p);
        lemma_run_boundaries(s, e);
        let rest = run_boundaries(s, e);
        assert(b == seq![e] + rest);
        assert forall|k: int| 0 <= k < b.len() implies is_run(
            s,
            run_start(b, p, k),
            #[trigger] b[k],
        ) by {
            if k > 0 {
                assert(b[k] == rest[k - 1]);
                assert(run_start(b, p, k) == run_start(rest, e, k - 1));
            }
        }
    }
}

/// The itemization of the whole text goes from run boundary to run
/// boundary: the run that starts at the start of the text or at one of its
/// run boundaries ends at the next boundary.
pub proof fn lemma_boundary_step(s: Seq<u32>, p: int)
    requires
        0 <= p < s.len(),
        p == 0 || run_boundaries(s, 0).contains(p),
    ensures
        run_boundaries(s, 0).contains(run_end(s, p)),
        p > 0 ==> !is_weak(s[p]),
{
    let b = run_boundaries(s, 0);
    lemma_run_boundaries(s, 0);
    let k: int = if p == 0 {
        0
    } else {
        let j = choose|j: int| 0 <= j < b.len() && b[j] == p;
        assert(j < b.len() - 1) by {
            if j == b.len() - 1 {
                assert(b.last() == b[j]);
            }
        }
        assert(is_run(s, run_start(b, 0, j), b[j]));
        j + 1
    };
    assert(run_start(b, 0, k) == p);
    assert(is_run(s, p, b[k]));
    lemma_run_end_is_the_run(s, p, b[k]);
}

/// A run has the common script exactly when it runs to the end of the text
/// and it and all the text after it are common or inherited characters.
pub proof fn lemma_common_run(s: Seq<u32>, p: int, e: int)
    requires
        is_run(s, p, e),
    ensures
        run_script(s, p, e) == HB_SCRIPT_COMMON <==> (e == s.len() && forall|k: int|
            p <= k < s.len() ==> is_weak(#[trigger] s[k])),
{
    if has_strong_in(s, p, e) {
        let k = choose|k: int| p <= k < e && !is_weak(#[trigger] s[k]);
        assert(!is_weak(s[k]));
    } else if e < s.len() {
        let k = choose|k: int| p <= k < e && !is_weak(#[trigger] s[k]) && s[k] != s[e];
        assert(false);
    }
}

proof fn lemma_encode_utf8_concat(a: Seq<char>, b: Seq<char>)
    ensures
        encode_utf8(a + b) == encode_utf8(a) + encode_utf8(b),
    decreases a.len(),
{
    if a.len() == 0 {
        assert(a + b =~= b);
        assert(encode_utf8(a) + encode_utf8(b) =~= encode_utf8(b));
    } else {
        lemma_encode_utf8_concat(a.drop_first(), b);
        assert((a + b).drop_first() =~= a.drop_first() + b);
        assert((a + b)[0] == a[0]);
        assert(encode_utf8(a + b) =~= encode_scalar(a[0] as u32) + (encode_utf8(a.drop_first())
            + encode_utf8(b)));
    }
}

proof fn lemma_byte_offset_step(chars: Seq<char>, k: int)
    requires
        0 <= k < chars.len(),
    ensures
        byte_offset(chars, k + 1) == byte_offset(chars, k) + encode_scalar(chars[k] as u32).len(),
{
    let one = seq![chars[k]];
    assert(chars.take(k + 1) =~= chars.take(k) + one);
    lemma_encode_utf8_concat(chars.take(k), one);
    assert(one.drop_first() =~= Seq::<char>::empty());
    assert(encode_utf8(one) =~= encode_scalar(chars[k] as u32) + encode_utf8(one.drop_first()));
}

proof fn lemma_byte_offset_mono(chars: Seq<char>, j: int, k: int)
    requires
        0 <= j <= k <= chars.len(),
    ensures
        byte_offset(chars, j) <= byte_offset(chars, k),
{
    assert(chars.take(k) =~= chars.take(j) + chars.subrange(j, k));
    lemma_encode_utf8_concat(chars.take(j), chars.subrange(j, k));
}

/// The byte offset of every character position falls on a character boundary
/// of the text's UTF-8 encoding, so the text can be sliced there.
pub proof fn lemma_byte_offset_is_char_boundary(chars: Seq<char>, k: int)
    requires
        0 <= k <= chars.len(),
    ensures
        is_char_boundary(encode_utf8(chars), byte_offset(chars, k) as int),
    decreases chars.len(),
{
    let bytes = encode_utf8(chars);
    encode_utf8_valid_utf8(chars);
    if k == 0 {
        assert(chars.take(0) =~= Seq::<char>::empty());
    } else {
        let rest = chars.drop_first();
        encode_utf8_first_scalar(chars);
        encode_utf8_valid_utf8(rest);
        assert(pop_first_scalar(bytes) =~= encode_utf8(rest));
        assert(chars.take(k) =~= seq![chars[0]] + rest.take(k - 1));
        lemma_encode_utf8_concat(seq![chars[0]], rest.take(k - 1));
        assert(seq![chars[0]].drop_first() =~= Seq::<char>::empty());
        assert(encode_utf8(seq![chars[0]]) =~= encode_scalar(chars[0] as u32) + encode_utf8(
            Seq::<char>::empty(),
        ));
        lemma_byte_offset_mono(chars, k, chars.len() as int);
        assert(chars.take(chars.len() as int) =~= chars);
        lemma_byte_offset_is_char_boundary(rest, k - 1);
    }
}

/// Each character takes at least one byte.
proof fn lemma_byte_offset_strict(chars: Seq<char>, j: int, k: int)
    requires
        0 <= j < k <= chars.len(),
    ensures
        byte_offset(chars, j) < byte_offset(chars, k),
{
    lemma_byte_offset_step(chars, j);
    lemma_byte_offset_mono(chars, j + 1, k);
}

/// Number of bytes in the UTF-8 encoding of `c`.
fn utf8_width(c: char) -> (n: usize)
    ensures
        n == encode_scalar(c as u32).len(),
{
    proof {
        char_is_scalar(c);
    }
    let v = c as u32;
    if v < 0x80 {
        1
    } else if v < 0x800 {
        2
    } else if v < 0x10000 {
        3
    } else {
        4
    }
}

/// Splits text into runs of one script each.
///
/// Common and inherited characters (spaces, punctuation, combining marks)
/// join the run around them; a run made of them alone has the common script.
pub struct Itemizer<'a> {
    table: &'a ScriptTable,
    chars: Vec<char>,
    pos: usize,
    ix: usize,
}

impl<'a> Itemizer<'a> {
    /// The characters of the text.
    pub closed spec fn text(&self) -> Seq<char> {
        self.chars@
    }

    /// The script of each character of the text.
    pub closed spec fn scripts(&self) -> Seq<u32> {
        script_sequence(self.table, self.chars@)
    }

    /// Index of the first character not yet itemized.
    pub closed spec fn position(&self) -> int {
        self.pos as int
    }

    /// Byte offset of the first character not yet itemized.
    pub closed spec fn byte_position(&self) -> int {
        self.ix as int
    }

    /// The position is inside the text, the byte offset matches it, and the
    /// text's byte length fits in `usize`.
    pub closed spec fn wf(&self) -> bool {
        &&& self.pos <= self.chars@.len()
        &&& self.ix == byte_offset(self.chars@, self.pos as int)
        &&& byte_offset(self.chars@, self.chars@.len() as int) <= usize::MAX
        &&& (self.pos == 0 || run_boundaries(self.scripts(), 0).contains(self.pos as int))
    }

    /// In a valid itemizer the position lies within the text, the text has a
    /// script for each character, and the position is the start of the text
    /// or one of its run boundaries: what has been itemized so far is a
    /// prefix of the itemization of the whole text.
    pub proof fn lemma_wf(&self)
        requires
            self.wf(),
        ensures
            0 <= self.position() <= self.text().len(),
            self.scripts().len() == self.text().len(),
            self.position() == 0 || run_boundaries(self.scripts(), 0).contains(self.position()),
            self.byte_position() == byte_offset(self.text(), self.position()),
    {
    }

    /// Starts itemizing `text` at its first character, with scripts from `table`.
    pub fn new(text: &'a str, table: &'a ScriptTable) -> (r: Itemizer<'a>)
        ensures
            r.wf(),
            r.text() == text@,
            r.scripts() == script_sequence(table, text@),
            r.position() == 0,
            r.byte_position() == 0,
            byte_offset(text@, text@.len() as int) == text.spec_bytes().len(),
    {
        let nbytes = text.as_bytes().len();
        assert(text@.take(text@.len() as int) =~= text@);
        let mut chars: Vec<char> = Vec::new();
        for c in it: text.chars()
            invariant
                chars@ == it.seq().take(it.index() as int),
        {
            chars.push(c);
            assert(chars@ =~= it.seq().take(it.index() + 1));
        }
        assert(chars@ =~= text@);
        assert(chars@.take(0) =~= Seq::<char>::empty());
        Itemizer { table, chars, pos: 0, ix: 0 }
    }

    /// The next script run: its byte range in the text and its script, or
    /// `None` once the whole text has been itemized.
    ///
    /// Runs follow one another without gap and together cover the text.
    pub fn next(&mut self) -> (r: Option<(Range<usize>, u32)>)
        requires
            old(self).wf(),
        ensures
            final(self).wf(),
            final(self).text() == old(self).text(),
            final(self).scripts() == old(self).scripts(),
            r is Some <==> old(self).position() < old(self).text().len(),
            r is None ==> final(self).position() == old(self).position()
                && final(self).byte_position() == old(self).byte_position()
                && final(self).position() == final(self).text().len(),
            r matches Some((range, script)) ==> {
                let s = old(self).scripts();
                let p = old(self).position();
                let e = final(self).position();
                &&& is_run(s, p, e)
                &&& e == run_end(s, p)
                &&& p < e
                &&& script == run_script(s, p, e)
                &&& range.start == old(self).byte_position()
                &&& range.start == byte_offset(old(self).text(), p)
                &&& range.end == byte_offset(old(self).text(), e)
                &&& range.end == final(self).byte_position()
                &&& run_boundaries(s, 0).contains(e)
                &&& (script == HB_SCRIPT_COMMON <==> (p == 0 && e == s.len() && forall|k: int|
                    0 <= k < s.len() ==> is_weak(#[trigger] s[k])))
                &&& (script == HB_SCRIPT_COMMON <==> (range.start == 0 && range.end
                    == byte_offset(old(self).text(), old(self).text().len() as int) && forall|k: int|
                    0 <= k < s.len() ==> is_weak(#[trigger] s[k])))
            },
            final(self).position() <= final(self).text().len(),
            final(self).scripts().len() == final(self).text().len(),
    {
        let n = self.chars.len();
        if self.pos >= n {
            return None;
        }
        let ghost s = script_sequence(self.table, self.chars@);
        let ghost cs = self.chars@;
        let start = self.pos;
        let beg = self.ix;
        let c0 = self.chars[start];
        let mut current = lookup_script(self.table, c0 as u32);
        let mut len = utf8_width(c0);
        proof {
            lemma_byte_offset_step(cs, start as int);
            lemma_byte_offset_mono(cs, start as int + 1, n as int);
            assert(s[start as int] == current);
        }
        let mut j = start + 1;
        while j < n
            invariant
                n == cs.len(),
                cs == self.chars@,
                s == script_sequence(self.table, cs),
                start < j <= n,
                byte_offset(cs, n as int) <= usize::MAX,
                len == byte_offset(cs, j as int) - byte_offset(cs, start as int),
                byte_offset(cs, start as int) <= byte_offset(cs, j as int),
                strong_agree(s, start as int, j as int),
                has_strong_in(s, start as int, j as int) ==> !is_weak(current) && forall|k: int|
                    start <= k < j && !is_weak(#[trigger] s[k]) ==> s[k] == current,
                !has_strong_in(s, start as int, j as int) ==> is_weak(current),
            ensures
                start < j <= n,
                len == byte_offset(cs, j as int) - byte_offset(cs, start as int),
                byte_offset(cs, start as int) <= byte_offset(cs, j as int),
                strong_agree(s, start as int, j as int),
                has_strong_in(s, start as int, j as int) ==> !is_weak(current) && forall|k: int|
                    start <= k < j && !is_weak(#[trigger] s[k]) ==> s[k] == current,
                !has_strong_in(s, start as int, j as int) ==> is_weak(current),
                j == n || (!is_weak(s[j as int]) && !is_weak(current) && s[j as int] != current
                    && has_strong_in(s, start as int, j as int)),
            decreases n - j,
        {
            let c = self.chars[j];
            let script = lookup_script(self.table, c as u32);
            assert(s[j as int] == script);
            if script != current {
                if current == HB_SCRIPT_INHERITED || current == HB_SCRIPT_COMMON {
                    current = script;
                } else if script != HB_SCRIPT_INHERITED && script != HB_SCRIPT_COMMON {
                    break;
                }
            }
            proof {
                lemma_byte_offset_step(cs, j as int);
                lemma_byte_offset_mono(cs, j as int + 1, n as int);
                assert forall|k1: int, k2: int|
                    start <= k1 < j + 1 && start <= k2 < j + 1 && !is_weak(#[trigger] s[k1])
                        && !is_weak(#[trigger] s[k2]) implies s[k1] == s[k2] by {}
            }
            len = len + utf8_width(c);
            j = j + 1;
        }
        if current == HB_SCRIPT_INHERITED {
            current = HB_SCRIPT_COMMON;
        }
        proof {
            lemma_byte_offset_mono(cs, j as int, n as int);
            if has_strong_in(s, start as int, j as int) {
                let k = choose|k: int| start <= k < j && !is_weak(#[trigger] s[k]);
                assert(s[k] == current);
            }
        }
        proof {
            lemma_run_end_is_the_run(s, start as int, j as int);
            lemma_boundary_step(s, start as int);
            lemma_common_run(s, start as int, j as int);
            if start > 0 {
                assert(!is_weak(s[start as int]));
                lemma_byte_offset_strict(cs, 0, start as int);
            }
            if j < n {
                lemma_byte_offset_strict(cs, j as int, n as int);
            }
            assert(cs.take(0) =~= Seq::<char>::empty());
        }
        self.ix = self.ix + len;
        self.pos = j;
        Some((Range { start: beg, end: self.ix }, current))
    }
}

/// Splits `text` into all its script runs, in order: the runs that repeated
/// calls of `Itemizer::next` give, until the first `None`.
///
/// The runs partition the text's bytes, and each starts and ends on a
/// character boundary; there are no more runs than characters.
#[verifier::rlimit(40)]
pub fn itemize(text: &str, table: &ScriptTable) -> (r: Vec<(Range<usize>, u32)>)
    ensures
        ({
            let s = script_sequence(table, text@);
            let b = run_boundaries(s, 0);
            &&& r@.len() == b.len()
            &&& forall|k: int|
                0 <= k < r@.len() ==> {
                    &&& (#[trigger] r@[k]).0.start == byte_offset(text@, run_start(b, 0, k))
                    &&& r@[k].0.end == byte_offset(text@, b[k])
                    &&& r@[k].1 == run_script(s, run_start(b, 0, k), b[k])
                }
        }),
        r@.len() <= text@.len(),
        tiles(r@.map_values(|x: (Range<usize>, u32)| x.0), 0, text.spec_bytes().len() as int),
        forall|k: int|
            0 <= k < r@.len() ==> is_char_boundary(
                text.spec_bytes(),
                (#[trigger] r@[k]).0.start as int,
            ) && is_char_boundary(text.spec_bytes(), r@[k].0.end as int),
{
    let ghost s = script_sequence(table, text@);
    let ghost b = run_boundaries(s, 0);
    proof {
        lemma_run_boundaries(s, 0);
        assert(b.skip(0) =~= b);
    }
    let mut it = Itemizer::new(text, table);
    let mut out: Vec<(Range<usize>, u32)> = Vec::new();
    loop
        invariant
            it.wf(),
            it.text() == text@,
            it.scripts() == s,
            s.len() == text@.len(),
            b == run_boundaries(s, 0),
            0 <= it.position() <= text@.len(),
            out@.len() <= b.len(),
            it.position() == run_start(b, 0, out@.len() as int),
            run_boundaries(s, it.position()) == b.skip(out@.len() as int),
            forall|k: int|
                0 <= k < out@.len() ==> {
                    &&& (#[trigger] out@[k]).0.start == byte_offset(text@, run_start(b, 0, k))
                    &&& out@[k].0.end == byte_offset(text@, b[k])
                    &&& out@[k].1 == run_script(s, run_start(b, 0, k), b[k])
                },
        ensures
            out@.len() == b.len(),
            forall|k: int|
                0 <= k < out@.len() ==> {
                    &&& (#[trigger] out@[k]).0.start == byte_offset(text@, run_start(b, 0, k))
                    &&& out@[k].0.end == byte_offset(text@, b[k])
                    &&& out@[k].1 == run_script(s, run_start(b, 0, k), b[k])
                },
        decreases text@.len() - it.position(),
    {
        let ghost p = it.position();
        let ghost n = out@.len() as int;
        match it.next() {
            Some(item) => {
                proof {
                    let e = it.position();
                    assert(run_boundaries(s, p) == seq![e] + run_boundaries(s, e));
                    assert(b.skip(n)[0] == b[n]);
                    assert(b.skip(n + 1) =~= b.skip(n).drop_first());
                    assert(b[n] == e);
                }
                out.push(item);
            },
            None => {
                proof {
                    lemma_run_boundaries(s, p);
                    assert(b.skip(n).len() == 0);
                }
                break ;
            },
        }
    }
    proof {
        let bytes = text.spec_bytes();
        let rs = out@.map_values(|x: (Range<usize>, u32)| x.0);
        assert(text@.take(text@.len() as int) =~= text@);
        assert forall|k: int| 0 <= k < out@.len() implies is_char_boundary(
            bytes,
            (#[trigger] out@[k]).0.start as int,
        ) && is_char_boundary(bytes, out@[k].0.end as int) && out@[k].0.start < out@[k].0.end by {
            assert(is_run(s, run_start(b, 0, k), b[k]));
            lemma_byte_offset_is_char_boundary(text@, run_start(b, 0, k));
            lemma_byte_offset_is_char_boundary(text@, b[k]);
            lemma_byte_offset_strict(text@, run_start(b, 0, k), b[k]);
        }
        assert forall|k: int| 0 <= k < rs.len() implies (#[trigger] rs[k]).start < rs[k].end by {
            assert(rs[k] == out@[k].0);
        }
        assert forall|k: int| 0 <= k < rs.len() - 1 implies (#[trigger] rs[k]).end
            == rs[k + 1].start by {
            assert(rs[k] == out@[k].0);
            assert(rs[k + 1] == out@[k + 1].0);
            assert(run_start(b, 0, k + 1) == b[k]);
        }
        if rs.len() > 0 {
            assert(rs[0] == out@[0].0);
            assert(rs.last() == out@[rs.len() - 1].0);
            assert(b.last() == b[b.len() - 1]);
            assert(text@.take(0) =~= Seq::<char>::empty());
        } else {
            assert(text@.len() == 0);
            assert(text@ =~= Seq::<char>::empty());
            assert(bytes.len() == 0);
        }
    }
    out
}

} // verus!
