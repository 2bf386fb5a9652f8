//! Formula/math region detection via font names, Unicode ranges, and
//! sub/superscript density.
use vstd::prelude::*;

use crate::runs::{flatten_runs, lemma_runs_at_least_map, lemma_runs_at_least_push, lemma_runs_map, lemma_runs_shape, lemma_runs_step, runs, runs_at_least};
use crate::types::{BBox, ItemType, LayoutRegion, RegionType, TextItem, UNITS_PER_POINT};

verus! {

/// ASCII lowercasing of one character; other characters are unchanged.
pub open spec fn ascii_lower(c: char) -> char {
    if 'A' <= c && c <= 'Z' {
        ((c as u32) + 32) as char
    } else {
        c
    }
}

/// ASCII lowercasing of a string.
pub open spec fn ascii_lowercase(s: Seq<char>) -> Seq<char> {
    s.map_values(|c: char| ascii_lower(c))
}

/// `needle` occurs as a contiguous piece of `hay`.
pub open spec fn contains_piece(hay: Seq<char>, needle: Seq<char>) -> bool {
    exists|i: int| 0 <= i && i + needle.len() <= hay.len() && #[trigger] hay.subrange(i, i + needle.len()) == needle
}

/// A font name denotes a math font: once ASCII-lowercased, it starts with one
/// of the known math font prefixes (Computer Modern, STIX, MathJax, Cambria
/// Math, Asana Math, Latin Modern Math, XITS, MT Extra) or contains "math"
/// without being an ordinary name that merely contains it ("Mathilda").
pub open spec fn is_math_font_name(name: Seq<char>) -> bool {
    let lower = ascii_lowercase(name);
    ||| "cmmi"@.is_prefix_of(lower)
    ||| "cmsy"@.is_prefix_of(lower)
    ||| "cmr"@.is_prefix_of(lower)
    ||| "cmex"@.is_prefix_of(lower)
    ||| "cmbx"@.is_prefix_of(lower)
    ||| "cmti"@.is_prefix_of(lower)
    ||| "stix"@.is_prefix_of(lower)
    ||| "stixmath"@.is_prefix_of(lower)
    ||| "mathjax"@.is_prefix_of(lower)
    ||| "cambria math"@.is_prefix_of(lower)
    ||| "cambriamath"@.is_prefix_of(lower)
    ||| "asana-math"@.is_prefix_of(lower)
    ||| "asanamath"@.is_prefix_of(lower)
    ||| "latin modern math"@.is_prefix_of(lower)
    ||| "xits math"@.is_prefix_of(lower)
    ||| "xitsmath"@.is_prefix_of(lower)
    ||| "mt extra"@.is_prefix_of(lower)
    ||| contains_piece(lower, "math"@) && !contains_piece(lower, "mathilda"@)
}

/// A character lies in a math-related Unicode range: mathematical operators,
/// supplemental operators, miscellaneous mathematical symbols A and B,
/// mathematical alphanumerics, arrows, super/subscripts, ±, ×, ÷, or Greek
/// letters.
pub open spec fn is_math_char_spec(c: char) -> bool {
    ||| ('\u{2200}' <= c && c <= '\u{22FF}')
    ||| ('\u{2A00}' <= c && c <= '\u{2AFF}')
    ||| ('\u{27C0}' <= c && c <= '\u{27EF}')
    ||| ('\u{2980}' <= c && c <= '\u{29FF}')
    ||| ('\u{1D400}' <= c && c <= '\u{1D7FF}')
    ||| ('\u{2190}' <= c && c <= '\u{21FF}')
    ||| ('\u{2070}' <= c && c <= '\u{209F}')
    ||| c == '\u{00B1}'
    ||| c == '\u{00D7}'
    ||| c == '\u{00F7}'
    ||| ('\u{0391}' <= c && c <= '\u{03C9}')
}

/// Number of math characters in `s`.
pub open spec fn math_char_count(s: Seq<char>) -> nat
    decreases s.len(),
{
    if s.len() == 0 {
        0
    } else {
        math_char_count(s.drop_last()) + if is_math_char_spec(s.last()) {
            1nat
        } else {
            0nat
        }
    }
}

/// An item carries a math signal: its font is a math font, or its text has
/// math characters — at least one when the text has at most three
/// characters, at least 30% of them otherwise.
pub open spec fn has_math_signal_spec(font: Seq<char>, text: Seq<char>) -> bool {
    ||| is_math_font_name(font)
    ||| text.len() > 0 && if text.len() <= 3 {
        math_char_count(text) >= 1
    } else {
        10 * math_char_count(text) >= 3 * text.len()
    }
}

/// The ASCII-lowercased characters of `s`.
fn lowercase_chars(s: &str) -> (v: Vec<char>)
    ensures
        v@ == ascii_lowercase(s@),
{
    let mut v: Vec<char> = Vec::new();
    for c in it: s.chars()
        invariant
            it.seq() == s@,
            v@ == ascii_lowercase(s@.take(it.index() as int)),
    {
        let l = if 'A' <= c && c <= 'Z' {
            ((c as u8) + 32) as char
        } else {
            c
        };
        v.push(l);
        assert(v@ =~= ascii_lowercase(s@.take(it.index() + 1)));
    }
    assert(s@.take(s@.len() as int) =~= s@);
    v
}

/// `prefix` is a prefix of the characters `v`.
fn starts_with(v: &Vec<char>, prefix: &str) -> (r: bool)
    ensures
        r == prefix@.is_prefix_of(v@),
{
    let n = prefix.unicode_len();
    if n > v.len() {
        return false;
    }
    let mut i: usize = 0;
    while i < n
        invariant
            n == prefix@.len(),
            n <= v@.len(),
            i <= n,
            forall|k: int| 0 <= k < i ==> prefix@[k] == v@[k],
        decreases n - i,
    {
        if prefix.get_char(i) != v[i] {
            assert(prefix@ != v@.subrange(0, prefix@.len() as int)) by {
                assert(v@.subrange(0, prefix@.len() as int)[i as int] == v@[i as int]);
            }
            return false;
        }
        i = i + 1;
    }
    assert(prefix@ =~= v@.subrange(0, prefix@.len() as int));
    true
}

/// `needle` occurs contiguously in the characters `v`.
fn contains_str(v: &Vec<char>, needle: &str) -> (r: bool)
    ensures
        r == contains_piece(v@, needle@),
{
    let n = needle.unicode_len();
    if n > v.len() {
        assert forall|i: int| 0 <= i && i + needle@.len() <= v@.len() implies #[trigger] v@.subrange(i, i + needle@.len()) != needle@ by {}
        return false;
    }
    let vl = v.len();
    let mut start: usize = 0;
    while start <= vl - n
        invariant
            n == needle@.len(),
            vl == v@.len(),
            n <= v@.len(),
            start + n <= v@.len() + 1,
            forall|i: int| 0 <= i < start ==> #[trigger] v@.subrange(i, i + n) != needle@,
        decreases v.len() + 1 - start - n,
    {
        let mut i: usize = 0;
        let mut same = true;
        while i < n
            invariant
                n == needle@.len(),
                vl == v@.len(),
                start + n <= vl,
                i <= n,
                same == (forall|k: int| 0 <= k < i ==> needle@[k] == v@[start + k]),
            decreases n - i,
        {
            if needle.get_char(i) != v[start + i] {
                same = false;
            }
            i = i + 1;
        }
        if same {
            assert(v@.subrange(start as int, start + n) =~= needle@);
            return true;
        }
        assert(v@.subrange(start as int, start + n) != needle@) by {
            let k = choose|k: int| 0 <= k < n && needle@[k] != v@[start + k];
            assert(v@.subrange(start as int, start + n)[k] == v@[start + k]);
        }
        start = start + 1;
    }
    assert forall|i: int| 0 <= i && i + needle@.len() <= v@.len() implies #[trigger] v@.subrange(i, i + needle@.len()) != needle@ by {
        assert(i < start);
    }
    false
}

/// Check if a font name indicates a math font (ASCII case-insensitive).
pub fn is_math_font(font_name: &str) -> (r: bool)
    ensures
        r == is_math_font_name(font_name@),
{
    let lower = lowercase_chars(font_name);
    starts_with(&lower, "cmmi") || starts_with(&lower, "cmsy") || starts_with(&lower, "cmr")
        || starts_with(&lower, "cmex") || starts_with(&lower, "cmbx") || starts_with(&lower, "cmti")
        || starts_with(&lower, "stix") || starts_with(&lower, "stixmath")
        || starts_with(&lower, "mathjax") || starts_with(&lower, "cambria math")
        || starts_with(&lower, "cambriamath") || starts_with(&lower, "asana-math")
        || starts_with(&lower, "asanamath") || starts_with(&lower, "latin modern math")
        || starts_with(&lower, "xits math") || starts_with(&lower, "xitsmath")
        || starts_with(&lower, "mt extra") || (contains_str(&lower, "math") && !contains_str(
        &lower,
        "mathilda",
    ))
}

/// Check if a character is in a math-related Unicode range.
pub fn is_math_char(c: char) -> (r: bool)
    ensures
        r == is_math_char_spec(c),
{
    ('\u{2200}' <= c && c <= '\u{22FF}') || ('\u{2A00}' <= c && c <= '\u{2AFF}') || ('\u{27C0}'
        <= c && c <= '\u{27EF}') || ('\u{2980}' <= c && c <= '\u{29FF}') || ('\u{1D400}' <= c && c
        <= '\u{1D7FF}') || ('\u{2190}' <= c && c <= '\u{21FF}') || ('\u{2070}' <= c && c
        <= '\u{209F}') || c == '\u{00B1}' || c == '\u{00D7}' || c == '\u{00F7}' || ('\u{0391}' <= c
        && c <= '\u{03C9}')
}

/// Returns true if the item has math signals (font or content).
pub fn has_math_signal(item: &TextItem) -> (r: bool)
    ensures
        r == has_math_signal_spec(item.font@, item.text@),
{
    let text = item.text.as_str();
    if is_math_font(item.font.as_str()) {
        return true;
    }
    let total = text.unicode_len();
    if total == 0 {
        return false;
    }
    let mut math_count: usize = 0;
    for c in it: text.chars()
        invariant
            it.seq() == text@,
            total == text@.len(),
            math_count == math_char_count(text@.take(it.index() as int)),
            math_count <= it.index(),
    {
        assert(text@.take(it.index() + 1).drop_last() =~= text@.take(it.index() as int));
        if is_math_char(c) {
            math_count = math_count + 1;
        }
    }
    assert(text@.take(text@.len() as int) =~= text@);
    if total <= 3 {
        math_count >= 1
    } else {
        (math_count as u128) * 10 >= (total as u128) * 3
    }
}

/// Absolute value.
pub open spec fn abs_int(v: int) -> int {
    if v < 0 {
        -v
    } else {
        v
    }
}

pub open spec fn min_int(a: int, b: int) -> int {
    if a <= b {
        a
    } else {
        b
    }
}

pub open spec fn max_int(a: int, b: int) -> int {
    if a >= b {
        a
    } else {
        b
    }
}

/// A text item with a math signal.
pub open spec fn is_math_item(it: TextItem) -> bool {
    it.item_type == ItemType::Text && has_math_signal_spec(it.font@, it.text@)
}

/// `a` sits as a sub- or superscript beside the math item `m`: its font is
/// below 85% of `m`'s, it is shifted vertically by more than one point but by
/// less than `m`'s font size, and one of the two ends within two of `m`'s font
/// sizes of where the other starts.
pub open spec fn is_script_of(a: TextItem, m: TextItem) -> bool {
    let y_diff = abs_int(a.y - m.y);
    let reach = 2 * m.font_size;
    &&& 100 * a.font_size < 85 * m.font_size
    &&& y_diff > UNITS_PER_POINT
    &&& y_diff < m.font_size
    &&& (abs_int(a.x - (m.x + m.width)) < reach || abs_int(m.x - (a.x + a.width)) < reach)
}

/// Item `i` takes part in formula clustering: a text item that has a math
/// signal itself or is a sub/superscript of some math item of the page.
pub open spec fn is_formula_candidate(items: Seq<TextItem>, i: int) -> bool {
    &&& items[i].item_type == ItemType::Text
    &&& (is_math_item(items[i]) || exists|j: int|
        0 <= j < items.len() && is_math_item(items[j]) && #[trigger] is_script_of(items[i], items[j]))
}

/// The candidate indices below `n`, ascending.
pub open spec fn candidates_below(items: Seq<TextItem>, n: int) -> Seq<usize>
    decreases n,
{
    if n <= 0 {
        Seq::empty()
    } else if is_formula_candidate(items, n - 1) {
        candidates_below(items, n - 1).push((n - 1) as usize)
    } else {
        candidates_below(items, n - 1)
    }
}

/// All candidate indices of the page, ascending.
pub open spec fn formula_candidates(items: Seq<TextItem>) -> Seq<usize> {
    candidates_below(items, items.len() as int)
}

/// Two consecutive candidates share a cluster when the second lies within two
/// line heights (twice the larger font size) vertically of the first and
/// starts less than 300 points from where the first ends.
pub open spec fn formula_link(items: Seq<TextItem>) -> spec_fn(usize, usize) -> bool {
    |a: usize, b: usize| items_linked(items[a as int], items[b as int])
}

/// The link between two consecutive candidate items themselves.
pub open spec fn items_linked(last: TextItem, it: TextItem) -> bool {
    &&& abs_int(it.y - last.y) <= 2 * max_int(last.font_size as int, it.font_size as int)
    &&& abs_int(it.x - (last.x + last.width)) < 300 * UNITS_PER_POINT
}

/// The clusters that become formula regions: runs of linked candidates with
/// at least three members.
pub open spec fn formula_clusters(items: Seq<TextItem>) -> Seq<Seq<usize>> {
    runs_at_least(runs(formula_candidates(items), formula_link(items)), 3)
}

/// Bounds of a non-empty cluster as (x_min, y_min, x_max, y_max): the least
/// left edge and baseline, the greatest right edge (x + width) and top
/// (y + height).
pub open spec fn cluster_bounds(items: Seq<TextItem>, c: Seq<usize>) -> (int, int, int, int)
    decreases c.len(),
{
    let it = items[c.last() as int];
    if c.len() <= 1 {
        (it.x as int, it.y as int, it.x + it.width, it.y + it.height)
    } else {
        let p = cluster_bounds(items, c.drop_last());
        (
            min_int(p.0, it.x as int),
            min_int(p.1, it.y as int),
            max_int(p.2, it.x + it.width),
            max_int(p.3, it.y + it.height),
        )
    }
}

/// Number of cluster members whose font is a math font.
pub open spec fn cluster_math_fonts(items: Seq<TextItem>, c: Seq<usize>) -> nat
    decreases c.len(),
{
    if c.len() == 0 {
        0
    } else {
        cluster_math_fonts(items, c.drop_last()) + if is_math_font_name(items[c.last() as int].font@) {
            1nat
        } else {
            0nat
        }
    }
}

/// The formula region of a cluster, unless its bounds are degenerate.
/// Confidence is 85 when more than half of the members use a math font,
/// 70 otherwise; formula regions always need OCR.
pub open spec fn cluster_region(items: Seq<TextItem>, c: Seq<usize>, page: u32) -> Option<LayoutRegion> {
    let b = cluster_bounds(items, c);
    if b.2 <= b.0 || b.3 <= b.1 {
        None
    } else {
        Some(
            LayoutRegion {
                bbox: BBox { x_min: b.0 as i64, y_min: b.1 as i64, x_max: b.2 as i64, y_max: b.3 as i64 },
                region_type: RegionType::Formula,
                page,
                confidence: if cluster_math_fonts(items, c) > c.len() / 2 {
                    85
                } else {
                    70
                },
                needs_ocr: true,
            },
        )
    }
}

/// The regions of a list of clusters, in order, degenerate ones left out.
pub open spec fn cluster_regions(items: Seq<TextItem>, cs: Seq<Seq<usize>>, page: u32) -> Seq<LayoutRegion>
    decreases cs.len(),
{
    if cs.len() == 0 {
        Seq::empty()
    } else {
        match cluster_region(items, cs.last(), page) {
            Some(r) => cluster_regions(items, cs.drop_last(), page).push(r),
            None => cluster_regions(items, cs.drop_last(), page),
        }
    }
}

/// The formula regions of a page.
pub open spec fn formula_regions(items: Seq<TextItem>, page: u32) -> Seq<LayoutRegion> {
    cluster_regions(items, formula_clusters(items), page)
}

fn abs_i64(v: i64) -> (r: i64)
    requires
        v > i64::MIN,
    ensures
        r == abs_int(v as int),
{
    if v < 0 {
        -v
    } else {
        v
    }
}

/// The math-item flag of every item.
fn math_flags(items: &[TextItem]) -> (flags: Vec<bool>)
    ensures
        flags@.len() == items@.len(),
        forall|i: int| 0 <= i < items@.len() ==> flags@[i] == is_math_item(#[trigger] items@[i]),
{
    let mut flags: Vec<bool> = Vec::new();
    for i in 0..items.len()
        invariant
            flags@.len() == i,
            forall|k: int| 0 <= k < i ==> flags@[k] == is_math_item(#[trigger] items@[k]),
    {
        let it = &items[i];
        let f = it.item_type == ItemType::Text && has_math_signal(it);
        flags.push(f);
    }
    flags
}

fn is_script(a: &TextItem, m: &TextItem) -> (r: bool)
    ensures
        r == is_script_of(*a, *m),
{
    let afs = a.font_size as i64;
    let mfs = m.font_size as i64;
    let y_diff = abs_i64(a.y as i64 - m.y as i64);
    let reach = 2 * mfs;
    let near = abs_i64(a.x as i64 - (m.x as i64 + m.width as i64)) < reach || abs_i64(
        m.x as i64 - (a.x as i64 + a.width as i64),
    ) < reach;
    100 * afs < 85 * mfs && y_diff > UNITS_PER_POINT && y_diff < mfs && near
}

/// Whether item `i` is a sub/superscript of some math item.
fn is_script_of_any(items: &[TextItem], flags: &Vec<bool>, i: usize) -> (r: bool)
    requires
        i < items@.len(),
        flags@.len() == items@.len(),
        forall|k: int| 0 <= k < items@.len() ==> flags@[k] == is_math_item(#[trigger] items@[k]),
    ensures
        r == exists|j: int|
            0 <= j < items@.len() && is_math_item(items@[j]) && #[trigger] is_script_of(items@[i as int], items@[j]),
{
    for j in 0..items.len()
        invariant
            i < items@.len(),
            flags@.len() == items@.len(),
            forall|k: int| 0 <= k < items@.len() ==> flags@[k] == is_math_item(#[trigger] items@[k]),
            forall|k: int|
                0 <= k < j ==> !(is_math_item(items@[k]) && #[trigger] is_script_of(items@[i as int], items@[k])),
    {
        if flags[j] && is_script(&items[i], &items[j]) {
            return true;
        }
    }
    false
}

/// The candidate indices, ascending.
fn candidate_indices(items: &[TextItem], flags: &Vec<bool>) -> (c: Vec<usize>)
    requires
        flags@.len() == items@.len(),
        forall|k: int| 0 <= k < items@.len() ==> flags@[k] == is_math_item(#[trigger] items@[k]),
    ensures
        c@ == formula_candidates(items@),
        forall|k: int| 0 <= k < c@.len() ==> c@[k] < items@.len(),
{
    let mut c: Vec<usize> = Vec::new();
    for i in 0..items.len()
        invariant
            flags@.len() == items@.len(),
            forall|k: int| 0 <= k < items@.len() ==> flags@[k] == is_math_item(#[trigger] items@[k]),
            c@ == candidates_below(items@, i as int),
            forall|k: int| 0 <= k < c@.len() ==> c@[k] < i,
    {
        let it = &items[i];
        if it.item_type == ItemType::Text && (flags[i] || is_script_of_any(items, flags, i)) {
            c.push(i);
        }
    }
    c
}

/// Whether two consecutive candidates share a cluster.
fn linked(items: &[TextItem], a: usize, b: usize) -> (r: bool)
    requires
        a < items@.len(),
        b < items@.len(),
    ensures
        r == (formula_link(items@))(a, b),
{
    let last = &items[a];
    let it = &items[b];
    let fs = if last.font_size >= it.font_size {
        last.font_size as i64
    } else {
        it.font_size as i64
    };
    let y_gap = abs_i64(it.y as i64 - last.y as i64);
    let x_gap = abs_i64(it.x as i64 - (last.x as i64 + last.width as i64));
    y_gap <= 2 * fs && x_gap < 300 * UNITS_PER_POINT
}

/// The region of one non-empty cluster.
fn measure_cluster(items: &[TextItem], c: &Vec<usize>, page: u32) -> (r: Option<LayoutRegion>)
    requires
        c@.len() > 0,
        forall|k: int| 0 <= k < c@.len() ==> c@[k] < items@.len(),
    ensures
        r == cluster_region(items@, c@, page),
{
    let first = &items[c[0]];
    let mut x_min: i64 = first.x as i64;
    let mut y_min: i64 = first.y as i64;
    let mut x_max: i64 = first.x as i64 + first.width as i64;
    let mut y_max: i64 = first.y as i64 + first.height as i64;
    let mut fonts: usize = if is_math_font(first.font.as_str()) {
        1
    } else {
        0
    };
    assert(c@.take(1).drop_last() =~= Seq::<usize>::empty());
    assert(c@.take(1).last() == c@[0]);
    assert(cluster_math_fonts(items@, Seq::<usize>::empty()) == 0);
    let mut i: usize = 1;
    while i < c.len()
        invariant
            1 <= i <= c@.len(),
            forall|k: int| 0 <= k < c@.len() ==> c@[k] < items@.len(),
            (x_min as int, y_min as int, x_max as int, y_max as int) == cluster_bounds(items@, c@.take(i as int)),
            fonts == cluster_math_fonts(items@, c@.take(i as int)),
            fonts <= i,
            i32::MIN <= x_min <= i32::MAX,
            i32::MIN <= y_min <= i32::MAX,
            2 * i32::MIN <= x_max <= 2 * i32::MAX,
            2 * i32::MIN <= y_max <= 2 * i32::MAX,
        decreases c@.len() - i,
    {
        let it = &items[c[i]];
        assert(c@.take(i + 1).drop_last() =~= c@.take(i as int));
        if (it.x as i64) < x_min {
            x_min = it.x as i64;
        }
        if (it.y as i64) < y_min {
            y_min = it.y as i64;
        }
        if it.x as i64 + it.width as i64 > x_max {
            x_max = it.x as i64 + it.width as i64;
        }
        if it.y as i64 + it.height as i64 > y_max {
            y_max = it.y as i64 + it.height as i64;
        }
        if is_math_font(it.font.as_str()) {
            fonts = fonts + 1;
        }
        i = i + 1;
    }
    assert(c@.take(c@.len() as int) =~= c@);
    if x_max <= x_min || y_max <= y_min {
        None
    } else {
        let confidence: u32 = if fonts > c.len() / 2 {
            85
        } else {
            70
        };
        Some(
            LayoutRegion {
                bbox: BBox { x_min, y_min, x_max, y_max },
                region_type: RegionType::Formula,
                page,
                confidence,
                needs_ocr: true,
            },
        )
    }
}

/// Group the candidates into clusters and turn each cluster of three or more
/// into a region.
fn cluster_candidates(items: &[TextItem], cands: &Vec<usize>, page: u32) -> (regions: Vec<
    LayoutRegion,
>)
    requires
        forall|k: int| 0 <= k < cands@.len() ==> cands@[k] < items@.len(),
    ensures
        regions@ == cluster_regions(items@, runs_at_least(runs(cands@, formula_link(items@)), 3), page),
{
    let ghost link = formula_link(items@);
    let mut regions: Vec<LayoutRegion> = Vec::new();
    let mut current: Vec<usize> = Vec::new();
    for k in 0..cands.len()
        invariant
            link == formula_link(items@),
            forall|j: int| 0 <= j < cands@.len() ==> cands@[j] < items@.len(),
            forall|j: int| 0 <= j < current@.len() ==> current@[j] < items@.len(),
            k == 0 ==> current@.len() == 0 && regions@ == Seq::<LayoutRegion>::empty(),
            k > 0 ==> current@ == runs(cands@.take(k as int), link).last(),
            k > 0 ==> regions@ == cluster_regions(
                items@,
                runs_at_least(runs(cands@.take(k as int), link).drop_last(), 3),
                page,
            ),
    {
        let idx = cands[k];
        let ghost prev = cands@.take(k as int);
        assert(cands@.take(k + 1) =~= prev.push(idx));
        if k == 0 {
            assert(cands@.take(1) =~= seq![idx]);
            assert(runs(cands@.take(1), link).drop_last() =~= Seq::<Seq<usize>>::empty());
            current.push(idx);
            assert(current@ =~= seq![idx]);
        } else {
            proof {
                lemma_runs_shape(prev, link);
                lemma_runs_step(prev, idx, link);
            }
            let last = current[current.len() - 1];
            let ghost rp = runs(prev, link);
            if linked(items, last, idx) {
                current.push(idx);
                assert(runs(cands@.take(k + 1), link).drop_last() =~= rp.drop_last());
            } else {
                proof {
                    assert(rp =~= rp.drop_last().push(rp.last()));
                    lemma_runs_at_least_push(rp.drop_last(), rp.last(), 3);
                    assert(runs(cands@.take(k + 1), link).drop_last() =~= rp);
                }
                if current.len() >= 3 {
                    let g = measure_cluster(items, &current, page);
                    proof {
                        let ls = runs_at_least(rp, 3);
                        assert(ls.drop_last() =~= runs_at_least(rp.drop_last(), 3));
                    }
                    match g {
                        Some(r) => {
                            regions.push(r);
                        },
                        None => {},
                    }
                }
                current = Vec::new();
                current.push(idx);
                assert(current@ =~= seq![idx]);
            }
        }
    }
    assert(cands@.take(cands@.len() as int) =~= cands@);
    if cands.len() > 0 {
        let ghost rs = runs(cands@, link);
        proof {
            lemma_runs_shape(cands@, link);
            assert(rs =~= rs.drop_last().push(rs.last()));
            lemma_runs_at_least_push(rs.drop_last(), rs.last(), 3);
        }
        if current.len() >= 3 {
            let g = measure_cluster(items, &current, page);
            proof {
                let ls = runs_at_least(rs, 3);
                assert(ls.drop_last() =~= runs_at_least(rs.drop_last(), 3));
            }
            match g {
                Some(r) => {
                    regions.push(r);
                },
                None => {},
            }
        }
    }
    regions
}

/// Detect formula regions on a single page.
///
/// Groups adjacent items with math signals (font, Unicode, sub/super) into
/// formula regions. Requires a cluster of 3+ items to avoid false positives
/// from isolated math symbols in prose.
pub fn detect_formula_regions(page_items: &[TextItem], page: u32) -> (regions: Vec<LayoutRegion>)
    ensures
        regions@ == formula_regions(page_items@, page),
{
    let flags = math_flags(page_items);
    let cands = candidate_indices(page_items, &flags);
    cluster_candidates(page_items, &cands, page)
}

/// A formula region is well-formed: it is a formula, lies on the given page,
/// needs OCR, has a non-empty box, and a confidence of 70 or 85.
pub open spec fn is_formula_region(r: LayoutRegion, page: u32) -> bool {
    &&& r.region_type == RegionType::Formula
    &&& r.page == page
    &&& r.needs_ocr
    &&& r.bbox.x_min < r.bbox.x_max
    &&& r.bbox.y_min < r.bbox.y_max
    &&& (r.confidence == 70 || r.confidence == 85)
}

proof fn lemma_cluster_regions_shape(items: Seq<TextItem>, cs: Seq<Seq<usize>>, page: u32)
    requires
        forall|k: int| 0 <= k < cs.len() ==> (#[trigger] cs[k]).len() > 0,
    ensures
        cluster_regions(items, cs, page).len() <= cs.len(),
        forall|k: int|
            0 <= k < cluster_regions(items, cs, page).len() ==> is_formula_region(
                #[trigger] cluster_regions(items, cs, page)[k],
                page,
            ),
    decreases cs.len(),
{
    if cs.len() > 0 {
        lemma_cluster_regions_shape(items, cs.drop_last(), page);
        let b = cluster_bounds(items, cs.last());
        if b.2 > b.0 && b.3 > b.1 {
            assert(i64::MIN <= b.0 && b.2 <= i64::MAX && i64::MIN <= b.1 && b.3 <= i64::MAX) by {
                lemma_cluster_bounds_range(items, cs.last());
            }
        }
    }
}

proof fn lemma_cluster_bounds_range(items: Seq<TextItem>, c: Seq<usize>)
    requires
        c.len() > 0,
    ensures
        i32::MIN <= cluster_bounds(items, c).0 <= i32::MAX,
        i32::MIN <= cluster_bounds(items, c).1 <= i32::MAX,
        2 * i32::MIN <= cluster_bounds(items, c).2 <= 2 * i32::MAX,
        2 * i32::MIN <= cluster_bounds(items, c).3 <= 2 * i32::MAX,
    decreases c.len(),
{
    if c.len() > 1 {
        lemma_cluster_bounds_range(items, c.drop_last());
    }
}

proof fn lemma_runs_at_least_count<T>(rs: Seq<Seq<T>>, min: nat)
    ensures
        runs_at_least(rs, min).len() * min <= flatten_runs(rs).len(),
        forall|k: int| 0 <= k < runs_at_least(rs, min).len() ==> (#[trigger] runs_at_least(rs, min)[k]).len() >= min,
    decreases rs.len(),
{
    if rs.len() > 0 {
        lemma_runs_at_least_count(rs.drop_last(), min);
        assert(flatten_runs(rs).len() == flatten_runs(rs.drop_last()).len() + rs.last().len());
        assert(runs_at_least(rs, min).len() * min <= flatten_runs(rs).len()) by (nonlinear_arith)
            requires
                runs_at_least(rs.drop_last(), min).len() * min <= flatten_runs(rs.drop_last()).len(),
                runs_at_least(rs, min).len() == runs_at_least(rs.drop_last(), min).len() + 1
                    ==> rs.last().len() >= min,
                runs_at_least(rs, min).len() == runs_at_least(rs.drop_last(), min).len() + 1
                    || runs_at_least(rs, min).len() == runs_at_least(rs.drop_last(), min).len(),
                flatten_runs(rs).len() == flatten_runs(rs.drop_last()).len() + rs.last().len(),
        ;
    }
}

/// Formula regions come only from clusters of three or more candidate items,
/// so a page with n candidates (math-signal items and their sub/superscripts)
/// has at most n / 3 formula regions; in particular an isolated math symbol
/// in prose never makes a formula region. Every formula region is a formula
/// on the given page, needs OCR, has a non-empty box and a confidence of 70
/// or 85.
pub proof fn lemma_formula_regions_need_three_candidates(items: Seq<TextItem>, page: u32)
    ensures
        formula_regions(items, page).len() * 3 <= formula_candidates(items).len(),
        formula_candidates(items).len() < 3 ==> formula_regions(items, page).len() == 0,
        forall|k: int|
            0 <= k < formula_regions(items, page).len() ==> is_formula_region(
                #[trigger] formula_regions(items, page)[k],
                page,
            ),
{
    let link = formula_link(items);
    let rs = runs(formula_candidates(items), link);
    lemma_runs_shape(formula_candidates(items), link);
    lemma_runs_at_least_count(rs, 3);
    let cs = runs_at_least(rs, 3);
    lemma_cluster_regions_shape(items, cs, page);
}

/// The text items of a page, in order.
pub open spec fn text_items(items: Seq<TextItem>) -> Seq<TextItem>
    decreases items.len(),
{
    if items.len() == 0 {
        Seq::empty()
    } else if items.last().item_type == ItemType::Text {
        text_items(items.drop_last()).push(items.last())
    } else {
        text_items(items.drop_last())
    }
}

/// An item is a formula candidate among the items `world`.
pub open spec fn is_candidate_in(it: TextItem, world: Seq<TextItem>) -> bool {
    &&& it.item_type == ItemType::Text
    &&& (is_math_item(it) || exists|j: int|
        0 <= j < world.len() && is_math_item(world[j]) && #[trigger] is_script_of(it, world[j]))
}

/// The items of `s` that are candidates among `world`, in order.
pub open spec fn candidates_among(s: Seq<TextItem>, world: Seq<TextItem>) -> Seq<TextItem>
    decreases s.len(),
{
    if s.len() == 0 {
        Seq::empty()
    } else if is_candidate_in(s.last(), world) {
        candidates_among(s.drop_last(), world).push(s.last())
    } else {
        candidates_among(s.drop_last(), world)
    }
}

pub open spec fn item_at(items: Seq<TextItem>) -> spec_fn(usize) -> TextItem {
    |i: usize| items[i as int]
}

pub open spec fn value_link() -> spec_fn(TextItem, TextItem) -> bool {
    |a: TextItem, b: TextItem| items_linked(a, b)
}

/// Bounds of a non-empty list of items, as for [`cluster_bounds`].
pub open spec fn bounds_of(c: Seq<TextItem>) -> (int, int, int, int)
    decreases c.len(),
{
    let it = c.last();
    if c.len() <= 1 {
        (it.x as int, it.y as int, it.x + it.width, it.y + it.height)
    } else {
        let p = bounds_of(c.drop_last());
        (
            min_int(p.0, it.x as int),
            min_int(p.1, it.y as int),
            max_int(p.2, it.x + it.width),
            max_int(p.3, it.y + it.height),
        )
    }
}

pub open spec fn math_fonts_of(c: Seq<TextItem>) -> nat
    decreases c.len(),
{
    if c.len() == 0 {
        0
    } else {
        math_fonts_of(c.drop_last()) + if is_math_font_name(c.last().font@) {
            1nat
        } else {
            0nat
        }
    }
}

/// The region of a list of items, as for [`cluster_region`].
pub open spec fn region_of(c: Seq<TextItem>, page: u32) -> Option<LayoutRegion> {
    let b = bounds_of(c);
    if b.2 <= b.0 || b.3 <= b.1 {
        None
    } else {
        Some(
            LayoutRegion {
                bbox: BBox { x_min: b.0 as i64, y_min: b.1 as i64, x_max: b.2 as i64, y_max: b.3 as i64 },
                region_type: RegionType::Formula,
                page,
                confidence: if math_fonts_of(c) > c.len() / 2 {
                    85
                } else {
                    70
                },
                needs_ocr: true,
            },
        )
    }
}

pub open spec fn regions_of(cs: Seq<Seq<TextItem>>, page: u32) -> Seq<LayoutRegion>
    decreases cs.len(),
{
    if cs.len() == 0 {
        Seq::empty()
    } else {
        match region_of(cs.last(), page) {
            Some(r) => regions_of(cs.drop_last(), page).push(r),
            None => regions_of(cs.drop_last(), page),
        }
    }
}

/// Formula regions computed from the candidate items themselves.
pub open spec fn formula_regions_of_candidates(cands: Seq<TextItem>, page: u32) -> Seq<LayoutRegion> {
    regions_of(runs_at_least(runs(cands, value_link()), 3), page)
}

proof fn lemma_cluster_values(items: Seq<TextItem>, c: Seq<usize>)
    requires
        c.len() > 0,
    ensures
        cluster_bounds(items, c) == bounds_of(c.map_values(item_at(items))),
        cluster_math_fonts(items, c) == math_fonts_of(c.map_values(item_at(items))),
    decreases c.len(),
{
    let v = c.map_values(item_at(items));
    assert(v.last() == items[c.last() as int]);
    if c.len() > 1 {
        lemma_cluster_values(items, c.drop_last());
        assert(v.drop_last() =~= c.drop_last().map_values(item_at(items)));
    } else {
        assert(v.drop_last() =~= Seq::<TextItem>::empty());
        assert(c.drop_last() =~= Seq::<usize>::empty());
        assert(math_fonts_of(v.drop_last()) == 0);
        assert(cluster_math_fonts(items, c.drop_last()) == 0);
    }
}

proof fn lemma_cluster_regions_values(items: Seq<TextItem>, cs: Seq<Seq<usize>>, page: u32)
    requires
        forall|k: int| 0 <= k < cs.len() ==> (#[trigger] cs[k]).len() > 0,
    ensures
        cluster_regions(items, cs, page) == regions_of(
            cs.map_values(|c: Seq<usize>| c.map_values(item_at(items))),
            page,
        ),
    decreases cs.len(),
{
    let g = |c: Seq<usize>| c.map_values(item_at(items));
    let vs = cs.map_values(g);
    if cs.len() > 0 {
        assert(cs.drop_last().len() < cs.len());
        assert forall|k: int| 0 <= k < cs.drop_last().len() implies (#[trigger] cs.drop_last()[k]).len() > 0 by {
            assert(cs.drop_last()[k] == cs[k]);
        }
        lemma_cluster_regions_values(items, cs.drop_last(), page);
        assert(vs.drop_last() =~= cs.drop_last().map_values(g));
        lemma_cluster_values(items, cs.last());
        assert(vs.last() == g(cs.last()));
        assert(cs.last().map_values(item_at(items)).len() == cs.last().len());
    } else {
        assert(vs =~= Seq::<Seq<TextItem>>::empty());
    }
}

proof fn lemma_candidate_values(items: Seq<TextItem>, n: int)
    requires
        0 <= n <= items.len(),
        items.len() <= usize::MAX,
    ensures
        candidates_below(items, n).map_values(item_at(items)) == candidates_among(items.take(n), items),
    decreases n,
{
    if n > 0 {
        lemma_candidate_values(items, n - 1);
        assert(items.take(n).drop_last() =~= items.take(n - 1));
        assert(items.take(n).last() == items[n - 1]);
        assert(is_formula_candidate(items, n - 1) == is_candidate_in(items[n - 1], items));
        let c = candidates_below(items, n - 1);
        assert(item_at(items)((n - 1) as usize) == items[n - 1]);
        assert(c.push((n - 1) as usize).map_values(item_at(items)) =~= c.map_values(item_at(items)).push(
            items[n - 1],
        ));
    } else {
        assert(candidates_below(items, 0).map_values(item_at(items)) =~= Seq::<TextItem>::empty());
    }
}

proof fn lemma_text_items_members(items: Seq<TextItem>)
    ensures
        forall|j: int|
            0 <= j < items.len() && items[j].item_type == ItemType::Text ==> exists|k: int|
                0 <= k < text_items(items).len() && #[trigger] text_items(items)[k] == #[trigger] items[j],
        forall|k: int|
            0 <= k < text_items(items).len() ==> exists|j: int|
                0 <= j < items.len() && #[trigger] items[j] == #[trigger] text_items(items)[k],
        forall|k: int| 0 <= k < text_items(items).len() ==> (#[trigger] text_items(items)[k]).item_type == ItemType::Text,
    decreases items.len(),
{
    if items.len() > 0 {
        let p = items.drop_last();
        lemma_text_items_members(p);
        let t = text_items(items);
        let tp = text_items(p);
        assert forall|j: int| 0 <= j < items.len() && items[j].item_type == ItemType::Text implies exists|k: int|
            0 <= k < t.len() && #[trigger] t[k] == #[trigger] items[j] by {
            if j < items.len() - 1 {
                assert(p[j] == items[j]);
                let k = choose|k: int| 0 <= k < tp.len() && tp[k] == p[j];
                assert(t[k] == tp[k]);
            } else {
                assert(t[t.len() - 1] == items[j]);
            }
        }
        assert forall|k: int| 0 <= k < t.len() implies exists|j: int| 0 <= j < items.len() && #[trigger] items[j]
            == #[trigger] t[k] by {
            if k < tp.len() {
                assert(t[k] == tp[k]);
                let j = choose|j: int| 0 <= j < p.len() && p[j] == tp[k];
                assert(items[j] == p[j]);
            } else {
                assert(items[items.len() - 1] == t[k]);
            }
        }
        assert forall|k: int| 0 <= k < t.len() implies (#[trigger] t[k]).item_type == ItemType::Text by {
            if k < tp.len() {
                assert(t[k] == tp[k]);
            }
        }
    }
}

proof fn lemma_candidate_world(it: TextItem, items: Seq<TextItem>)
    ensures
        is_candidate_in(it, items) == is_candidate_in(it, text_items(items)),
{
    lemma_text_items_members(items);
    let t = text_items(items);
    if is_candidate_in(it, items) && !is_math_item(it) {
        let j = choose|j: int| 0 <= j < items.len() && is_math_item(items[j]) && #[trigger] is_script_of(it, items[j]);
        let k = choose|k: int| 0 <= k < t.len() && #[trigger] t[k] == #[trigger] items[j];
        assert(is_script_of(it, t[k]));
    }
    if is_candidate_in(it, t) && !is_math_item(it) {
        let k = choose|k: int| 0 <= k < t.len() && is_math_item(t[k]) && #[trigger] is_script_of(it, t[k]);
        let j = choose|j: int| 0 <= j < items.len() && #[trigger] items[j] == #[trigger] t[k];
        assert(is_script_of(it, items[j]));
    }
}

proof fn lemma_candidates_among_worlds(s: Seq<TextItem>, w1: Seq<TextItem>, w2: Seq<TextItem>)
    requires
        forall|it: TextItem| #[trigger] is_candidate_in(it, w1) == is_candidate_in(it, w2),
    ensures
        candidates_among(s, w1) == candidates_among(s, w2),
    decreases s.len(),
{
    if s.len() > 0 {
        lemma_candidates_among_worlds(s.drop_last(), w1, w2);
    }
}

proof fn lemma_candidates_among_text(s: Seq<TextItem>, world: Seq<TextItem>)
    ensures
        candidates_among(s, world) == candidates_among(text_items(s), world),
    decreases s.len(),
{
    if s.len() > 0 {
        lemma_candidates_among_text(s.drop_last(), world);
        let t = text_items(s.drop_last());
        if s.last().item_type == ItemType::Text {
            assert(t.push(s.last()).drop_last() =~= t);
        }
    }
}

/// The formula regions of a page equal those computed from the page's
/// candidate items alone, and the candidates are those among the page's text
/// items.
pub proof fn lemma_formula_regions_from_candidates(items: Seq<TextItem>, page: u32)
    requires
        items.len() <= usize::MAX,
    ensures
        formula_regions(items, page) == formula_regions_of_candidates(
            candidates_among(text_items(items), text_items(items)),
            page,
        ),
{
    let f = item_at(items);
    let c = formula_candidates(items);
    let la = formula_link(items);
    let g = |r: Seq<usize>| r.map_values(f);
    lemma_candidate_values(items, items.len() as int);
    assert(items.take(items.len() as int) =~= items);
    assert forall|a: usize, b: usize| #[trigger] la(a, b) == (value_link())(f(a), f(b)) by {}
    lemma_runs_map(c, f, la, value_link());
    lemma_runs_shape(c, la);
    let rs = runs(c, la);
    assert forall|r: Seq<usize>| (#[trigger] g(r)).len() == r.len() by {}
    lemma_runs_at_least_map(rs, g, 3);
    lemma_runs_at_least_count(rs, 3);
    let cs = runs_at_least(rs, 3);
    assert forall|k: int| 0 <= k < cs.len() implies (#[trigger] cs[k]).len() > 0 by {
        assert(cs[k].len() >= 3);
    }
    lemma_cluster_regions_values(items, cs, page);
    assert(cs.map_values(g) =~= cs.map_values(|r: Seq<usize>| r.map_values(item_at(items))));
    assert forall|it: TextItem| #[trigger] is_candidate_in(it, items) == is_candidate_in(it, text_items(items)) by {
        lemma_candidate_world(it, items);
    }
    lemma_candidates_among_worlds(items, items, text_items(items));
    lemma_candidates_among_text(items, text_items(items));
}

/// Only text items matter to formula detection: two pages with the same text
/// items in the same order, whatever images or other items stand between
/// them, have the same formula regions (pages of items that fit in memory).
pub proof fn lemma_formula_regions_ignore_non_text(items1: Seq<TextItem>, items2: Seq<TextItem>, page: u32)
    requires
        items1.len() <= usize::MAX,
        items2.len() <= usize::MAX,
        text_items(items1) == text_items(items2),
    ensures
        formula_regions(items1, page) == formula_regions(items2, page),
{
    lemma_formula_regions_from_candidates(items1, page);
    lemma_formula_regions_from_candidates(items2, page);
}

proof fn lemma_candidates_below_contains(items: Seq<TextItem>, n: int, i: int)
    requires
        0 <= i < n <= items.len(),
        n <= usize::MAX + 1,
        is_formula_candidate(items, i),
    ensures
        candidates_below(items, n).contains(i as usize),
    decreases n,
{
    if i < n - 1 {
        lemma_candidates_below_contains(items, n - 1, i);
        let c = candidates_below(items, n - 1);
        let k = choose|k: int| 0 <= k < c.len() && c[k] == i as usize;
        if is_formula_candidate(items, n - 1) {
            assert(c.push((n - 1) as usize)[k] == i as usize);
        }
    } else {
        let c = candidates_below(items, n - 1);
        assert(c.push((n - 1) as usize)[c.len() as int] == i as usize);
    }
}

/// Sub- and superscripts are found on either side of the baseline: an item
/// mirrored about a math item's baseline (its vertical offset from it
/// reversed) is a sub/superscript of that math item exactly when the item
/// itself is.
pub proof fn lemma_script_either_side(a: TextItem, m: TextItem, mirrored_y: i32)
    requires
        mirrored_y == 2 * m.y - a.y,
    ensures
        is_script_of((TextItem { y: mirrored_y, ..a }), m) == is_script_of(a, m),
{
}

/// A text item whose font is below 85% of a math item's, raised or lowered
/// by more than one point and by less than the math item's font size, and
/// ending or starting within two of the math item's font sizes of where the
/// math item starts or ends, takes part in formula clustering.
pub proof fn lemma_raised_or_lowered_script_is_candidate(items: Seq<TextItem>, i: int, j: int)
    requires
        items.len() <= usize::MAX,
        0 <= i < items.len(),
        0 <= j < items.len(),
        is_math_item(items[j]),
        items[i].item_type == ItemType::Text,
        100 * items[i].font_size < 85 * items[j].font_size,
        (UNITS_PER_POINT < items[i].y - items[j].y < items[j].font_size) || (UNITS_PER_POINT < items[j].y - items[i].y
            < items[j].font_size),
        (-2 * items[j].font_size < items[i].x - (items[j].x + items[j].width) < 2 * items[j].font_size) || (-2
            * items[j].font_size < items[j].x - (items[i].x + items[i].width) < 2 * items[j].font_size),
    ensures
        formula_candidates(items).contains(i as usize),
{
    assert(is_script_of(items[i], items[j]));
    assert(is_formula_candidate(items, i));
    lemma_candidates_below_contains(items, items.len() as int, i);
}

/// The box of a formula cluster is the smallest that takes in all its
/// items: from the leftmost start to the rightmost end (x + width), and from
/// the lowest baseline to the highest top (y + height), each edge reached by
/// some member.
pub proof fn lemma_cluster_bounds_tight(items: Seq<TextItem>, c: Seq<usize>)
    requires
        c.len() > 0,
    ensures
        forall|k: int|
            0 <= k < c.len() ==> {
                let it = items[#[trigger] c[k] as int];
                &&& cluster_bounds(items, c).0 <= it.x
                &&& cluster_bounds(items, c).1 <= it.y
                &&& it.x + it.width <= cluster_bounds(items, c).2
                &&& it.y + it.height <= cluster_bounds(items, c).3
            },
        exists|k: int| 0 <= k < c.len() && items[#[trigger] c[k] as int].x == cluster_bounds(items, c).0,
        exists|k: int| 0 <= k < c.len() && items[#[trigger] c[k] as int].y == cluster_bounds(items, c).1,
        exists|k: int|
            0 <= k < c.len() && items[#[trigger] c[k] as int].x + items[c[k] as int].width == cluster_bounds(items, c).2,
        exists|k: int|
            0 <= k < c.len() && items[#[trigger] c[k] as int].y + items[c[k] as int].height == cluster_bounds(items, c).3,
    decreases c.len(),
{
    let n = c.len();
    let nb = cluster_bounds(items, c);
    if n > 1 {
        let q = c.drop_last();
        lemma_cluster_bounds_tight(items, q);
        assert forall|k: int| 0 <= k < n - 1 implies #[trigger] c[k] == q[k] by {}
        let pb = cluster_bounds(items, q);
        let l = items[c[n - 1] as int];
        let i0 = choose|k: int| 0 <= k < q.len() && items[#[trigger] q[k] as int].x == pb.0;
        let i1 = choose|k: int| 0 <= k < q.len() && items[#[trigger] q[k] as int].y == pb.1;
        let i2 = choose|k: int| 0 <= k < q.len() && items[#[trigger] q[k] as int].x + items[q[k] as int].width == pb.2;
        let i3 = choose|k: int| 0 <= k < q.len() && items[#[trigger] q[k] as int].y + items[q[k] as int].height == pb.3;
        if l.x < pb.0 {
            assert(items[c[n - 1] as int].x == nb.0);
        } else {
            assert(items[c[i0] as int].x == nb.0);
        }
        if l.y < pb.1 {
            assert(items[c[n - 1] as int].y == nb.1);
        } else {
            assert(items[c[i1] as int].y == nb.1);
        }
        if l.x + l.width > pb.2 {
            assert(items[c[n - 1] as int].x + items[c[n - 1] as int].width == nb.2);
        } else {
            assert(items[c[i2] as int].x + items[c[i2] as int].width == nb.2);
        }
        if l.y + l.height > pb.3 {
            assert(items[c[n - 1] as int].y + items[c[n - 1] as int].height == nb.3);
        } else {
            assert(items[c[i3] as int].y + items[c[i3] as int].height == nb.3);
        }
    } else {
        assert(items[c[0] as int].x == nb.0);
        assert(items[c[0] as int].y == nb.1);
        assert(items[c[0] as int].x + items[c[0] as int].width == nb.2);
        assert(items[c[0] as int].y + items[c[0] as int].height == nb.3);
    }
}

/// The members of a cluster whose font is a math font.
pub open spec fn math_font_members(items: Seq<TextItem>, c: Seq<usize>) -> Seq<usize> {
    c.filter(|i: usize| is_math_font_name(items[i as int].font@))
}

proof fn lemma_cluster_math_fonts_count(items: Seq<TextItem>, c: Seq<usize>)
    ensures
        cluster_math_fonts(items, c) == math_font_members(items, c).len(),
    decreases c.len(),
{
    reveal(Seq::filter);
    if c.len() > 0 {
        lemma_cluster_math_fonts_count(items, c.drop_last());
    }
}

/// A formula region is as confident as its fonts: 85% when more than half
/// of the cluster's members use a math font, 70% otherwise; it is a formula
/// of the page that needs OCR.
pub proof fn lemma_formula_confidence(items: Seq<TextItem>, c: Seq<usize>, page: u32)
    ensures
        cluster_region(items, c, page) matches Some(r) ==> {
            &&& r.confidence == if 2 * math_font_members(items, c).len() > c.len() {
                85u32
            } else {
                70u32
            }
            &&& r.region_type == RegionType::Formula
            &&& r.needs_ocr
            &&& r.page == page
        },
{
    lemma_cluster_math_fonts_count(items, c);
    let m = cluster_math_fonts(items, c) as int;
    let n = c.len() as int;
    assert((m > n / 2) == (2 * m > n)) by (nonlinear_arith)
        requires
            n >= 0,
    ;
}

} // verus!
