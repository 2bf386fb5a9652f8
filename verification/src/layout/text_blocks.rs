//! Paragraph and heading region detection from the text items that no other
//! region claimed: font statistics, line grouping, heading tiers, and the
//! grouping of lines into blocks.
use std::collections::HashSet;

use vstd::prelude::*;

use crate::layout::formula::{abs_int, max_int, min_int};
use crate::runs::{flatten_runs, lemma_runs_keep, lemma_runs_shape, lemma_runs_step, lemma_runs_uniform, runs};
use crate::types::{copy_item, BBox, ItemType, LayoutRegion, RegionType, TextItem};

verus! {

/// Font statistics of a set of items.
pub struct FontStats {
    /// The font size carried by the most items (the first such size in item
    /// order on a tie); 0 when there are no items.
    pub most_common_size: u32,
}

/// Number of items whose font size is `size`.
pub open spec fn size_count(items: Seq<TextItem>, size: u32) -> nat
    decreases items.len(),
{
    if items.len() == 0 {
        0
    } else {
        size_count(items.drop_last(), size) + if items.last().font_size == size {
            1nat
        } else {
            0nat
        }
    }
}

/// Item `i` carries a most frequent font size, and no earlier item does.
pub open spec fn is_first_mode(items: Seq<TextItem>, i: int) -> bool {
    &&& 0 <= i < items.len()
    &&& forall|j: int| 0 <= j < items.len() ==> size_count(items, #[trigger] items[j].font_size) <= size_count(items, items[i].font_size)
    &&& forall|j: int| 0 <= j < i ==> size_count(items, #[trigger] items[j].font_size) < size_count(items, items[i].font_size)
}

/// The most common font size of the items: the size of the first item whose
/// size occurs most often; 0 for no items.
pub open spec fn most_common_size(items: Seq<TextItem>) -> u32 {
    if items.len() == 0 {
        0
    } else {
        items[choose|i: int| is_first_mode(items, i)].font_size
    }
}

proof fn lemma_first_mode_unique(items: Seq<TextItem>, i: int, j: int)
    requires
        is_first_mode(items, i),
        is_first_mode(items, j),
    ensures
        i == j,
{
    if i < j {
        assert(size_count(items, items[i].font_size) < size_count(items, items[j].font_size));
    } else if j < i {
        assert(size_count(items, items[j].font_size) < size_count(items, items[i].font_size));
    }
}

/// Number of items with font size `size`.
fn count_size(items: &[TextItem], size: u32) -> (n: usize)
    ensures
        n == size_count(items@, size),
{
    let mut n: usize = 0;
    for k in 0..items.len()
        invariant
            n == size_count(items@.take(k as int), size),
            n <= k,
    {
        assert(items@.take(k + 1).drop_last() =~= items@.take(k as int));
        if items[k].font_size == size {
            n = n + 1;
        }
    }
    assert(items@.take(items@.len() as int) =~= items@);
    n
}

/// Compute font statistics of the items.
pub fn calculate_font_stats_from_items(items: &[TextItem]) -> (stats: FontStats)
    ensures
        stats.most_common_size == most_common_size(items@),
{
    if items.len() == 0 {
        return FontStats { most_common_size: 0 };
    }
    let mut best: usize = 0;
    let mut best_count = count_size(items, items[0].font_size);
    for i in 1..items.len()
        invariant
            items@.len() > 0,
            best < i,
            best_count == size_count(items@, items@[best as int].font_size),
            forall|j: int| 0 <= j < i ==> size_count(items@, #[trigger] items@[j].font_size) <= best_count,
            forall|j: int| 0 <= j < best ==> size_count(items@, #[trigger] items@[j].font_size) < best_count,
    {
        let c = count_size(items, items[i].font_size);
        if c > best_count {
            best = i;
            best_count = c;
        }
    }
    proof {
        assert(is_first_mode(items@, best as int));
        let m = choose|i: int| is_first_mode(items@, i);
        lemma_first_mode_unique(items@, best as int, m);
    }
    FontStats { most_common_size: items[best].font_size }
}

/// A line of text: items that share a baseline, in reading order.
pub struct TextLine {
    pub items: Vec<TextItem>,
}

/// The items of each line.
pub open spec fn line_items(lines: Seq<TextLine>) -> Seq<Seq<TextItem>> {
    lines.map_values(|l: TextLine| l.items@)
}

/// Two consecutive items stand on one line when their baselines differ by at
/// most half of the larger of their font sizes.
pub open spec fn line_link() -> spec_fn(TextItem, TextItem) -> bool {
    |a: TextItem, b: TextItem| 2 * abs_int(b.y - a.y) <= max_int(a.font_size as int, b.font_size as int)
}

/// The lines of a sequence of items: maximal runs of consecutive items on one
/// baseline, in the items' order.
pub open spec fn spec_lines(items: Seq<TextItem>) -> Seq<Seq<TextItem>> {
    runs(items, line_link())
}

fn same_line(a: &TextItem, b: &TextItem) -> (r: bool)
    ensures
        r == (line_link())(*a, *b),
{
    let fs = if a.font_size >= b.font_size {
        a.font_size as i64
    } else {
        b.font_size as i64
    };
    let d = b.y as i64 - a.y as i64;
    let ad = if d < 0 {
        -d
    } else {
        d
    };
    2 * ad <= fs
}

/// Group items into lines (see [`spec_lines`]).
pub fn group_into_lines(items: Vec<TextItem>) -> (lines: Vec<TextLine>)
    ensures
        line_items(lines@) == spec_lines(items@),
{
    let ghost link = line_link();
    let mut lines: Vec<TextLine> = Vec::new();
    let mut current: Vec<TextItem> = Vec::new();
    for k in 0..items.len()
        invariant
            link == line_link(),
            k == 0 ==> current@.len() == 0 && lines@.len() == 0,
            k > 0 ==> current@ == runs(items@.take(k as int), link).last(),
            k > 0 ==> line_items(lines@) == runs(items@.take(k as int), link).drop_last(),
    {
        let it = copy_item(&items[k]);
        let ghost prev = items@.take(k as int);
        assert(items@.take(k + 1) =~= prev.push(it));
        if k == 0 {
            assert(items@.take(1) =~= seq![it]);
            current.push(it);
            assert(current@ =~= seq![it]);
            assert(line_items(lines@) =~= runs(items@.take(1), link).drop_last());
        } else {
            proof {
                lemma_runs_shape(prev, link);
                lemma_runs_step(prev, it, link);
            }
            let ghost rp = runs(prev, link);
            if same_line(&current[current.len() - 1], &it) {
                current.push(it);
                assert(runs(items@.take(k + 1), link).drop_last() =~= rp.drop_last());
            } else {
                let done = TextLine { items: current };
                lines.push(done);
                current = Vec::new();
                current.push(it);
                assert(current@ =~= seq![it]);
                assert(rp =~= rp.drop_last().push(rp.last()));
                assert(line_items(lines@) =~= rp);
                assert(runs(items@.take(k + 1), link).drop_last() =~= rp);
            }
        }
    }
    assert(items@.take(items@.len() as int) =~= items@);
    if items.len() > 0 {
        proof {
            let rs = runs(items@, link);
            lemma_runs_shape(items@, link);
            assert(rs =~= rs.drop_last().push(rs.last()));
        }
        lines.push(TextLine { items: current });
        assert(line_items(lines@) =~= runs(items@, link));
    } else {
        assert(line_items(lines@) =~= runs(items@, link));
    }
    lines
}

/// A font size marks a heading when it exceeds the base size by at least 20%.
pub open spec fn is_heading_size(size: u32, base: u32) -> bool {
    size > base && 5 * size >= 6 * base
}

/// The heading tiers of a page: the distinct heading-sized font sizes of the
/// lines' first items, in order of first appearance (empty lines have none).
pub open spec fn heading_tiers(lines: Seq<Seq<TextItem>>, base: u32) -> Seq<u32>
    decreases lines.len(),
{
    if lines.len() == 0 {
        Seq::empty()
    } else {
        let t = heading_tiers(lines.drop_last(), base);
        let size = lines.last()[0].font_size;
        if lines.last().len() > 0 && is_heading_size(size, base) && !t.contains(size) {
            t.push(size)
        } else {
            t
        }
    }
}

/// Number of tiers strictly larger than `size`.
pub open spec fn count_larger(tiers: Seq<u32>, size: u32) -> nat
    decreases tiers.len(),
{
    if tiers.len() == 0 {
        0
    } else {
        count_larger(tiers.drop_last(), size) + if tiers.last() > size {
            1nat
        } else {
            0nat
        }
    }
}

/// Heading level of a font size: none for a size that is not heading-sized;
/// otherwise one more than the number of larger tiers, at most 6.
pub open spec fn heading_level(size: u32, base: u32, tiers: Seq<u32>) -> Option<u8> {
    if !is_heading_size(size, base) {
        None
    } else if count_larger(tiers, size) >= 5 {
        Some(6u8)
    } else {
        Some((count_larger(tiers, size) + 1) as u8)
    }
}

/// Some non-empty line starts with an item of this font size.
pub open spec fn starts_some_line(lines: Seq<Seq<TextItem>>, size: u32) -> bool {
    exists|i: int| 0 <= i < lines.len() && (#[trigger] lines[i]).len() > 0 && lines[i][0].font_size == size
}

/// The heading tiers are the heading sizes of the page's lines, each once:
/// no size appears twice, every tier is heading-sized and is the size of the
/// first item of some line, and the first item of every line whose size is a
/// heading size has a size among the tiers.
pub proof fn lemma_heading_tiers(lines: Seq<Seq<TextItem>>, base: u32)
    ensures
        forall|a: int, b: int|
            0 <= a < b < heading_tiers(lines, base).len() ==> #[trigger] heading_tiers(lines, base)[a]
                != #[trigger] heading_tiers(lines, base)[b],
        forall|k: int|
            0 <= k < heading_tiers(lines, base).len() ==> is_heading_size(#[trigger] heading_tiers(lines, base)[k], base)
                && starts_some_line(lines, heading_tiers(lines, base)[k]),
        forall|i: int|
            0 <= i < lines.len() && (#[trigger] lines[i]).len() > 0 && is_heading_size(lines[i][0].font_size, base)
                ==> heading_tiers(lines, base).contains(lines[i][0].font_size),
    decreases lines.len(),
{
    if lines.len() > 0 {
        let q = lines.drop_last();
        lemma_heading_tiers(q, base);
        let t = heading_tiers(q, base);
        let n = lines.len();
        assert forall|i: int| 0 <= i < n - 1 implies #[trigger] lines[i] == q[i] by {}
        assert forall|x: u32| starts_some_line(q, x) implies starts_some_line(lines, x) by {
            let i = choose|i: int| 0 <= i < q.len() && (#[trigger] q[i]).len() > 0 && q[i][0].font_size == x;
            assert(lines[i] == q[i]);
        }
        let last = lines[n - 1];
        if last.len() > 0 && is_heading_size(last[0].font_size, base) && !t.contains(last[0].font_size) {
            let size = last[0].font_size;
            let u = t.push(size);
            assert(heading_tiers(lines, base) == u);
            assert forall|a: int, b: int| 0 <= a < b < u.len() implies #[trigger] u[a] != #[trigger] u[b] by {
                if b == t.len() {
                    assert(u[a] == t[a]);
                    assert(t.contains(t[a]));
                }
            }
            assert forall|k: int| 0 <= k < u.len() implies is_heading_size(#[trigger] u[k], base) && starts_some_line(
                lines,
                u[k],
            ) by {
                if k < t.len() {
                    assert(u[k] == t[k]);
                    assert(starts_some_line(q, t[k]));
                } else {
                    assert(lines[n - 1].len() > 0 && lines[n - 1][0].font_size == u[k]);
                }
            }
            assert forall|i: int| 0 <= i < lines.len() && (#[trigger] lines[i]).len() > 0 && is_heading_size(
                lines[i][0].font_size,
                base,
            ) implies u.contains(lines[i][0].font_size) by {
                if i < n - 1 {
                    assert(lines[i] == q[i]);
                    let j = choose|j: int| 0 <= j < t.len() && t[j] == q[i][0].font_size;
                    assert(u[j] == t[j]);
                } else {
                    assert(u[t.len() as int] == size);
                }
            }
        } else {
            assert(heading_tiers(lines, base) == t);
            assert forall|k: int| 0 <= k < t.len() implies is_heading_size(#[trigger] t[k], base) && starts_some_line(
                lines,
                t[k],
            ) by {
                assert(starts_some_line(q, t[k]));
            }
            assert forall|i: int| 0 <= i < lines.len() && (#[trigger] lines[i]).len() > 0 && is_heading_size(
                lines[i][0].font_size,
                base,
            ) implies t.contains(lines[i][0].font_size) by {
                if i < n - 1 {
                    assert(lines[i] == q[i]);
                }
            }
        }
    }
}

/// Lines are grouped symmetrically: whether two items stand on one line does
/// not depend on which of the two comes first.
pub proof fn lemma_line_link_symmetric(a: TextItem, b: TextItem)
    ensures
        (line_link())(a, b) == (line_link())(b, a),
{
}

/// The tiers strictly larger than `size`.
pub open spec fn larger_tiers(tiers: Seq<u32>, size: u32) -> Seq<u32> {
    tiers.filter(|t: u32| t > size)
}

proof fn lemma_count_larger(tiers: Seq<u32>, s1: u32, s2: u32)
    requires
        s1 >= s2,
    ensures
        count_larger(tiers, s1) == larger_tiers(tiers, s1).len(),
        count_larger(tiers, s1) <= count_larger(tiers, s2),
        s1 > s2 && tiers.contains(s1) ==> count_larger(tiers, s1) < count_larger(tiers, s2),
        (forall|k: int| 0 <= k < tiers.len() ==> tiers[k] <= s1) ==> count_larger(tiers, s1) == 0,
    decreases tiers.len(),
{
    reveal(Seq::filter);
    if tiers.len() > 0 {
        let q = tiers.drop_last();
        lemma_count_larger(q, s1, s2);
        if forall|k: int| 0 <= k < tiers.len() ==> tiers[k] <= s1 {
            assert(forall|k: int| 0 <= k < q.len() ==> q[k] == tiers[k]);
            assert(tiers[tiers.len() - 1] <= s1);
        }
        if s1 > s2 && tiers.contains(s1) && tiers.last() != s1 {
            let j = choose|j: int| 0 <= j < tiers.len() && tiers[j] == s1;
            assert(q[j] == s1);
        }
    }
}

/// Heading levels follow font size. A heading-sized font gets level one more
/// than the number of tiers larger than it, capped at 6, whatever the order
/// in which the tiers were found: so the largest size gets level 1, a larger
/// size never gets a deeper level than a smaller one, and a tier gets a
/// strictly shallower level than any smaller heading size short of the cap.
/// A size that is not heading-sized gets no level.
pub proof fn lemma_heading_levels_follow_size(tiers: Seq<u32>, base: u32, s1: u32, s2: u32)
    requires
        s1 > s2,
    ensures
        !is_heading_size(s1, base) ==> heading_level(s1, base, tiers) is None,
        is_heading_size(s1, base) ==> heading_level(s1, base, tiers) == Some(
            if larger_tiers(tiers, s1).len() >= 5 {
                6u8
            } else {
                (larger_tiers(tiers, s1).len() + 1) as u8
            },
        ),
        is_heading_size(s1, base) && (forall|k: int| 0 <= k < tiers.len() ==> tiers[k] <= s1) ==> heading_level(
            s1,
            base,
            tiers,
        ) == Some(1u8),
        is_heading_size(s1, base) && is_heading_size(s2, base) ==> heading_level(s1, base, tiers)->0 <= heading_level(
            s2,
            base,
            tiers,
        )->0,
        is_heading_size(s1, base) && is_heading_size(s2, base) && tiers.contains(s1) && heading_level(
            s1,
            base,
            tiers,
        )->0 < 6 ==> heading_level(s1, base, tiers)->0 < heading_level(s2, base, tiers)->0,
{
    lemma_count_larger(tiers, s1, s2);
}

/// Compute the heading tiers of the lines (see [`heading_tiers`]).
pub fn compute_heading_tiers(lines: &[TextLine], base_size: u32) -> (tiers: Vec<u32>)
    ensures
        tiers@ == heading_tiers(line_items(lines@), base_size),
{
    let mut tiers: Vec<u32> = Vec::new();
    for k in 0..lines.len()
        invariant
            tiers@ == heading_tiers(line_items(lines@).take(k as int), base_size),
    {
        let ghost prev = line_items(lines@).take(k as int);
        assert(line_items(lines@).take(k + 1).drop_last() =~= prev);
        assert(line_items(lines@).take(k + 1).last() == lines@[k as int].items@);
        let nonempty = lines[k].items.len() > 0;
        let size = if nonempty {
            lines[k].items[0].font_size
        } else {
            0
        };
        if nonempty && size > base_size && 5 * (size as u64) >= 6 * (base_size as u64) {
            let mut seen = false;
            for j in 0..tiers.len()
                invariant
                    seen == (exists|i: int| 0 <= i < j && tiers@[i] == size),
            {
                if tiers[j] == size {
                    seen = true;
                }
            }
            assert(seen == tiers@.contains(size));
            if !seen {
                tiers.push(size);
            }
        }
    }
    assert(line_items(lines@).take(lines@.len() as int) =~= line_items(lines@));
    tiers
}

/// The heading level of a font size given the page's tiers.
pub fn detect_header_level(font_size: u32, base_size: u32, tiers: &[u32]) -> (level: Option<u8>)
    ensures
        level == heading_level(font_size, base_size, tiers@),
{
    if !(font_size > base_size && 5 * (font_size as u64) >= 6 * (base_size as u64)) {
        return None;
    }
    let mut larger: usize = 0;
    for k in 0..tiers.len()
        invariant
            larger == count_larger(tiers@.take(k as int), font_size),
            larger <= k,
    {
        assert(tiers@.take(k + 1).drop_last() =~= tiers@.take(k as int));
        if tiers[k] > font_size {
            larger = larger + 1;
        }
    }
    assert(tiers@.take(tiers@.len() as int) =~= tiers@);
    if larger >= 5 {
        Some(6)
    } else {
        Some((larger + 1) as u8)
    }
}

/// What block grouping needs of a line: its kind, horizontal extent, the
/// baseline of its first item and the top of its first item.
#[derive(Clone, Copy, Debug, PartialEq, Eq, Structural)]
pub struct LineSummary {
    pub kind: RegionType,
    pub x_min: i64,
    pub x_max: i64,
    pub y: i64,
    pub top: i64,
}

/// Horizontal extent of a non-empty line: least left edge, greatest right
/// edge (x + width).
pub open spec fn items_extent(line: Seq<TextItem>) -> (int, int)
    decreases line.len(),
{
    let it = line.last();
    if line.len() <= 1 {
        (it.x as int, it.x + it.width)
    } else {
        let p = items_extent(line.drop_last());
        (min_int(p.0, it.x as int), max_int(p.1, it.x + it.width))
    }
}

/// The kind of a line: a heading of its level when the first item's font
/// size is a heading size, a paragraph otherwise.
pub open spec fn line_kind(line: Seq<TextItem>, base: u32, tiers: Seq<u32>) -> RegionType {
    match heading_level(line[0].font_size, base, tiers) {
        Some(level) => RegionType::Heading { level },
        None => RegionType::Paragraph,
    }
}

pub open spec fn line_summary(line: Seq<TextItem>, base: u32, tiers: Seq<u32>) -> LineSummary {
    LineSummary {
        kind: line_kind(line, base, tiers),
        x_min: items_extent(line).0 as i64,
        x_max: items_extent(line).1 as i64,
        y: line[0].y as i64,
        top: (line[0].y + line[0].height) as i64,
    }
}

pub open spec fn line_summaries(lines: Seq<Seq<TextItem>>, base: u32, tiers: Seq<u32>) -> Seq<LineSummary> {
    lines.map_values(|l: Seq<TextItem>| line_summary(l, base, tiers))
}

/// Consecutive lines share a block when they have the same kind and their
/// baselines are at most 1.5 base font sizes apart.
pub open spec fn block_link(base: u32) -> spec_fn(LineSummary, LineSummary) -> bool {
    |a: LineSummary, b: LineSummary| a.kind == b.kind && 2 * abs_int(a.y - b.y) <= 3 * base
}

/// Bounds of a non-empty block as (x_min, y_min, x_max, y_max): extents of
/// its lines, lowest baseline, highest top.
pub open spec fn block_bounds(b: Seq<LineSummary>) -> (int, int, int, int)
    decreases b.len(),
{
    let l = b.last();
    if b.len() <= 1 {
        (l.x_min as int, l.y as int, l.x_max as int, l.top as int)
    } else {
        let p = block_bounds(b.drop_last());
        (min_int(p.0, l.x_min as int), min_int(p.1, l.y as int), max_int(p.2, l.x_max as int), max_int(p.3, l.top as int))
    }
}

/// The region of a block, unless its box is degenerate: kind of its lines,
/// confidence 85, no OCR.
pub open spec fn block_region(b: Seq<LineSummary>, page: u32) -> Option<LayoutRegion> {
    let bb = block_bounds(b);
    if bb.2 > bb.0 && bb.3 > bb.1 {
        Some(
            LayoutRegion {
                bbox: BBox { x_min: bb.0 as i64, y_min: bb.1 as i64, x_max: bb.2 as i64, y_max: bb.3 as i64 },
                region_type: b[0].kind,
                page,
                confidence: 85,
                needs_ocr: false,
            },
        )
    } else {
        None
    }
}

pub open spec fn block_regions(bs: Seq<Seq<LineSummary>>, page: u32) -> Seq<LayoutRegion>
    decreases bs.len(),
{
    if bs.len() == 0 {
        Seq::empty()
    } else {
        match block_region(bs.last(), page) {
            Some(r) => block_regions(bs.drop_last(), page).push(r),
            None => block_regions(bs.drop_last(), page),
        }
    }
}

/// The text items of the page whose index is not excluded, in order.
pub open spec fn remaining_below(items: Seq<TextItem>, excluded: Set<usize>, n: int) -> Seq<TextItem>
    decreases n,
{
    if n <= 0 {
        Seq::empty()
    } else if !excluded.contains((n - 1) as usize) && items[n - 1].item_type == ItemType::Text {
        remaining_below(items, excluded, n - 1).push(items[n - 1])
    } else {
        remaining_below(items, excluded, n - 1)
    }
}

pub open spec fn remaining_items(items: Seq<TextItem>, excluded: Set<usize>) -> Seq<TextItem> {
    remaining_below(items, excluded, items.len() as int)
}

/// The summaries of the lines of the remaining text items, in order.
pub open spec fn text_line_summaries(items: Seq<TextItem>, excluded: Set<usize>) -> Seq<LineSummary> {
    let rem = remaining_items(items, excluded);
    let base = most_common_size(rem);
    let lines = spec_lines(rem);
    line_summaries(lines, base, heading_tiers(lines, base))
}

/// The blocks of lines of the remaining text items.
pub open spec fn text_blocks(items: Seq<TextItem>, excluded: Set<usize>) -> Seq<Seq<LineSummary>> {
    runs(text_line_summaries(items, excluded), block_link(most_common_size(remaining_items(items, excluded))))
}

/// The paragraph and heading regions of a page: the remaining text items
/// are grouped into lines, each line is classified, and consecutive lines of
/// one kind whose baselines are close form a block and a region.
pub open spec fn text_block_regions(items: Seq<TextItem>, page: u32, excluded: Set<usize>) -> Seq<LayoutRegion> {
    block_regions(text_blocks(items, excluded), page)
}

proof fn lemma_items_extent_range(line: Seq<TextItem>)
    requires
        line.len() > 0,
    ensures
        i32::MIN <= items_extent(line).0 <= i32::MAX,
        2 * i32::MIN <= items_extent(line).1 <= 2 * i32::MAX,
    decreases line.len(),
{
    if line.len() > 1 {
        lemma_items_extent_range(line.drop_last());
    }
}

/// The summary of a non-empty line.
fn summarize_line(line: &TextLine, base_size: u32, tiers: &Vec<u32>) -> (s: LineSummary)
    requires
        line.items@.len() > 0,
    ensures
        s == line_summary(line.items@, base_size, tiers@),
{
    let items = &line.items;
    let first = &items[0];
    let mut x_min: i64 = first.x as i64;
    let mut x_max: i64 = first.x as i64 + first.width as i64;
    assert(items@.take(1).drop_last() =~= Seq::<TextItem>::empty());
    assert(items@.take(1).last() == items@[0]);
    let mut i: usize = 1;
    while i < items.len()
        invariant
            1 <= i <= items@.len(),
            (x_min as int, x_max as int) == items_extent(items@.take(i as int)),
            i32::MIN <= x_min <= i32::MAX,
            2 * i32::MIN <= x_max <= 2 * i32::MAX,
        decreases items@.len() - i,
    {
        let it = &items[i];
        assert(items@.take(i + 1).drop_last() =~= items@.take(i as int));
        if (it.x as i64) < x_min {
            x_min = it.x as i64;
        }
        if it.x as i64 + it.width as i64 > x_max {
            x_max = it.x as i64 + it.width as i64;
        }
        i = i + 1;
    }
    assert(items@.take(items@.len() as int) =~= items@);
    let kind = match detect_header_level(first.font_size, base_size, tiers.as_slice()) {
        Some(level) => RegionType::Heading { level },
        None => RegionType::Paragraph,
    };
    LineSummary { kind, x_min, x_max, y: first.y as i64, top: first.y as i64 + first.height as i64 }
}

/// The region of a non-empty block.
fn measure_block(block: &Vec<LineSummary>, page: u32) -> (r: Option<LayoutRegion>)
    requires
        block@.len() > 0,
        forall|k: int|
            0 <= k < block@.len() ==> {
                let l = #[trigger] block@[k];
                &&& i32::MIN <= l.x_min <= i32::MAX
                &&& 2 * i32::MIN <= l.x_max <= 2 * i32::MAX
                &&& i32::MIN <= l.y <= i32::MAX
                &&& 2 * i32::MIN <= l.top <= 2 * i32::MAX
            },
    ensures
        r == block_region(block@, page),
{
    let first = block[0];
    let mut x_min = first.x_min;
    let mut y_min = first.y;
    let mut x_max = first.x_max;
    let mut y_max = first.top;
    assert(block@.take(1).drop_last() =~= Seq::<LineSummary>::empty());
    assert(block@.take(1).last() == block@[0]);
    let mut i: usize = 1;
    while i < block.len()
        invariant
            1 <= i <= block@.len(),
            (x_min as int, y_min as int, x_max as int, y_max as int) == block_bounds(block@.take(i as int)),
        decreases block@.len() - i,
    {
        let l = block[i];
        assert(block@.take(i + 1).drop_last() =~= block@.take(i as int));
        if l.x_min < x_min {
            x_min = l.x_min;
        }
        if l.y < y_min {
            y_min = l.y;
        }
        if l.x_max > x_max {
            x_max = l.x_max;
        }
        if l.top > y_max {
            y_max = l.top;
        }
        i = i + 1;
    }
    assert(block@.take(block@.len() as int) =~= block@);
    if x_max > x_min && y_max > y_min {
        Some(
            LayoutRegion {
                bbox: BBox { x_min, y_min, x_max, y_max },
                region_type: first.kind,
                page,
                confidence: 85,
                needs_ocr: false,
            },
        )
    } else {
        None
    }
}

fn linked_lines(a: &LineSummary, b: &LineSummary, base_size: u32) -> (r: bool)
    requires
        i32::MIN <= a.y <= i32::MAX,
        i32::MIN <= b.y <= i32::MAX,
    ensures
        r == (block_link(base_size))(*a, *b),
{
    let d = a.y - b.y;
    let ad = if d < 0 {
        -d
    } else {
        d
    };
    a.kind == b.kind && 2 * ad <= 3 * (base_size as i64)
}

/// Summary values fit the range of item coordinates.
pub open spec fn summary_in_range(l: LineSummary) -> bool {
    &&& i32::MIN <= l.x_min <= i32::MAX
    &&& 2 * i32::MIN <= l.x_max <= 2 * i32::MAX
    &&& i32::MIN <= l.y <= i32::MAX
    &&& 2 * i32::MIN <= l.top <= 2 * i32::MAX
}

/// Group line summaries into blocks and make their regions.
fn blocks_to_regions(sums: &Vec<LineSummary>, base_size: u32, page: u32) -> (regions: Vec<LayoutRegion>)
    requires
        forall|k: int| 0 <= k < sums@.len() ==> summary_in_range(#[trigger] sums@[k]),
    ensures
        regions@ == block_regions(runs(sums@, block_link(base_size)), page),
{
    let ghost link = block_link(base_size);
    let mut regions: Vec<LayoutRegion> = Vec::new();
    let mut current: Vec<LineSummary> = Vec::new();
    for k in 0..sums.len()
        invariant
            link == block_link(base_size),
            forall|j: int| 0 <= j < sums@.len() ==> summary_in_range(#[trigger] sums@[j]),
            forall|j: int| 0 <= j < current@.len() ==> summary_in_range(#[trigger] current@[j]),
            k == 0 ==> current@.len() == 0 && regions@ == Seq::<LayoutRegion>::empty(),
            k > 0 ==> current@ == runs(sums@.take(k as int), link).last(),
            k > 0 ==> regions@ == block_regions(runs(sums@.take(k as int), link).drop_last(), page),
    {
        let l = sums[k];
        let ghost prev = sums@.take(k as int);
        assert(sums@.take(k + 1) =~= prev.push(l));
        if k == 0 {
            assert(sums@.take(1) =~= seq![l]);
            assert(runs(sums@.take(1), link).drop_last() =~= Seq::<Seq<LineSummary>>::empty());
            current.push(l);
            assert(current@ =~= seq![l]);
        } else {
            proof {
                lemma_runs_shape(prev, link);
                lemma_runs_step(prev, l, link);
            }
            let ghost rp = runs(prev, link);
            if linked_lines(&current[current.len() - 1], &l, base_size) {
                current.push(l);
                assert(runs(sums@.take(k + 1), link).drop_last() =~= rp.drop_last());
            } else {
                let g = measure_block(&current, page);
                proof {
                    assert(rp =~= rp.drop_last().push(rp.last()));
                    assert(runs(sums@.take(k + 1), link).drop_last() =~= rp);
                }
                match g {
                    Some(r) => {
                        regions.push(r);
                    },
                    None => {},
                }
                current = Vec::new();
                current.push(l);
                assert(current@ =~= seq![l]);
            }
        }
    }
    assert(sums@.take(sums@.len() as int) =~= sums@);
    if sums.len() > 0 {
        let ghost rs = runs(sums@, link);
        proof {
            lemma_runs_shape(sums@, link);
            assert(rs =~= rs.drop_last().push(rs.last()));
        }
        let g = measure_block(&current, page);
        match g {
            Some(r) => {
                regions.push(r);
            },
            None => {},
        }
    } else {
        assert(runs(sums@, link) =~= Seq::<Seq<LineSummary>>::empty());
    }
    regions
}

/// Detect paragraph and heading regions from text items, excluding items
/// already claimed by table/formula/image regions.
///
/// `excluded_indices` are indices into `page_items` that belong to other regions.
pub fn detect_text_block_regions(page_items: &[TextItem], page: u32, excluded_indices: &HashSet<usize>) -> (regions: Vec<LayoutRegion>)
    ensures
        regions@ == text_block_regions(page_items@, page, excluded_indices@),
{
    // Filter to unclaimed text items
    let mut remaining: Vec<TextItem> = Vec::new();
    for i in 0..page_items.len()
        invariant
            remaining@ == remaining_below(page_items@, excluded_indices@, i as int),
    {
        if !excluded_indices.contains(&i) && page_items[i].item_type == ItemType::Text {
            remaining.push(copy_item(&page_items[i]));
        }
    }
    let ghost rem = remaining@;
    let font_stats = calculate_font_stats_from_items(remaining.as_slice());
    let base_size = font_stats.most_common_size;
    let lines = group_into_lines(remaining);
    proof {
        lemma_runs_shape(rem, line_link());
    }
    assert forall|k: int| 0 <= k < lines@.len() implies (#[trigger] lines@[k]).items@.len() > 0 by {
        assert(line_items(lines@)[k] == lines@[k].items@);
    }
    let tiers = compute_heading_tiers(lines.as_slice(), base_size);
    let mut sums: Vec<LineSummary> = Vec::new();
    for k in 0..lines.len()
        invariant
            forall|j: int| 0 <= j < lines@.len() ==> (#[trigger] lines@[j]).items@.len() > 0,
            sums@ == line_summaries(line_items(lines@), base_size, tiers@).take(k as int),
            forall|j: int| 0 <= j < sums@.len() ==> summary_in_range(#[trigger] sums@[j]),
    {
        let s = summarize_line(&lines[k], base_size, &tiers);
        proof {
            lemma_items_extent_range(lines@[k as int].items@);
        }
        sums.push(s);
        assert(sums@ =~= line_summaries(line_items(lines@), base_size, tiers@).take(k + 1));
    }
    assert(sums@ =~= line_summaries(line_items(lines@), base_size, tiers@));
    blocks_to_regions(&sums, base_size, page)
}

/// A text region: a paragraph or a heading of level 1 to 6 on the page, with
/// confidence 85, no OCR, and a non-empty box.
pub open spec fn is_text_region(r: LayoutRegion, page: u32) -> bool {
    &&& r.page == page
    &&& !r.needs_ocr
    &&& r.confidence == 85
    &&& r.bbox.x_min < r.bbox.x_max
    &&& r.bbox.y_min < r.bbox.y_max
    &&& (r.region_type == RegionType::Paragraph || (r.region_type matches RegionType::Heading { level } && 1 <= level
        <= 6))
}

/// A line kind that a text region may have, with coordinates in range.
pub open spec fn summary_ok(l: LineSummary) -> bool {
    &&& summary_in_range(l)
    &&& (l.kind == RegionType::Paragraph || (l.kind matches RegionType::Heading { level } && 1 <= level <= 6))
}

proof fn lemma_block_bounds_range(b: Seq<LineSummary>)
    requires
        b.len() > 0,
        forall|k: int| 0 <= k < b.len() ==> summary_in_range(#[trigger] b[k]),
    ensures
        i32::MIN <= block_bounds(b).0 <= i32::MAX,
        i32::MIN <= block_bounds(b).1 <= i32::MAX,
        2 * i32::MIN <= block_bounds(b).2 <= 2 * i32::MAX,
        2 * i32::MIN <= block_bounds(b).3 <= 2 * i32::MAX,
    decreases b.len(),
{
    assert(summary_in_range(b[b.len() - 1]));
    if b.len() > 1 {
        let q = b.drop_last();
        assert forall|k: int| 0 <= k < q.len() implies summary_in_range(#[trigger] q[k]) by {
            assert(q[k] == b[k]);
        }
        lemma_block_bounds_range(q);
    }
}

proof fn lemma_block_regions_shape(bs: Seq<Seq<LineSummary>>, page: u32)
    requires
        forall|k: int| 0 <= k < bs.len() ==> (#[trigger] bs[k]).len() > 0,
        forall|k: int, j: int| 0 <= k < bs.len() && 0 <= j < bs[k].len() ==> summary_ok(#[trigger] bs[k][j]),
    ensures
        forall|k: int| 0 <= k < block_regions(bs, page).len() ==> is_text_region(#[trigger] block_regions(bs, page)[k], page),
    decreases bs.len(),
{
    if bs.len() > 0 {
        let q = bs.drop_last();
        assert forall|k: int| 0 <= k < q.len() implies (#[trigger] q[k]).len() > 0 by {
            assert(q[k] == bs[k]);
        }
        assert forall|k: int, j: int| 0 <= k < q.len() && 0 <= j < q[k].len() implies summary_ok(#[trigger] q[k][j]) by {
            assert(q[k] == bs[k]);
        }
        lemma_block_regions_shape(q, page);
        let b = bs.last();
        assert(b.len() > 0);
        assert forall|k: int| 0 <= k < b.len() implies summary_in_range(#[trigger] b[k]) by {
            assert(summary_ok(bs[bs.len() - 1][k]));
        }
        lemma_block_bounds_range(b);
        assert(summary_ok(bs[bs.len() - 1][0]));
        match block_region(b, page) {
            Some(r) => {
                assert(is_text_region(r, page));
                assert(block_regions(bs, page) == block_regions(q, page).push(r));
            },
            None => {},
        }
    }
}

/// Paragraph and heading detection yields only text regions (paragraphs or
/// headings of level 1 to 6 with confidence 85, no OCR and a non-empty box);
/// when every index is excluded, or no text item is left, it yields none.
pub proof fn lemma_text_regions_shape(items: Seq<TextItem>, page: u32, excluded: Set<usize>)
    ensures
        forall|k: int|
            0 <= k < text_block_regions(items, page, excluded).len() ==> is_text_region(
                #[trigger] text_block_regions(items, page, excluded)[k],
                page,
            ),
        remaining_items(items, excluded).len() == 0 ==> text_block_regions(items, page, excluded).len() == 0,
        (forall|i: usize| i < items.len() ==> excluded.contains(i)) ==> text_block_regions(items, page, excluded).len() == 0,
{
    let rem = remaining_items(items, excluded);
    let base = most_common_size(rem);
    let lines = spec_lines(rem);
    let tiers = heading_tiers(lines, base);
    let sums = line_summaries(lines, base, tiers);
    lemma_runs_shape(rem, line_link());
    assert forall|k: int| 0 <= k < sums.len() implies summary_ok(#[trigger] sums[k]) by {
        assert(lines[k].len() > 0);
        lemma_items_extent_range(lines[k]);
    }
    lemma_runs_keep(sums, block_link(base), |l: LineSummary| summary_ok(l));
    lemma_runs_shape(sums, block_link(base));
    lemma_block_regions_shape(runs(sums, block_link(base)), page);
    if forall|i: usize| i < items.len() ==> excluded.contains(i) {
        lemma_remaining_all_excluded(items, excluded, items.len() as int);
    }
}

/// The extent of a line is the narrowest that takes in all its items: no
/// item starts left of it or ends right of it, and some item starts at its
/// left edge and some item ends at its right edge.
pub proof fn lemma_line_extent_tight(line: Seq<TextItem>)
    requires
        line.len() > 0,
    ensures
        forall|j: int|
            0 <= j < line.len() ==> items_extent(line).0 <= (#[trigger] line[j]).x && line[j].x + line[j].width
                <= items_extent(line).1,
        exists|j: int| 0 <= j < line.len() && (#[trigger] line[j]).x == items_extent(line).0,
        exists|j: int| 0 <= j < line.len() && (#[trigger] line[j]).x + line[j].width == items_extent(line).1,
    decreases line.len(),
{
    let n = line.len();
    if n > 1 {
        let q = line.drop_last();
        lemma_line_extent_tight(q);
        assert forall|j: int| 0 <= j < n - 1 implies #[trigger] line[j] == q[j] by {}
        let a = choose|j: int| 0 <= j < q.len() && (#[trigger] q[j]).x == items_extent(q).0;
        let b = choose|j: int| 0 <= j < q.len() && (#[trigger] q[j]).x + q[j].width == items_extent(q).1;
        if line[n - 1].x < items_extent(q).0 {
            assert(line[n - 1].x == items_extent(line).0);
        } else {
            assert(line[a].x == items_extent(line).0);
        }
        if line[n - 1].x + line[n - 1].width > items_extent(q).1 {
            assert(line[n - 1].x + line[n - 1].width == items_extent(line).1);
        } else {
            assert(line[b].x + line[b].width == items_extent(line).1);
        }
    } else {
        assert(line[0].x == items_extent(line).0);
        assert(line[0].x + line[0].width == items_extent(line).1);
    }
}

/// The box of a block is the smallest that takes in all its lines: from the
/// leftmost line start to the rightmost line end, and from the lowest
/// baseline to the highest top, each edge reached by some line.
pub proof fn lemma_block_bounds_tight(b: Seq<LineSummary>)
    requires
        b.len() > 0,
    ensures
        forall|j: int|
            0 <= j < b.len() ==> {
                let l = #[trigger] b[j];
                &&& block_bounds(b).0 <= l.x_min
                &&& block_bounds(b).1 <= l.y
                &&& l.x_max <= block_bounds(b).2
                &&& l.top <= block_bounds(b).3
            },
        exists|j: int| 0 <= j < b.len() && (#[trigger] b[j]).x_min == block_bounds(b).0,
        exists|j: int| 0 <= j < b.len() && (#[trigger] b[j]).y == block_bounds(b).1,
        exists|j: int| 0 <= j < b.len() && (#[trigger] b[j]).x_max == block_bounds(b).2,
        exists|j: int| 0 <= j < b.len() && (#[trigger] b[j]).top == block_bounds(b).3,
    decreases b.len(),
{
    let n = b.len();
    if n > 1 {
        let q = b.drop_last();
        lemma_block_bounds_tight(q);
        assert forall|j: int| 0 <= j < n - 1 implies #[trigger] b[j] == q[j] by {}
        let pb = block_bounds(q);
        let nb = block_bounds(b);
        let l = b[n - 1];
        let i0 = choose|j: int| 0 <= j < q.len() && (#[trigger] q[j]).x_min == pb.0;
        let i1 = choose|j: int| 0 <= j < q.len() && (#[trigger] q[j]).y == pb.1;
        let i2 = choose|j: int| 0 <= j < q.len() && (#[trigger] q[j]).x_max == pb.2;
        let i3 = choose|j: int| 0 <= j < q.len() && (#[trigger] q[j]).top == pb.3;
        if l.x_min < pb.0 {
            assert(b[n - 1].x_min == nb.0);
        } else {
            assert(b[i0].x_min == nb.0);
        }
        if l.y < pb.1 {
            assert(b[n - 1].y == nb.1);
        } else {
            assert(b[i1].y == nb.1);
        }
        if l.x_max > pb.2 {
            assert(b[n - 1].x_max == nb.2);
        } else {
            assert(b[i2].x_max == nb.2);
        }
        if l.top > pb.3 {
            assert(b[n - 1].top == nb.3);
        } else {
            assert(b[i3].top == nb.3);
        }
    } else {
        assert(b[0].x_min == block_bounds(b).0);
        assert(b[0].y == block_bounds(b).1);
        assert(b[0].x_max == block_bounds(b).2);
        assert(b[0].top == block_bounds(b).3);
    }
}

proof fn lemma_block_regions_origin(bs: Seq<Seq<LineSummary>>, page: u32)
    ensures
        forall|i: int|
            0 <= i < block_regions(bs, page).len() ==> exists|k: int|
                0 <= k < bs.len() && block_region(#[trigger] bs[k], page) == Some(
                    #[trigger] block_regions(bs, page)[i],
                ),
    decreases bs.len(),
{
    if bs.len() > 0 {
        let q = bs.drop_last();
        lemma_block_regions_origin(q, page);
        let rq = block_regions(q, page);
        let r = block_regions(bs, page);
        assert forall|i: int| 0 <= i < r.len() implies exists|k: int|
            0 <= k < bs.len() && block_region(#[trigger] bs[k], page) == Some(#[trigger] r[i]) by {
            if i < rq.len() {
                let k = choose|k: int| 0 <= k < q.len() && block_region(#[trigger] q[k], page) == Some(rq[i]);
                assert(bs[k] == q[k]);
                assert(r[i] == rq[i]);
            } else {
                assert(block_region(bs[bs.len() - 1], page) == Some(r[i]));
            }
        }
    }
}

/// Each paragraph or heading block holds lines of one kind. The blocks put
/// back together give the page's lines in order, every line of a block has
/// the kind of the block's first line, so two neighbouring lines of different
/// kinds (a heading and a paragraph, or headings of different levels) never
/// share a block; and each text region comes from one block, whose every
/// line has the region's type.
pub proof fn lemma_text_blocks_one_kind(items: Seq<TextItem>, page: u32, excluded: Set<usize>)
    ensures
        flatten_runs(text_blocks(items, excluded)) == text_line_summaries(items, excluded),
        forall|k: int, j: int|
            0 <= k < text_blocks(items, excluded).len() && 0 <= j < text_blocks(items, excluded)[k].len() ==> (
            #[trigger] text_blocks(items, excluded)[k][j]).kind == text_blocks(items, excluded)[k][0].kind,
        forall|i: int|
            0 <= i < text_block_regions(items, page, excluded).len() ==> exists|k: int|
                0 <= k < text_blocks(items, excluded).len() && block_region(
                    #[trigger] text_blocks(items, excluded)[k],
                    page,
                ) == Some(#[trigger] text_block_regions(items, page, excluded)[i]) && forall|j: int|
                    0 <= j < text_blocks(items, excluded)[k].len() ==> text_blocks(items, excluded)[k][j].kind
                        == text_block_regions(items, page, excluded)[i].region_type,
{
    let base = most_common_size(remaining_items(items, excluded));
    let sums = text_line_summaries(items, excluded);
    let link = block_link(base);
    let bs = text_blocks(items, excluded);
    lemma_runs_shape(sums, link);
    lemma_runs_uniform(sums, link, |l: LineSummary| l.kind);
    lemma_block_regions_origin(bs, page);
    let rs = text_block_regions(items, page, excluded);
    assert forall|i: int| 0 <= i < rs.len() implies exists|k: int|
        0 <= k < bs.len() && block_region(#[trigger] bs[k], page) == Some(#[trigger] rs[i]) && forall|j: int|
            0 <= j < bs[k].len() ==> bs[k][j].kind == rs[i].region_type by {
        let k = choose|k: int| 0 <= k < bs.len() && block_region(#[trigger] bs[k], page) == Some(rs[i]);
        assert forall|j: int| 0 <= j < bs[k].len() implies bs[k][j].kind == rs[i].region_type by {
            assert((|l: LineSummary| l.kind)(bs[k][j]) == (|l: LineSummary| l.kind)(bs[k][0]));
        }
    }
}

proof fn lemma_remaining_all_excluded(items: Seq<TextItem>, excluded: Set<usize>, n: int)
    requires
        n <= items.len(),
        forall|i: usize| i < items.len() ==> excluded.contains(i),
    ensures
        remaining_below(items, excluded, n).len() == 0,
    decreases n,
{
    if n > 0 {
        assert(excluded.contains((n - 1) as usize));
        lemma_remaining_all_excluded(items, excluded, n - 1);
    }
}

} // verus!
