//! Table region detection: the rect → line → heuristic cascade over the table
//! candidates found in each band of a page, and the bounding box of a table.
use vstd::prelude::*;

use crate::types::{copy_item, BBox, LayoutRegion, PdfLine, PdfRect, RegionType, TextItem, UNITS_PER_POINT};

verus! {

/// A detected table grid: column x-positions from left to right, row
/// y-positions from top to bottom (descending y), the cell texts, and the
/// indices of the page items the table holds.
#[derive(Clone, Debug)]
pub struct Table {
    pub columns: Vec<i32>,
    pub rows: Vec<i32>,
    pub cells: Vec<Vec<String>>,
    pub item_indices: Vec<usize>,
}

/// Detection strategy used, determines confidence score.
#[derive(Clone, Copy, Debug, PartialEq, Eq, Structural)]
pub enum Strategy {
    Rect,
    Line,
    Heuristic,
}

/// The tables that each strategy found in one band of a page (a page side by
/// side split into bands, or the whole page as one band).
#[derive(Clone, Debug)]
pub struct BandTables {
    pub rect_tables: Vec<Table>,
    pub line_tables: Vec<Table>,
    pub heuristic_tables: Vec<Table>,
}

/// The table candidates of one page, band by band.
#[derive(Clone, Debug)]
pub struct PageTables {
    pub page: u32,
    pub bands: Vec<BandTables>,
}

/// Padding added on every side of a table grid, to take in text slightly
/// outside the grid lines: two points.
pub const TABLE_PADDING: i64 = 2 * UNITS_PER_POINT;

/// Confidence of a table region by strategy.
pub open spec fn strategy_confidence(s: Strategy) -> u32 {
    match s {
        Strategy::Rect => 90,
        Strategy::Line => 85,
        Strategy::Heuristic => 70,
    }
}

/// The region of a table grid: the grid's extent (first to last column, last
/// to first row) padded by [`TABLE_PADDING`]; none for a grid without columns
/// or rows. Table regions always need OCR.
pub open spec fn table_region(t: Table, page: u32, strategy: Strategy) -> Option<LayoutRegion> {
    let cols = t.columns@;
    let rows = t.rows@;
    if cols.len() == 0 || rows.len() == 0 {
        None
    } else {
        Some(
            LayoutRegion {
                bbox: BBox {
                    x_min: (cols[0] - TABLE_PADDING) as i64,
                    y_min: (rows.last() - TABLE_PADDING) as i64,
                    x_max: (cols.last() + TABLE_PADDING) as i64,
                    y_max: (rows[0] + TABLE_PADDING) as i64,
                },
                region_type: RegionType::Table,
                page,
                confidence: strategy_confidence(strategy),
                needs_ocr: true,
            },
        )
    }
}

/// Regions of a list of tables, in order, grids without columns or rows left
/// out.
pub open spec fn tables_regions(ts: Seq<Table>, page: u32, strategy: Strategy) -> Seq<LayoutRegion>
    decreases ts.len(),
{
    if ts.len() == 0 {
        Seq::empty()
    } else {
        match table_region(ts.last(), page, strategy) {
            Some(r) => tables_regions(ts.drop_last(), page, strategy).push(r),
            None => tables_regions(ts.drop_last(), page, strategy),
        }
    }
}

/// The table regions of one band: those of the rect-based tables when there
/// are any, else those of the line-based tables when there are any, else
/// those of the heuristic tables.
pub open spec fn band_regions(b: BandTables, page: u32) -> Seq<LayoutRegion> {
    if b.rect_tables@.len() > 0 {
        tables_regions(b.rect_tables@, page, Strategy::Rect)
    } else if b.line_tables@.len() > 0 {
        tables_regions(b.line_tables@, page, Strategy::Line)
    } else {
        tables_regions(b.heuristic_tables@, page, Strategy::Heuristic)
    }
}

/// The table regions of all bands, band after band.
pub open spec fn table_regions(bands: Seq<BandTables>, page: u32) -> Seq<LayoutRegion>
    decreases bands.len(),
{
    if bands.len() == 0 {
        Seq::empty()
    } else {
        table_regions(bands.drop_last(), page) + band_regions(bands.last(), page)
    }
}

/// Convert a `Table` to a `LayoutRegion` by deriving its bounding box.
pub fn table_to_region(table: &Table, page: u32, strategy: Strategy) -> (r: Option<LayoutRegion>)
    ensures
        r == table_region(*table, page, strategy),
{
    if table.columns.len() == 0 || table.rows.len() == 0 {
        return None;
    }
    let x_min = table.columns[0] as i64;
    let x_max = table.columns[table.columns.len() - 1] as i64;
    // rows are in descending y order
    let y_max = table.rows[0] as i64;
    let y_min = table.rows[table.rows.len() - 1] as i64;
    let confidence: u32 = match strategy {
        Strategy::Rect => 90,
        Strategy::Line => 85,
        Strategy::Heuristic => 70,
    };
    Some(
        LayoutRegion {
            bbox: BBox {
                x_min: x_min - TABLE_PADDING,
                y_min: y_min - TABLE_PADDING,
                x_max: x_max + TABLE_PADDING,
                y_max: y_max + TABLE_PADDING,
            },
            region_type: RegionType::Table,
            page,
            confidence,
            needs_ocr: true,
        },
    )
}

/// Append the regions of `tables` to `regions`.
fn push_table_regions(regions: &mut Vec<LayoutRegion>, tables: &Vec<Table>, page: u32, strategy: Strategy)
    ensures
        final(regions)@ == old(regions)@ + tables_regions(tables@, page, strategy),
{
    let ghost start = regions@;
    for k in 0..tables.len()
        invariant
            regions@ == start + tables_regions(tables@.take(k as int), page, strategy),
    {
        assert(tables@.take(k + 1).drop_last() =~= tables@.take(k as int));
        match table_to_region(&tables[k], page, strategy) {
            Some(r) => {
                regions.push(r);
            },
            None => {},
        }
        assert(regions@ =~= start + tables_regions(tables@.take(k + 1), page, strategy));
    }
    assert(tables@.take(tables@.len() as int) =~= tables@);
}

/// Detect table regions on a single page.
///
/// Runs the rect → line → heuristic cascade in every band: the first strategy
/// that found any table in a band decides that band's regions.
pub fn detect_table_regions(bands: &[BandTables], page: u32) -> (regions: Vec<LayoutRegion>)
    ensures
        regions@ == table_regions(bands@, page),
{
    let mut regions: Vec<LayoutRegion> = Vec::new();
    for k in 0..bands.len()
        invariant
            regions@ == table_regions(bands@.take(k as int), page),
    {
        assert(bands@.take(k + 1).drop_last() =~= bands@.take(k as int));
        let band = &bands[k];
        if band.rect_tables.len() > 0 {
            push_table_regions(&mut regions, &band.rect_tables, page, Strategy::Rect);
        } else if band.line_tables.len() > 0 {
            push_table_regions(&mut regions, &band.line_tables, page, Strategy::Line);
        } else {
            push_table_regions(&mut regions, &band.heuristic_tables, page, Strategy::Heuristic);
        }
    }
    assert(bands@.take(bands@.len() as int) =~= bands@);
    regions
}

/// Margin by which an item may stand outside a band's x-range and still
/// belong to it: two points.
pub const BAND_MARGIN: i64 = 2 * UNITS_PER_POINT;

/// The bands in which a page is searched for tables: each side-by-side band
/// `(x_lo, x_hi)` found on the page, or the whole page (`None`) when none was
/// found.
pub open spec fn spec_band_ranges(bands: Seq<(i32, i32)>) -> Seq<Option<(i32, i32)>> {
    if bands.len() == 0 {
        seq![None]
    } else {
        bands.map_values(|b: (i32, i32)| Some(b))
    }
}

/// The bands to search for tables, given the side-by-side bands of the page.
pub fn band_ranges(bands: &[(i32, i32)]) -> (r: Vec<Option<(i32, i32)>>)
    ensures
        r@ == spec_band_ranges(bands@),
{
    if bands.len() == 0 {
        let r: Vec<Option<(i32, i32)>> = vec![None];
        assert(r@ =~= seq![None]);
        return r;
    }
    let mut r: Vec<Option<(i32, i32)>> = Vec::new();
    for k in 0..bands.len()
        invariant
            r@ =~= bands@.take(k as int).map_values(|b: (i32, i32)| Some(b)),
    {
        r.push(Some(bands[k]));
        assert(r@ =~= bands@.take(k + 1).map_values(|b: (i32, i32)| Some(b)));
    }
    assert(bands@.take(bands@.len() as int) =~= bands@);
    r
}

/// An item belongs to a band when its x lies in `[x_lo - 2pt, x_hi + 2pt)`;
/// every item belongs to the whole page.
pub open spec fn in_band(item: TextItem, band: Option<(i32, i32)>) -> bool {
    match band {
        None => true,
        Some((x_lo, x_hi)) => x_lo - BAND_MARGIN <= item.x && item.x < x_hi + BAND_MARGIN,
    }
}

/// The items of a page that belong to a band, in page order.
pub open spec fn spec_band_items(items: Seq<TextItem>, band: Option<(i32, i32)>) -> Seq<TextItem> {
    items.filter(|it: TextItem| in_band(it, band))
}

/// The items of a page that the table detectors of a band are given.
pub fn band_items(page_items: &[TextItem], band: Option<(i32, i32)>) -> (r: Vec<TextItem>)
    ensures
        r@ == spec_band_items(page_items@, band),
{
    let mut r: Vec<TextItem> = Vec::new();
    for k in 0..page_items.len()
        invariant
            r@ == spec_band_items(page_items@.take(k as int), band),
    {
        assert(page_items@.take(k + 1).drop_last() =~= page_items@.take(k as int));
        let item = &page_items[k];
        let keep: bool = match band {
            None => true,
            Some((x_lo, x_hi)) => {
                let x: i64 = item.x as i64;
                x_lo as i64 - BAND_MARGIN <= x && x < x_hi as i64 + BAND_MARGIN
            },
        };
        if keep {
            r.push(copy_item(item));
        }
        proof {
            reveal(Seq::filter);
        }
    }
    assert(page_items@.take(page_items@.len() as int) =~= page_items@);
    r
}

/// The rectangles of a page, in order.
pub open spec fn spec_rects_on_page(rects: Seq<PdfRect>, page: u32) -> Seq<PdfRect> {
    rects.filter(|r: PdfRect| r.page == page)
}

/// The rectangles that the table detectors of a whole-page band are given:
/// those of the page.
pub fn rects_on_page(rects: &[PdfRect], page: u32) -> (r: Vec<PdfRect>)
    ensures
        r@ == spec_rects_on_page(rects@, page),
{
    let mut r: Vec<PdfRect> = Vec::new();
    for k in 0..rects.len()
        invariant
            r@ == spec_rects_on_page(rects@.take(k as int), page),
    {
        assert(rects@.take(k + 1).drop_last() =~= rects@.take(k as int));
        if rects[k].page == page {
            r.push(rects[k]);
        }
        proof {
            reveal(Seq::filter);
        }
    }
    assert(rects@.take(rects@.len() as int) =~= rects@);
    r
}

/// The line segments of a page, in order.
pub open spec fn spec_lines_on_page(lines: Seq<PdfLine>, page: u32) -> Seq<PdfLine> {
    lines.filter(|l: PdfLine| l.page == page)
}

/// The line segments that the table detectors of a whole-page band are
/// given: those of the page.
pub fn lines_on_page(lines: &[PdfLine], page: u32) -> (r: Vec<PdfLine>)
    ensures
        r@ == spec_lines_on_page(lines@, page),
{
    let mut r: Vec<PdfLine> = Vec::new();
    for k in 0..lines.len()
        invariant
            r@ == spec_lines_on_page(lines@.take(k as int), page),
    {
        assert(lines@.take(k + 1).drop_last() =~= lines@.take(k as int));
        if lines[k].page == page {
            r.push(lines[k]);
        }
        proof {
            reveal(Seq::filter);
        }
    }
    assert(lines@.take(lines@.len() as int) =~= lines@);
    r
}

proof fn lemma_filter_none<A>(s: Seq<A>, pred: spec_fn(A) -> bool)
    requires
        forall|k: int| 0 <= k < s.len() ==> !pred(#[trigger] s[k]),
    ensures
        s.filter(pred) == Seq::<A>::empty(),
    decreases s.len(),
{
    reveal(Seq::filter);
    if s.len() > 0 {
        lemma_filter_none(s.drop_last(), pred);
        assert(!pred(s[s.len() - 1]));
    }
}

/// Rectangles and line segments of other pages change nothing of what the
/// table detectors of a whole-page band are given.
pub proof fn lemma_other_pages_ignored(
    rects: Seq<PdfRect>,
    lines: Seq<PdfLine>,
    more_rects: Seq<PdfRect>,
    more_lines: Seq<PdfLine>,
    page: u32,
)
    requires
        forall|k: int| 0 <= k < more_rects.len() ==> (#[trigger] more_rects[k]).page != page,
        forall|k: int| 0 <= k < more_lines.len() ==> (#[trigger] more_lines[k]).page != page,
    ensures
        spec_rects_on_page(rects + more_rects, page) == spec_rects_on_page(rects, page),
        spec_rects_on_page(more_rects + rects, page) == spec_rects_on_page(rects, page),
        spec_lines_on_page(lines + more_lines, page) == spec_lines_on_page(lines, page),
        spec_lines_on_page(more_lines + lines, page) == spec_lines_on_page(lines, page),
{
    let pr = |r: PdfRect| r.page == page;
    let pl = |l: PdfLine| l.page == page;
    lemma_filter_none(more_rects, pr);
    lemma_filter_none(more_lines, pl);
    Seq::filter_distributes_over_add(rects, more_rects, pr);
    Seq::filter_distributes_over_add(more_rects, rects, pr);
    Seq::filter_distributes_over_add(lines, more_lines, pl);
    Seq::filter_distributes_over_add(more_lines, lines, pl);
    assert(rects.filter(pr) + Seq::<PdfRect>::empty() =~= rects.filter(pr));
    assert(Seq::<PdfRect>::empty() + rects.filter(pr) =~= rects.filter(pr));
    assert(lines.filter(pl) + Seq::<PdfLine>::empty() =~= lines.filter(pl));
    assert(Seq::<PdfLine>::empty() + lines.filter(pl) =~= lines.filter(pl));
}

/// A table region of the given page, strategy confidence among 70, 85, 90.
pub open spec fn is_table_region(r: LayoutRegion, page: u32) -> bool {
    &&& r.region_type == RegionType::Table
    &&& r.page == page
    &&& r.needs_ocr
    &&& (r.confidence == 90 || r.confidence == 85 || r.confidence == 70)
}

proof fn lemma_tables_regions_shape(ts: Seq<Table>, page: u32, strategy: Strategy)
    ensures
        tables_regions(ts, page, strategy).len() <= ts.len(),
        forall|k: int|
            0 <= k < tables_regions(ts, page, strategy).len() ==> {
                let r = #[trigger] tables_regions(ts, page, strategy)[k];
                &&& is_table_region(r, page)
                &&& r.confidence == strategy_confidence(strategy)
            },
    decreases ts.len(),
{
    if ts.len() > 0 {
        lemma_tables_regions_shape(ts.drop_last(), page, strategy);
    }
}

/// The cascade of a band: when the rect-based detector found tables, every
/// region of the band comes from them (confidence 90); otherwise, when the
/// line-based detector found tables, every region comes from them (confidence
/// 85); otherwise all come from the heuristic detector (confidence 70). Every
/// region is a table on the page that needs OCR, and there is at most one
/// region per table of the deciding strategy.
pub proof fn lemma_table_cascade(b: BandTables, page: u32)
    ensures
        b.rect_tables@.len() > 0 ==> band_regions(b, page).len() <= b.rect_tables@.len(),
        forall|k: int|
            0 <= k < band_regions(b, page).len() ==> {
                let r = #[trigger] band_regions(b, page)[k];
                &&& is_table_region(r, page)
                &&& b.rect_tables@.len() > 0 ==> r.confidence == 90
                &&& b.rect_tables@.len() == 0 && b.line_tables@.len() > 0 ==> r.confidence == 85
                &&& b.rect_tables@.len() == 0 && b.line_tables@.len() == 0 ==> r.confidence == 70
            },
{
    lemma_tables_regions_shape(b.rect_tables@, page, Strategy::Rect);
    lemma_tables_regions_shape(b.line_tables@, page, Strategy::Line);
    lemma_tables_regions_shape(b.heuristic_tables@, page, Strategy::Heuristic);
}

/// Every region that table detection yields for a page is a table region of
/// that page that needs OCR.
pub proof fn lemma_table_regions_need_ocr(bands: Seq<BandTables>, page: u32)
    ensures
        forall|k: int|
            0 <= k < table_regions(bands, page).len() ==> is_table_region(
                #[trigger] table_regions(bands, page)[k],
                page,
            ),
    decreases bands.len(),
{
    if bands.len() > 0 {
        lemma_table_regions_need_ocr(bands.drop_last(), page);
        lemma_table_cascade(bands.last(), page);
        let a = table_regions(bands.drop_last(), page);
        let b = band_regions(bands.last(), page);
        assert forall|k: int| 0 <= k < (a + b).len() implies is_table_region(#[trigger] (a + b)[k], page) by {
            if k >= a.len() {
                assert((a + b)[k] == b[k - a.len()]);
            }
        }
    }
}

} // verus!
