//! Layout region detection for whole pages: tables first, then images, then
//! formulas among the unclaimed items, then paragraphs and headings from what
//! is left, sorted into reading order.
pub mod formula;
pub mod tables;
pub mod text_blocks;

use std::collections::HashSet;

use vstd::prelude::*;

use crate::layout::formula::{detect_formula_regions, formula_regions, is_formula_region, lemma_formula_regions_need_three_candidates};
use crate::layout::tables::{detect_table_regions, is_table_region, lemma_table_regions_need_ocr, table_regions, BandTables, PageTables};
use crate::layout::text_blocks::{
    detect_text_block_regions, is_text_region, lemma_text_regions_shape, remaining_below, remaining_items, text_block_regions,
};
use crate::types::{
    bbox_contains, copy_item, spec_bbox_contains, BBox, ItemType, LayoutRegion, PageLayout, RegionType, TextItem,
};

verus! {

/// Item `i` lies inside one of the `regions` (by its origin point).
pub open spec fn inside_some(items: Seq<TextItem>, regions: Seq<LayoutRegion>, i: int) -> bool {
    exists|k: int| 0 <= k < regions.len() && spec_bbox_contains(#[trigger] regions[k].bbox, items[i].x as int, items[i].y as int)
}

/// The region of an image item: its own box, full confidence, no OCR.
pub open spec fn image_region(it: TextItem, page: u32) -> LayoutRegion {
    LayoutRegion {
        bbox: BBox { x_min: it.x as i64, y_min: it.y as i64, x_max: (it.x + it.width) as i64, y_max: (it.y + it.height) as i64 },
        region_type: RegionType::Image,
        page,
        confidence: 100,
        needs_ocr: false,
    }
}

/// Image regions of the items below `n`, in item order.
pub open spec fn image_regions_below(items: Seq<TextItem>, page: u32, n: int) -> Seq<LayoutRegion>
    decreases n,
{
    if n <= 0 {
        Seq::empty()
    } else if items[n - 1].item_type == ItemType::Image {
        image_regions_below(items, page, n - 1).push(image_region(items[n - 1], page))
    } else {
        image_regions_below(items, page, n - 1)
    }
}

/// After tables and images: item `i` lies in a table region or is an image.
pub open spec fn claimed_before_formulas(items: Seq<TextItem>, tables: Seq<LayoutRegion>, i: int) -> bool {
    inside_some(items, tables, i) || items[i].item_type == ItemType::Image
}

/// The items below `n` not claimed by tables or images, in order.
pub open spec fn unclaimed_below(items: Seq<TextItem>, tables: Seq<LayoutRegion>, n: int) -> Seq<TextItem>
    decreases n,
{
    if n <= 0 {
        Seq::empty()
    } else if !claimed_before_formulas(items, tables, n - 1) {
        unclaimed_below(items, tables, n - 1).push(items[n - 1])
    } else {
        unclaimed_below(items, tables, n - 1)
    }
}

/// The indices claimed by tables, images and formulas.
pub open spec fn claimed_set(items: Seq<TextItem>, tables: Seq<LayoutRegion>, formulas: Seq<LayoutRegion>) -> Set<usize> {
    Set::new(
        |i: usize|
            i < items.len() && (claimed_before_formulas(items, tables, i as int) || inside_some(items, formulas, i as int)),
    )
}

/// Region `a` goes strictly before region `b` in reading order: its top is
/// higher, or the tops are level and it starts further left.
pub open spec fn reads_before(a: LayoutRegion, b: LayoutRegion) -> bool {
    a.bbox.y_max > b.bbox.y_max || (a.bbox.y_max == b.bbox.y_max && a.bbox.x_min < b.bbox.x_min)
}

/// Insert `x` into a reading-ordered sequence after every region that does
/// not read after it.
pub open spec fn insert_in_order(s: Seq<LayoutRegion>, x: LayoutRegion) -> Seq<LayoutRegion>
    decreases s.len(),
{
    if s.len() == 0 {
        seq![x]
    } else if reads_before(x, s.last()) {
        insert_in_order(s.drop_last(), x).push(s.last())
    } else {
        s.push(x)
    }
}

/// Stable sort into reading order: top to bottom (descending y_max), then
/// left to right (ascending x_min); equal regions keep their order.
pub open spec fn reading_order(s: Seq<LayoutRegion>) -> Seq<LayoutRegion>
    decreases s.len(),
{
    if s.len() == 0 {
        Seq::empty()
    } else {
        insert_in_order(reading_order(s.drop_last()), s.last())
    }
}

/// All regions of one page, in reading order: table regions (from the
/// page's table candidates), image regions, formula regions among the items
/// claimed by neither, and paragraph/heading regions among the items claimed
/// by none of these.
pub open spec fn page_regions(items: Seq<TextItem>, bands: Seq<BandTables>, page: u32) -> Seq<LayoutRegion> {
    let tables = table_regions(bands, page);
    let images = image_regions_below(items, page, items.len() as int);
    let formulas = formula_regions(unclaimed_below(items, tables, items.len() as int), page);
    let texts = text_block_regions(items, page, claimed_set(items, tables, formulas));
    reading_order(tables + images + formulas + texts)
}

proof fn lemma_insert_at(s: Seq<LayoutRegion>, x: LayoutRegion, p: int)
    requires
        0 <= p <= s.len(),
        forall|j: int| p <= j < s.len() ==> reads_before(x, #[trigger] s[j]),
        p > 0 ==> !reads_before(x, s[p - 1]),
    ensures
        insert_in_order(s, x) == s.insert(p, x),
    decreases s.len(),
{
    if s.len() == 0 {
        assert(s.insert(p, x) =~= seq![x]);
    } else if p == s.len() {
        assert(s.insert(p, x) =~= s.push(x));
    } else {
        lemma_insert_at(s.drop_last(), x, p);
        assert(s.insert(p, x) =~= s.drop_last().insert(p, x).push(s.last()));
    }
}

/// Insert a region at its place in a reading-ordered vector.
fn insert_region(v: &mut Vec<LayoutRegion>, x: LayoutRegion)
    ensures
        final(v)@ == insert_in_order(old(v)@, x),
{
    let mut p = v.len();
    while p > 0
        invariant
            p <= v@.len(),
            v@ == old(v)@,
            forall|j: int| p <= j < v@.len() ==> reads_before(x, #[trigger] v@[j]),
        ensures
            p <= v@.len(),
            v@ == old(v)@,
            forall|j: int| p <= j < v@.len() ==> reads_before(x, #[trigger] v@[j]),
            p > 0 ==> !reads_before(x, v@[p - 1]),
        decreases p,
    {
        let e = &v[p - 1];
        if !(x.bbox.y_max > e.bbox.y_max || (x.bbox.y_max == e.bbox.y_max && x.bbox.x_min < e.bbox.x_min)) {
            break;
        }
        p = p - 1;
    }
    proof {
        lemma_insert_at(v@, x, p as int);
    }
    v.insert(p, x);
}

/// Sort regions into reading order (see [`reading_order`]): top to bottom
/// by top edge, then left to right, keeping exactly the given regions.
pub fn sort_regions(regions: &Vec<LayoutRegion>) -> (sorted: Vec<LayoutRegion>)
    ensures
        sorted@ == reading_order(regions@),
        tops_descend(sorted@),
        sorted@.to_multiset() == regions@.to_multiset(),
{
    let mut sorted: Vec<LayoutRegion> = Vec::new();
    for k in 0..regions.len()
        invariant
            sorted@ == reading_order(regions@.take(k as int)),
    {
        assert(regions@.take(k + 1).drop_last() =~= regions@.take(k as int));
        insert_region(&mut sorted, regions[k]);
    }
    assert(regions@.take(regions@.len() as int) =~= regions@);
    proof {
        lemma_reading_order(regions@);
    }
    sorted
}

/// Whether item `i` lies inside one of the regions.
fn inside_any(items: &[TextItem], regions: &Vec<LayoutRegion>, i: usize) -> (r: bool)
    requires
        i < items@.len(),
    ensures
        r == inside_some(items@, regions@, i as int),
{
    let it = &items[i];
    for k in 0..regions.len()
        invariant
            i < items@.len(),
            it == items@[i as int],
            forall|j: int| 0 <= j < k ==> !spec_bbox_contains(#[trigger] regions@[j].bbox, it.x as int, it.y as int),
    {
        if bbox_contains(&regions[k].bbox, it.x as i64, it.y as i64) {
            return true;
        }
    }
    false
}

/// Append `b` to `a`.
fn append_regions(a: &mut Vec<LayoutRegion>, b: &Vec<LayoutRegion>)
    ensures
        final(a)@ == old(a)@ + b@,
{
    for k in 0..b.len()
        invariant
            a@ == old(a)@ + b@.take(k as int),
    {
        a.push(b[k]);
        assert(a@ =~= old(a)@ + b@.take(k + 1));
    }
    assert(b@.take(b@.len() as int) =~= b@);
}

/// Detect all region types for a single page.
pub fn detect_page_regions(page_items: &[TextItem], bands: &[BandTables], page: u32) -> (regions: Vec<LayoutRegion>)
    ensures
        regions@ == page_regions(page_items@, bands@, page),
        tops_descend(regions@),
{
    let n = page_items.len();
    let ghost items = page_items@;
    // 1. Tables (highest priority — claim items first)
    let table_regions_v = detect_table_regions(bands, page);
    let ghost tables = table_regions_v@;
    let mut claimed: Vec<bool> = Vec::new();
    for i in 0..n
        invariant
            n == items.len(),
            items == page_items@,
            tables == table_regions_v@,
            claimed@.len() == i,
            forall|j: int| 0 <= j < i ==> claimed@[j] == inside_some(items, tables, j),
    {
        let c = inside_any(page_items, &table_regions_v, i);
        claimed.push(c);
    }
    let mut all = table_regions_v;
    // 2. Images
    let mut images: Vec<LayoutRegion> = Vec::new();
    for i in 0..n
        invariant
            n == items.len(),
            items == page_items@,
            claimed@.len() == n,
            forall|j: int|
                0 <= j < n ==> claimed@[j] == if j < i {
                    claimed_before_formulas(items, tables, j)
                } else {
                    inside_some(items, tables, j)
                },
            images@ == image_regions_below(items, page, i as int),
    {
        let it = &page_items[i];
        if it.item_type == ItemType::Image {
            claimed.set(i, true);
            images.push(
                LayoutRegion {
                    bbox: BBox {
                        x_min: it.x as i64,
                        y_min: it.y as i64,
                        x_max: it.x as i64 + it.width as i64,
                        y_max: it.y as i64 + it.height as i64,
                    },
                    region_type: RegionType::Image,
                    page,
                    confidence: 100,
                    needs_ocr: false,
                },
            );
        }
    }
    append_regions(&mut all, &images);
    // 3. Formulas (from unclaimed text items)
    let mut unclaimed: Vec<TextItem> = Vec::new();
    for i in 0..n
        invariant
            n == items.len(),
            items == page_items@,
            claimed@.len() == n,
            forall|j: int| 0 <= j < n ==> claimed@[j] == claimed_before_formulas(items, tables, j),
            unclaimed@ == unclaimed_below(items, tables, i as int),
    {
        if !claimed[i] {
            unclaimed.push(copy_item(&page_items[i]));
        }
    }
    let formula_regions_v = detect_formula_regions(unclaimed.as_slice(), page);
    let ghost formulas = formula_regions_v@;
    for i in 0..n
        invariant
            n == items.len(),
            items == page_items@,
            formulas == formula_regions_v@,
            claimed@.len() == n,
            forall|j: int|
                0 <= j < n ==> claimed@[j] == if j < i {
                    claimed_before_formulas(items, tables, j) || inside_some(items, formulas, j)
                } else {
                    claimed_before_formulas(items, tables, j)
                },
    {
        if !claimed[i] && inside_any(page_items, &formula_regions_v, i) {
            claimed.set(i, true);
        }
    }
    append_regions(&mut all, &formula_regions_v);
    // 4. Paragraphs and headings (from remaining unclaimed items)
    let mut claimed_indices: HashSet<usize> = HashSet::new();
    for i in 0..n
        invariant
            n == items.len(),
            claimed@.len() == n,
            claimed_indices@ == Set::new(|j: usize| j < i && claimed@[j as int]),
    {
        if claimed[i] {
            claimed_indices.insert(i);
        }
        assert(claimed_indices@ =~= Set::new(|j: usize| j < i + 1 && claimed@[j as int]));
    }
    assert(claimed_indices@ =~= claimed_set(items, tables, formulas));
    let text_regions_v = detect_text_block_regions(page_items, page, &claimed_indices);
    append_regions(&mut all, &text_regions_v);
    // Sort: top-to-bottom (descending y), then left-to-right
    sort_regions(&all)
}

/// The origin of an item lies in one of the regions.
pub open spec fn lies_in_any(regions: Seq<LayoutRegion>, it: TextItem) -> bool {
    exists|k: int| 0 <= k < regions.len() && spec_bbox_contains(#[trigger] regions[k].bbox, it.x as int, it.y as int)
}

/// The text items of a page whose origin lies in none of the table regions,
/// in page order.
pub open spec fn outside_tables(items: Seq<TextItem>, tables: Seq<LayoutRegion>) -> Seq<TextItem> {
    items.filter(|it: TextItem| it.item_type == ItemType::Text && !lies_in_any(tables, it))
}

proof fn lemma_unclaimed_outside_tables(items: Seq<TextItem>, tables: Seq<LayoutRegion>, n: int)
    requires
        0 <= n <= items.len(),
    ensures
        unclaimed_below(items, tables, n) == outside_tables(items.take(n), tables),
    decreases n,
{
    reveal(Seq::filter);
    if n > 0 {
        lemma_unclaimed_outside_tables(items, tables, n - 1);
        let t = items.take(n);
        assert(t.drop_last() =~= items.take(n - 1));
        assert(t.last() == items[n - 1]);
        assert(inside_some(items, tables, n - 1) == lies_in_any(tables, items[n - 1]));
    }
}

/// Tables claim their items first: formula detection on a page is given
/// exactly the page's text items whose origin lies in no table region of the
/// page, in page order, so no item inside a table ever makes part of a
/// formula; the page's regions are the table, image, formula and text regions
/// built on that basis, in reading order.
pub proof fn lemma_tables_claim_first(items: Seq<TextItem>, bands: Seq<BandTables>, page: u32)
    ensures
        unclaimed_below(items, table_regions(bands, page), items.len() as int) == outside_tables(
            items,
            table_regions(bands, page),
        ),
        forall|j: int, k: int|
            0 <= j < outside_tables(items, table_regions(bands, page)).len() && 0 <= k < table_regions(
                bands,
                page,
            ).len() ==> {
                let it = #[trigger] outside_tables(items, table_regions(bands, page))[j];
                &&& it.item_type == ItemType::Text
                &&& !spec_bbox_contains(#[trigger] table_regions(bands, page)[k].bbox, it.x as int, it.y as int)
            },
        page_regions(items, bands, page) == reading_order(
            table_regions(bands, page) + image_regions_below(items, page, items.len() as int) + formula_regions(
                outside_tables(items, table_regions(bands, page)),
                page,
            ) + text_block_regions(
                items,
                page,
                claimed_set(
                    items,
                    table_regions(bands, page),
                    formula_regions(outside_tables(items, table_regions(bands, page)), page),
                ),
            ),
        ),
{
    let tables = table_regions(bands, page);
    lemma_unclaimed_outside_tables(items, tables, items.len() as int);
    assert(items.take(items.len() as int) =~= items);
    let f = outside_tables(items, tables);
    let p = |it: TextItem| it.item_type == ItemType::Text && !lies_in_any(tables, it);
    assert forall|j: int, k: int| 0 <= j < f.len() && 0 <= k < tables.len() implies {
        let it = #[trigger] f[j];
        &&& it.item_type == ItemType::Text
        &&& !spec_bbox_contains(#[trigger] tables[k].bbox, it.x as int, it.y as int)
    } by {
        items.lemma_filter_pred(p, j);
    }
}

/// The text items of a page whose origin lies in none of the table regions
/// and none of the formula regions, in page order.
pub open spec fn outside_tables_and_formulas(
    items: Seq<TextItem>,
    tables: Seq<LayoutRegion>,
    formulas: Seq<LayoutRegion>,
) -> Seq<TextItem> {
    items.filter(|it: TextItem| it.item_type == ItemType::Text && !lies_in_any(tables, it) && !lies_in_any(formulas, it))
}

proof fn lemma_remaining_outside(items: Seq<TextItem>, tables: Seq<LayoutRegion>, formulas: Seq<LayoutRegion>, n: int)
    requires
        0 <= n <= items.len(),
        items.len() <= usize::MAX,
    ensures
        remaining_below(items, claimed_set(items, tables, formulas), n) == outside_tables_and_formulas(
            items.take(n),
            tables,
            formulas,
        ),
    decreases n,
{
    reveal(Seq::filter);
    if n > 0 {
        lemma_remaining_outside(items, tables, formulas, n - 1);
        let t = items.take(n);
        assert(t.drop_last() =~= items.take(n - 1));
        assert(t.last() == items[n - 1]);
        assert(inside_some(items, tables, n - 1) == lies_in_any(tables, items[n - 1]));
        assert(inside_some(items, formulas, n - 1) == lies_in_any(formulas, items[n - 1]));
        assert(((n - 1) as usize) as int == n - 1);
    }
}

/// Paragraphs and headings are made only of what tables, images and
/// formulas left: the text items given to block detection are exactly the
/// page's text items whose origin lies in no table region and no formula
/// region, in page order.
pub proof fn lemma_text_from_unclaimed(items: Seq<TextItem>, bands: Seq<BandTables>, page: u32)
    requires
        items.len() <= usize::MAX,
    ensures
        remaining_items(
            items,
            claimed_set(
                items,
                table_regions(bands, page),
                formula_regions(unclaimed_below(items, table_regions(bands, page), items.len() as int), page),
            ),
        ) == outside_tables_and_formulas(
            items,
            table_regions(bands, page),
            formula_regions(unclaimed_below(items, table_regions(bands, page), items.len() as int), page),
        ),
{
    let tables = table_regions(bands, page);
    let formulas = formula_regions(unclaimed_below(items, tables, items.len() as int), page);
    lemma_remaining_outside(items, tables, formulas, items.len() as int);
    assert(items.take(items.len() as int) =~= items);
}

/// The items of one page, in order.
pub open spec fn items_on_page_below(items: Seq<TextItem>, page: u32, n: int) -> Seq<TextItem>
    decreases n,
{
    if n <= 0 {
        Seq::empty()
    } else if items[n - 1].page == page {
        items_on_page_below(items, page, n - 1).push(items[n - 1])
    } else {
        items_on_page_below(items, page, n - 1)
    }
}

pub open spec fn items_on_page(items: Seq<TextItem>, page: u32) -> Seq<TextItem> {
    items_on_page_below(items, page, items.len() as int)
}

/// The table candidates of a page: the bands of the first entry for that
/// page; none when no entry names the page.
pub open spec fn bands_of_page(tables: Seq<PageTables>, page: u32) -> Seq<BandTables>
    decreases tables.len(),
{
    if tables.len() == 0 {
        Seq::empty()
    } else if tables[0].page == page {
        tables[0].bands@
    } else {
        bands_of_page(tables.drop_first(), page)
    }
}

proof fn lemma_bands_of_page(tables: Seq<PageTables>, page: u32, k: int)
    requires
        0 <= k <= tables.len(),
        forall|j: int| 0 <= j < k ==> (#[trigger] tables[j]).page != page,
    ensures
        k < tables.len() && tables[k].page == page ==> bands_of_page(tables, page) == tables[k].bands@,
        k == tables.len() ==> bands_of_page(tables, page) == Seq::<BandTables>::empty(),
    decreases k,
{
    if k > 0 {
        let rest = tables.drop_first();
        assert forall|j: int| 0 <= j < k - 1 implies (#[trigger] rest[j]).page != page by {
            assert(rest[j] == tables[j + 1]);
        }
        lemma_bands_of_page(rest, page, k - 1);
        if k < tables.len() {
            assert(rest[k - 1] == tables[k]);
        }
    }
}

/// The bands of the first entry for the page.
fn find_bands(tables: &[PageTables], page: u32) -> (r: Option<usize>)
    ensures
        match r {
            Some(k) => k < tables@.len() && tables@[k as int].bands@ == bands_of_page(tables@, page),
            None => bands_of_page(tables@, page) == Seq::<BandTables>::empty(),
        },
{
    for k in 0..tables.len()
        invariant
            forall|j: int| 0 <= j < k ==> (#[trigger] tables@[j]).page != page,
    {
        if tables[k].page == page {
            proof {
                lemma_bands_of_page(tables@, page, k as int);
            }
            return Some(k);
        }
    }
    proof {
        lemma_bands_of_page(tables@, page, tables@.len() as int);
    }
    None
}

/// Insert a page number into a strictly increasing vector unless present.
fn insert_page(pages: &mut Vec<u32>, page: u32)
    requires
        forall|a: int, b: int| 0 <= a < b < old(pages)@.len() ==> old(pages)@[a] < old(pages)@[b],
    ensures
        forall|a: int, b: int| 0 <= a < b < final(pages)@.len() ==> final(pages)@[a] < final(pages)@[b],
        final(pages)@.to_set() == old(pages)@.to_set().insert(page),
{
    let mut p: usize = 0;
    while p < pages.len() && pages[p] < page
        invariant
            p <= pages@.len(),
            pages@ == old(pages)@,
            forall|j: int| 0 <= j < p ==> pages@[j] < page,
        decreases pages@.len() - p,
    {
        p = p + 1;
    }
    if p < pages.len() && pages[p] == page {
        assert(pages@.contains(page)) by {
            assert(pages@[p as int] == page);
        }
        assert(pages@.to_set() =~= old(pages)@.to_set().insert(page));
        return;
    }
    let ghost before = pages@;
    pages.insert(p, page);
    assert forall|x: u32| #[trigger] pages@.to_set().contains(x) == before.to_set().insert(page).contains(x) by {
        if pages@.contains(x) {
            let j = choose|j: int| 0 <= j < pages@.len() && pages@[j] == x;
            if j < p {
                assert(before[j] == x);
                assert(before.contains(x));
            } else if j > p {
                assert(before[j - 1] == x);
                assert(before.contains(x));
            }
        }
        if before.contains(x) {
            let j = choose|j: int| 0 <= j < before.len() && before[j] == x;
            if j < p {
                assert(pages@[j] == x);
            } else {
                assert(pages@[j + 1] == x);
            }
            assert(pages@.contains(x));
        }
        if x == page {
            assert(pages@[p as int] == x);
            assert(pages@.contains(x));
        }
    }
    assert(pages@.to_set() =~= before.to_set().insert(page));
}

/// The page of some item.
pub open spec fn has_page(items: Seq<TextItem>, page: u32) -> bool {
    exists|i: int| 0 <= i < items.len() && (#[trigger] items[i]).page == page
}

/// Some layout is for the page.
pub open spec fn has_layout_for(layouts: Seq<PageLayout>, page: u32) -> bool {
    exists|k: int| 0 <= k < layouts.len() && (#[trigger] layouts[k]).page == page
}

/// What [`detect_layout_regions`] returns for `items` and `tables`: one
/// layout per page that has items, in ascending page order, each holding the
/// regions of that page.
pub open spec fn is_layout_of(layouts: Seq<PageLayout>, items: Seq<TextItem>, tables: Seq<PageTables>) -> bool {
    &&& forall|a: int, b: int| 0 <= a < b < layouts.len() ==> layouts[a].page < layouts[b].page
    &&& forall|k: int| 0 <= k < layouts.len() ==> has_page(items, #[trigger] layouts[k].page)
    &&& forall|i: int| 0 <= i < items.len() ==> has_layout_for(layouts, #[trigger] items[i].page)
    &&& forall|k: int|
        0 <= k < layouts.len() ==> (#[trigger] layouts[k]).regions@ == page_regions(
            items_on_page(items, layouts[k].page),
            bands_of_page(tables, layouts[k].page),
            layouts[k].page,
        )
}

/// Detect layout regions for all pages from pre-extracted PDF data.
///
/// Runs table, formula, image, and text-block detection per page and returns
/// one [`PageLayout`] per page that has items, in ascending page order.
/// `tables` holds the table candidates of each page (see
/// [`crate::layout::tables::detect_table_regions`]). Orchestrators can inspect each
/// region's `needs_ocr` flag to decide routing.
pub fn detect_layout_regions(items: &[TextItem], tables: &[PageTables]) -> (layouts: Vec<PageLayout>)
    ensures
        is_layout_of(layouts@, items@, tables@),
{
    // Collect unique pages
    let mut pages: Vec<u32> = Vec::new();
    for i in 0..items.len()
        invariant
            forall|a: int, b: int| 0 <= a < b < pages@.len() ==> pages@[a] < pages@[b],
            pages@.to_set() == Set::new(|x: u32| has_page(items@.take(i as int), x)),
    {
        insert_page(&mut pages, items[i].page);
        assert forall|x: u32| #[trigger] has_page(items@.take(i + 1), x) == (has_page(items@.take(i as int), x) || x == items@[i as int].page) by {
            if has_page(items@.take(i + 1), x) {
                let j = choose|j: int| 0 <= j < i + 1 && (#[trigger] items@.take(i + 1)[j]).page == x;
                if j < i {
                    assert(items@.take(i as int)[j] == items@[j]);
                }
            }
            if has_page(items@.take(i as int), x) {
                let j = choose|j: int| 0 <= j < i && (#[trigger] items@.take(i as int)[j]).page == x;
                assert(items@.take(i + 1)[j] == items@[j]);
            }
            if x == items@[i as int].page {
                assert(items@.take(i + 1)[i as int] == items@[i as int]);
            }
        }
        assert(pages@.to_set() =~= Set::new(|x: u32| has_page(items@.take(i + 1), x)));
    }
    assert(items@.take(items@.len() as int) =~= items@);
    assert forall|x: u32| #[trigger] pages@.contains(x) == has_page(items@, x) by {
        assert(pages@.to_set().contains(x) == pages@.contains(x));
    }
    let mut layouts: Vec<PageLayout> = Vec::new();
    for k in 0..pages.len()
        invariant
            forall|a: int, b: int| 0 <= a < b < pages@.len() ==> pages@[a] < pages@[b],
            forall|x: u32| #[trigger] pages@.contains(x) == has_page(items@, x),
            layouts@.len() == k,
            forall|j: int| 0 <= j < k ==> (#[trigger] layouts@[j]).page == pages@[j],
            forall|j: int|
                0 <= j < k ==> (#[trigger] layouts@[j]).regions@ == page_regions(
                    items_on_page(items@, layouts@[j].page),
                    bands_of_page(tables@, layouts@[j].page),
                    layouts@[j].page,
                ),
    {
        let page = pages[k];
        let mut page_items: Vec<TextItem> = Vec::new();
        for i in 0..items.len()
            invariant
                page_items@ == items_on_page_below(items@, page, i as int),
        {
            if items[i].page == page {
                page_items.push(copy_item(&items[i]));
            }
        }
        let regions = match find_bands(tables, page) {
            Some(t) => detect_page_regions(page_items.as_slice(), tables[t].bands.as_slice(), page),
            None => {
                let no_bands: Vec<BandTables> = Vec::new();
                assert(no_bands@ =~= Seq::<BandTables>::empty());
                detect_page_regions(page_items.as_slice(), no_bands.as_slice(), page)
            },
        };
        layouts.push(PageLayout { page, regions });
    }
    assert forall|k: int| 0 <= k < layouts@.len() implies has_page(items@, #[trigger] layouts@[k].page) by {
        assert(pages@.contains(pages@[k]));
    }
    assert forall|i: int| 0 <= i < items@.len() implies has_layout_for(layouts@, #[trigger] items@[i].page) by {
        assert(has_page(items@, items@[i].page));
        assert(pages@.contains(items@[i].page));
        let k = choose|k: int| 0 <= k < pages@.len() && pages@[k] == items@[i].page;
        assert(layouts@[k].page == items@[i].page);
    }
    layouts
}

/// No region of `s` reads before an earlier one.
pub open spec fn in_reading_order(s: Seq<LayoutRegion>) -> bool {
    forall|a: int, b: int| 0 <= a < b < s.len() ==> !reads_before(#[trigger] s[b], #[trigger] s[a])
}

/// Regions run top to bottom by their top edges, and left to right by their
/// left edges where the tops are level.
pub open spec fn tops_descend(s: Seq<LayoutRegion>) -> bool {
    forall|a: int, b: int|
        0 <= a < b < s.len() ==> {
            &&& (#[trigger] s[a]).bbox.y_max >= (#[trigger] s[b]).bbox.y_max
            &&& s[a].bbox.y_max == s[b].bbox.y_max ==> s[a].bbox.x_min <= s[b].bbox.x_min
        }
}

proof fn lemma_tops_descend(s: Seq<LayoutRegion>)
    requires
        in_reading_order(s),
    ensures
        tops_descend(s),
{
    assert forall|a: int, b: int| 0 <= a < b < s.len() implies {
        &&& (#[trigger] s[a]).bbox.y_max >= (#[trigger] s[b]).bbox.y_max
        &&& s[a].bbox.y_max == s[b].bbox.y_max ==> s[a].bbox.x_min <= s[b].bbox.x_min
    } by {
        assert(!reads_before(s[b], s[a]));
    }
}

proof fn lemma_insert_in_order(s: Seq<LayoutRegion>, x: LayoutRegion)
    requires
        in_reading_order(s),
    ensures
        in_reading_order(insert_in_order(s, x)),
        insert_in_order(s, x).to_multiset() == s.to_multiset().insert(x),
    decreases s.len(),
{
    broadcast use vstd::seq_lib::group_to_multiset_ensures;

    if s.len() == 0 {
        assert(seq![x] =~= Seq::<LayoutRegion>::empty().push(x));
    } else {
        let q = s.drop_last();
        let l = s.last();
        assert(s =~= q.push(l));
        assert(in_reading_order(q)) by {
            assert forall|a: int, b: int| 0 <= a < b < q.len() implies !reads_before(#[trigger] q[b], #[trigger] q[a]) by {
                assert(q[a] == s[a] && q[b] == s[b]);
            }
        }
        if reads_before(x, l) {
            lemma_insert_in_order(q, x);
            let r = insert_in_order(q, x);
            assert(insert_in_order(s, x) == r.push(l));
            assert forall|a: int, b: int| 0 <= a < b < r.push(l).len() implies !reads_before(
                #[trigger] r.push(l)[b],
                #[trigger] r.push(l)[a],
            ) by {
                if b == r.len() {
                    let e = r[a];
                    assert(r.to_multiset().count(e) > 0);
                    if e != x {
                        assert(q.to_multiset().count(e) > 0);
                        assert(q.contains(e));
                        let j = choose|j: int| 0 <= j < q.len() && q[j] == e;
                        assert(s[j] == e && s[s.len() - 1] == l);
                    }
                } else {
                    assert(r.push(l)[a] == r[a] && r.push(l)[b] == r[b]);
                }
            }
            assert(r.push(l).to_multiset() =~= s.to_multiset().insert(x));
        } else {
            assert forall|a: int, b: int| 0 <= a < b < s.push(x).len() implies !reads_before(
                #[trigger] s.push(x)[b],
                #[trigger] s.push(x)[a],
            ) by {
                if b == s.len() {
                    if a < s.len() - 1 {
                        assert(!reads_before(s[s.len() - 1], s[a]));
                    }
                } else {
                    assert(s.push(x)[a] == s[a] && s.push(x)[b] == s[b]);
                }
            }
        }
    }
}

/// Sorting into reading order puts every region at or after those that read
/// before it, and keeps exactly the regions it was given: the result runs top
/// to bottom by the regions' top edges (`y_max`, descending), and left to
/// right by their left edges (`x_min`) where the tops are level.
pub proof fn lemma_reading_order(s: Seq<LayoutRegion>)
    ensures
        in_reading_order(reading_order(s)),
        tops_descend(reading_order(s)),
        reading_order(s).to_multiset() == s.to_multiset(),
    decreases s.len(),
{
    broadcast use vstd::seq_lib::group_to_multiset_ensures;

    if s.len() == 0 {
        assert(reading_order(s) =~= s);
    } else {
        lemma_reading_order(s.drop_last());
        lemma_insert_in_order(reading_order(s.drop_last()), s.last());
        assert(s =~= s.drop_last().push(s.last()));
    }
    lemma_tops_descend(reading_order(s));
}

/// The regions whose top edge is `y` and whose left edge is `x`, in order.
pub open spec fn level_with(s: Seq<LayoutRegion>, y: i64, x: i64) -> Seq<LayoutRegion> {
    s.filter(|r: LayoutRegion| r.bbox.y_max == y && r.bbox.x_min == x)
}

proof fn lemma_insert_level_with(t: Seq<LayoutRegion>, e: LayoutRegion, y: i64, x: i64)
    ensures
        level_with(insert_in_order(t, e), y, x) == if e.bbox.y_max == y && e.bbox.x_min == x {
            level_with(t, y, x).push(e)
        } else {
            level_with(t, y, x)
        },
    decreases t.len(),
{
    reveal(Seq::filter);
    if t.len() == 0 {
        assert(insert_in_order(t, e) == seq![e]);
        assert(seq![e].drop_last() =~= t);
    } else if reads_before(e, t.last()) {
        lemma_insert_level_with(t.drop_last(), e, y, x);
        let u = insert_in_order(t.drop_last(), e);
        assert(u.push(t.last()).drop_last() =~= u);
    } else {
        assert(t.push(e).drop_last() =~= t);
    }
}

/// Sorting into reading order is stable: regions whose top and left edges
/// are both level keep their order, and a sequence already in reading order
/// is left as it is.
pub proof fn lemma_reading_order_stable(s: Seq<LayoutRegion>, y: i64, x: i64)
    ensures
        level_with(reading_order(s), y, x) == level_with(s, y, x),
        in_reading_order(s) ==> reading_order(s) == s,
    decreases s.len(),
{
    reveal(Seq::filter);
    if s.len() > 0 {
        let q = s.drop_last();
        lemma_reading_order_stable(q, y, x);
        lemma_insert_level_with(reading_order(q), s.last(), y, x);
        if in_reading_order(s) {
            assert(in_reading_order(q)) by {
                assert forall|a: int, b: int| 0 <= a < b < q.len() implies !reads_before(#[trigger] q[b], #[trigger] q[a]) by {
                    assert(q[a] == s[a] && q[b] == s[b]);
                }
            }
            if q.len() > 0 {
                assert(!reads_before(s[s.len() - 1], s[s.len() - 2]));
                assert(q.last() == s[s.len() - 2]);
            }
            assert(q.push(s.last()) =~= s);
        }
    }
}

/// The regions that a page can yield: each is on the page and needs OCR
/// exactly when it is a table or a formula.
pub open spec fn is_routed(r: LayoutRegion, page: u32) -> bool {
    &&& r.page == page
    &&& r.needs_ocr <==> (r.region_type == RegionType::Table || r.region_type == RegionType::Formula)
}

proof fn lemma_image_regions(items: Seq<TextItem>, page: u32, n: int)
    requires
        0 <= n <= items.len(),
    ensures
        forall|k: int| 0 <= k < image_regions_below(items, page, n).len() ==> is_routed(#[trigger] image_regions_below(items, page, n)[k], page),
        forall|i: int| 0 <= i < n && items[i].item_type == ItemType::Image ==> image_regions_below(items, page, n).contains(
            image_region(#[trigger] items[i], page),
        ),
    decreases n,
{
    if n > 0 {
        lemma_image_regions(items, page, n - 1);
        let p = image_regions_below(items, page, n - 1);
        if items[n - 1].item_type == ItemType::Image {
            let q = p.push(image_region(items[n - 1], page));
            assert forall|i: int| 0 <= i < n && items[i].item_type == ItemType::Image implies q.contains(image_region(#[trigger] items[i], page)) by {
                if i < n - 1 {
                    let j = choose|j: int| 0 <= j < p.len() && p[j] == image_region(items[i], page);
                    assert(q[j] == p[j]);
                } else {
                    assert(q[p.len() as int] == image_region(items[i], page));
                }
            }
        }
    }
}

/// Every page's regions come in reading order (top to bottom, then left to
/// right); each lies on the page and needs OCR exactly when it is a table or
/// a formula (images and text never do); and every image item of the page
/// appears as an image region with its own box, full confidence and no OCR.
pub proof fn lemma_page_regions(items: Seq<TextItem>, bands: Seq<BandTables>, page: u32)
    ensures
        in_reading_order(page_regions(items, bands, page)),
        tops_descend(page_regions(items, bands, page)),
        forall|k: int|
            0 <= k < page_regions(items, bands, page).len() ==> is_routed(#[trigger] page_regions(items, bands, page)[k], page),
        forall|i: int|
            0 <= i < items.len() && items[i].item_type == ItemType::Image ==> page_regions(items, bands, page).contains(
                image_region(#[trigger] items[i], page),
            ),
{
    broadcast use vstd::seq_lib::group_to_multiset_ensures;

    let tables = table_regions(bands, page);
    let images = image_regions_below(items, page, items.len() as int);
    let unclaimed = unclaimed_below(items, tables, items.len() as int);
    let formulas = formula_regions(unclaimed, page);
    let texts = text_block_regions(items, page, claimed_set(items, tables, formulas));
    let all = tables + images + formulas + texts;
    lemma_table_regions_need_ocr(bands, page);
    lemma_image_regions(items, page, items.len() as int);
    lemma_formula_regions_need_three_candidates(unclaimed, page);
    lemma_text_regions_shape(items, page, claimed_set(items, tables, formulas));
    assert forall|k: int| 0 <= k < all.len() implies is_routed(#[trigger] all[k], page) by {
        if k < tables.len() {
            assert(all[k] == tables[k]);
            assert(is_table_region(tables[k], page));
        } else if k < tables.len() + images.len() {
            assert(all[k] == images[k - tables.len()]);
        } else if k < tables.len() + images.len() + formulas.len() {
            assert(all[k] == formulas[k - tables.len() - images.len()]);
            assert(is_formula_region(formulas[k - tables.len() - images.len()], page));
        } else {
            assert(all[k] == texts[k - tables.len() - images.len() - formulas.len()]);
            assert(is_text_region(texts[k - tables.len() - images.len() - formulas.len()], page));
        }
    }
    lemma_reading_order(all);
    let sorted = reading_order(all);
    assert forall|k: int| 0 <= k < sorted.len() implies is_routed(#[trigger] sorted[k], page) by {
        assert(sorted.to_multiset().count(sorted[k]) > 0);
        assert(all.contains(sorted[k]));
    }
    assert forall|i: int| 0 <= i < items.len() && items[i].item_type == ItemType::Image implies sorted.contains(
        image_region(#[trigger] items[i], page),
    ) by {
        let g = image_region(items[i], page);
        let j = choose|j: int| 0 <= j < images.len() && images[j] == g;
        assert(all[tables.len() + j] == g);
        assert(all.contains(g));
        assert(all.to_multiset().count(g) > 0);
    }
}

proof fn lemma_bands_of_page_append(tables: Seq<PageTables>, extra: Seq<PageTables>, page: u32)
    requires
        forall|k: int| 0 <= k < extra.len() ==> (#[trigger] extra[k]).page != page,
    ensures
        bands_of_page(tables + extra, page) == bands_of_page(tables, page),
    decreases tables.len(),
{
    if tables.len() == 0 {
        assert(tables + extra =~= extra);
        lemma_bands_of_page(extra, page, extra.len() as int);
    } else {
        assert((tables + extra).drop_first() =~= tables.drop_first() + extra);
        assert((tables + extra)[0] == tables[0]);
        lemma_bands_of_page_append(tables.drop_first(), extra, page);
    }
}

proof fn lemma_ascending_unique(a: Seq<u32>, b: Seq<u32>)
    requires
        forall|i: int, j: int| 0 <= i < j < a.len() ==> a[i] < a[j],
        forall|i: int, j: int| 0 <= i < j < b.len() ==> b[i] < b[j],
        forall|x: u32| a.contains(x) == b.contains(x),
    ensures
        a == b,
    decreases a.len() + b.len(),
{
    if a.len() == 0 || b.len() == 0 {
        if a.len() > 0 {
            assert(a.contains(a[0]));
        }
        if b.len() > 0 {
            assert(b.contains(b[0]));
        }
        assert(a =~= b);
    } else {
        assert(a.contains(a[0]) && b.contains(b[0]));
        let j = choose|j: int| 0 <= j < b.len() && b[j] == a[0];
        let i = choose|i: int| 0 <= i < a.len() && a[i] == b[0];
        assert(b[0] <= b[j]);
        assert(a[0] <= a[i]);
        assert(a[0] == b[0]);
        let a1 = a.drop_first();
        let b1 = b.drop_first();
        assert forall|x: u32| a1.contains(x) == b1.contains(x) by {
            if a1.contains(x) {
                let k = choose|k: int| 0 <= k < a1.len() && a1[k] == x;
                assert(a[k + 1] == x && a[0] < a[k + 1]);
                assert(a.contains(x));
                let m = choose|m: int| 0 <= m < b.len() && b[m] == x;
                assert(m != 0);
                assert(b1[m - 1] == x);
            }
            if b1.contains(x) {
                let k = choose|k: int| 0 <= k < b1.len() && b1[k] == x;
                assert(b[k + 1] == x && b[0] < b[k + 1]);
                assert(b.contains(x));
                let m = choose|m: int| 0 <= m < a.len() && a[m] == x;
                assert(m != 0);
                assert(a1[m - 1] == x);
            }
        }
        lemma_ascending_unique(a1, b1);
        assert(a =~= seq![a[0]] + a1);
        assert(b =~= seq![b[0]] + b1);
    }
}

/// Table candidates for pages that have no items change nothing: the pages
/// of the layout depend on the items alone, for every page that has items the
/// candidates consulted stay the same, and so the layouts of the items with
/// and without those candidates are the same, page for page and region for
/// region.
pub proof fn lemma_candidates_of_item_less_pages_ignored(
    items: Seq<TextItem>,
    tables: Seq<PageTables>,
    extra: Seq<PageTables>,
    layouts: Seq<PageLayout>,
    layouts_extra: Seq<PageLayout>,
)
    requires
        forall|k: int| 0 <= k < extra.len() ==> !has_page(items, #[trigger] extra[k].page),
        is_layout_of(layouts, items, tables),
        is_layout_of(layouts_extra, items, tables + extra),
    ensures
        forall|page: u32|
            has_page(items, page) ==> #[trigger] bands_of_page(tables + extra, page) == bands_of_page(tables, page),
        layouts_extra.len() == layouts.len(),
        forall|k: int|
            0 <= k < layouts.len() ==> (#[trigger] layouts_extra[k]).page == layouts[k].page
                && layouts_extra[k].regions@ == layouts[k].regions@,
{
    assert forall|page: u32| has_page(items, page) implies #[trigger] bands_of_page(tables + extra, page)
        == bands_of_page(tables, page) by {
        assert forall|k: int| 0 <= k < extra.len() implies (#[trigger] extra[k]).page != page by {
            if extra[k].page == page {
                assert(!has_page(items, extra[k].page));
            }
        }
        lemma_bands_of_page_append(tables, extra, page);
    }
    let pa = layouts.map_values(|l: PageLayout| l.page);
    let pb = layouts_extra.map_values(|l: PageLayout| l.page);
    assert forall|x: u32| pa.contains(x) == has_page(items, x) by {
        if pa.contains(x) {
            let k = choose|k: int| 0 <= k < pa.len() && pa[k] == x;
            assert(has_page(items, layouts[k].page));
        }
        if has_page(items, x) {
            let i = choose|i: int| 0 <= i < items.len() && (#[trigger] items[i]).page == x;
            assert(has_layout_for(layouts, items[i].page));
            let k = choose|k: int| 0 <= k < layouts.len() && (#[trigger] layouts[k]).page == x;
            assert(pa[k] == x);
        }
    }
    assert forall|x: u32| pb.contains(x) == has_page(items, x) by {
        if pb.contains(x) {
            let k = choose|k: int| 0 <= k < pb.len() && pb[k] == x;
            assert(has_page(items, layouts_extra[k].page));
        }
        if has_page(items, x) {
            let i = choose|i: int| 0 <= i < items.len() && (#[trigger] items[i]).page == x;
            assert(has_layout_for(layouts_extra, items[i].page));
            let k = choose|k: int| 0 <= k < layouts_extra.len() && (#[trigger] layouts_extra[k]).page == x;
            assert(pb[k] == x);
        }
    }
    lemma_ascending_unique(pb, pa);
    assert(pa.len() == layouts.len() && pb.len() == layouts_extra.len());
    assert forall|k: int| 0 <= k < layouts.len() implies (#[trigger] layouts_extra[k]).page == layouts[k].page
        && layouts_extra[k].regions@ == layouts[k].regions@ by {
        assert(pa[k] == layouts[k].page && pb[k] == layouts_extra[k].page);
        assert(has_page(items, layouts[k].page));
    }
}

} // verus!
