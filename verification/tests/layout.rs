use pdf_layout::layout::tables::{BandTables, PageTables, Table};
use pdf_layout::layout::{detect_layout_regions, detect_page_regions, sort_regions};
use pdf_layout::types::{bbox_contains, BBox, ItemType, LayoutRegion, RegionType, TextItem};

fn units(v: f32) -> i32 {
    (v * 100.0).round() as i32
}

fn make_text(text: &str, x: f32, y: f32, fs: f32) -> TextItem {
    TextItem {
        text: text.into(),
        x: units(x),
        y: units(y),
        width: units(text.len() as f32 * fs * 0.5),
        height: units(fs),
        font: "Helvetica".into(),
        font_size: units(fs) as u32,
        page: 1,
        is_bold: false,
        is_italic: false,
        item_type: ItemType::Text,
        mcid: None,
    }
}

fn make_image(x: f32, y: f32, w: f32, h: f32) -> TextItem {
    TextItem {
        text: String::new(),
        x: units(x),
        y: units(y),
        width: units(w),
        height: units(h),
        font: String::new(),
        font_size: 0,
        page: 1,
        is_bold: false,
        is_italic: false,
        item_type: ItemType::Image,
        mcid: None,
    }
}

fn region(x_min: i64, y_max: i64) -> LayoutRegion {
    LayoutRegion {
        bbox: BBox { x_min, y_min: y_max - 10, x_max: x_min + 10, y_max },
        region_type: RegionType::Paragraph,
        page: 1,
        confidence: 85,
        needs_ocr: false,
    }
}

#[test]
fn mixed_page_detects_multiple_region_types() {
    let items = vec![
        // Heading
        make_text("Title", 72.0, 750.0, 24.0),
        // Paragraph
        make_text("Some body text here.", 72.0, 720.0, 12.0),
        make_text("More body text follows.", 72.0, 706.0, 12.0),
        // Image
        make_image(72.0, 400.0, 200.0, 150.0),
    ];

    let pages = detect_layout_regions(&items, &[]);
    assert_eq!(pages.len(), 1);
    let regions = &pages[0].regions;

    assert!(
        regions.iter().any(|r| r.region_type == RegionType::Image),
        "expected image region"
    );
    // Should have heading + paragraph (or at least some text regions)
    let text_region_count = regions
        .iter()
        .filter(|r| matches!(r.region_type, RegionType::Paragraph | RegionType::Heading { .. }))
        .count();
    assert!(text_region_count >= 1, "expected text regions, got {regions:?}");
}

#[test]
fn empty_page_produces_no_regions() {
    let pages = detect_layout_regions(&[], &[]);
    assert!(pages.is_empty());
}

#[test]
fn bbox_contains_works() {
    let bbox = BBox { x_min: 1000, y_min: 1000, x_max: 10000, y_max: 10000 };
    assert!(bbox_contains(&bbox, 5000, 5000));
    assert!(bbox_contains(&bbox, 1000, 1000)); // edge
    assert!(!bbox_contains(&bbox, 500, 5000)); // outside left
    assert!(!bbox_contains(&bbox, 5000, 10500)); // outside top
}

#[test]
fn mixed_page_regions_in_reading_order_with_routing() {
    let items = vec![
        make_text("Title", 72.0, 750.0, 24.0),
        make_text("Some body text here.", 72.0, 720.0, 12.0),
        make_text("More body text follows.", 72.0, 706.0, 12.0),
        make_image(72.0, 400.0, 200.0, 150.0),
    ];
    let pages = detect_layout_regions(&items, &[]);
    let regions = &pages[0].regions;
    assert_eq!(regions.len(), 3);
    assert_eq!(regions[0].region_type, RegionType::Heading { level: 1 });
    assert_eq!(regions[1].region_type, RegionType::Paragraph);
    assert_eq!(regions[2].region_type, RegionType::Image);
    // image keeps its own box, full confidence, no OCR
    assert_eq!(regions[2].bbox, BBox { x_min: 7200, y_min: 40000, x_max: 27200, y_max: 55000 });
    assert_eq!(regions[2].confidence, 100);
    for r in regions {
        assert_eq!(r.page, 1);
        assert_eq!(r.needs_ocr, matches!(r.region_type, RegionType::Table | RegionType::Formula));
    }
    // top to bottom
    for w in regions.windows(2) {
        assert!(w[0].bbox.y_max >= w[1].bbox.y_max);
    }
}

#[test]
fn pages_are_sorted_and_unique() {
    let mut a = make_text("Alpha", 72.0, 700.0, 12.0);
    a.page = 3;
    let mut b = make_text("Beta", 72.0, 700.0, 12.0);
    b.page = 1;
    let mut c = make_text("Gamma", 72.0, 680.0, 12.0);
    c.page = 3;
    let pages = detect_layout_regions(&[a, b, c], &[]);
    let numbers: Vec<u32> = pages.iter().map(|p| p.page).collect();
    assert_eq!(numbers, vec![1, 3]);
    assert!(pages.iter().all(|p| p.regions.iter().all(|r| r.page == p.page)));
}

#[test]
fn table_region_claims_its_items() {
    // A table grid around the first two items: they become neither formula nor text.
    let items = vec![
        make_text("A", 100.0, 500.0, 10.0),
        make_text("B", 200.0, 500.0, 10.0),
        make_text("Outside the table", 100.0, 300.0, 10.0),
    ];
    let table = Table {
        columns: vec![9000, 25000],
        rows: vec![52000, 48000],
        cells: vec![vec!["A".into(), "B".into()]],
        item_indices: vec![0, 1],
    };
    let bands = vec![BandTables { rect_tables: vec![table], line_tables: vec![], heuristic_tables: vec![] }];
    let regions = detect_page_regions(&items, &bands, 1);
    assert_eq!(regions.len(), 2);
    assert_eq!(regions[0].region_type, RegionType::Table);
    assert_eq!(regions[0].confidence, 90);
    assert!(regions[0].needs_ocr);
    assert_eq!(regions[1].region_type, RegionType::Paragraph);
    assert_eq!(regions[1].bbox.y_min, 30000);

    // The same through the whole-document entry point.
    let tables = vec![PageTables { page: 1, bands: bands.clone() }];
    let pages = detect_layout_regions(&items, &tables);
    assert_eq!(pages[0].regions, regions);
}

#[test]
fn formula_items_are_not_paragraphs() {
    let mut items = vec![make_text("Intro text", 72.0, 700.0, 12.0)];
    for (k, t) in ["α", "β", "γ"].iter().enumerate() {
        let mut it = make_text(t, 100.0 + 15.0 * k as f32, 500.0, 12.0);
        it.font = "CMMI10".into();
        items.push(it);
    }
    let regions = detect_page_regions(&items, &[], 1);
    assert_eq!(regions.len(), 2);
    assert_eq!(regions[0].region_type, RegionType::Paragraph);
    assert_eq!(regions[1].region_type, RegionType::Formula);
}

#[test]
fn sort_is_top_down_then_left_right_and_stable() {
    let mut first = region(500, 900);
    first.confidence = 1;
    let mut second = region(500, 900);
    second.confidence = 2;
    let input = vec![region(300, 100), first, region(100, 900), second];
    let sorted = sort_regions(&input);
    assert_eq!(sorted[0], region(100, 900));
    assert_eq!(sorted[1].confidence, 1);
    assert_eq!(sorted[2].confidence, 2);
    assert_eq!(sorted[3], region(300, 100));
}

#[test]
fn candidates_of_pages_without_items_change_nothing() {
    let items = vec![
        make_text("A", 100.0, 500.0, 10.0),
        make_text("B", 200.0, 500.0, 10.0),
        make_text("Outside the table", 100.0, 300.0, 10.0),
    ];
    let grid = || Table {
        columns: vec![9000, 25000],
        rows: vec![52000, 48000],
        cells: vec![vec!["A".into(), "B".into()]],
        item_indices: vec![0, 1],
    };
    let page = |page: u32| PageTables {
        page,
        bands: vec![BandTables { rect_tables: vec![grid()], line_tables: vec![], heuristic_tables: vec![] }],
    };
    let base = detect_layout_regions(&items, &[page(1)]);
    let more = detect_layout_regions(&items, &[page(2), page(1), page(7)]);
    assert_eq!(base.len(), 1);
    assert_eq!(more.len(), base.len());
    assert_eq!(more[0].page, base[0].page);
    assert_eq!(more[0].regions, base[0].regions);
}
