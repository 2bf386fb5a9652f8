use pdf_layout::layout::tables::{
    band_items, band_ranges, detect_table_regions, lines_on_page, rects_on_page, table_to_region, BandTables,
    Strategy, Table,
};
use pdf_layout::types::{ItemType, PdfLine, PdfRect, RegionType, TextItem};

fn make_item(text: &str, x: i32, y: i32, fs: i32) -> TextItem {
    TextItem {
        text: text.into(),
        x: x * 100,
        y: y * 100,
        width: 4000,
        height: fs * 100,
        font: "F1".into(),
        font_size: (fs * 100) as u32,
        page: 1,
        is_bold: false,
        is_italic: false,
        item_type: ItemType::Text,
        mcid: None,
    }
}

fn rect(x: i32, y: i32, page: u32) -> PdfRect {
    PdfRect { x: x * 100, y: y * 100, width: 5500, height: 3000, page }
}

fn grid(columns: Vec<i32>, rows: Vec<i32>) -> Table {
    Table { columns, rows, cells: vec![], item_indices: vec![] }
}

#[test]
fn table_to_region_derives_bbox() {
    let table = Table {
        columns: vec![10000, 20000, 30000],
        rows: vec![50000, 48000, 46000],
        cells: vec![vec!["A".into(), "B".into()], vec!["C".into(), "D".into()]],
        item_indices: vec![0, 1, 2, 3],
    };
    let region = table_to_region(&table, 1, Strategy::Rect).unwrap();
    assert_eq!(region.region_type, RegionType::Table);
    assert!(region.needs_ocr);
    assert!((region.confidence as f32 / 100.0 - 0.9).abs() < 0.01);
    assert!(region.bbox.x_min < 10000); // padded
    assert!(region.bbox.x_max > 30000);
    assert!(region.bbox.y_min < 46000);
    assert!(region.bbox.y_max > 50000);
}

#[test]
fn table_region_padding_is_two_points() {
    let region = table_to_region(&grid(vec![10000, 30000], vec![50000, 46000]), 4, Strategy::Line).unwrap();
    assert_eq!(region.bbox.x_min, 9800);
    assert_eq!(region.bbox.x_max, 30200);
    assert_eq!(region.bbox.y_min, 45800);
    assert_eq!(region.bbox.y_max, 50200);
    assert_eq!(region.confidence, 85);
    assert_eq!(region.page, 4);
    let h = table_to_region(&grid(vec![1], vec![1]), 4, Strategy::Heuristic).unwrap();
    assert_eq!(h.confidence, 70);
}

#[test]
fn empty_grid_has_no_region() {
    assert!(table_to_region(&grid(vec![], vec![50000]), 1, Strategy::Rect).is_none());
    assert!(table_to_region(&grid(vec![10000], vec![]), 1, Strategy::Rect).is_none());
}

#[test]
fn cascade_prefers_rect_then_line_then_heuristic() {
    let t = || grid(vec![10000, 20000], vec![50000, 40000]);
    let bands = vec![
        BandTables { rect_tables: vec![t()], line_tables: vec![t(), t()], heuristic_tables: vec![t()] },
        BandTables { rect_tables: vec![], line_tables: vec![t(), t()], heuristic_tables: vec![t()] },
        BandTables { rect_tables: vec![], line_tables: vec![], heuristic_tables: vec![t()] },
        BandTables { rect_tables: vec![], line_tables: vec![], heuristic_tables: vec![] },
    ];
    let regions = detect_table_regions(&bands, 2);
    let conf: Vec<u32> = regions.iter().map(|r| r.confidence).collect();
    assert_eq!(conf, vec![90, 85, 85, 70]);
    assert!(regions.iter().all(|r| r.region_type == RegionType::Table && r.page == 2 && r.needs_ocr));
}

#[test]
fn rect_tables_without_grid_still_decide_the_band() {
    // The rect detector found a table, though without rows: no region, and the
    // line-based tables of the band are not consulted.
    let bands = vec![BandTables {
        rect_tables: vec![grid(vec![10000], vec![])],
        line_tables: vec![grid(vec![10000, 20000], vec![50000, 40000])],
        heuristic_tables: vec![],
    }];
    assert!(detect_table_regions(&bands, 1).is_empty());
}

#[test]
fn detect_table_regions_with_rect_borders() {
    let items = vec![
        make_item("A", 100, 500, 10),
        make_item("B", 200, 500, 10),
        make_item("C", 100, 480, 10),
        make_item("D", 200, 480, 10),
    ];
    let rects = vec![
        rect(95, 475, 1),
        rect(150, 475, 1),
        rect(195, 475, 1),
        rect(95, 495, 1),
        rect(150, 495, 1),
        rect(195, 495, 1),
    ];
    // The page has no side-by-side bands: one band, the whole page.
    let ranges = band_ranges(&[]);
    assert_eq!(ranges, vec![None]);
    let in_band = band_items(&items, ranges[0]);
    assert_eq!(in_band.len(), 4);
    let page_rects = rects_on_page(&rects, 1);
    assert_eq!(page_rects, rects);
    // The grid that the rect borders outline holds the four items.
    let grid = Table {
        columns: vec![9500, 15000, 20500, 25000],
        rows: vec![52500, 50000, 47500],
        cells: vec![vec!["A".into(), "B".into()], vec!["C".into(), "D".into()]],
        item_indices: vec![0, 1, 2, 3],
    };
    let bands = vec![BandTables { rect_tables: vec![grid], line_tables: vec![], heuristic_tables: vec![] }];
    let regions = detect_table_regions(&bands, 1);
    // Should find at least one table region (rect-based)
    assert!(
        regions.iter().any(|r| r.region_type == RegionType::Table),
        "expected at least one table region, got {:?}",
        regions
    );
    assert_eq!(regions[0].confidence, 90);
}

#[test]
fn band_ranges_fall_back_to_whole_page() {
    assert_eq!(band_ranges(&[]), vec![None]);
    assert_eq!(band_ranges(&[(0, 30000), (30000, 60000)]), vec![Some((0, 30000)), Some((30000, 60000))]);
}

#[test]
fn band_items_keep_a_two_point_margin() {
    let items = vec![
        make_item("left", 98, 500, 10),
        make_item("edge", 97, 500, 10),
        make_item("mid", 250, 500, 10),
        make_item("right", 301, 500, 10),
        make_item("out", 302, 500, 10),
    ];
    let texts = |v: Vec<TextItem>| v.into_iter().map(|i| i.text).collect::<Vec<String>>();
    assert_eq!(texts(band_items(&items, Some((10000, 30000)))), vec!["left", "mid", "right"]);
    assert_eq!(texts(band_items(&items, None)).len(), 5);
    assert_eq!(texts(band_items(&items, Some((40000, 50000)))), Vec::<String>::new());
}

#[test]
fn rects_and_lines_of_other_pages_are_left_out() {
    let rects = vec![rect(95, 475, 1), rect(95, 475, 2), rect(150, 475, 1)];
    assert_eq!(rects_on_page(&rects, 1), vec![rect(95, 475, 1), rect(150, 475, 1)]);
    assert_eq!(rects_on_page(&rects, 3), vec![]);
    let line = |page: u32| PdfLine { x1: 0, y1: 100, x2: 5000, y2: 100, page };
    let lines = vec![line(2), line(1), line(2)];
    assert_eq!(lines_on_page(&lines, 2), vec![line(2), line(2)]);
    assert_eq!(lines_on_page(&lines, 1), vec![line(1)]);
}
