use std::collections::HashSet;

use pdf_layout::layout::text_blocks::{
    calculate_font_stats_from_items, compute_heading_tiers, detect_header_level, detect_text_block_regions,
    group_into_lines,
};
use pdf_layout::types::{ItemType, RegionType, TextItem};

fn units(v: f32) -> i32 {
    (v * 100.0).round() as i32
}

fn make_item(text: &str, x: f32, y: f32, fs: f32) -> TextItem {
    TextItem {
        text: text.into(),
        x: units(x),
        y: units(y),
        width: units(text.len() as f32 * fs * 0.5),
        height: units(fs),
        font: "Helvetica".into(),
        font_size: units(fs) as u32,
        page: 1,
        is_bold: false,
        is_italic: false,
        item_type: ItemType::Text,
        mcid: None,
    }
}

#[test]
fn heading_then_paragraph() {
    let items = vec![
        // Heading (larger font)
        make_item("Introduction", 72.0, 700.0, 20.0),
        // Body text (base size = 10pt)
        make_item("This is the first paragraph of text.", 72.0, 670.0, 10.0),
        make_item("It continues on this line here.", 72.0, 658.0, 10.0),
        make_item("And this is the third line.", 72.0, 646.0, 10.0),
    ];
    let regions = detect_text_block_regions(&items, 1, &HashSet::new());
    assert!(regions.len() >= 2, "got {:?}", regions);
    assert!(
        regions.iter().any(|r| matches!(r.region_type, RegionType::Heading { .. })),
        "expected a heading region"
    );
    assert!(
        regions.iter().any(|r| r.region_type == RegionType::Paragraph),
        "expected a paragraph region"
    );
}

#[test]
fn excluded_indices_skip_items() {
    let items = vec![
        make_item("Hello", 72.0, 700.0, 10.0),
        make_item("Table content", 72.0, 680.0, 10.0),
        make_item("World", 72.0, 660.0, 10.0),
    ];
    let mut excluded = HashSet::new();
    excluded.insert(1); // table content excluded
    let regions = detect_text_block_regions(&items, 1, &excluded);
    // Should have regions, but the table item is excluded
    assert!(!regions.is_empty());
}

#[test]
fn heading_then_paragraph_exact_blocks() {
    let items = vec![
        make_item("Introduction", 72.0, 700.0, 20.0),
        make_item("This is the first paragraph of text.", 72.0, 670.0, 10.0),
        make_item("It continues on this line here.", 72.0, 658.0, 10.0),
        make_item("And this is the third line.", 72.0, 646.0, 10.0),
    ];
    let regions = detect_text_block_regions(&items, 3, &HashSet::new());
    assert_eq!(regions.len(), 2);
    assert_eq!(regions[0].region_type, RegionType::Heading { level: 1 });
    assert_eq!(regions[0].bbox.x_min, 7200);
    assert_eq!(regions[0].bbox.x_max, 7200 + 12000);
    assert_eq!(regions[0].bbox.y_min, 70000);
    assert_eq!(regions[0].bbox.y_max, 72000);
    assert_eq!(regions[1].region_type, RegionType::Paragraph);
    assert_eq!(regions[1].bbox.y_min, 64600);
    assert_eq!(regions[1].bbox.y_max, 68000);
    assert_eq!(regions[1].bbox.x_max, 7200 + 18000);
    for r in &regions {
        assert_eq!(r.page, 3);
        assert_eq!(r.confidence, 85);
        assert!(!r.needs_ocr);
    }
}

#[test]
fn all_excluded_gives_no_regions() {
    let items = vec![make_item("Hello", 72.0, 700.0, 10.0), make_item("World", 72.0, 660.0, 10.0)];
    let excluded: HashSet<usize> = [0, 1].into_iter().collect();
    assert!(detect_text_block_regions(&items, 1, &excluded).is_empty());
}

#[test]
fn large_gap_splits_paragraphs() {
    let items = vec![
        make_item("Hello", 72.0, 700.0, 10.0),
        make_item("Table content", 72.0, 680.0, 10.0),
        make_item("World", 72.0, 660.0, 10.0),
    ];
    let mut excluded = HashSet::new();
    excluded.insert(1);
    let regions = detect_text_block_regions(&items, 1, &excluded);
    // 40pt between the remaining lines is more than 1.5 x 10pt
    assert_eq!(regions.len(), 2);
    assert!(regions.iter().all(|r| r.region_type == RegionType::Paragraph));
}

#[test]
fn images_are_not_text() {
    let mut img = make_item("", 72.0, 500.0, 10.0);
    img.item_type = ItemType::Image;
    img.width = 1000;
    assert!(detect_text_block_regions(&[img], 1, &HashSet::new()).is_empty());
}

#[test]
fn most_common_font_size_first_on_tie() {
    let items = vec![
        make_item("a", 0.0, 0.0, 12.0),
        make_item("b", 0.0, 0.0, 10.0),
        make_item("c", 0.0, 0.0, 10.0),
        make_item("d", 0.0, 0.0, 12.0),
        make_item("e", 0.0, 0.0, 8.0),
    ];
    assert_eq!(calculate_font_stats_from_items(&items).most_common_size, 1200);
    assert_eq!(calculate_font_stats_from_items(&items[1..]).most_common_size, 1000);
    assert_eq!(calculate_font_stats_from_items(&[]).most_common_size, 0);
}

#[test]
fn lines_group_items_on_one_baseline() {
    let items = vec![
        make_item("Hello", 72.0, 700.0, 10.0),
        make_item("world", 110.0, 702.0, 10.0),
        make_item("Next", 72.0, 686.0, 10.0),
    ];
    let lines = group_into_lines(items);
    assert_eq!(lines.len(), 2);
    assert_eq!(lines[0].items.len(), 2);
    assert_eq!(lines[1].items[0].text, "Next");
}

#[test]
fn heading_levels_rank_sizes() {
    let items = vec![
        make_item("Big", 72.0, 700.0, 24.0),
        make_item("Medium", 72.0, 650.0, 16.0),
        make_item("Body", 72.0, 600.0, 10.0),
        make_item("Big again", 72.0, 550.0, 24.0),
    ];
    let lines = group_into_lines(items);
    let tiers = compute_heading_tiers(&lines, 1000);
    assert_eq!(tiers, vec![2400, 1600]);
    assert_eq!(detect_header_level(2400, 1000, &tiers), Some(1));
    assert_eq!(detect_header_level(1600, 1000, &tiers), Some(2));
    assert_eq!(detect_header_level(1000, 1000, &tiers), None);
    // 11pt over a 10pt base is less than 20% larger: not a heading
    assert_eq!(detect_header_level(1100, 1000, &tiers), None);
    assert_eq!(detect_header_level(1200, 1000, &tiers), Some(3));
    let many: Vec<u32> = vec![9000, 8000, 7000, 6000, 5000, 4000];
    assert_eq!(detect_header_level(1500, 1000, &many), Some(6));
}
