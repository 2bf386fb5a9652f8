use pdf_layout::layout::formula::{detect_formula_regions, has_math_signal, is_math_char, is_math_font};
use pdf_layout::types::{ItemType, RegionType, TextItem};

fn units(v: f32) -> i32 {
    (v * 100.0).round() as i32
}

fn make_item(text: &str, x: f32, y: f32, fs: f32, font: &str) -> TextItem {
    TextItem {
        text: text.into(),
        x: units(x),
        y: units(y),
        width: units(text.len() as f32 * fs * 0.5),
        height: units(fs),
        font: font.into(),
        font_size: units(fs) as u32,
        page: 1,
        is_bold: false,
        is_italic: false,
        item_type: ItemType::Text,
        mcid: None,
    }
}

#[test]
fn math_font_detection() {
    assert!(is_math_font("CMMI10"));
    assert!(is_math_font("CMSY8"));
    assert!(is_math_font("CMR12"));
    assert!(is_math_font("STIXMath-Regular"));
    assert!(is_math_font("Cambria Math"));
    assert!(is_math_font("MathJax_Main"));
    assert!(!is_math_font("Helvetica"));
    assert!(!is_math_font("TimesNewRoman"));
}

#[test]
fn math_unicode_detection() {
    assert!(is_math_char('∑'));
    assert!(is_math_char('∫'));
    assert!(is_math_char('α'));
    assert!(is_math_char('√'));
    assert!(is_math_char('≤'));
    assert!(!is_math_char('A'));
    assert!(!is_math_char('1'));
}

#[test]
fn formula_cluster_detection() {
    // Simulate a simple equation: y = αx + β
    let items = vec![
        make_item("y", 100.0, 500.0, 12.0, "CMMI10"),
        make_item("=", 115.0, 500.0, 12.0, "CMR10"),
        make_item("α", 130.0, 500.0, 12.0, "CMMI10"),
        make_item("x", 145.0, 500.0, 12.0, "CMMI10"),
        make_item("+", 160.0, 500.0, 12.0, "CMR10"),
        make_item("β", 175.0, 500.0, 12.0, "CMMI10"),
    ];
    let regions = detect_formula_regions(&items, 1);
    assert_eq!(regions.len(), 1);
    assert_eq!(regions[0].region_type, RegionType::Formula);
    assert!(regions[0].needs_ocr);
}

#[test]
fn isolated_math_symbol_not_detected() {
    // A single "+" in running text should not create a formula region
    let items = vec![
        make_item("The", 100.0, 500.0, 12.0, "Helvetica"),
        make_item("+", 140.0, 500.0, 12.0, "Helvetica"),
        make_item("operator", 155.0, 500.0, 12.0, "Helvetica"),
    ];
    let regions = detect_formula_regions(&items, 1);
    assert!(regions.is_empty());
}

#[test]
fn math_font_names_are_case_insensitive_and_match_math_anywhere() {
    assert!(is_math_font("cmex10"));
    assert!(is_math_font("LATIN MODERN MATH"));
    assert!(is_math_font("XITS Math"));
    assert!(is_math_font("MT Extra"));
    assert!(is_math_font("Asana-Math"));
    assert!(is_math_font("SomeMathFont"));
    assert!(!is_math_font("Mathilda"));
    assert!(!is_math_font("MATHILDA-Bold"));
    assert!(!is_math_font(""));
    assert!(!is_math_font("Arial"));
    assert!(!is_math_font("mat"));
}

#[test]
fn math_char_ranges_and_singles() {
    assert!(is_math_char('±'));
    assert!(is_math_char('×'));
    assert!(is_math_char('÷'));
    assert!(is_math_char('→'));
    assert!(is_math_char('\u{2074}'));
    assert!(is_math_char('\u{1D400}'));
    assert!(is_math_char('Ω'));
    assert!(!is_math_char('\u{03CA}'));
    assert!(!is_math_char('+'));
    assert!(!is_math_char('='));
}

#[test]
fn math_signal_from_text_share() {
    // short text: one math character is enough
    assert!(has_math_signal(&make_item("a∑", 0.0, 0.0, 10.0, "Helvetica")));
    assert!(!has_math_signal(&make_item("abc", 0.0, 0.0, 10.0, "Helvetica")));
    // longer text: at least 30% math characters
    assert!(has_math_signal(&make_item("ab∑∑∑xyzuv", 0.0, 0.0, 10.0, "Helvetica")));
    assert!(!has_math_signal(&make_item("ab∑∑wxyzuv", 0.0, 0.0, 10.0, "Helvetica")));
    // empty text without a math font: no signal
    assert!(!has_math_signal(&make_item("", 0.0, 0.0, 10.0, "Helvetica")));
    // math font alone is a signal
    assert!(has_math_signal(&make_item("", 0.0, 0.0, 10.0, "CMMI10")));
}

#[test]
fn formula_confidence_depends_on_math_fonts() {
    // Greek letters in a plain font: content signal only, confidence 70
    let items = vec![
        make_item("α", 100.0, 500.0, 12.0, "Helvetica"),
        make_item("β", 115.0, 500.0, 12.0, "Helvetica"),
        make_item("γ", 130.0, 500.0, 12.0, "Helvetica"),
    ];
    let regions = detect_formula_regions(&items, 7);
    assert_eq!(regions.len(), 1);
    assert_eq!(regions[0].confidence, 70);
    assert_eq!(regions[0].page, 7);
    // x from 100 to 130 + 12 (two bytes per Greek letter), y from 500 to 512
    assert_eq!(regions[0].bbox.x_min, 10000);
    assert_eq!(regions[0].bbox.x_max, 14200);
    assert_eq!(regions[0].bbox.y_min, 50000);
    assert_eq!(regions[0].bbox.y_max, 51200);
}

#[test]
fn subscripts_join_a_formula() {
    // Two math items and a small item shifted down beside them form a cluster of three.
    let items = vec![
        make_item("x", 100.0, 500.0, 12.0, "CMMI10"),
        make_item("i", 106.0, 497.0, 8.0, "Helvetica"),
        make_item("y", 120.0, 500.0, 12.0, "CMMI10"),
    ];
    let regions = detect_formula_regions(&items, 1);
    assert_eq!(regions.len(), 1);
    // Without the subscript only two candidates remain: no region.
    let two = vec![items[0].clone(), items[2].clone()];
    assert!(detect_formula_regions(&two, 1).is_empty());
}

#[test]
fn distant_math_items_form_separate_clusters() {
    let mut items = vec![];
    for k in 0..3 {
        items.push(make_item("α", 100.0 + 15.0 * k as f32, 700.0, 12.0, "CMMI10"));
    }
    for k in 0..3 {
        items.push(make_item("β", 100.0 + 15.0 * k as f32, 400.0, 12.0, "CMMI10"));
    }
    let regions = detect_formula_regions(&items, 1);
    assert_eq!(regions.len(), 2);
    assert!(regions.iter().all(|r| r.confidence == 85 && r.needs_ocr));
}

#[test]
fn non_text_items_are_not_candidates() {
    let mut items = vec![
        make_item("α", 100.0, 500.0, 12.0, "CMMI10"),
        make_item("β", 115.0, 500.0, 12.0, "CMMI10"),
        make_item("γ", 130.0, 500.0, 12.0, "CMMI10"),
    ];
    items[1].item_type = ItemType::Image;
    assert!(detect_formula_regions(&items, 1).is_empty());
}

#[test]
fn images_between_text_items_change_no_formula() {
    let text = vec![
        make_item("α", 100.0, 500.0, 12.0, "CMMI10"),
        make_item("β", 115.0, 500.0, 12.0, "CMMI10"),
        make_item("γ", 130.0, 500.0, 12.0, "CMMI10"),
    ];
    let mut image = make_item("", 110.0, 500.0, 12.0, "");
    image.item_type = ItemType::Image;
    let with_images = vec![
        image.clone(),
        text[0].clone(),
        image.clone(),
        text[1].clone(),
        text[2].clone(),
        image,
    ];
    let plain = detect_formula_regions(&text, 1);
    assert_eq!(plain.len(), 1);
    assert_eq!(detect_formula_regions(&with_images, 1), plain);
}
