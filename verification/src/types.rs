//! The data model shared by every detector.
use vstd::prelude::*;

verus! {

/// Fixed-point scale: one PDF point is this many coordinate units.
pub const UNITS_PER_POINT: i64 = 100;

/// What an extracted item is.
#[derive(Clone, Copy, Debug, PartialEq, Eq, Structural)]
pub enum ItemType {
    Text,
    Image,
}

/// One item extracted from a PDF page. Positions, sizes and the font size are
/// in hundredths of a point; `y` grows upwards as in PDF user space.
#[derive(Clone, Debug)]
pub struct TextItem {
    pub text: String,
    pub x: i32,
    pub y: i32,
    pub width: i32,
    pub height: i32,
    pub font: String,
    pub font_size: u32,
    pub page: u32,
    pub is_bold: bool,
    pub is_italic: bool,
    pub item_type: ItemType,
    pub mcid: Option<u32>,
}

/// An axis-aligned bounding box.
#[derive(Clone, Copy, Debug, PartialEq, Eq, Structural)]
pub struct BBox {
    pub x_min: i64,
    pub y_min: i64,
    pub x_max: i64,
    pub y_max: i64,
}

/// The kind of a detected region.
#[derive(Clone, Copy, Debug, PartialEq, Eq, Structural)]
pub enum RegionType {
    Table,
    Formula,
    Image,
    Paragraph,
    Heading { level: u8 },
}

/// A detected region of a page. `confidence` is a percentage.
#[derive(Clone, Copy, Debug, PartialEq, Eq, Structural)]
pub struct LayoutRegion {
    pub bbox: BBox,
    pub region_type: RegionType,
    pub page: u32,
    pub confidence: u32,
    pub needs_ocr: bool,
}

/// All regions detected on one page.
#[derive(Clone, Debug)]
pub struct PageLayout {
    pub page: u32,
    pub regions: Vec<LayoutRegion>,
}

/// A filled or stroked rectangle of a page, as the table detectors read it:
/// lower-left corner and size in hundredths of a point.
#[derive(Clone, Copy, Debug, PartialEq, Eq, Structural)]
pub struct PdfRect {
    pub x: i32,
    pub y: i32,
    pub width: i32,
    pub height: i32,
    pub page: u32,
}

/// A stroked line segment of a page, as the table detectors read it: its two
/// end points in hundredths of a point.
#[derive(Clone, Copy, Debug, PartialEq, Eq, Structural)]
pub struct PdfLine {
    pub x1: i32,
    pub y1: i32,
    pub x2: i32,
    pub y2: i32,
    pub page: u32,
}

/// A field-by-field copy of an item.
pub(crate) fn copy_item(item: &TextItem) -> (r: TextItem)
    ensures
        r == *item,
{
    TextItem {
        text: item.text.clone(),
        x: item.x,
        y: item.y,
        width: item.width,
        height: item.height,
        font: item.font.clone(),
        font_size: item.font_size,
        page: item.page,
        is_bold: item.is_bold,
        is_italic: item.is_italic,
        item_type: item.item_type,
        mcid: item.mcid,
    }
}

/// A point lies in a box, edges included.
pub open spec fn spec_bbox_contains(b: BBox, x: int, y: int) -> bool {
    b.x_min <= x <= b.x_max && b.y_min <= y <= b.y_max
}

/// Check if a point falls within a bounding box (edges count as inside).
pub fn bbox_contains(bbox: &BBox, x: i64, y: i64) -> (r: bool)
    ensures
        r == spec_bbox_contains(*bbox, x as int, y as int),
{
    x >= bbox.x_min && x <= bbox.x_max && y >= bbox.y_min && y <= bbox.y_max
}

} // verus!
