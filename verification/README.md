# pdf_layout

Heuristic layout region detection for PDF pages, verified with Verus.

From the items extracted from a page (text runs and images), the library finds
table, image, formula, paragraph and heading regions and returns them per page
in reading order, each with a confidence and a flag telling whether the region
needs OCR.

* `src/types.rs` — items, boxes, regions. Coordinates and font sizes are
  integers in hundredths of a PDF point; confidences are percentages.
* `src/layout/mod.rs` — `detect_layout_regions` and `detect_page_regions`:
  tables claim items first, then images, then formulas among the unclaimed
  items, then paragraphs and headings; regions are sorted top to bottom, then
  left to right.
* `src/layout/tables.rs` — the rect → line → heuristic cascade over the table
  candidates of each band of a page, the padded box of a table grid, and the
  selection of what a band's detectors read: the bands to search, the items
  of a band (its x-range widened by two points), the rectangles and line
  segments of the page. The candidates themselves come from the caller
  (`PageTables`).
* `src/layout/formula.rs` — math fonts, math characters, sub/superscripts,
  clustering into formula regions of at least three items.
* `src/layout/text_blocks.rs` — font statistics, line grouping, heading tiers,
  and grouping of lines into paragraph and heading blocks.
* `src/cli.rs` — JSON string escaping, page selections such as `1,3,5-10`,
  truncation for display, region type names.
* `app/lib.rs` — conversion from `f32` points to the library's units and
  printing of layouts as JSON or text.

Every executable function in `src/` carries a contract stating its result
exactly; `lemma_*` proof functions state properties across functions, such as
the reading order of regions and which regions need OCR.
