//! Heuristic layout region detection for PDF pages: tables, formulas, images,
//! paragraphs and headings, found from extracted text items — no ML model
//! needed — plus the text handling of the command-line tools.
//!
//! Coordinates and font sizes are fixed-point integers in hundredths of a PDF
//! point (see [`types::UNITS_PER_POINT`]); confidences are percentages.
pub mod cli;
pub mod layout;
mod runs;
pub mod types;
