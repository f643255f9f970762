//! Turning scanned page images into clean text: deciding which pages carry
//! text, grouping edge points into regions, putting per-page OCR output back
//! in page order, a fixed chain of text-cleaning passes, and choosing which
//! grammar suggestions to apply.
pub mod chars;
pub mod text;
pub mod document;
pub mod edges;
pub mod regions;
pub mod correction;
