//! Verified core of a small PDF toolkit: Markdown-to-Typst conversion and
//! the document logic behind compressing, inspecting, annotating and merging
//! PDF files.

pub mod text;
pub mod typst;
pub mod markdown;
pub mod pdf_object;
pub mod pdf_document;
pub mod lopdf_bridge;
pub mod compress;
pub mod annotate;
pub mod color;
pub mod info;
pub mod merge;
