//! A verified library that turns a PDF document into a structured JSON value:
//! one entry per page, each holding the page's extracted plain text.
//!
//! The PDF parsing itself is delegated to the `lopdf` crate behind a small set
//! of trusted declarations; everything built on top of it — assembling and
//! ordering the pages, naming the input file, and rendering and reading back
//! the JSON form — is verified.
pub mod content;
pub mod json;
pub mod pdf;
pub mod sorting;
