//! Conversion of XER section-tagged text into per-section CSV documents.
//!
//! An XER export is a single tab-delimited text file in which `%T` lines
//! open named sections, `%F` lines carry the section's column headers and
//! `%R` lines carry its data rows.  This crate parses such text into
//! [`parser::Section`] values and serialises each section as a CSV file
//! body together with its sanitised file name.

pub mod emit;
pub mod parser;
pub mod text;
