//! Booklet builder: splits a document into booklets of folded sheets and
//! works out which pages are printed side by side on each sheet.
//!
//! The arithmetic that decides the layout (how many sheets each booklet
//! gets, where each booklet starts and ends, which pages share a sheet and
//! which side of the sheet they go on, and how the produced files are named)
//! lives here and is verified. Reading and writing PDF files is left to the
//! program that uses this library.

pub mod booklet;
pub mod paths;
pub mod pdf_creator;
pub mod naming;
pub mod cache;
pub mod tasks;
