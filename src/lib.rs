//! Lifecycle of deletion discussions listed on a wiki page: reading their
//! signature timestamps, deciding whether each one is open, aging, closed or
//! ready for the archive, and moving entries between regions of a document
//! tree and into month-keyed archive pages.
pub mod calendar;
pub mod text;
pub mod document;
pub mod references;
pub mod sections;
pub mod archive;
pub mod signatures;
pub mod lifecycle;
pub mod gate;
