//! Changelog rendering core: the commit and release data, the grouping of
//! commits into an ordered list of sections, the casing filter, and the
//! translation of template engine failures into this library's errors.

pub mod casing;
pub mod commit;
pub mod error;
pub mod grouping;
