//! Monthly commit reports for a tree of git repositories: parsing of `git log`
//! output into commit records, and planning of the appends to the monthly
//! report files.

pub mod git;
pub mod log;
pub mod model;
pub mod report;
pub mod text;
