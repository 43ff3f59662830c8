//! Verified core of a spreadsheet translation-table toolkit: reading
//! translation sheets into tables, merging and filtering them, planning
//! machine translation of a language column, and tracking translation jobs.

pub mod text;
pub mod reply;
pub mod number;
pub mod sheet;
pub mod table;
pub mod merge;
pub mod filter;
pub mod request;
pub mod translate;
pub mod jobs;
