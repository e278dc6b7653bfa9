//! Summaries of personal budget items kept as small text files.
//!
//! Each file describes one item: a name, a cost, perhaps a date. Tags come
//! with the file from elsewhere. This library reads the lines of a file into
//! a record ([`budgetitem`], [`cost`]), indexes records by tag
//! ([`tagindex`]), sums their costs ([`totals`]), names the tags related to
//! a filter ([`related`]), and puts these together into the report of a run
//! ([`report`]), with the filter of the `tagsearch` crate deciding which
//! records a run keeps ([`filter`]). Finding and reading the files, and
//! printing the report, are left to the caller.

pub mod budgetitem;
pub mod cost;
pub mod filter;
pub mod listing;
pub mod related;
pub mod report;
pub mod tagindex;
pub mod text;
pub mod totals;
