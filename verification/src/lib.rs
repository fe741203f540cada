//! Verified core of a personal budgeting tool.
//!
//! A flat ledger of tagged, dated transactions plus a set of per-category
//! monthly limits is turned into a hierarchical spending report.  The crate
//! provides fixed-point money arithmetic, calendar dates with a leap-year
//! aware day count, dot-separated hierarchical category tags, and the
//! category aggregation tree that accumulates spending at every level of the
//! tag hierarchy.

pub mod date;
pub mod limits;
pub mod money;
pub mod number_parsers;
pub mod order;
pub mod tag;
pub mod text;
pub mod transaction;
pub mod transaction_tree;
