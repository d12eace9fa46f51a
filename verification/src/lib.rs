//! Counts how often each distinct line occurs in a text and ranks the
//! distinct lines by content or by frequency.
//!
//! - [`table`] holds the frequency table and what it means to be a tally of
//!   the lines that were read.
//! - [`order`] defines the orders by which a tally can be ranked.
//! - [`sorter`] ranks a tally, in parallel.
//! - [`output`] formats the ranked lines as rows and decides, write by write,
//!   how the writing of a report goes on.
//! - [`report`] puts the steps together.

pub mod order;
pub mod output;
pub mod report;
pub mod sorter;
pub mod table;
