//! Token n-gram statistics over a suffix table.
//!
//! `table` builds the sorted suffix table of a token text and answers queries on it:
//! where a sequence occurs, and how often each token follows it. `sampling` draws token
//! sequences from those counts. `lex` holds the lexicographic order the table is sorted
//! by, and `laws` the properties that relate the queries to one another.

pub mod laws;
pub mod lex;
pub mod sampling;
pub mod sharded;
pub mod table;

pub use table::SuffixTable;
