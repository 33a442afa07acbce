//! Equity for paying out pots.
pub mod table_equity;
