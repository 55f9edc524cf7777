//! A small spreadsheet formula engine.
//!
//! A cell's raw text is either a bare integer literal or a formula starting
//! with `=`. The parser turns such text into an expression tree; the
//! evaluator resolves cell references against a table of raw cell text,
//! detecting cyclic reference chains along the way.

pub mod evaluator;
pub mod parser;
pub mod types;
