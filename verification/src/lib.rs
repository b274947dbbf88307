//! A reactive spreadsheet engine whose cells hold literal numbers, literal
//! text, or formulas in a small Lisp-like expression language. Formula
//! source is parsed to an expression tree, compiled to a stack bytecode,
//! and evaluated against an environment in which sheet cells are addressed
//! by keyword (`:a1`, `:a1-c3`). A reverse-dependency graph drives
//! incremental recomputation when a cell changes.

pub mod chars;
pub mod debug;
pub mod dep_graph;
pub mod error;
pub mod interpreter;
pub mod numeric;
pub mod parser;
pub mod sheet;

pub use error::{AppError, AppResult};
