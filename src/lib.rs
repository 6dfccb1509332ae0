//! Bordered text tables: typed cells, truncated decimals, and column widths
//! measured by how many terminal columns the visible text takes.

pub mod cell;
pub mod measure;
pub mod table;

pub use cell::{CellValue, Decimal};
pub use table::AsciiTable;
