pub mod core_model;
pub mod sheet;
pub mod sheet_range;

pub use core_model::SheetAddress;
pub use sheet::{CellSubscription, Sheet, SheetCellInfo};
