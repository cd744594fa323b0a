//! The lookup tables of the metadata manager.

pub mod fp_table;
pub mod sf_table;

pub use fp_table::FPTable;
pub use sf_table::SFTable;
