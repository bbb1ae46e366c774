//! Checking a bill of materials (BOM) made by circuit designers against the
//! one kept by purchasing: both are tables of rows (part code, references,
//! value, name, quantity); the library turns table rows into entries, indexes
//! the entries by reference and by name, and runs the consistency checks.

pub mod check;
pub mod config;
pub mod format;
pub mod index;
pub mod laws;
pub mod rows;
pub mod search;
pub mod strmap;
pub mod text;


pub use config::{Config, ConfigError, CsvDelim};
pub use rows::{BomRows, BomVec};
