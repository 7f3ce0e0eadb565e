//! Reformats a rectangular comma-separated table into a fixed-width,
//! pipe-delimited table, optionally wrapping long tables into side-by-side
//! blocks of rows.

pub mod line;
pub mod render;
pub mod table;
pub mod tabulate;
pub mod width;
