//! Consolidates per-CPU function profile reports: each report lists, per traced
//! function, a hit count and timing totals; reports are parsed line by line and
//! merged by function name into one table of totals and means.
pub mod decimal;
pub mod laws;
pub mod line;
pub mod render;
pub mod report;
pub mod table;
