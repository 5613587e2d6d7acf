//! Keysound editing for BMS rhythm-game charts: the two-character base-36
//! keysound ID codec, the model of a chart line, and the chart document.

pub mod bms;
pub mod line;
pub mod chart;
pub mod command;
