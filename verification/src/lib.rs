//! A verified core for a Linux system monitor.

pub mod accuracy;
pub mod amounts;
pub mod arithmetic;
pub mod chart;
pub mod counters;
pub mod cpus;
pub mod disks;
pub mod double;
pub mod figures;
pub mod fixed;
pub mod history;
pub mod inspection;
mod magnitudes;
mod margins;
pub mod metrics;
pub mod monitor;
pub mod natural;
pub mod networks;
pub mod parsing;
pub mod process_view;
pub mod processes;
pub mod readings;
pub mod rounding;
pub mod schedule;
pub mod sensors;
pub mod settings;
pub mod sorting;
pub mod table;
pub mod text;
pub mod theme;
pub mod writing;
