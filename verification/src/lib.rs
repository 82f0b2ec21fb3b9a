pub mod text;
pub mod num;
pub mod memory;
pub mod dmi;
pub mod bandwidth;
pub mod processes;
pub mod cli;
pub mod render;
pub mod report;
pub mod order;
pub mod snapshot;
