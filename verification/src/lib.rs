//! Maps the logical RAMs of FPGA circuits onto the physical memory blocks of
//! the device (LUTRAM, 8K and 128K block RAM) and rebalances each circuit until
//! its use of block RAM keeps the ratios that the logic blocks allow.
pub mod decimal;
pub mod ram;
pub mod mapping;
pub mod parse;
pub mod sorting;
pub mod legality;
pub mod placement;
pub mod report;
