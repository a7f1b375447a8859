//! The device's memory blocks and the records that describe a circuit's RAMs.
use vstd::prelude::*;

verus! {

/// Lookup tables in one logic block (the `N` of the device's logic blocks).
pub const LB_N: u32 = 10;

/// Logic blocks that the device offers for each 8K block RAM.
pub const LB_PER_8K: u32 = 10;

/// Logic blocks that the device offers for each 128K block RAM.
pub const LB_PER_128K: u32 = 300;

/// Bits of one 8K block RAM.
pub const RAM8K_BYTES: u32 = 8192;

/// Bits of one 128K block RAM.
pub const RAM128K_BYTES: u32 = 131072;

/// Bits of one LUTRAM (a logic block used as memory).
pub const LUTRAM_BYTES: u32 = 640;

/// Logical RAMs of at least this many bits start in 128K block RAM, smaller
/// ones in 8K block RAM: half the bits of a 128K block.
pub const FILL_RATIO128K: u32 = 65536;

/// The port configuration of a logical RAM.
#[derive(Debug, Clone, Copy, PartialEq, Eq, Structural)]
pub enum RamMode {
    ROM,
    SinglePort,
    SimpleDualPort,
    TrueDualPort,
}

/// The kind of physical block that a logical RAM is built from.
#[derive(Debug, Clone, Copy, PartialEq, Eq, Structural)]
pub enum RamType {
    LUTRAM,
    RAM8K,
    RAM128K,
}

/// One line of the RAM description: a logical RAM of a circuit.
#[derive(Debug, Clone, Copy)]
pub struct ParsedRam {
    pub circuit_id: u32,
    pub ram_id: u32,
    pub mode: RamMode,
    pub depth: u32,
    pub width: u32,
}

/// A logical RAM built from `serial` x `parrallel` physical blocks of one type,
/// each configured as `actual_depth` words of `actual_width` bits.
#[derive(Debug, Clone, Copy)]
pub struct RamMapping {
    pub id: u32,
    pub mode: RamMode,
    pub logical_depth: u32,
    pub logical_width: u32,
    /// Logic blocks for the decoders and multiplexers (and, for LUTRAM, the
    /// memory itself) that the mapping needs.
    pub lb_usage: u32,
    pub ram_type: RamType,
    pub serial: u32,
    pub parrallel: u32,
    pub actual_depth: u32,
    pub actual_width: u32,
}

/// A circuit: the logic blocks its logic uses, and how its RAMs are mapped.
#[derive(Debug)]
pub struct Circuit {
    pub id: u32,
    pub logic_lb_usage: u32,
    pub ram_mappings: Vec<RamMapping>,
}

/// Bits of one physical block of type `t`.
pub open spec fn block_bits(t: RamType) -> nat {
    match t {
        RamType::LUTRAM => LUTRAM_BYTES as nat,
        RamType::RAM8K => RAM8K_BYTES as nat,
        RamType::RAM128K => RAM128K_BYTES as nat,
    }
}

/// The word widths that a block of type `t` offers to a RAM of `mode`,
/// narrowest first (a true dual port RAM loses the widest one; LUTRAM
/// cannot be true dual port at all).
pub open spec fn block_widths(mode: RamMode, t: RamType) -> Seq<u32> {
    if mode == RamMode::TrueDualPort {
        match t {
            RamType::RAM128K => seq![1, 2, 4, 8, 16, 32, 64],
            RamType::RAM8K => seq![1, 2, 4, 8, 16],
            RamType::LUTRAM => seq![],
        }
    } else {
        match t {
            RamType::RAM128K => seq![1, 2, 4, 8, 16, 32, 64, 128],
            RamType::RAM8K => seq![1, 2, 4, 8, 16, 32],
            RamType::LUTRAM => seq![10, 20],
        }
    }
}

} // verus!
