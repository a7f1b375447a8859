use ram_mapper::mapping::{map_ram, mapping_fits};
use ram_mapper::ram::{ParsedRam, RamMode, RamType};

fn ram(mode: RamMode, depth: u32, width: u32) -> ParsedRam {
    ParsedRam { circuit_id: 0, ram_id: 7, mode, depth, width }
}

fn shape(p: &ParsedRam, t: RamType) -> (u32, u32, u32, u32, u32) {
    assert!(mapping_fits(p, t));
    let m = map_ram(p, t);
    assert_eq!(m.id, p.ram_id);
    assert_eq!(m.mode, p.mode);
    assert_eq!(m.logical_depth, p.depth);
    assert_eq!(m.logical_width, p.width);
    assert_eq!(m.ram_type, t);
    (m.serial, m.parrallel, m.actual_width, m.actual_depth, m.lb_usage)
}

#[test]
fn single_port_onto_8k() {
    // One block 32 wide and 256 deep, four of them chained.
    assert_eq!(shape(&ram(RamMode::SinglePort, 1024, 32), RamType::RAM8K), (4, 1, 32, 256, 4));
}

#[test]
fn true_dual_port_onto_128k_doubles_the_logic() {
    assert_eq!(shape(&ram(RamMode::TrueDualPort, 4096, 64), RamType::RAM128K), (2, 1, 64, 2048, 13));
}

#[test]
fn lutram_costs_its_blocks() {
    assert_eq!(shape(&ram(RamMode::SinglePort, 100, 30), RamType::LUTRAM), (4, 2, 20, 32, 12));
}

#[test]
fn second_round_widens_to_fewer_serial_blocks() {
    // Round one chains 30 blocks 4 wide; round two uses two blocks 2 wide side by side.
    assert_eq!(shape(&ram(RamMode::ROM, 60000, 4), RamType::RAM8K), (15, 2, 2, 4096, 4));
}

#[test]
fn deep_lutram_needs_many_rounds() {
    assert_eq!(shape(&ram(RamMode::SinglePort, 1024, 32), RamType::LUTRAM), (16, 4, 10, 64, 82));
}

#[test]
fn mapping_fits_refuses_what_never_ends() {
    assert!(!mapping_fits(&ram(RamMode::SinglePort, 0, 8), RamType::RAM8K));
    assert!(!mapping_fits(&ram(RamMode::SinglePort, 8, 0), RamType::RAM8K));
    assert!(!mapping_fits(&ram(RamMode::TrueDualPort, 8, 8), RamType::LUTRAM));
    assert!(!mapping_fits(&ram(RamMode::SinglePort, 1025, 1), RamType::LUTRAM));
    assert!(mapping_fits(&ram(RamMode::SinglePort, 1024, 1), RamType::LUTRAM));
    assert!(mapping_fits(&ram(RamMode::SinglePort, 131072, 1), RamType::RAM8K));
    assert!(!mapping_fits(&ram(RamMode::SinglePort, 131073, 1), RamType::RAM8K));
    assert!(mapping_fits(&ram(RamMode::SinglePort, 2097152, 1), RamType::RAM128K));
    assert!(!mapping_fits(&ram(RamMode::SinglePort, 2097153, 1), RamType::RAM128K));
}

#[test]
fn mappings_hold_their_ram() {
    let modes = [RamMode::ROM, RamMode::SinglePort, RamMode::SimpleDualPort, RamMode::TrueDualPort];
    for &mode in &modes {
        for &t in &[RamType::LUTRAM, RamType::RAM8K, RamType::RAM128K] {
            for &(depth, width) in &[(1u32, 1u32), (16, 100), (1000, 7), (1024, 33), (5000, 3), (40000, 64)] {
                let p = ram(mode, depth, width);
                if !mapping_fits(&p, t) {
                    continue;
                }
                let m = map_ram(&p, t);
                let bits = match t {
                    RamType::LUTRAM => 640,
                    RamType::RAM8K => 8192,
                    RamType::RAM128K => 131072,
                };
                assert!(1 <= m.serial && m.serial <= 16);
                assert!(m.parrallel as u64 * m.actual_width as u64 >= width as u64);
                assert!(m.serial as u64 * m.actual_depth as u64 >= depth as u64);
                assert_eq!(m.actual_width * m.actual_depth, bits);
            }
        }
    }
}
