use ram_mapper::mapping::map_ram;
use ram_mapper::ram::{ParsedRam, RamMode, RamType};
use ram_mapper::report::mapping_line;

#[test]
fn mapping_line_lists_the_mapping() {
    let p = ParsedRam { circuit_id: 3, ram_id: 7, mode: RamMode::SinglePort, depth: 1024, width: 32 };
    let m = map_ram(&p, RamType::RAM8K);
    assert_eq!(
        mapping_line(3, &m),
        "3 7 40 LW 32 LD 1024 ID 7 S 4 P 1 Type 2 Mode SinglePort W 32 D 256\n"
    );
}

#[test]
fn mapping_line_numbers_the_types_and_names_the_modes() {
    let p = ParsedRam { circuit_id: 0, ram_id: 1, mode: RamMode::TrueDualPort, depth: 4096, width: 64 };
    let m = map_ram(&p, RamType::RAM128K);
    assert_eq!(
        mapping_line(12, &m),
        "12 1 130 LW 64 LD 4096 ID 1 S 2 P 1 Type 3 Mode TrueDualPort W 64 D 2048\n"
    );
    let p = ParsedRam { circuit_id: 0, ram_id: 2, mode: RamMode::ROM, depth: 100, width: 30 };
    let m = map_ram(&p, RamType::LUTRAM);
    assert_eq!(mapping_line(0, &m), "0 2 120 LW 30 LD 100 ID 2 S 4 P 2 Type 1 Mode ROM W 20 D 32\n");
}
