use ram_mapper::mapping::map_ram;
use ram_mapper::parse::lb_parse;
use ram_mapper::placement::{find_circuit, initial_ram_type, place_ram, PlaceError};
use ram_mapper::ram::{Circuit, ParsedRam, RamMode, RamType};

fn circuits() -> Vec<Circuit> {
    vec![lb_parse("0\t100"), lb_parse("5\t200"), lb_parse("5\t300")]
}

#[test]
fn find_circuit_finds_the_first_match() {
    let cs = circuits();
    assert_eq!(find_circuit(&cs, 0), Some(0));
    assert_eq!(find_circuit(&cs, 5), Some(1));
    assert_eq!(find_circuit(&cs, 9), None);
}

#[test]
fn initial_type_by_size() {
    let p = |depth, width| ParsedRam { circuit_id: 0, ram_id: 0, mode: RamMode::ROM, depth, width };
    assert_eq!(initial_ram_type(&p(2048, 32)), Some(RamType::RAM128K));
    assert_eq!(initial_ram_type(&p(2047, 32)), Some(RamType::RAM8K));
    assert_eq!(initial_ram_type(&p(65536, 65536)), None);
}

#[test]
fn place_ram_adds_the_mapping_to_its_circuit() {
    let mut cs = circuits();
    let p = ParsedRam { circuit_id: 5, ram_id: 4, mode: RamMode::SinglePort, depth: 1024, width: 32 };
    assert_eq!(place_ram(&mut cs, &p), Ok(()));
    assert_eq!(cs.len(), 3);
    assert!(cs[0].ram_mappings.is_empty());
    assert!(cs[2].ram_mappings.is_empty());
    assert_eq!(cs[1].logic_lb_usage, 200);
    assert_eq!(cs[1].ram_mappings.len(), 1);
    let expected = map_ram(&p, RamType::RAM8K);
    let got = cs[1].ram_mappings[0];
    assert_eq!((got.id, got.ram_type, got.serial, got.lb_usage), (expected.id, expected.ram_type, expected.serial, expected.lb_usage));
}

#[test]
fn place_ram_reports_each_error() {
    let mut cs = circuits();
    let unknown = ParsedRam { circuit_id: 9, ram_id: 0, mode: RamMode::ROM, depth: 16, width: 16 };
    assert_eq!(place_ram(&mut cs, &unknown), Err(PlaceError::UnknownCircuit));
    let huge = ParsedRam { circuit_id: 0, ram_id: 0, mode: RamMode::ROM, depth: 100000, width: 100000 };
    assert_eq!(place_ram(&mut cs, &huge), Err(PlaceError::Overflow));
    let deep = ParsedRam { circuit_id: 0, ram_id: 0, mode: RamMode::ROM, depth: 3_000_000, width: 1 };
    assert_eq!(place_ram(&mut cs, &deep), Err(PlaceError::Unmappable(RamType::RAM128K)));
    let empty = ParsedRam { circuit_id: 0, ram_id: 0, mode: RamMode::ROM, depth: 0, width: 8 };
    assert_eq!(place_ram(&mut cs, &empty), Err(PlaceError::Unmappable(RamType::RAM8K)));
    assert!(cs.iter().all(|c| c.ram_mappings.is_empty()));
}
