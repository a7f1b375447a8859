use ram_mapper::legality::{legalize, lutram_budget_exec, LegalityError};
use ram_mapper::sorting::sort_by_capacity;
use ram_mapper::mapping::map_ram;
use ram_mapper::ram::{Circuit, ParsedRam, RamMapping, RamMode, RamType};

fn mapping(id: u32, mode: RamMode, depth: u32, width: u32, t: RamType) -> RamMapping {
    map_ram(&ParsedRam { circuit_id: 0, ram_id: id, mode, depth, width }, t)
}

fn totals(c: &Circuit) -> (u64, u64, u64, u64) {
    let mut lbu = c.logic_lb_usage as u64;
    let (mut lut, mut r8, mut r128) = (0u64, 0u64, 0u64);
    for m in &c.ram_mappings {
        lbu += m.lb_usage as u64;
        let b = m.parrallel as u64 * m.serial as u64;
        match m.ram_type {
            RamType::LUTRAM => lut += b,
            RamType::RAM8K => r8 += b,
            RamType::RAM128K => r128 += b,
        }
    }
    (lbu, lut, r8, r128)
}

fn keeps_ratios(c: &Circuit) -> bool {
    let (lbu, lut, r8, r128) = totals(c);
    lut <= ((lbu as u32) as f32 * 0.5) as u64 && r8 <= lbu / 10 && r128 <= lbu / 300
}

#[test]
fn lutram_budget_matches_f32_arithmetic() {
    let mut xs: Vec<u32> = (0..5000).collect();
    for k in 0..2000u32 {
        xs.push((1u32 << 24) - 1000 + k);
        xs.push(16_777_217u32.wrapping_add(k * 7919));
        xs.push(33_554_430u32.wrapping_add(k * 3));
        xs.push(u32::MAX - k);
        xs.push(k.wrapping_mul(2_654_435_761));
        xs.push((1u32 << 31).wrapping_add(k * 129));
    }
    for x in xs {
        assert_eq!(lutram_budget_exec(x), (x as f32 * 0.5) as u32, "{}", x);
    }
}

#[test]
fn lutram_budget_is_half_below_2_pow_24() {
    for x in [0u32, 1, 2, 3, 999, 1001, 16_777_215] {
        assert_eq!(lutram_budget_exec(x), x / 2);
    }
}

#[test]
fn sort_by_capacity_is_stable() {
    let mut rams = vec![
        mapping(1, RamMode::ROM, 8, 1, RamType::RAM8K),
        mapping(2, RamMode::ROM, 2, 1, RamType::RAM8K),
        mapping(3, RamMode::ROM, 4, 2, RamType::RAM8K),
        mapping(4, RamMode::ROM, 1, 1, RamType::RAM8K),
        mapping(5, RamMode::ROM, 1, 2, RamType::RAM8K),
    ];
    sort_by_capacity(&mut rams);
    let ids: Vec<u32> = rams.iter().map(|m| m.id).collect();
    assert_eq!(ids, vec![4, 2, 5, 1, 3]);
}

#[test]
fn legal_circuit_stays_as_it_is() {
    let m = mapping(1, RamMode::SinglePort, 1024, 32, RamType::RAM8K);
    let mut c = Circuit { id: 1, logic_lb_usage: 1000, ram_mappings: vec![m] };
    assert_eq!(legalize(&mut c), Ok(()));
    assert_eq!(c.logic_lb_usage, 1000);
    assert_eq!(c.ram_mappings[0].ram_type, RamType::RAM8K);
    assert!(keeps_ratios(&c));
}

#[test]
fn legalize_sorts_smallest_first() {
    let big = mapping(1, RamMode::SinglePort, 1024, 32, RamType::RAM8K);
    let small = mapping(2, RamMode::SinglePort, 16, 8, RamType::RAM8K);
    let mut c = Circuit { id: 1, logic_lb_usage: 1000, ram_mappings: vec![big, small] };
    assert_eq!(legalize(&mut c), Ok(()));
    assert_eq!(c.ram_mappings[0].id, 2);
    assert_eq!(c.ram_mappings[1].id, 1);
}

#[test]
fn oscillation_ends_by_charging_logic() {
    // With 10 logic blocks the RAM fits neither 8K (too little logic) nor
    // LUTRAM (too much LUTRAM): after the patience runs out the logic is charged.
    let m = mapping(1, RamMode::SinglePort, 1024, 32, RamType::RAM8K);
    let mut c = Circuit { id: 1, logic_lb_usage: 10, ram_mappings: vec![m] };
    assert_eq!(legalize(&mut c), Ok(()));
    assert_eq!(c.logic_lb_usage, 110);
    assert_eq!(c.ram_mappings.len(), 1);
    let r = c.ram_mappings[0];
    assert_eq!((r.ram_type, r.serial, r.parrallel, r.lb_usage), (RamType::RAM8K, 4, 1, 4));
    assert!(keeps_ratios(&c));
}

#[test]
fn too_much_8k_moves_to_lutram() {
    let m = mapping(1, RamMode::SimpleDualPort, 64, 10, RamType::RAM8K);
    let mut c = Circuit { id: 1, logic_lb_usage: 5, ram_mappings: vec![m] };
    assert_eq!(legalize(&mut c), Ok(()));
    let r = c.ram_mappings[0];
    assert_eq!(r.ram_type, RamType::LUTRAM);
    assert_eq!(r.id, 1);
    assert_eq!((r.logical_depth, r.logical_width), (64, 10));
    assert!(keeps_ratios(&c));
}

#[test]
fn too_much_128k_moves_to_8k() {
    let m = mapping(1, RamMode::TrueDualPort, 1024, 128, RamType::RAM128K);
    let mut c = Circuit { id: 1, logic_lb_usage: 200, ram_mappings: vec![m] };
    assert_eq!(legalize(&mut c), Ok(()));
    assert_eq!(c.ram_mappings[0].ram_type, RamType::RAM8K);
    assert!(keeps_ratios(&c));
}

#[test]
fn unmappable_move_is_reported() {
    // 1050 words is shallow enough to be picked for LUTRAM, too deep for it.
    let m = mapping(1, RamMode::SinglePort, 1050, 1, RamType::RAM8K);
    let mut c = Circuit { id: 1, logic_lb_usage: 0, ram_mappings: vec![m] };
    assert_eq!(
        legalize(&mut c),
        Err(LegalityError::Unmappable { index: 0, target: RamType::LUTRAM })
    );
    assert_eq!(c.ram_mappings[0].ram_type, RamType::RAM8K);
}

#[test]
fn overflow_is_reported() {
    let m = mapping(1, RamMode::SinglePort, 1024, 32, RamType::RAM8K);
    let mut c = Circuit { id: 1, logic_lb_usage: u32::MAX - 1, ram_mappings: vec![m] };
    assert_eq!(legalize(&mut c), Err(LegalityError::Overflow));
}

#[test]
fn empty_circuit_is_legal() {
    let mut c = Circuit { id: 1, logic_lb_usage: 0, ram_mappings: vec![] };
    assert_eq!(legalize(&mut c), Ok(()));
    assert_eq!(c.logic_lb_usage, 0);
}

#[test]
fn balanced_circuits_keep_the_ratios() {
    let mut rams = Vec::new();
    let shapes = [(512u32, 16u32), (2048, 32), (64, 4), (8192, 8), (1000, 20), (300, 3)];
    for (k, &(depth, width)) in shapes.iter().enumerate() {
        let t = if depth * width >= 65536 { RamType::RAM128K } else { RamType::RAM8K };
        let mode = if k % 2 == 0 { RamMode::SinglePort } else { RamMode::TrueDualPort };
        rams.push(mapping(k as u32, mode, depth, width, t));
    }
    for logic in [0u32, 50, 400, 3000] {
        let mut c = Circuit { id: 2, logic_lb_usage: logic, ram_mappings: rams.clone() };
        assert_eq!(legalize(&mut c), Ok(()));
        assert!(keeps_ratios(&c));
        assert!(c.logic_lb_usage >= logic);
        assert_eq!(c.ram_mappings.len(), rams.len());
    }
}

fn sample_rams() -> Vec<RamMapping> {
    vec![
        mapping(0, RamMode::SinglePort, 4096, 32, RamType::RAM128K),
        mapping(1, RamMode::SimpleDualPort, 512, 16, RamType::RAM8K),
        mapping(2, RamMode::TrueDualPort, 1024, 8, RamType::RAM8K),
        mapping(3, RamMode::ROM, 256, 4, RamType::RAM8K),
    ]
}

#[test]
fn balancing_has_one_outcome() {
    let mut a = Circuit { id: 4, logic_lb_usage: 20, ram_mappings: sample_rams() };
    let mut b = Circuit { id: 4, logic_lb_usage: 20, ram_mappings: sample_rams() };
    assert_eq!(legalize(&mut a), legalize(&mut b));
    assert_eq!(a.logic_lb_usage, b.logic_lb_usage);
    let key = |m: &RamMapping| (m.id, m.ram_type, m.serial, m.parrallel, m.actual_width, m.actual_depth, m.lb_usage);
    let ka: Vec<_> = a.ram_mappings.iter().map(key).collect();
    let kb: Vec<_> = b.ram_mappings.iter().map(key).collect();
    assert_eq!(ka, kb);
}

#[test]
fn balancing_keeps_every_ram() {
    let before = sample_rams();
    let mut c = Circuit { id: 4, logic_lb_usage: 20, ram_mappings: sample_rams() };
    assert_eq!(legalize(&mut c), Ok(()));
    assert!(keeps_ratios(&c));
    assert!(c.logic_lb_usage >= 20);
    let mut ids: Vec<u32> = c.ram_mappings.iter().map(|m| m.id).collect();
    ids.sort();
    assert_eq!(ids, vec![0, 1, 2, 3]);
    for m in &c.ram_mappings {
        let b = before.iter().find(|x| x.id == m.id).unwrap();
        assert_eq!((m.mode, m.logical_depth, m.logical_width), (b.mode, b.logical_depth, b.logical_width));
        let again = mapping(m.id, m.mode, m.logical_depth, m.logical_width, m.ram_type);
        assert_eq!((m.serial, m.parrallel, m.lb_usage), (again.serial, again.parrallel, again.lb_usage));
    }
}
