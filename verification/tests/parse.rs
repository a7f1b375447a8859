use ram_mapper::parse::{lb_parse, lb_parse_checked, ram_parse, ram_parse_checked};
use ram_mapper::ram::RamMode;

#[test]
fn ram_parse_reads_all_fields() {
    let p = ram_parse("1\t2\tSimpleDualPort\t64\t8");
    assert_eq!(p.circuit_id, 1);
    assert_eq!(p.ram_id, 2);
    assert_eq!(p.mode, RamMode::SimpleDualPort);
    assert_eq!(p.depth, 64);
    assert_eq!(p.width, 8);
}

#[test]
fn ram_parse_reads_padded_modes() {
    assert_eq!(ram_parse("0\t0\tROM           \t1\t1").mode, RamMode::ROM);
    assert_eq!(ram_parse("0\t0\tSinglePort    \t1\t1").mode, RamMode::SinglePort);
    assert_eq!(ram_parse("0\t0\tTrueDualPort  \t1\t1").mode, RamMode::TrueDualPort);
}

#[test]
fn ram_parse_ignores_extra_fields() {
    let p = ram_parse("7\t3\tTrueDualPort  \t2048\t16\tignored\t99");
    assert_eq!((p.circuit_id, p.ram_id, p.depth, p.width), (7, 3, 2048, 16));
}

#[test]
fn ram_parse_checked_rejects_bad_lines() {
    assert!(ram_parse_checked("1\t2\tROM\t64\t8").is_none());
    assert!(ram_parse_checked("1\t2\tSimpleDualPort\t64").is_none());
    assert!(ram_parse_checked("1 2 SimpleDualPort 64 8").is_none());
    assert!(ram_parse_checked("1\t2\tSimpleDualPort\t64\t-8").is_none());
    assert!(ram_parse_checked("1\t\tSimpleDualPort\t64\t8").is_none());
    assert!(ram_parse_checked("").is_none());
}

#[test]
fn lb_parse_reads_circuit() {
    let c = lb_parse("3\t1200");
    assert_eq!(c.id, 3);
    assert_eq!(c.logic_lb_usage, 1200);
    assert!(c.ram_mappings.is_empty());
    let c = lb_parse("4\t5\tmore");
    assert_eq!((c.id, c.logic_lb_usage), (4, 5));
}

#[test]
fn lb_parse_checked_rejects_bad_lines() {
    assert!(lb_parse_checked("3").is_none());
    assert!(lb_parse_checked("3\tx").is_none());
    assert!(lb_parse_checked("\t5").is_none());
}
