//! The result file: one line per mapped RAM.
use vstd::prelude::*;
use crate::decimal::{decimal_text, digit_char, push_decimal};
use crate::parse::mode_named;
use crate::ram::{RamMapping, RamMode, RamType, LB_N};

verus! {

/// The number that the result file gives a block type.
pub open spec fn type_number(t: RamType) -> nat {
    match t {
        RamType::LUTRAM => 1,
        RamType::RAM8K => 2,
        RamType::RAM128K => 3,
    }
}

/// The name that the result file gives a mode.
pub open spec fn mode_name(mode: RamMode) -> Seq<char> {
    match mode {
        RamMode::ROM => "ROM"@,
        RamMode::SinglePort => "SinglePort"@,
        RamMode::SimpleDualPort => "SimpleDualPort"@,
        RamMode::TrueDualPort => "TrueDualPort"@,
    }
}

/// The line of the result file for RAM `m` of circuit `circuit_id`: circuit,
/// RAM, extra lookup tables, logical width and depth, RAM again, serial and
/// parallel blocks, block type, mode, and the configured width and depth.
pub open spec fn mapping_line_text(circuit_id: u32, m: RamMapping) -> Seq<char> {
    decimal_text(circuit_id as nat) + " "@ + decimal_text(m.id as nat) + " "@ + decimal_text(
        (m.lb_usage * LB_N) as nat,
    ) + " LW "@ + decimal_text(m.logical_width as nat) + " LD "@ + decimal_text(
        m.logical_depth as nat,
    ) + " ID "@ + decimal_text(m.id as nat) + " S "@ + decimal_text(m.serial as nat) + " P "@
        + decimal_text(m.parrallel as nat) + " Type "@ + decimal_text(type_number(m.ram_type))
        + " Mode "@ + mode_name(m.mode) + " W "@ + decimal_text(m.actual_width as nat) + " D "@
        + decimal_text(m.actual_depth as nat) + "\n"@
}

/// The line of the result file for RAM `ram` of circuit `circuit_id`.
pub fn mapping_line(circuit_id: u32, ram: &RamMapping) -> (line: String)
    requires
        ram.lb_usage * LB_N <= u32::MAX,
    ensures
        line@ == mapping_line_text(circuit_id, *ram),
{
    let mut line = String::new();
    push_decimal(&mut line, circuit_id as u64);
    line.append(" ");
    push_decimal(&mut line, ram.id as u64);
    line.append(" ");
    push_decimal(&mut line, (ram.lb_usage * LB_N) as u64);
    line.append(" LW ");
    push_decimal(&mut line, ram.logical_width as u64);
    line.append(" LD ");
    push_decimal(&mut line, ram.logical_depth as u64);
    line.append(" ID ");
    push_decimal(&mut line, ram.id as u64);
    line.append(" S ");
    push_decimal(&mut line, ram.serial as u64);
    line.append(" P ");
    push_decimal(&mut line, ram.parrallel as u64);
    line.append(" Type ");
    let type_number: u64 = match ram.ram_type {
        RamType::LUTRAM => 1,
        RamType::RAM8K => 2,
        RamType::RAM128K => 3,
    };
    push_decimal(&mut line, type_number);
    line.append(" Mode ");
    match ram.mode {
        RamMode::ROM => line.append("ROM"),
        RamMode::SinglePort => line.append("SinglePort"),
        RamMode::SimpleDualPort => line.append("SimpleDualPort"),
        RamMode::TrueDualPort => line.append("TrueDualPort"),
    }
    line.append(" W ");
    push_decimal(&mut line, ram.actual_width as u64);
    line.append(" D ");
    push_decimal(&mut line, ram.actual_depth as u64);
    line.append("\n");
    assert(line@ =~= mapping_line_text(circuit_id, *ram));
    line
}

/// The names of the modes, letter by letter.
pub proof fn lemma_mode_names()
    ensures
        mode_name(RamMode::ROM) == seq!['R', 'O', 'M'],
        mode_name(RamMode::SinglePort) == seq!['S', 'i', 'n', 'g', 'l', 'e', 'P', 'o', 'r', 't'],
        mode_name(RamMode::SimpleDualPort) == seq![
            'S', 'i', 'm', 'p', 'l', 'e', 'D', 'u', 'a', 'l', 'P', 'o', 'r', 't'
        ],
        mode_name(RamMode::TrueDualPort) == seq![
            'T', 'r', 'u', 'e', 'D', 'u', 'a', 'l', 'P', 'o', 'r', 't'
        ],
{
    reveal_strlit("ROM");
    reveal_strlit("SinglePort");
    reveal_strlit("SimpleDualPort");
    reveal_strlit("TrueDualPort");
    assert(mode_name(RamMode::ROM) =~= seq!['R', 'O', 'M']);
    assert(mode_name(RamMode::SinglePort) =~= seq!['S', 'i', 'n', 'g', 'l', 'e', 'P', 'o', 'r', 't']);
    assert(mode_name(RamMode::SimpleDualPort) =~= seq![
        'S', 'i', 'm', 'p', 'l', 'e', 'D', 'u', 'a', 'l', 'P', 'o', 'r', 't'
    ]);
    assert(mode_name(RamMode::TrueDualPort) =~= seq![
        'T', 'r', 'u', 'e', 'D', 'u', 'a', 'l', 'P', 'o', 'r', 't'
    ]);
}

/// `s` followed by blanks up to 14 characters.
pub open spec fn padded(s: Seq<char>) -> Seq<char> {
    s + Seq::new((14 - s.len()) as nat, |i: int| ' ')
}

/// Each mode has its own name in the result file, and that name, padded with
/// blanks to 14 characters, is how the RAM file names the same mode.
pub proof fn lemma_mode_name_round_trip(m1: RamMode, m2: RamMode)
    ensures
        mode_name(m1) == mode_name(m2) ==> m1 == m2,
        mode_name(m1).len() <= 14,
        mode_named(padded(mode_name(m1))) == Some(m1),
{
    lemma_mode_names();
    reveal_strlit("ROM           ");
    reveal_strlit("SinglePort    ");
    reveal_strlit("SimpleDualPort");
    reveal_strlit("TrueDualPort  ");
    assert(padded(mode_name(RamMode::ROM)) =~= "ROM           "@);
    assert(padded(mode_name(RamMode::SinglePort)) =~= "SinglePort    "@);
    assert(padded(mode_name(RamMode::SimpleDualPort)) =~= "SimpleDualPort"@);
    assert(padded(mode_name(RamMode::TrueDualPort)) =~= "TrueDualPort  "@);
    let rom = "ROM           "@;
    let single = "SinglePort    "@;
    let simple = "SimpleDualPort"@;
    assert(rom[0] == 'R' && single[0] == 'S' && simple[0] == 'S' && single[2] == 'n' && simple[2]
        == 'm');
    match m1 {
        RamMode::ROM => {},
        RamMode::SinglePort => {
            assert(padded(mode_name(m1))[0] != rom[0]);
        },
        RamMode::SimpleDualPort => {
            assert(padded(mode_name(m1))[0] != rom[0]);
            assert(padded(mode_name(m1))[2] != single[2]);
        },
        RamMode::TrueDualPort => {
            assert(padded(mode_name(m1))[0] != rom[0]);
            assert(padded(mode_name(m1))[0] != single[0]);
            assert(padded(mode_name(m1))[0] != simple[0]);
        },
    }
    assert(mode_name(RamMode::ROM) != mode_name(RamMode::SinglePort));
    assert(mode_name(RamMode::SinglePort)[2] != mode_name(RamMode::SimpleDualPort)[2]);
    assert(mode_name(RamMode::SinglePort).len() != mode_name(RamMode::TrueDualPort).len());
    assert(mode_name(RamMode::SimpleDualPort).len() != mode_name(RamMode::TrueDualPort).len());
    assert(mode_name(RamMode::ROM).len() != mode_name(RamMode::TrueDualPort).len());
    assert(mode_name(RamMode::ROM).len() != mode_name(RamMode::SimpleDualPort).len());
}

/// `middle` with `before` in front of it and `after` behind it.
pub open spec fn enclosed(before: Seq<char>, middle: Seq<char>, after: Seq<char>) -> Seq<char> {
    before + middle + after
}

/// The digit that stands for a block type: 1 for LUTRAM, 2 for 8K, 3 for 128K.
pub open spec fn type_digit(t: RamType) -> char {
    match t {
        RamType::LUTRAM => '1',
        RamType::RAM8K => '2',
        RamType::RAM128K => '3',
    }
}

/// The block type's digit and the mode's name as a line gives them.
pub open spec fn type_and_mode(m: RamMapping) -> Seq<char> {
    " Type "@ + seq![type_digit(m.ram_type)] + " Mode "@ + mode_name(m.mode) + " W "@
}

/// A result line gives the block type as 1 for LUTRAM, 2 for 8K and 3 for
/// 128K, and the mode by its own name, between " Type " and " Mode " and
/// between " Mode " and " W ".
pub proof fn lemma_line_names_type_and_mode(circuit_id: u32, m: RamMapping)
    ensures
        exists|a: Seq<char>, b: Seq<char>|
            mapping_line_text(circuit_id, m) == #[trigger] enclosed(a, type_and_mode(m), b),
{
    let a = decimal_text(circuit_id as nat) + " "@ + decimal_text(m.id as nat) + " "@
        + decimal_text((m.lb_usage * LB_N) as nat) + " LW "@ + decimal_text(m.logical_width as nat)
        + " LD "@ + decimal_text(m.logical_depth as nat) + " ID "@ + decimal_text(m.id as nat)
        + " S "@ + decimal_text(m.serial as nat) + " P "@ + decimal_text(m.parrallel as nat);
    let b = decimal_text(m.actual_width as nat) + " D "@ + decimal_text(m.actual_depth as nat)
        + "\n"@;
    let d = seq![type_digit(m.ram_type)];
    assert(decimal_text(type_number(m.ram_type)) == d) by {
        assert(digit_char(type_number(m.ram_type)) as int == '0' as int + type_number(m.ram_type));
    }
    assert(type_and_mode(m) =~= " Type "@ + d + " Mode "@ + mode_name(m.mode) + " W "@);
    assert(mapping_line_text(circuit_id, m) =~= enclosed(a, type_and_mode(m), b));
}

} // verus!
