//! Keeping a circuit's block RAM within what its logic blocks allow: the
//! RAMs are taken smallest first, and one at a time is moved to another block
//! type until LUTRAM, 8K and 128K use all keep their ratios.
use vstd::prelude::*;
use vstd::arithmetic::div_mod::lemma_div_denominator;
use crate::mapping::{can_map, map_ram, mapped, mapping_fits};
use crate::ram::{Circuit, ParsedRam, RamMapping, RamMode, RamType, LB_PER_128K, LB_PER_8K};
use crate::sorting::{capacity, lemma_sorted_by_capacity, sort_by_capacity, sorted_by_capacity};

verus! {

// ---------------------------------------------------------------------------
// Totals over a circuit's RAMs

/// What is totalled over a circuit's RAMs.
pub enum Tally {
    /// The logic blocks that the mappings cost.
    Logic,
    /// The physical blocks of one type.
    Blocks(RamType),
    /// The 128K mappings that could be moved to LUTRAM.
    Movable128k,
}

/// A RAM that LUTRAM can hold: not true dual port, and fewer than 17 x 64 words.
pub open spec fn lutram_candidate(m: RamMapping) -> bool {
    m.mode != RamMode::TrueDualPort && m.logical_depth / 64 < 17
}

/// The physical blocks that a mapping uses.
pub open spec fn blocks(m: RamMapping) -> nat {
    (m.parrallel as nat) * (m.serial as nat)
}

/// What one mapping adds to a tally.
pub open spec fn tally_of(m: RamMapping, what: Tally) -> nat {
    match what {
        Tally::Logic => m.lb_usage as nat,
        Tally::Blocks(t) => if m.ram_type == t {
            blocks(m)
        } else {
            0
        },
        Tally::Movable128k => if m.ram_type == RamType::RAM128K && lutram_candidate(m) {
            1
        } else {
            0
        },
    }
}

/// The tally over all of `rams`.
pub open spec fn total(rams: Seq<RamMapping>, what: Tally) -> nat
    decreases rams.len(),
{
    if rams.len() == 0 {
        0
    } else {
        total(rams.drop_last(), what) + tally_of(rams.last(), what)
    }
}

/// The logic blocks of a circuit: its logic and its RAMs' mappings.
pub open spec fn logic_blocks(logic: nat, rams: Seq<RamMapping>) -> nat {
    logic + total(rams, Tally::Logic)
}

proof fn lemma_total_prefix(rams: Seq<RamMapping>, what: Tally, i: int)
    requires
        0 <= i <= rams.len(),
    ensures
        total(rams.take(i), what) <= total(rams, what),
    decreases rams.len() - i,
{
    if i < rams.len() {
        lemma_total_prefix(rams, what, i + 1);
        assert(rams.take(i + 1).drop_last() =~= rams.take(i));
    } else {
        assert(rams.take(i) =~= rams);
    }
}

proof fn lemma_total_update(rams: Seq<RamMapping>, what: Tally, i: int, m: RamMapping)
    requires
        0 <= i < rams.len(),
    ensures
        total(rams.update(i, m), what) + tally_of(rams[i], what) == total(rams, what) + tally_of(
            m,
            what,
        ),
    decreases rams.len(),
{
    let u = rams.update(i, m);
    if i == rams.len() - 1 {
        assert(u.drop_last() =~= rams.drop_last());
    } else {
        lemma_total_update(rams.drop_last(), what, i, m);
        assert(u.drop_last() =~= rams.drop_last().update(i, m));
    }
}

proof fn lemma_total_positive(rams: Seq<RamMapping>, what: Tally)
    requires
        total(rams, what) > 0,
    ensures
        exists|i: int| 0 <= i < rams.len() && tally_of(#[trigger] rams[i], what) > 0,
    decreases rams.len(),
{
    if tally_of(rams.last(), what) == 0 {
        lemma_total_positive(rams.drop_last(), what);
        let i = choose|i: int|
            0 <= i < rams.drop_last().len() && tally_of(#[trigger] rams.drop_last()[i], what) > 0;
        assert(rams[i] == rams.drop_last()[i]);
    } else {
        assert(rams[rams.len() - 1] == rams.last());
    }
}

// ---------------------------------------------------------------------------
// Which RAM moves

/// The RAMs that a move looks for.
#[derive(Clone, Copy)]
pub enum Pick {
    /// Any LUTRAM mapping.
    Lutram,
    /// Any 8K mapping.
    Ram8k,
    /// Any 128K mapping.
    Ram128k,
    /// An 8K mapping that LUTRAM can hold.
    Ram8kForLutram,
    /// A 128K mapping that LUTRAM can hold.
    Ram128kForLutram,
}

/// `m` is one of the RAMs that `pick` looks for.
pub open spec fn picks(pick: Pick, m: RamMapping) -> bool {
    match pick {
        Pick::Lutram => m.ram_type == RamType::LUTRAM,
        Pick::Ram8k => m.ram_type == RamType::RAM8K,
        Pick::Ram128k => m.ram_type == RamType::RAM128K,
        Pick::Ram8kForLutram => m.ram_type == RamType::RAM8K && lutram_candidate(m),
        Pick::Ram128kForLutram => m.ram_type == RamType::RAM128K && lutram_candidate(m),
    }
}

/// The first of `rams` that `pick` looks for.
pub open spec fn first_pick(rams: Seq<RamMapping>, pick: Pick) -> Option<int>
    decreases rams.len(),
{
    if rams.len() == 0 {
        None
    } else {
        match first_pick(rams.drop_last(), pick) {
            Some(i) => Some(i),
            None => if picks(pick, rams.last()) {
                Some(rams.len() - 1)
            } else {
                None
            },
        }
    }
}

proof fn lemma_first_pick(rams: Seq<RamMapping>, pick: Pick)
    ensures
        match first_pick(rams, pick) {
            Some(i) => 0 <= i < rams.len() && picks(pick, rams[i]) && forall|k: int|
                0 <= k < i ==> !picks(pick, #[trigger] rams[k]),
            None => forall|k: int| 0 <= k < rams.len() ==> !picks(pick, #[trigger] rams[k]),
        },
    decreases rams.len(),
{
    if rams.len() > 0 {
        let init = rams.drop_last();
        lemma_first_pick(init, pick);
        assert forall|k: int| 0 <= k < init.len() implies init[k] == rams[k] by {}
        assert(rams[rams.len() - 1] == rams.last());
    }
}

/// The index of the first of `rams` that `pick` looks for.
fn find_first(rams: &Vec<RamMapping>, pick: Pick) -> (r: Option<usize>)
    ensures
        r matches Some(i) ==> first_pick(rams@, pick) == Some(i as int),
        r is None ==> first_pick(rams@, pick) is None,
{
    let mut i: usize = 0;
    while i < rams.len()
        invariant
            i <= rams@.len(),
            first_pick(rams@.take(i as int), pick) is None,
        decreases rams.len() - i,
    {
        let m = rams[i];
        let found = match pick {
            Pick::Lutram => m.ram_type == RamType::LUTRAM,
            Pick::Ram8k => m.ram_type == RamType::RAM8K,
            Pick::Ram128k => m.ram_type == RamType::RAM128K,
            Pick::Ram8kForLutram => m.ram_type == RamType::RAM8K && m.mode != RamMode::TrueDualPort
                && m.logical_depth / 64 < 17,
            Pick::Ram128kForLutram => m.ram_type == RamType::RAM128K && m.mode
                != RamMode::TrueDualPort && m.logical_depth / 64 < 17,
        };
        assert(rams@.take(i + 1).drop_last() =~= rams@.take(i as int));
        if found {
            proof {
                lemma_first_pick(rams@.take(i + 1), pick);
                lemma_first_pick_prefix(rams@, pick, i + 1);
            }
            return Some(i);
        }
        i = i + 1;
    }
    assert(rams@.take(i as int) =~= rams@);
    None
}

/// Once a prefix holds what `pick` looks for, the whole sequence finds it there.
proof fn lemma_first_pick_prefix(rams: Seq<RamMapping>, pick: Pick, n: int)
    requires
        0 <= n <= rams.len(),
        first_pick(rams.take(n), pick) is Some,
    ensures
        first_pick(rams, pick) == first_pick(rams.take(n), pick),
    decreases rams.len() - n,
{
    if n < rams.len() {
        assert(rams.take(n + 1).drop_last() =~= rams.take(n));
        lemma_first_pick_prefix(rams, pick, n + 1);
    } else {
        assert(rams.take(n) =~= rams);
    }
}

// ---------------------------------------------------------------------------
// The LUTRAM that the logic blocks allow

/// The spacing of the `f32` values around `x`: 1 below 2^24, and twice as
/// wide for every further bit.
pub open spec fn f32_spacing(x: nat) -> nat
    decreases x,
{
    if x < 0x100_0000 {
        1
    } else {
        2 * f32_spacing(x / 2)
    }
}

/// `x` rounded to the nearest `f32` value, ties to the even one, as the
/// conversion `x as f32` rounds.
pub open spec fn f32_rounded(x: nat) -> nat {
    let u = f32_spacing(x);
    let q = x / u;
    let r = x % u;
    if 2 * r < u || (2 * r == u && q % 2 == 0) {
        q * u
    } else {
        (q + 1) * u
    }
}

/// The LUTRAM blocks that `lbu` logic blocks allow: half of them, computed
/// as `(lbu as f32 * 0.5) as u32`.
pub open spec fn lutram_budget(lbu: nat) -> nat {
    f32_rounded(lbu) / 2
}

/// `lutram_budget` of a `u32`.
pub fn lutram_budget_exec(lbu: u32) -> (b: u32)
    ensures
        b == lutram_budget(lbu as nat),
{
    let x = lbu as u64;
    let mut u: u64 = 1;
    let mut y: u64 = x;
    while y >= 0x100_0000
        invariant
            1 <= u <= 512,
            u * y <= x,
            x <= u32::MAX,
            y == x / u,
            f32_spacing(x as nat) == u * f32_spacing(y as nat),
        decreases y,
    {
        assert(u * 0x100_0000 <= x) by (nonlinear_arith)
            requires
                u * y <= x,
                y >= 0x100_0000,
        ;
        proof {
            lemma_div_denominator(x as int, u as int, 2);
            assert(f32_spacing(y as nat) == 2 * f32_spacing((y / 2) as nat));
            assert(u * f32_spacing(y as nat) == (u * 2) * f32_spacing((y / 2) as nat))
                by (nonlinear_arith)
                requires
                    f32_spacing(y as nat) == 2 * f32_spacing((y / 2) as nat),
            ;
            assert((u * 2) * (y / 2) <= u * y) by (nonlinear_arith)
                requires
                    u >= 1,
            ;
        }
        y = y / 2;
        u = u * 2;
    }
    assert(f32_spacing(y as nat) == 1);
    let q = x / u;
    let r = x % u;
    assert(q * u <= x) by (nonlinear_arith)
        requires
            q == x / u,
            u >= 1,
    ;
    let rounded = if 2 * r < u || (2 * r == u && q % 2 == 0) {
        q * u
    } else {
        q * u + u
    };
    assert(q * u + u == (q + 1) * u) by (nonlinear_arith);
    assert(f32_spacing(x as nat) == u) by (nonlinear_arith)
        requires
            f32_spacing(x as nat) == u * f32_spacing(y as nat),
            f32_spacing(y as nat) == 1,
    ;
    assert(rounded == f32_rounded(x as nat));
    assert(rounded / 2 <= u32::MAX);
    (rounded / 2) as u32
}

// ---------------------------------------------------------------------------
// One legality check

/// How many legality checks may fail in a row before a 128K RAM is moved to
/// LUTRAM, or, when none can be, the circuit's logic is charged more blocks.
pub const PATIENCE: u32 = 10000;

/// The logic blocks charged to a circuit whose RAMs cannot be balanced.
pub const EXTRA_LOGIC: u32 = 100;

/// Why a circuit's RAMs could not be balanced.
#[derive(Debug, Clone, Copy, PartialEq, Eq, Structural)]
pub enum LegalityError {
    /// The RAM at `index` was to be moved to `target` blocks, and the search
    /// for that mapping never ends.
    Unmappable { index: usize, target: RamType },
    /// A total of logic blocks or of physical blocks exceeds a `u32`.
    Overflow,
}

/// The state of the balancing of one circuit.
pub struct Pass {
    pub id: u32,
    pub rams: Seq<RamMapping>,
    pub logic: nat,
    /// The legality checks that failed in a row.
    pub count: nat,
}

/// What one legality check does.
pub enum Step {
    /// The circuit keeps all ratios: balancing ends.
    Legal,
    /// A RAM was moved, or logic charged: check again.
    Next(Pass),
    /// Balancing cannot go on.
    Stuck(LegalityError),
}

/// The logical RAM behind mapping `m` of circuit `id`.
pub open spec fn ram_of(id: u32, m: RamMapping) -> ParsedRam {
    ParsedRam {
        circuit_id: id,
        ram_id: m.id,
        mode: m.mode,
        depth: m.logical_depth,
        width: m.logical_width,
    }
}

/// Moving the RAM at `i` to blocks of type `t`.
pub open spec fn move_ram(p: Pass, i: int, t: RamType, count: nat) -> Step {
    let ram = ram_of(p.id, p.rams[i]);
    if can_map(ram, t) {
        Step::Next(
            Pass { id: p.id, rams: p.rams.update(i, mapped(ram, t)), logic: p.logic, count: count },
        )
    } else {
        Step::Stuck(LegalityError::Unmappable { index: i as usize, target: t })
    }
}

/// One legality check. After `PATIENCE` failed checks the smallest 128K RAM
/// that LUTRAM can hold moves there (or the logic is charged `EXTRA_LOGIC`
/// blocks). Otherwise the totals are compared with what the logic blocks
/// allow, in turn: too much LUTRAM moves the smallest LUTRAM to 8K; too much
/// 8K moves the smallest 8K that LUTRAM can hold there, or else the smallest
/// 8K to 128K; too much 128K moves the smallest 128K to 8K.
#[verifier::opaque]
pub open spec fn check_step(p: Pass) -> Step {
    let count = p.count + 1;
    if count > PATIENCE {
        match first_pick(p.rams, Pick::Ram128kForLutram) {
            Some(i) => move_ram(p, i, RamType::LUTRAM, 0),
            None => if p.logic + EXTRA_LOGIC > u32::MAX {
                Step::Stuck(LegalityError::Overflow)
            } else {
                Step::Next(Pass { id: p.id, rams: p.rams, logic: p.logic + (EXTRA_LOGIC as nat), count: 0 })
            },
        }
    } else {
        let lbu = logic_blocks(p.logic, p.rams);
        let lutram = total(p.rams, Tally::Blocks(RamType::LUTRAM));
        let ram_8k = total(p.rams, Tally::Blocks(RamType::RAM8K));
        let ram_128k = total(p.rams, Tally::Blocks(RamType::RAM128K));
        if lbu > u32::MAX || lutram > u32::MAX || ram_8k > u32::MAX || ram_128k > u32::MAX {
            Step::Stuck(LegalityError::Overflow)
        } else if lutram > lutram_budget(lbu) {
            move_ram(p, first_pick(p.rams, Pick::Lutram)->0, RamType::RAM8K, count)
        } else if ram_8k > lbu / (LB_PER_8K as nat) {
            match first_pick(p.rams, Pick::Ram8kForLutram) {
                Some(i) => move_ram(p, i, RamType::LUTRAM, count),
                None => move_ram(p, first_pick(p.rams, Pick::Ram8k)->0, RamType::RAM128K, count),
            }
        } else if ram_128k > lbu / (LB_PER_128K as nat) {
            move_ram(p, first_pick(p.rams, Pick::Ram128k)->0, RamType::RAM8K, count)
        } else {
            Step::Legal
        }
    }
}

/// The totals of a circuit, or `None` when one of them exceeds a `u32`:
/// (logic blocks, LUTRAM, 8K, 128K).
fn tally_exec(rams: &Vec<RamMapping>, logic: u32) -> (r: Option<(u32, u32, u32, u32)>)
    ensures
        r is None <==> (logic_blocks(logic as nat, rams@) > u32::MAX || total(
            rams@,
            Tally::Blocks(RamType::LUTRAM),
        ) > u32::MAX || total(rams@, Tally::Blocks(RamType::RAM8K)) > u32::MAX || total(
            rams@,
            Tally::Blocks(RamType::RAM128K),
        ) > u32::MAX),
        r matches Some(v) ==> {
            &&& v.0 == logic_blocks(logic as nat, rams@)
            &&& v.1 == total(rams@, Tally::Blocks(RamType::LUTRAM))
            &&& v.2 == total(rams@, Tally::Blocks(RamType::RAM8K))
            &&& v.3 == total(rams@, Tally::Blocks(RamType::RAM128K))
        },
{
    let mut lbu: u64 = logic as u64;
    let mut lutram: u64 = 0;
    let mut ram_8k: u64 = 0;
    let mut ram_128k: u64 = 0;
    let mut i: usize = 0;
    while i < rams.len()
        invariant
            i <= rams@.len(),
            lbu == logic + total(rams@.take(i as int), Tally::Logic),
            lutram == total(rams@.take(i as int), Tally::Blocks(RamType::LUTRAM)),
            ram_8k == total(rams@.take(i as int), Tally::Blocks(RamType::RAM8K)),
            ram_128k == total(rams@.take(i as int), Tally::Blocks(RamType::RAM128K)),
            lbu <= u32::MAX,
            lutram <= u32::MAX,
            ram_8k <= u32::MAX,
            ram_128k <= u32::MAX,
        decreases rams.len() - i,
    {
        let m = rams[i];
        assert(rams@.take(i + 1).drop_last() =~= rams@.take(i as int));
        assert((m.parrallel as u64) * (m.serial as u64) <= 0xffff_ffffu64 * 0xffff_ffffu64)
            by (nonlinear_arith);
        assert(0xffff_ffffu64 * 0xffff_ffffu64 + 0xffff_ffffu64 < 0xffff_ffff_ffff_ffffu64);
        let b = (m.parrallel as u64) * (m.serial as u64);
        lbu = lbu + m.lb_usage as u64;
        match m.ram_type {
            RamType::LUTRAM => lutram = lutram + b,
            RamType::RAM8K => ram_8k = ram_8k + b,
            RamType::RAM128K => ram_128k = ram_128k + b,
        }
        i = i + 1;
        if lbu > u32::MAX as u64 || lutram > u32::MAX as u64 || ram_8k > u32::MAX as u64
            || ram_128k > u32::MAX as u64 {
            proof {
                lemma_total_prefix(rams@, Tally::Logic, i as int);
                lemma_total_prefix(rams@, Tally::Blocks(RamType::LUTRAM), i as int);
                lemma_total_prefix(rams@, Tally::Blocks(RamType::RAM8K), i as int);
                lemma_total_prefix(rams@, Tally::Blocks(RamType::RAM128K), i as int);
            }
            return None;
        }
    }
    assert(rams@.take(i as int) =~= rams@);
    Some((lbu as u32, lutram as u32, ram_8k as u32, ram_128k as u32))
}

/// Moves the RAM at `i` of circuit `id` to blocks of type `t`, when its
/// mapping there is defined; reports whether it was.
fn move_exec(id: u32, rams: &mut Vec<RamMapping>, i: usize, t: RamType) -> (ok: bool)
    requires
        i < old(rams)@.len(),
    ensures
        ok == can_map(ram_of(id, old(rams)@[i as int]), t),
        ok ==> final(rams)@ == old(rams)@.update(i as int, mapped(ram_of(id, old(rams)@[i as int]), t)),
        !ok ==> final(rams)@ == old(rams)@,
{
    let m = rams[i];
    let ram = ParsedRam {
        circuit_id: id,
        ram_id: m.id,
        mode: m.mode,
        depth: m.logical_depth,
        width: m.logical_width,
    };
    if !mapping_fits(&ram, t) {
        return false;
    }
    let remap = map_ram(&ram, t);
    rams[i] = remap;
    true
}

/// What one legality check did.
enum Progress {
    Legal,
    Moved,
    Stuck(LegalityError),
}

/// The legality check as `check_step` describes it.
fn check_step_exec(circuit: &mut Circuit, count: &mut u32) -> (r: Progress)
    requires
        *old(count) <= PATIENCE,
    ensures
        final(circuit).id == old(circuit).id,
        match check_step(
            Pass {
                id: old(circuit).id,
                rams: old(circuit).ram_mappings@,
                logic: old(circuit).logic_lb_usage as nat,
                count: *old(count) as nat,
            },
        ) {
            Step::Legal => r is Legal && final(circuit).ram_mappings@ == old(circuit).ram_mappings@
                && final(circuit).logic_lb_usage == old(circuit).logic_lb_usage,
            Step::Next(q) => r is Moved && final(circuit).ram_mappings@ == q.rams
                && final(circuit).logic_lb_usage == q.logic && *final(count) == q.count,
            Step::Stuck(e) => r == Progress::Stuck(e) && final(circuit).ram_mappings@ == old(
                circuit,
            ).ram_mappings@ && final(circuit).logic_lb_usage == old(circuit).logic_lb_usage,
        },
{
    reveal(check_step);
    let id = circuit.id;
    let rams = &mut circuit.ram_mappings;
    let logic = &mut circuit.logic_lb_usage;
    *count = *count + 1;
    if *count > PATIENCE {
        *count = 0;
        match find_first(rams, Pick::Ram128kForLutram) {
            Some(i) => {
                proof { lemma_first_pick(rams@, Pick::Ram128kForLutram); }
                if move_exec(id, rams, i, RamType::LUTRAM) {
                    return Progress::Moved;
                } else {
                    return Progress::Stuck(
                        LegalityError::Unmappable { index: i, target: RamType::LUTRAM },
                    );
                }
            },
            None => {
                if *logic > u32::MAX - EXTRA_LOGIC {
                    return Progress::Stuck(LegalityError::Overflow);
                }
                *logic = *logic + EXTRA_LOGIC;
                return Progress::Moved;
            },
        }
    }
    let (lbu, lutram, ram_8k, ram_128k) = match tally_exec(rams, *logic) {
        Some(v) => v,
        None => {
            return Progress::Stuck(LegalityError::Overflow);
        },
    };
    if lutram > lutram_budget_exec(lbu) {
        // Move the smallest LUTRAM to 8K.
        proof {
            lemma_total_positive(rams@, Tally::Blocks(RamType::LUTRAM));
            lemma_first_pick(rams@, Pick::Lutram);
        }
        let i = find_first(rams, Pick::Lutram).unwrap();
        if move_exec(id, rams, i, RamType::RAM8K) {
            return Progress::Moved;
        } else {
            return Progress::Stuck(LegalityError::Unmappable { index: i, target: RamType::RAM8K });
        }
    }
    if ram_8k > lbu / LB_PER_8K {
        // Move the smallest 8K that LUTRAM can hold there, or else the smallest 8K to 128K.
        let (i, target) = match find_first(rams, Pick::Ram8kForLutram) {
            Some(i) => (i, RamType::LUTRAM),
            None => {
                proof {
                    lemma_total_positive(rams@, Tally::Blocks(RamType::RAM8K));
                    lemma_first_pick(rams@, Pick::Ram8k);
                }
                (find_first(rams, Pick::Ram8k).unwrap(), RamType::RAM128K)
            },
        };
        proof {
            lemma_first_pick(rams@, Pick::Ram8kForLutram);
            lemma_first_pick(rams@, Pick::Ram8k);
        }
        if move_exec(id, rams, i, target) {
            return Progress::Moved;
        } else {
            return Progress::Stuck(LegalityError::Unmappable { index: i, target });
        }
    }
    if ram_128k > lbu / LB_PER_128K {
        // Move the smallest 128K to 8K.
        proof {
            lemma_total_positive(rams@, Tally::Blocks(RamType::RAM128K));
            lemma_first_pick(rams@, Pick::Ram128k);
        }
        let i = find_first(rams, Pick::Ram128k).unwrap();
        if move_exec(id, rams, i, RamType::RAM8K) {
            return Progress::Moved;
        } else {
            return Progress::Stuck(LegalityError::Unmappable { index: i, target: RamType::RAM8K });
        }
    }
    Progress::Legal
}

// ---------------------------------------------------------------------------
// Balancing a circuit

/// Where balancing stands after some checks.
pub enum Run {
    /// Still checking, in this state.
    Running(Pass),
    /// The circuit in this state keeps all ratios.
    Done(Pass),
    /// Balancing stopped in this state for this reason.
    Stuck(LegalityError, Pass),
}

/// Balancing from `p` for at most `checks` legality checks.
pub open spec fn run(p: Pass, checks: nat) -> Run
    decreases checks,
{
    if checks == 0 {
        Run::Running(p)
    } else {
        match check_step(p) {
            Step::Legal => Run::Done(p),
            Step::Next(q) => run(q, (checks - 1) as nat),
            Step::Stuck(e) => Run::Stuck(e, p),
        }
    }
}

/// Where balancing of circuit `c` starts: its RAMs smallest first.
pub open spec fn start_pass(c: Circuit) -> Pass {
    Pass {
        id: c.id,
        rams: sorted_by_capacity(c.ram_mappings@),
        logic: c.logic_lb_usage as nat,
        count: 0,
    }
}

proof fn lemma_run_extend(p: Pass, k: nat)
    requires
        run(p, k) is Running,
    ensures
        ({
            let t = run(p, k)->Running_0;
            run(p, k + 1) == match check_step(t) {
                Step::Legal => Run::Done(t),
                Step::Next(q) => Run::Running(q),
                Step::Stuck(e) => Run::Stuck(e, t),
            }
        }),
    decreases k,
{
    if k > 0 {
        match check_step(p) {
            Step::Next(q) => {
                lemma_run_extend(q, (k - 1) as nat);
                assert(run(p, k) == run(q, (k - 1) as nat));
                assert(run(p, k + 1) == run(q, k));
                assert(((k - 1) as nat) + 1 == k);
            },
            _ => {},
        }
    } else {
        assert(run(p, 0) == Run::Running(p));
        if let Step::Next(q) = check_step(p) {
            assert(run(q, 0) == Run::Running(q));
        }
    }
}

/// A move changes one RAM; the RAMs that could move from 128K to LUTRAM do
/// not grow in number, and between two such moves the logic only grows.
proof fn lemma_step_progress(p: Pass)
    requires
        p.count <= PATIENCE,
        p.logic <= u32::MAX,
        check_step(p) is Next,
    ensures
        ({
            let q = check_step(p)->Next_0;
            &&& q.id == p.id
            &&& q.logic <= u32::MAX
            &&& q.count <= PATIENCE
            &&& {
                ||| total(q.rams, Tally::Movable128k) < total(p.rams, Tally::Movable128k)
                ||| total(q.rams, Tally::Movable128k) == total(p.rams, Tally::Movable128k)
                    && q.logic > p.logic
                ||| total(q.rams, Tally::Movable128k) == total(p.rams, Tally::Movable128k)
                    && q.logic == p.logic && q.count == p.count + 1
            }
        }),
{
    reveal(check_step);
    let q = check_step(p)->Next_0;
    let rams = p.rams;
    lemma_first_pick(rams, Pick::Ram128kForLutram);
    lemma_first_pick(rams, Pick::Lutram);
    lemma_first_pick(rams, Pick::Ram8k);
    lemma_first_pick(rams, Pick::Ram8kForLutram);
    lemma_first_pick(rams, Pick::Ram128k);
    if p.count + 1 > PATIENCE {
        if let Some(i) = first_pick(rams, Pick::Ram128kForLutram) {
            lemma_total_update(rams, Tally::Movable128k, i, q.rams[i]);
        }
    } else {
        let lbu = logic_blocks(p.logic, rams);
        let lutram = total(rams, Tally::Blocks(RamType::LUTRAM));
        let ram_8k = total(rams, Tally::Blocks(RamType::RAM8K));
        if lutram > lutram_budget(lbu) {
            lemma_total_positive(rams, Tally::Blocks(RamType::LUTRAM));
            let i = first_pick(rams, Pick::Lutram)->0;
            lemma_total_update(rams, Tally::Movable128k, i, q.rams[i]);
        } else if ram_8k > lbu / (LB_PER_8K as nat) {
            lemma_total_positive(rams, Tally::Blocks(RamType::RAM8K));
            let i = match first_pick(rams, Pick::Ram8kForLutram) {
                Some(i) => i,
                None => first_pick(rams, Pick::Ram8k)->0,
            };
            lemma_total_update(rams, Tally::Movable128k, i, q.rams[i]);
        } else {
            lemma_total_positive(rams, Tally::Blocks(RamType::RAM128K));
            let i = first_pick(rams, Pick::Ram128k)->0;
            lemma_total_update(rams, Tally::Movable128k, i, q.rams[i]);
        }
    }
}

/// Balances a circuit: sorts its RAMs smallest first, then runs legality
/// checks, moving one RAM (or charging logic) after each failed check, until
/// a check passes. `Err` when balancing cannot go on: a move whose mapping
/// search never ends, or a total that exceeds a `u32`.
pub fn legalize(circuit: &mut Circuit) -> (r: Result<(), LegalityError>)
    ensures
        final(circuit).id == old(circuit).id,
        r matches Ok(_) ==> exists|n: nat, p: Pass|
            #![trigger run(start_pass(*old(circuit)), n), p.rams]
            run(start_pass(*old(circuit)), n) == Run::Done(p) && p.rams
                == final(circuit).ram_mappings@ && p.logic == final(circuit).logic_lb_usage,
        r matches Err(e) ==> exists|n: nat, p: Pass|
            #![trigger run(start_pass(*old(circuit)), n), p.rams]
            run(start_pass(*old(circuit)), n) == Run::Stuck(e, p) && p.rams
                == final(circuit).ram_mappings@ && p.logic == final(circuit).logic_lb_usage,
{
    let ghost start = start_pass(*circuit);
    let id = circuit.id;
    sort_by_capacity(&mut circuit.ram_mappings);
    let mut count: u32 = 0;
    let ghost mut checks: nat = 0;
    loop
        invariant
            circuit.id == id,
            id == start.id,
            id == old(circuit).id,
            start == start_pass(*old(circuit)),
            count <= PATIENCE,
            run(start, checks) == Run::Running(
                Pass {
                    id: id,
                    rams: circuit.ram_mappings@,
                    logic: circuit.logic_lb_usage as nat,
                    count: count as nat,
                },
            ),
        decreases total(circuit.ram_mappings@, Tally::Movable128k), u32::MAX - circuit.logic_lb_usage, PATIENCE - count,
    {
        let ghost cur = Pass {
            id: id,
            rams: circuit.ram_mappings@,
            logic: circuit.logic_lb_usage as nat,
            count: count as nat,
        };
        let progress = check_step_exec(circuit, &mut count);
        proof {
            lemma_run_extend(start, checks);
        }
        match progress {
            Progress::Legal => {
                assert(run(start, checks + 1) == Run::Done(cur));
                assert(run(start_pass(*old(circuit)), checks + 1) == Run::Done(cur) && cur.rams
                    == circuit.ram_mappings@ && cur.logic == circuit.logic_lb_usage);
                return Ok(());
            },
            Progress::Moved => {
                proof {
                    lemma_step_progress(cur);
                    checks = checks + 1;
                }
            },
            Progress::Stuck(e) => {
                assert(run(start, checks + 1) == Run::Stuck(e, cur));
                assert(run(start_pass(*old(circuit)), checks + 1) == Run::Stuck(e, cur) && cur.rams
                    == circuit.ram_mappings@ && cur.logic == circuit.logic_lb_usage);
                return Err(e);
            },
        }
    }
}

// ---------------------------------------------------------------------------
// What balancing guarantees

/// The ratios that a balanced circuit keeps: LUTRAM at most what its logic
/// blocks allow, at most one 8K block RAM per `LB_PER_8K` logic blocks, and
/// at most one 128K block RAM per `LB_PER_128K` logic blocks.
pub open spec fn keeps_ratios(logic: nat, rams: Seq<RamMapping>) -> bool {
    let lbu = logic_blocks(logic, rams);
    &&& lbu <= u32::MAX
    &&& total(rams, Tally::Blocks(RamType::LUTRAM)) <= lutram_budget(lbu)
    &&& total(rams, Tally::Blocks(RamType::RAM8K)) <= lbu / (LB_PER_8K as nat)
    &&& total(rams, Tally::Blocks(RamType::RAM128K)) <= lbu / (LB_PER_128K as nat)
}

/// The state that balancing is in.
pub open spec fn state_of(r: Run) -> Pass {
    match r {
        Run::Running(p) => p,
        Run::Done(p) => p,
        Run::Stuck(_, p) => p,
    }
}

/// A balanced circuit keeps the ratios: whatever balancing ends with in
/// `Done` keeps them.
pub proof fn lemma_done_keeps_ratios(p: Pass, checks: nat)
    requires
        run(p, checks) is Done,
    ensures
        keeps_ratios(state_of(run(p, checks)).logic, state_of(run(p, checks)).rams),
    decreases checks,
{
    reveal(check_step);
    if let Step::Next(q) = check_step(p) {
        lemma_done_keeps_ratios(q, (checks - 1) as nat);
    }
}

/// Balancing has one outcome: two runs from the same state that both end,
/// end alike.
pub proof fn lemma_run_outcome_unique(p: Pass, n1: nat, n2: nat)
    requires
        !(run(p, n1) is Running),
        !(run(p, n2) is Running),
    ensures
        run(p, n1) == run(p, n2),
    decreases n1,
{
    if let Step::Next(q) = check_step(p) {
        lemma_run_outcome_unique(q, (n1 - 1) as nat, (n2 - 1) as nat);
    }
}

/// The RAM of `m` is the RAM of `before`, and `m` is `before` or its mapping
/// onto the block type it now uses.
pub open spec fn same_ram(id: u32, before: RamMapping, m: RamMapping) -> bool {
    &&& m.id == before.id
    &&& m.mode == before.mode
    &&& m.logical_depth == before.logical_depth
    &&& m.logical_width == before.logical_width
    &&& (m == before || m == mapped(ram_of(id, before), m.ram_type))
}

proof fn lemma_step_keeps_rams(p: Pass)
    requires
        check_step(p) is Next,
    ensures
        ({
            let q = check_step(p)->Next_0;
            &&& q.id == p.id
            &&& q.logic >= p.logic
            &&& q.rams.len() == p.rams.len()
            &&& forall|i: int| 0 <= i < p.rams.len() ==> same_ram(p.id, p.rams[i], #[trigger] q.rams[i])
        }),
{
    reveal(check_step);
    let q = check_step(p)->Next_0;
    let rams = p.rams;
    lemma_first_pick(rams, Pick::Ram128kForLutram);
    lemma_first_pick(rams, Pick::Lutram);
    lemma_first_pick(rams, Pick::Ram8k);
    lemma_first_pick(rams, Pick::Ram8kForLutram);
    lemma_first_pick(rams, Pick::Ram128k);
    if p.count + 1 <= PATIENCE {
        let lbu = logic_blocks(p.logic, rams);
        let lutram = total(rams, Tally::Blocks(RamType::LUTRAM));
        let ram_8k = total(rams, Tally::Blocks(RamType::RAM8K));
        if lutram > lutram_budget(lbu) {
            lemma_total_positive(rams, Tally::Blocks(RamType::LUTRAM));
        } else if ram_8k > lbu / (LB_PER_8K as nat) {
            lemma_total_positive(rams, Tally::Blocks(RamType::RAM8K));
        } else {
            lemma_total_positive(rams, Tally::Blocks(RamType::RAM128K));
        }
    }
}

/// Balancing keeps every RAM of the circuit in its place: the same RAMs in
/// the same order, each either as it was or mapped onto the block type it now
/// uses; the circuit's logic only grows.
pub proof fn lemma_run_keeps_rams(p: Pass, checks: nat)
    ensures
        ({
            let q = state_of(run(p, checks));
            &&& q.id == p.id
            &&& q.logic >= p.logic
            &&& q.rams.len() == p.rams.len()
            &&& forall|i: int| 0 <= i < p.rams.len() ==> same_ram(p.id, p.rams[i], #[trigger] q.rams[i])
        }),
    decreases checks,
{
    if checks > 0 {
        if let Step::Next(q) = check_step(p) {
            lemma_step_keeps_rams(p);
            lemma_run_keeps_rams(q, (checks - 1) as nat);
            let r = state_of(run(q, (checks - 1) as nat));
            assert forall|i: int| 0 <= i < p.rams.len() implies same_ram(
                p.id,
                p.rams[i],
                #[trigger] r.rams[i],
            ) by {
                assert(same_ram(p.id, p.rams[i], q.rams[i]));
                assert(same_ram(q.id, q.rams[i], r.rams[i]));
                assert(ram_of(q.id, q.rams[i]) == ram_of(p.id, p.rams[i]));
            }
        }
    }
}

/// Balancing keeps a circuit's RAMs ordered from the smallest to the largest
/// capacity, so the first RAM of a kind that a move takes is the smallest
/// RAM of that kind.
pub proof fn lemma_balancing_keeps_order(c: Circuit, checks: nat)
    ensures
        ({
            let rams = state_of(run(start_pass(c), checks)).rams;
            forall|i: int, j: int|
                0 <= i <= j < rams.len() ==> capacity(rams[i]) <= capacity(rams[j])
        }),
{
    let p = start_pass(c);
    lemma_sorted_by_capacity(c.ram_mappings@);
    lemma_run_keeps_rams(p, checks);
    let rams = state_of(run(p, checks)).rams;
    assert forall|i: int, j: int| 0 <= i <= j < rams.len() implies capacity(rams[i]) <= capacity(
        rams[j],
    ) by {
        assert(same_ram(p.id, p.rams[i], rams[i]));
        assert(same_ram(p.id, p.rams[j], rams[j]));
    }
}

/// Below 2^24 logic blocks the LUTRAM budget is exactly half of them,
/// rounded down.
pub proof fn lemma_lutram_budget_is_half(lbu: nat)
    requires
        lbu < 0x100_0000,
    ensures
        lutram_budget(lbu) == lbu / 2,
{
    assert(f32_spacing(lbu) == 1);
}

// ---------------------------------------------------------------------------
// What each legality check moves where

/// Nothing in a check's totals exceeds a `u32`.
pub open spec fn totals_fit(p: Pass) -> bool {
    &&& logic_blocks(p.logic, p.rams) <= u32::MAX
    &&& total(p.rams, Tally::Blocks(RamType::LUTRAM)) <= u32::MAX
    &&& total(p.rams, Tally::Blocks(RamType::RAM8K)) <= u32::MAX
    &&& total(p.rams, Tally::Blocks(RamType::RAM128K)) <= u32::MAX
}

/// The outcome of replacing the RAM at `i` by its mapping onto `t`, with `count`
/// failed checks: that state when the mapping is defined, else the error
/// that names `i` and `t`.
pub open spec fn replaced_by_mapping(p: Pass, i: int, t: RamType, count: nat) -> Step {
    let ram = ParsedRam {
        circuit_id: p.id,
        ram_id: p.rams[i].id,
        mode: p.rams[i].mode,
        depth: p.rams[i].logical_depth,
        width: p.rams[i].logical_width,
    };
    if can_map(ram, t) {
        Step::Next(Pass { id: p.id, rams: p.rams.update(i, mapped(ram, t)), logic: p.logic, count })
    } else {
        Step::Stuck(LegalityError::Unmappable { index: i as usize, target: t })
    }
}

proof fn lemma_first_is(rams: Seq<RamMapping>, pick: Pick, i: int)
    requires
        0 <= i < rams.len(),
        picks(pick, rams[i]),
        forall|k: int| 0 <= k < i ==> !picks(pick, #[trigger] rams[k]),
    ensures
        first_pick(rams, pick) == Some(i),
{
    lemma_first_pick(rams, pick);
}

/// Too much LUTRAM: the check moves the first (smallest) LUTRAM RAM to 8K
/// block RAM.
pub proof fn lemma_lutram_excess_moves_to_8k(p: Pass, i: int)
    requires
        p.count + 1 <= PATIENCE,
        totals_fit(p),
        total(p.rams, Tally::Blocks(RamType::LUTRAM)) > lutram_budget(logic_blocks(p.logic, p.rams)),
        0 <= i < p.rams.len(),
        p.rams[i].ram_type == RamType::LUTRAM,
        forall|k: int| 0 <= k < i ==> (#[trigger] p.rams[k]).ram_type != RamType::LUTRAM,
    ensures
        check_step(p) == replaced_by_mapping(p, i, RamType::RAM8K, p.count + 1),
{
    reveal(check_step);
    lemma_first_is(p.rams, Pick::Lutram, i);
}

/// Too much 8K block RAM, LUTRAM within its budget: the check moves the first
/// (smallest) 8K RAM that is not true dual port and has fewer than 17 x 64
/// words to LUTRAM.
pub proof fn lemma_8k_excess_moves_to_lutram(p: Pass, i: int)
    requires
        p.count + 1 <= PATIENCE,
        totals_fit(p),
        total(p.rams, Tally::Blocks(RamType::LUTRAM)) <= lutram_budget(logic_blocks(p.logic, p.rams)),
        total(p.rams, Tally::Blocks(RamType::RAM8K)) > logic_blocks(p.logic, p.rams) / 10,
        0 <= i < p.rams.len(),
        p.rams[i].ram_type == RamType::RAM8K,
        p.rams[i].mode != RamMode::TrueDualPort,
        p.rams[i].logical_depth < 17 * 64,
        forall|k: int|
            0 <= k < i ==> !((#[trigger] p.rams[k]).ram_type == RamType::RAM8K && p.rams[k].mode
                != RamMode::TrueDualPort && p.rams[k].logical_depth < 17 * 64),
    ensures
        check_step(p) == replaced_by_mapping(p, i, RamType::LUTRAM, p.count + 1),
{
    reveal(check_step);
    lemma_first_is(p.rams, Pick::Ram8kForLutram, i);
}

/// Too much 8K block RAM, LUTRAM within its budget, and no 8K RAM that
/// LUTRAM could hold: the check moves the first (smallest) 8K RAM to 128K.
pub proof fn lemma_8k_excess_moves_to_128k(p: Pass, i: int)
    requires
        p.count + 1 <= PATIENCE,
        totals_fit(p),
        total(p.rams, Tally::Blocks(RamType::LUTRAM)) <= lutram_budget(logic_blocks(p.logic, p.rams)),
        total(p.rams, Tally::Blocks(RamType::RAM8K)) > logic_blocks(p.logic, p.rams) / 10,
        forall|k: int|
            0 <= k < p.rams.len() ==> !((#[trigger] p.rams[k]).ram_type == RamType::RAM8K
                && p.rams[k].mode != RamMode::TrueDualPort && p.rams[k].logical_depth < 17 * 64),
        0 <= i < p.rams.len(),
        p.rams[i].ram_type == RamType::RAM8K,
        forall|k: int| 0 <= k < i ==> (#[trigger] p.rams[k]).ram_type != RamType::RAM8K,
    ensures
        check_step(p) == replaced_by_mapping(p, i, RamType::RAM128K, p.count + 1),
{
    reveal(check_step);
    lemma_first_pick(p.rams, Pick::Ram8kForLutram);
    lemma_first_is(p.rams, Pick::Ram8k, i);
}

/// Too much 128K block RAM, LUTRAM and 8K within theirs: the check moves the
/// first (smallest) 128K RAM to 8K block RAM, whatever its mode and depth.
pub proof fn lemma_128k_excess_moves_to_8k(p: Pass, i: int)
    requires
        p.count + 1 <= PATIENCE,
        totals_fit(p),
        total(p.rams, Tally::Blocks(RamType::LUTRAM)) <= lutram_budget(logic_blocks(p.logic, p.rams)),
        total(p.rams, Tally::Blocks(RamType::RAM8K)) <= logic_blocks(p.logic, p.rams) / 10,
        total(p.rams, Tally::Blocks(RamType::RAM128K)) > logic_blocks(p.logic, p.rams) / 300,
        0 <= i < p.rams.len(),
        p.rams[i].ram_type == RamType::RAM128K,
        forall|k: int| 0 <= k < i ==> (#[trigger] p.rams[k]).ram_type != RamType::RAM128K,
    ensures
        check_step(p) == replaced_by_mapping(p, i, RamType::RAM8K, p.count + 1),
{
    reveal(check_step);
    lemma_first_is(p.rams, Pick::Ram128k, i);
}

/// All three within their ratios: the check passes and nothing changes.
pub proof fn lemma_ratios_kept_pass(p: Pass)
    requires
        p.count + 1 <= PATIENCE,
        totals_fit(p),
        total(p.rams, Tally::Blocks(RamType::LUTRAM)) <= lutram_budget(logic_blocks(p.logic, p.rams)),
        total(p.rams, Tally::Blocks(RamType::RAM8K)) <= logic_blocks(p.logic, p.rams) / 10,
        total(p.rams, Tally::Blocks(RamType::RAM128K)) <= logic_blocks(p.logic, p.rams) / 300,
    ensures
        check_step(p) is Legal,
{
    reveal(check_step);
}

/// A total beyond a `u32` stops the check.
pub proof fn lemma_totals_beyond_u32_stop(p: Pass)
    requires
        p.count + 1 <= PATIENCE,
        !totals_fit(p),
    ensures
        check_step(p) == Step::Stuck(LegalityError::Overflow),
{
    reveal(check_step);
}

/// After 10000 failed checks in a row, the first (smallest) 128K RAM that is
/// not true dual port and has fewer than 17 x 64 words moves to LUTRAM, and
/// the count starts again.
pub proof fn lemma_patience_moves_128k_to_lutram(p: Pass, i: int)
    requires
        p.count + 1 > 10000,
        0 <= i < p.rams.len(),
        p.rams[i].ram_type == RamType::RAM128K,
        p.rams[i].mode != RamMode::TrueDualPort,
        p.rams[i].logical_depth < 17 * 64,
        forall|k: int|
            0 <= k < i ==> !((#[trigger] p.rams[k]).ram_type == RamType::RAM128K && p.rams[k].mode
                != RamMode::TrueDualPort && p.rams[k].logical_depth < 17 * 64),
    ensures
        check_step(p) == replaced_by_mapping(p, i, RamType::LUTRAM, 0),
{
    reveal(check_step);
    lemma_first_is(p.rams, Pick::Ram128kForLutram, i);
}

/// After 10000 failed checks in a row with no 128K RAM that LUTRAM could
/// hold, the circuit's logic is charged 100 more blocks (or the check stops
/// when that exceeds a `u32`), the RAMs stay, and the count starts again.
pub proof fn lemma_patience_charges_logic(p: Pass)
    requires
        p.count + 1 > 10000,
        forall|k: int|
            0 <= k < p.rams.len() ==> !((#[trigger] p.rams[k]).ram_type == RamType::RAM128K
                && p.rams[k].mode != RamMode::TrueDualPort && p.rams[k].logical_depth < 17 * 64),
    ensures
        p.logic + 100 <= u32::MAX ==> check_step(p) == Step::Next(
            Pass { id: p.id, rams: p.rams, logic: p.logic + 100, count: 0 },
        ),
        p.logic + 100 > u32::MAX ==> check_step(p) == Step::Stuck(LegalityError::Overflow),
{
    reveal(check_step);
    lemma_first_pick(p.rams, Pick::Ram128kForLutram);
}

} // verus!
