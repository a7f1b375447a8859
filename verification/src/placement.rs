//! The first, greedy placement: every RAM goes to the block RAM that suits
//! its size, in the circuit it belongs to.
use vstd::prelude::*;
use crate::mapping::{can_map, map_ram, mapped, mapping_fits};
use crate::ram::{Circuit, ParsedRam, RamMapping, RamType, FILL_RATIO128K};

verus! {

/// Why a RAM could not be placed.
#[derive(Debug, Clone, Copy, PartialEq, Eq, Structural)]
pub enum PlaceError {
    /// Its bits (depth times width) exceed a `u32`.
    Overflow,
    /// Its mapping onto the chosen block type is not defined (the search
    /// never ends, or the cost exceeds a `u32`).
    Unmappable(RamType),
    /// No circuit has its circuit number.
    UnknownCircuit,
}

/// The bits that a logical RAM holds.
pub open spec fn ram_bits(p: ParsedRam) -> nat {
    (p.depth as nat) * (p.width as nat)
}

/// The block type a RAM starts in: 128K block RAM from `FILL_RATIO128K` bits
/// on, 8K block RAM below.
pub open spec fn initial_type(p: ParsedRam) -> RamType {
    if ram_bits(p) >= FILL_RATIO128K {
        RamType::RAM128K
    } else {
        RamType::RAM8K
    }
}

/// The first of `circuits` with number `id`.
pub open spec fn circuit_index(circuits: Seq<Circuit>, id: u32) -> Option<int>
    decreases circuits.len(),
{
    if circuits.len() == 0 {
        None
    } else {
        match circuit_index(circuits.drop_last(), id) {
            Some(i) => Some(i),
            None => if circuits.last().id == id {
                Some(circuits.len() - 1)
            } else {
                None
            },
        }
    }
}

/// The circuit a RAM goes to is the first with its number, and there is
/// none exactly when no circuit has that number.
pub proof fn lemma_circuit_index(circuits: Seq<Circuit>, id: u32)
    ensures
        match circuit_index(circuits, id) {
            Some(i) => 0 <= i < circuits.len() && circuits[i].id == id && forall|k: int|
                0 <= k < i ==> (#[trigger] circuits[k]).id != id,
            None => forall|k: int| 0 <= k < circuits.len() ==> (#[trigger] circuits[k]).id != id,
        },
    decreases circuits.len(),
{
    if circuits.len() > 0 {
        let init = circuits.drop_last();
        lemma_circuit_index(init, id);
        assert forall|k: int| 0 <= k < init.len() implies init[k] == circuits[k] by {}
        assert(circuits[circuits.len() - 1] == circuits.last());
    }
}

proof fn lemma_circuit_index_prefix(circuits: Seq<Circuit>, id: u32, n: int)
    requires
        0 <= n <= circuits.len(),
        circuit_index(circuits.take(n), id) is Some,
    ensures
        circuit_index(circuits, id) == circuit_index(circuits.take(n), id),
    decreases circuits.len() - n,
{
    if n < circuits.len() {
        assert(circuits.take(n + 1).drop_last() =~= circuits.take(n));
        lemma_circuit_index_prefix(circuits, id, n + 1);
    } else {
        assert(circuits.take(n) =~= circuits);
    }
}

/// The index of the first circuit with number `id`.
pub fn find_circuit(circuits: &Vec<Circuit>, id: u32) -> (r: Option<usize>)
    ensures
        r matches Some(i) ==> circuit_index(circuits@, id) == Some(i as int),
        r is None ==> circuit_index(circuits@, id) is None,
{
    let mut i: usize = 0;
    while i < circuits.len()
        invariant
            i <= circuits@.len(),
            circuit_index(circuits@.take(i as int), id) is None,
        decreases circuits.len() - i,
    {
        assert(circuits@.take(i + 1).drop_last() =~= circuits@.take(i as int));
        if circuits[i].id == id {
            proof {
                lemma_circuit_index_prefix(circuits@, id, i + 1);
            }
            return Some(i);
        }
        i = i + 1;
    }
    assert(circuits@.take(i as int) =~= circuits@);
    None
}

/// The block type a RAM starts in, or `None` when its bits exceed a `u32`.
pub fn initial_ram_type(parsed: &ParsedRam) -> (r: Option<RamType>)
    ensures
        r is None <==> ram_bits(*parsed) > u32::MAX,
        r matches Some(t) ==> t == initial_type(*parsed),
        r matches Some(t) ==> (t == RamType::RAM128K <==> (parsed.depth as int) * (parsed.width as int)
            >= 65536),
        r matches Some(t) ==> (t == RamType::RAM8K <==> (parsed.depth as int) * (parsed.width as int)
            < 65536),
{
    let depth = parsed.depth as u64;
    let width = parsed.width as u64;
    assert(depth * width <= 0xffff_ffffu64 * 0xffff_ffffu64) by (nonlinear_arith)
        requires
            depth <= 0xffff_ffffu64,
            width <= 0xffff_ffffu64,
    ;
    let bytes_needed = depth * width;
    if bytes_needed > u32::MAX as u64 {
        None
    } else if bytes_needed >= FILL_RATIO128K as u64 {
        Some(RamType::RAM128K)
    } else {
        Some(RamType::RAM8K)
    }
}

/// Places a RAM: maps it onto the block type its size calls for and adds the
/// mapping to the first circuit with its circuit number.
pub fn place_ram(circuits: &mut Vec<Circuit>, parsed: &ParsedRam) -> (r: Result<(), PlaceError>)
    ensures
        ram_bits(*parsed) > u32::MAX ==> r == Err::<(), PlaceError>(PlaceError::Overflow),
        ram_bits(*parsed) <= u32::MAX && !can_map(*parsed, initial_type(*parsed)) ==> r == Err::<
            (),
            PlaceError,
        >(PlaceError::Unmappable(initial_type(*parsed))),
        ram_bits(*parsed) <= u32::MAX && can_map(*parsed, initial_type(*parsed)) && circuit_index(
            old(circuits)@,
            parsed.circuit_id,
        ) is None ==> r == Err::<(), PlaceError>(PlaceError::UnknownCircuit),
        ram_bits(*parsed) <= u32::MAX && can_map(*parsed, initial_type(*parsed)) && circuit_index(
            old(circuits)@,
            parsed.circuit_id,
        ) is Some ==> r is Ok,
        r is Err ==> final(circuits)@ == old(circuits)@,
        r is Ok ==> {
            let i = circuit_index(old(circuits)@, parsed.circuit_id)->0;
            &&& ram_bits(*parsed) <= u32::MAX
            &&& can_map(*parsed, initial_type(*parsed))
            &&& circuit_index(old(circuits)@, parsed.circuit_id) is Some
            &&& final(circuits)@.len() == old(circuits)@.len()
            &&& forall|k: int|
                0 <= k < old(circuits)@.len() && k != i ==> #[trigger] final(circuits)@[k] == old(
                    circuits,
                )@[k]
            &&& final(circuits)@[i].id == old(circuits)@[i].id
            &&& final(circuits)@[i].logic_lb_usage == old(circuits)@[i].logic_lb_usage
            &&& final(circuits)@[i].ram_mappings@ == old(circuits)@[i].ram_mappings@.push(
                mapped(*parsed, initial_type(*parsed)),
            )
            &&& final(circuits)@[i].ram_mappings@.last().ram_type == if (parsed.depth as int) * (
            parsed.width as int) >= 65536 {
                RamType::RAM128K
            } else {
                RamType::RAM8K
            }
        },
{
    let map_to = match initial_ram_type(parsed) {
        Some(t) => t,
        None => {
            return Err(PlaceError::Overflow);
        },
    };
    if !mapping_fits(parsed, map_to) {
        return Err(PlaceError::Unmappable(map_to));
    }
    let map = map_ram(parsed, map_to);
    let i = match find_circuit(circuits, parsed.circuit_id) {
        Some(i) => i,
        None => {
            return Err(PlaceError::UnknownCircuit);
        },
    };
    proof {
        lemma_circuit_index(circuits@, parsed.circuit_id);
    }
    let mut circuit = circuits.remove(i);
    circuit.ram_mappings.push(map);
    circuits.insert(i, circuit);
    proof {
        assert forall|k: int| 0 <= k < old(circuits)@.len() && k != i implies #[trigger] circuits@[k]
            == old(circuits)@[k] by {}
    }
    Ok(())
}

/// A RAM starts in 128K block RAM exactly when it holds at least 65536 bits
/// (depth times width), and in 8K block RAM below that.
pub proof fn lemma_initial_type_by_bits(p: ParsedRam)
    ensures
        initial_type(p) == RamType::RAM128K <==> (p.depth as int) * (p.width as int) >= 65536,
        initial_type(p) == RamType::RAM8K <==> (p.depth as int) * (p.width as int) < 65536,
{
}

} // verus!
