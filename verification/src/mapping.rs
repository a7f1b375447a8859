//! Building one logical RAM out of physical blocks of a chosen type.
use vstd::prelude::*;
use vstd::arithmetic::div_mod::{
    lemma_basic_div, lemma_div_by_self, lemma_div_is_ordered, lemma_div_multiples_vanish,
    lemma_fundamental_div_mod, lemma_mod_bound,
};
use vstd::arithmetic::mul::lemma_mul_inequality;
use crate::ram::{
    block_bits, block_widths, ParsedRam, RamMapping, RamMode, RamType, LB_N, LUTRAM_BYTES,
    RAM8K_BYTES, RAM128K_BYTES,
};

verus! {

/// The narrowest of `widths` (in their order) of which `copies` side by side
/// hold a word of `width` bits; 0 when none does.
pub open spec fn narrowest_fit(widths: Seq<u32>, copies: nat, width: nat) -> nat
    decreases widths.len(),
{
    if widths.len() == 0 {
        0
    } else if widths[0] * copies >= width {
        widths[0] as nat
    } else {
        narrowest_fit(widths.drop_first(), copies, width)
    }
}

/// `widths` lists positive widths, narrowest first.
pub open spec fn ascending_widths(widths: Seq<u32>) -> bool {
    &&& forall|i: int| 0 <= i < widths.len() ==> #[trigger] widths[i] > 0
    &&& forall|i: int, j: int| 0 <= i <= j < widths.len() ==> widths[i] <= widths[j]
}

/// The bits of a block of type `t` and the word widths it offers a RAM of `mode`.
fn block_geometry(mode: RamMode, t: RamType) -> (r: (u64, Vec<u32>))
    requires
        block_widths(mode, t).len() > 0,
    ensures
        r.0 == block_bits(t),
        r.1@ == block_widths(mode, t),
{
    let bits: u64 = match t {
        RamType::LUTRAM => LUTRAM_BYTES as u64,
        RamType::RAM8K => RAM8K_BYTES as u64,
        RamType::RAM128K => RAM128K_BYTES as u64,
    };
    let widths = match mode {
        RamMode::TrueDualPort => match t {
            RamType::RAM128K => vec![1u32, 2, 4, 8, 16, 32, 64],
            RamType::RAM8K => vec![1u32, 2, 4, 8, 16],
            RamType::LUTRAM => vec![],
        },
        _ => match t {
            RamType::RAM128K => vec![1u32, 2, 4, 8, 16, 32, 64, 128],
            RamType::RAM8K => vec![1u32, 2, 4, 8, 16, 32],
            RamType::LUTRAM => vec![10u32, 20],
        },
    };
    assert(widths@ =~= block_widths(mode, t));
    (bits, widths)
}

/// The most blocks that may be chained one after the other to reach the depth.
pub const MAX_SERIAL: u32 = 16;

/// `ceil(a / b)` for `b > 0`.
pub open spec fn ceil_div(a: nat, b: nat) -> nat {
    ((a + b - 1) / (b as int)) as nat
}

/// Round `round` of the search: the copies of the widest configuration placed
/// side by side, at least `round` and enough for the widest to hold `width` bits.
pub open spec fn round_parallel(widths: Seq<u32>, width: nat, round: nat) -> nat {
    let needed = ceil_div(width, widths.last() as nat);
    if round >= needed {
        round
    } else {
        needed
    }
}

/// The word width configured in round `round`: the narrowest of which that
/// many copies hold `width` bits.
pub open spec fn round_width(widths: Seq<u32>, width: nat, round: nat) -> nat {
    narrowest_fit(widths, round_parallel(widths, width, round), width)
}

/// The words of one block configured as in round `round`.
pub open spec fn round_depth(bits: nat, widths: Seq<u32>, width: nat, round: nat) -> nat {
    bits / round_width(widths, width, round)
}

/// The blocks chained in round `round` to reach `depth` words.
pub open spec fn round_serial(bits: nat, widths: Seq<u32>, width: nat, depth: nat, round: nat) -> nat {
    ceil_div(depth, round_depth(bits, widths, width, round))
}

/// The first round from `round` on that chains at most `MAX_SERIAL` blocks.
/// (From round `width` on every round is alike, so the search stops there.)
pub open spec fn settled_round(bits: nat, widths: Seq<u32>, width: nat, depth: nat, round: nat) -> nat
    decreases width - round,
{
    if round_serial(bits, widths, width, depth, round) <= MAX_SERIAL || round >= width {
        round
    } else {
        settled_round(bits, widths, width, depth, round + 1)
    }
}

/// The round at which the search for a mapping of `p` onto blocks of type `t` ends.
pub open spec fn final_round(p: ParsedRam, t: RamType) -> nat {
    settled_round(block_bits(t), block_widths(p.mode, t), p.width as nat, p.depth as nat, 1)
}

/// Blocks side by side in the mapping of `p` onto `t`.
pub open spec fn mapped_parallel(p: ParsedRam, t: RamType) -> nat {
    round_parallel(block_widths(p.mode, t), p.width as nat, final_round(p, t))
}

/// Word width of each block in the mapping of `p` onto `t`.
pub open spec fn mapped_width(p: ParsedRam, t: RamType) -> nat {
    round_width(block_widths(p.mode, t), p.width as nat, final_round(p, t))
}

/// Words of each block in the mapping of `p` onto `t`.
pub open spec fn mapped_depth(p: ParsedRam, t: RamType) -> nat {
    round_depth(block_bits(t), block_widths(p.mode, t), p.width as nat, final_round(p, t))
}

/// Blocks chained one after the other in the mapping of `p` onto `t`.
pub open spec fn mapped_serial(p: ParsedRam, t: RamType) -> nat {
    round_serial(block_bits(t), block_widths(p.mode, t), p.width as nat, p.depth as nat, final_round(p, t))
}

/// Lookup tables of the output multiplexers: a third of the chain length,
/// rounded, for every bit of the word.
pub open spec fn mux_luts(width: nat, serial: nat) -> nat {
    width * ((serial + 1) / 3)
}

/// Lookup tables of the address decoder of a chain of `serial` blocks.
pub open spec fn decoder_luts(serial: nat) -> nat {
    if serial == 1 {
        0
    } else if serial == 2 {
        1
    } else {
        serial
    }
}

/// A true dual port RAM needs its multiplexers and decoders twice.
pub open spec fn port_factor(mode: RamMode) -> nat {
    if mode == RamMode::TrueDualPort {
        2
    } else {
        1
    }
}

/// Logic blocks that a mapping costs: its extra lookup tables in whole logic
/// blocks, plus, for LUTRAM, the logic blocks that hold the memory.
pub open spec fn logic_cost(mode: RamMode, t: RamType, width: nat, serial: nat, parallel: nat) -> nat {
    let luts = port_factor(mode) * (mux_luts(width, serial) + decoder_luts(serial));
    let extra = ((luts + LB_N - 1) / (LB_N as int)) as nat;
    if t == RamType::LUTRAM {
        extra + serial * parallel
    } else {
        extra
    }
}

/// Logic blocks that the mapping of `p` onto `t` costs.
pub open spec fn mapped_logic(p: ParsedRam, t: RamType) -> nat {
    logic_cost(p.mode, t, p.width as nat, mapped_serial(p, t), mapped_parallel(p, t))
}

/// The search for a mapping of `p` onto `t` ends: the RAM has words of at
/// least one bit and at least one word, `t` can serve its ports, and at most
/// `MAX_SERIAL` of the deepest configuration reach its depth.
pub open spec fn mapping_terminates(p: ParsedRam, t: RamType) -> bool {
    let widths = block_widths(p.mode, t);
    &&& p.width >= 1
    &&& p.depth >= 1
    &&& widths.len() > 0
    &&& p.depth <= MAX_SERIAL * (block_bits(t) / (widths[0] as nat))
}

/// `p` can be mapped onto `t`: the search ends and its cost fits a `u32`.
pub open spec fn can_map(p: ParsedRam, t: RamType) -> bool {
    mapping_terminates(p, t) && mapped_logic(p, t) <= u32::MAX
}

/// The mapping of `p` onto blocks of type `t`.
pub open spec fn mapped(p: ParsedRam, t: RamType) -> RamMapping {
    RamMapping {
        id: p.ram_id,
        mode: p.mode,
        logical_depth: p.depth,
        logical_width: p.width,
        lb_usage: mapped_logic(p, t) as u32,
        ram_type: t,
        serial: mapped_serial(p, t) as u32,
        parrallel: mapped_parallel(p, t) as u32,
        actual_depth: mapped_depth(p, t) as u32,
        actual_width: mapped_width(p, t) as u32,
    }
}

// ---------------------------------------------------------------------------
// Arithmetic facts

proof fn lemma_div_at_least_one(x: int, d: int)
    requires
        0 <= x,
        0 < d,
    ensures
        (x / d >= 1) == (x >= d),
        (x / d > 0) == (x >= d),
{
    if x >= d {
        lemma_div_is_ordered(d, x, d);
        lemma_div_by_self(d);
    } else {
        lemma_basic_div(x, d);
    }
}

/// `c` copies of `m` reach `w` exactly when `c` is at least `ceil(w / m)`.
proof fn lemma_ceil_cover(w: nat, m: nat, c: nat)
    requires
        m > 0,
    ensures
        (m * c >= w) == (c >= ceil_div(w, m)),
{
    let n = w + m - 1;
    let q = n / (m as int);
    let r = n % (m as int);
    lemma_fundamental_div_mod(n, m as int);
    lemma_mod_bound(n, m as int);
    assert(q >= 0) by {
        lemma_div_is_ordered(0, n, m as int);
        lemma_basic_div(0, m as int);
    }
    if c >= q {
        assert(m * c >= m * q) by (nonlinear_arith)
            requires
                c >= q,
                m > 0,
        ;
    } else {
        assert(m * c <= m * q - m) by (nonlinear_arith)
            requires
                c <= q - 1,
                m > 0,
        ;
    }
}

// ---------------------------------------------------------------------------
// The narrowest fitting width

proof fn lemma_narrowest_fit(widths: Seq<u32>, copies: nat, width: nat)
    requires
        widths.len() > 0,
        ascending_widths(widths),
    ensures
        (narrowest_fit(widths, copies, width) != 0) == (widths.last() * copies >= width),
        narrowest_fit(widths, copies, width) != 0 ==> {
            &&& narrowest_fit(widths, copies, width) * copies >= width
            &&& exists|i: int|
                0 <= i < widths.len() && widths[i] == narrowest_fit(widths, copies, width)
        },
        widths[0] * copies >= width ==> narrowest_fit(widths, copies, width) == widths[0],
    decreases widths.len(),
{
    let f = narrowest_fit(widths, copies, width);
    if widths[0] * copies >= width {
        assert(widths[0] <= widths.last());
        lemma_mul_inequality(widths[0] as int, widths.last() as int, copies as int);
        assert(f == widths[0]);
        assert(widths[0] > 0);
    } else if widths.len() == 1 {
        assert(widths.drop_first().len() == 0);
        assert(f == narrowest_fit(widths.drop_first(), copies, width));
    } else {
        let rest = widths.drop_first();
        assert forall|i: int, j: int| 0 <= i <= j < rest.len() implies rest[i] <= rest[j] by {
            assert(rest[i] == widths[i + 1] && rest[j] == widths[j + 1]);
        }
        assert forall|i: int| 0 <= i < rest.len() implies #[trigger] rest[i] > 0 by {
            assert(rest[i] == widths[i + 1]);
        }
        lemma_narrowest_fit(rest, copies, width);
        assert(rest.last() == widths.last());
        if f != 0 {
            let i = choose|i: int| 0 <= i < rest.len() && rest[i] == f;
            assert(widths[i + 1] == f);
        }
    }
}

proof fn lemma_block_widths(mode: RamMode, t: RamType)
    ensures
        ascending_widths(block_widths(mode, t)),
        forall|i: int|
            0 <= i < block_widths(mode, t).len() ==> {
                &&& block_bits(t) % (#[trigger] block_widths(mode, t)[i] as nat) == 0
                &&& block_widths(mode, t)[i] <= 128
                &&& block_widths(mode, t)[i] as int <= block_bits(t)
            },
{
    let w = block_widths(mode, t);
    assert forall|i: int, j: int| 0 <= i <= j < w.len() implies w[i] <= w[j] by {
    }
    assert forall|i: int| 0 <= i < w.len() implies #[trigger] w[i] > 0 by {
    }
    assert forall|i: int|
        0 <= i < w.len() implies {
            &&& block_bits(t) % (#[trigger] w[i] as nat) == 0
            &&& w[i] <= 128
            &&& w[i] as int <= block_bits(t)
        } by {
        let x = w[i] as nat;
        let b = block_bits(t);
        if t == RamType::LUTRAM {
            assert(x == 10 || x == 20);
            assert(b % x == 0) by (nonlinear_arith)
                requires
                    b == 640,
                    x == 10 || x == 20,
            ;
        } else if t == RamType::RAM8K {
            assert(x == 1 || x == 2 || x == 4 || x == 8 || x == 16 || x == 32);
            assert(b % x == 0) by (nonlinear_arith)
                requires
                    b == 8192,
                    x == 1 || x == 2 || x == 4 || x == 8 || x == 16 || x == 32,
            ;
        } else {
            assert(x == 1 || x == 2 || x == 4 || x == 8 || x == 16 || x == 32 || x == 64
                || x == 128);
            assert(b % x == 0) by (nonlinear_arith)
                requires
                    b == 131072,
                    x == 1 || x == 2 || x == 4 || x == 8 || x == 16 || x == 32 || x == 64
                        || x == 128,
            ;
        }
    }
}

/// `ceil(a / b)` is positive for positive `a` and at most `a`.
proof fn lemma_ceil_div_bounds(a: nat, b: nat)
    requires
        a >= 1,
        b >= 1,
    ensures
        1 <= ceil_div(a, b) <= a,
        b * ceil_div(a, b) >= a,
{
    lemma_ceil_cover(a, b, ceil_div(a, b));
    lemma_ceil_cover(a, b, 0);
    assert(b * a >= a) by (nonlinear_arith)
        requires
            b >= 1,
            a >= 1,
    ;
    lemma_ceil_cover(a, b, a);
}

/// The geometry of a block type that a search runs over.
pub open spec fn search_geometry(bits: nat, widths: Seq<u32>) -> bool {
    &&& widths.len() > 0
    &&& ascending_widths(widths)
    &&& forall|i: int|
        0 <= i < widths.len() ==> {
            &&& bits % (#[trigger] widths[i] as nat) == 0
            &&& widths[i] <= 128
            &&& widths[i] as int <= bits
        }
}

proof fn lemma_round(bits: nat, widths: Seq<u32>, width: nat, depth: nat, round: nat)
    requires
        search_geometry(bits, widths),
        width >= 1,
        depth >= 1,
        round >= 1,
    ensures
        ({
            let c = round_parallel(widths, width, round);
            let aw = round_width(widths, width, round);
            let ad = round_depth(bits, widths, width, round);
            let s = round_serial(bits, widths, width, depth, round);
            &&& round <= c
            &&& round <= width ==> c <= width
            &&& widths.last() * c >= width
            &&& aw != 0 && aw <= 128
            &&& aw * c >= width
            &&& exists|i: int| 0 <= i < widths.len() && widths[i] == aw
            &&& 1 <= ad <= bits
            &&& ad * aw == bits
            &&& 1 <= s <= depth
            &&& ad * s >= depth
            &&& round >= width ==> aw == widths[0]
        }),
{
    let m = widths.last() as nat;
    assert(m == widths[widths.len() - 1]);
    let c = round_parallel(widths, width, round);
    lemma_ceil_div_bounds(width, m);
    lemma_ceil_cover(width, m, c);
    lemma_narrowest_fit(widths, c, width);
    let aw = round_width(widths, width, round);
    let i = choose|i: int| 0 <= i < widths.len() && widths[i] == aw;
    assert(bits % (widths[i] as nat) == 0);
    lemma_fundamental_div_mod(bits as int, aw as int);
    let ad = round_depth(bits, widths, width, round);
    assert(ad * aw == bits) by (nonlinear_arith)
        requires
            bits == aw * (bits / aw) + bits % aw,
            bits % aw == 0,
            ad == bits / aw,
    ;
    assert(1 <= ad <= bits) by (nonlinear_arith)
        requires
            ad * aw == bits,
            aw >= 1,
            bits >= aw,
    ;
    lemma_ceil_div_bounds(depth, ad);
    if round >= width {
        assert(widths[0] * c >= width) by (nonlinear_arith)
            requires
                widths[0] >= 1,
                c >= width,
        ;
    }
}

/// The first settling round is a settling round, and none before it settles.
proof fn lemma_settled_round(bits: nat, widths: Seq<u32>, width: nat, depth: nat, round: nat)
    requires
        search_geometry(bits, widths),
        width >= 1,
        depth >= 1,
        round >= 1,
        depth <= MAX_SERIAL * (bits / (widths[0] as nat)),
    ensures
        ({
            let r = settled_round(bits, widths, width, depth, round);
            &&& round <= r
            &&& round <= width ==> r <= width
            &&& round_serial(bits, widths, width, depth, r) <= MAX_SERIAL
            &&& forall|k: nat|
                round <= k < r ==> round_serial(bits, widths, width, depth, k) > MAX_SERIAL
        }),
    decreases width - round,
{
    let s = round_serial(bits, widths, width, depth, round);
    lemma_round(bits, widths, width, depth, round);
    if round >= width {
        let ad = round_depth(bits, widths, width, round);
        lemma_ceil_cover(depth, ad, MAX_SERIAL as nat);
        assert(ad * MAX_SERIAL >= depth) by (nonlinear_arith)
            requires
                depth <= MAX_SERIAL * ad,
        ;
    } else if s > MAX_SERIAL {
        lemma_settled_round(bits, widths, width, depth, round + 1);
        let r = settled_round(bits, widths, width, depth, round);
        assert forall|k: nat|
            round <= k < r implies round_serial(bits, widths, width, depth, k) > MAX_SERIAL by {
            if k > round {
                assert(round + 1 <= k);
            }
        }
    }
}

// ---------------------------------------------------------------------------
// The search

/// The narrowest of `widths` of which `copies` side by side hold a word of
/// `width` bits, or 0 when none does.
fn narrowest_fit_exec(widths: &Vec<u32>, copies: u64, width: u64) -> (w: u64)
    requires
        width >= 1,
        copies <= u32::MAX,
        forall|i: int| 0 <= i < widths@.len() ==> #[trigger] widths@[i] <= 128,
    ensures
        w == narrowest_fit(widths@, copies as nat, width as nat),
{
    let mut i: usize = 0;
    assert(widths@.skip(0) =~= widths@);
    while i < widths.len()
        invariant
            0 <= i <= widths@.len(),
            width >= 1,
            copies <= u32::MAX,
            forall|k: int| 0 <= k < widths@.len() ==> #[trigger] widths@[k] <= 128,
            narrowest_fit(widths@, copies as nat, width as nat) == narrowest_fit(
                widths@.skip(i as int),
                copies as nat,
                width as nat,
            ),
        decreases widths.len() - i,
    {
        let try_width = widths[i] as u64;
        let ghost rest = widths@.skip(i as int);
        assert(rest[0] == try_width);
        assert(try_width * copies <= 128 * 0xffff_ffffu64) by (nonlinear_arith)
            requires
                try_width <= 128,
                copies <= 0xffff_ffffu64,
        ;
        proof {
            lemma_div_at_least_one((try_width * copies) as int, width as int);
        }
        if try_width * copies / width >= 1 {
            return try_width;
        }
        assert(rest.drop_first() =~= widths@.skip(i + 1));
        i = i + 1;
    }
    assert(widths@.skip(i as int).len() == 0);
    0
}

/// Searches, round after round, for the first configuration that chains at
/// most `MAX_SERIAL` blocks; gives (parallel, word width, words, serial).
fn search_shape(parsed: &ParsedRam, map_to: RamType) -> (r: (u64, u64, u64, u64))
    requires
        mapping_terminates(*parsed, map_to),
    ensures
        r.0 == mapped_parallel(*parsed, map_to),
        r.1 == mapped_width(*parsed, map_to),
        r.2 == mapped_depth(*parsed, map_to),
        r.3 == mapped_serial(*parsed, map_to),
        1 <= r.3 <= MAX_SERIAL,
        r.0 <= parsed.width,
        1 <= r.1 <= 128,
{
    let (bits, widths) = block_geometry(parsed.mode, map_to);
    let width = parsed.width as u64;
    let depth = parsed.depth as u64;
    let ghost ws = widths@;
    let ghost w = width as nat;
    let ghost d = depth as nat;
    proof {
        lemma_block_widths(parsed.mode, map_to);
    }
    let mut serial: u64 = 17;
    let mut parrallel: u64 = 0;
    let mut actual_depth: u64 = 0;
    let mut actual_width: u64 = 0;
    let mut loop_counter: u64 = 0;

    // Map loop: widen the configuration until at most MAX_SERIAL blocks chain.
    while serial > MAX_SERIAL as u64
        invariant
            widths@ == ws,
            bits == block_bits(map_to),
            search_geometry(bits as nat, ws),
            w == width,
            d == depth,
            width == parsed.width,
            depth == parsed.depth,
            width >= 1,
            depth >= 1,
            d <= MAX_SERIAL * ((bits as nat) / (ws[0] as nat)),
            loop_counter <= width,
            loop_counter == 0 ==> serial == 17,
            loop_counter >= 1 ==> {
                &&& settled_round(bits as nat, ws, w, d, 1) == settled_round(
                    bits as nat,
                    ws,
                    w,
                    d,
                    loop_counter as nat,
                )
                &&& parrallel == round_parallel(ws, w, loop_counter as nat)
                &&& actual_width == round_width(ws, w, loop_counter as nat)
                &&& actual_depth == round_depth(bits as nat, ws, w, loop_counter as nat)
                &&& serial == round_serial(bits as nat, ws, w, d, loop_counter as nat)
            },
        decreases width - loop_counter,
    {
        proof {
            if loop_counter >= 1 {
                lemma_settled_round(bits as nat, ws, w, d, loop_counter as nat);
                assert(loop_counter < width);
            }
        }
        loop_counter = loop_counter + 1;
        actual_width = 0;
        actual_depth = 0;
        let ghost lc = loop_counter as nat;
        proof {
            lemma_round(bits as nat, ws, w, d, lc);
        }
        let ghost target = round_parallel(ws, w, lc);

        // Width map: the fewest copies, from loop_counter on, that some width fits.
        let mut counter = loop_counter;
        while actual_width == 0
            invariant
                widths@ == ws,
                search_geometry(bits as nat, ws),
                w == width,
                width >= 1,
                width <= u32::MAX,
                lc == loop_counter,
                1 <= lc <= w,
                target == round_parallel(ws, w, lc),
                lc <= target <= w,
                loop_counter <= counter,
                actual_width == 0 ==> counter <= target,
                actual_width != 0 ==> parrallel == target && actual_width == round_width(ws, w, lc),
            decreases target + 1 - counter,
        {
            proof {
                lemma_narrowest_fit(ws, counter as nat, w);
                let m = ws.last() as nat;
                assert(m == ws[ws.len() - 1]);
                lemma_ceil_cover(w, m, counter as nat);
                lemma_ceil_cover(w, m, target);
            }
            actual_width = narrowest_fit_exec(&widths, counter, width);
            if actual_width != 0 {
                parrallel = counter;
            }
            counter = counter + 1;
        }

        // Depth map: the fewest blocks chained that reach the depth.
        let ghost aw = actual_width as nat;
        let ghost ad = round_depth(bits as nat, ws, w, lc);
        let ghost sd = round_serial(bits as nat, ws, w, d, lc);
        counter = 1;
        while actual_depth == 0
            invariant
                bits == block_bits(map_to),
                1 <= bits <= 131072,
                aw == actual_width,
                1 <= aw <= 128,
                ad * aw == bits,
                1 <= ad,
                1 <= sd <= d,
                sd == ceil_div(d, ad),
                d == depth,
                depth >= 1,
                depth <= u32::MAX,
                1 <= counter,
                actual_depth == 0 ==> counter <= sd,
                actual_depth != 0 ==> serial == sd && actual_depth == ad,
                ad == (bits as nat) / aw,
            decreases sd + 1 - counter,
        {
            assert(counter * bits <= 0xffff_ffffu64 * 131072) by (nonlinear_arith)
                requires
                    counter <= sd,
                    sd <= d,
                    d <= 0xffff_ffffu64,
                    bits <= 131072,
            ;
            proof {
                assert(counter * bits == aw * (counter * ad)) by (nonlinear_arith)
                    requires
                        ad * aw == bits,
                ;
                lemma_div_multiples_vanish((counter * ad) as int, aw as int);
                lemma_div_at_least_one((counter * ad) as int, depth as int);
                lemma_ceil_cover(d, ad, counter as nat);
                assert(counter * ad == ad * counter) by (nonlinear_arith);
            }
            if ((counter * bits) / actual_width) / depth > 0 {
                serial = counter;
                actual_depth = bits / actual_width;
            }
            counter = counter + 1;
        }
    }
    proof {
        lemma_settled_round(bits as nat, ws, w, d, loop_counter as nat);
        lemma_round(bits as nat, ws, w, d, loop_counter as nat);
    }
    (parrallel, actual_width, actual_depth, serial)
}

/// The logic blocks that a mapping costs (see `logic_cost`).
fn mapping_logic_exec(mode: RamMode, map_to: RamType, width: u64, serial: u64, parrallel: u64) -> (lb: u64)
    requires
        width <= u32::MAX,
        1 <= serial <= MAX_SERIAL,
        parrallel <= u32::MAX,
    ensures
        lb == logic_cost(mode, map_to, width as nat, serial as nat, parrallel as nat),
{
    // Additional logic blocks for the decoding and multiplexing of serial RAMs.
    assert(width * ((serial + 1) / 3) <= 0xffff_ffffu64 * 5) by (nonlinear_arith)
        requires
            width <= 0xffff_ffffu64,
            (serial + 1) / 3 <= 5,
    ;
    let additional_lut_mux = width * ((serial + 1) / 3);
    let additional_lut_dec: u64 = if serial == 1 {
        0
    } else if serial == 2 {
        1
    } else {
        serial
    };
    // A true dual port RAM needs its multiplexers and decoders twice.
    let true_dual_mod: u64 = match mode {
        RamMode::TrueDualPort => 2,
        _ => 1,
    };
    // Integer division rounding up.
    let mut lb_usage = (true_dual_mod * (additional_lut_mux + additional_lut_dec) + LB_N as u64
        - 1) / LB_N as u64;
    // A LUTRAM also costs the logic blocks that hold it.
    if map_to == RamType::LUTRAM {
        assert(serial * parrallel <= 16 * 0xffff_ffffu64) by (nonlinear_arith)
            requires
                serial <= 16,
                parrallel <= 0xffff_ffffu64,
        ;
        lb_usage = lb_usage + serial * parrallel;
    }
    lb_usage
}

/// Maps the logical RAM `parsed` onto blocks of type `map_to`: widens the
/// configuration round after round until at most `MAX_SERIAL` blocks need to
/// be chained for its depth, then prices the extra logic.
pub fn map_ram(parsed: &ParsedRam, map_to: RamType) -> (m: RamMapping)
    requires
        can_map(*parsed, map_to),
    ensures
        m == mapped(*parsed, map_to),
{
    let (parrallel, actual_width, actual_depth, serial) = search_shape(parsed, map_to);
    let lb_usage = mapping_logic_exec(
        parsed.mode,
        map_to,
        parsed.width as u64,
        serial,
        parrallel,
    );
    RamMapping {
        id: parsed.ram_id,
        mode: parsed.mode,
        logical_depth: parsed.depth,
        logical_width: parsed.width,
        lb_usage: lb_usage as u32,
        ram_type: map_to,
        serial: serial as u32,
        parrallel: parrallel as u32,
        actual_depth: actual_depth as u32,
        actual_width: actual_width as u32,
    }
}

/// Whether `map_ram(parsed, map_to)` is defined: its search ends and its cost fits.
pub fn mapping_fits(parsed: &ParsedRam, map_to: RamType) -> (b: bool)
    ensures
        b == can_map(*parsed, map_to),
{
    if parsed.width == 0 || parsed.depth == 0 {
        return false;
    }
    if parsed.mode == RamMode::TrueDualPort && map_to == RamType::LUTRAM {
        return false;
    }
    let (bits, widths) = block_geometry(parsed.mode, map_to);
    proof {
        lemma_block_widths(parsed.mode, map_to);
    }
    assert(widths@[0] >= 1);
    let deepest = bits / widths[0] as u64;
    assert(deepest <= bits) by (nonlinear_arith)
        requires
            deepest == bits / (widths@[0] as u64),
            widths@[0] >= 1,
    ;
    if parsed.depth as u64 > MAX_SERIAL as u64 * deepest {
        return false;
    }
    let (parrallel, _, _, serial) = search_shape(parsed, map_to);
    let lb_usage = mapping_logic_exec(parsed.mode, map_to, parsed.width as u64, serial, parrallel);
    lb_usage <= u32::MAX as u64
}

/// A mapping holds the logical RAM it maps: its blocks side by side are at
/// least as wide as a word, its chain is at least as deep as the RAM, each
/// block is configured in one of the widths its type offers for the RAM's
/// ports with all of its bits, at most `MAX_SERIAL` blocks are chained, and no
/// earlier round of the search already chained at most `MAX_SERIAL`.
pub proof fn lemma_mapping_holds_the_ram(p: ParsedRam, t: RamType)
    requires
        mapping_terminates(p, t),
    ensures
        1 <= mapped_serial(p, t) <= MAX_SERIAL,
        mapped_parallel(p, t) * mapped_width(p, t) >= p.width,
        mapped_serial(p, t) * mapped_depth(p, t) >= p.depth,
        mapped_width(p, t) * mapped_depth(p, t) == block_bits(t),
        exists|i: int|
            0 <= i < block_widths(p.mode, t).len() && block_widths(p.mode, t)[i]
                == mapped_width(p, t),
        forall|k: nat|
            1 <= k < final_round(p, t) ==> round_serial(
                block_bits(t),
                block_widths(p.mode, t),
                p.width as nat,
                p.depth as nat,
                k,
            ) > MAX_SERIAL,
{
    let bits = block_bits(t);
    let ws = block_widths(p.mode, t);
    lemma_block_widths(p.mode, t);
    lemma_settled_round(bits, ws, p.width as nat, p.depth as nat, 1);
    let r = final_round(p, t);
    lemma_round(bits, ws, p.width as nat, p.depth as nat, r);
    let aw = mapped_width(p, t);
    let ad = mapped_depth(p, t);
    assert(mapped_parallel(p, t) * aw == aw * mapped_parallel(p, t)) by (nonlinear_arith);
    assert(mapped_serial(p, t) * ad == ad * mapped_serial(p, t)) by (nonlinear_arith);
    assert(aw * ad == ad * aw) by (nonlinear_arith);
}

/// The word widths the device offers, by block type and port mode: a true
/// dual port RAM loses the widest configuration (no x32 on 8K, no x128 on
/// 128K), and LUTRAM offers x10 and x20 to RAMs that are not true dual port.
pub proof fn lemma_block_widths_table()
    ensures
        block_widths(RamMode::TrueDualPort, RamType::RAM8K) == seq![1u32, 2, 4, 8, 16],
        block_widths(RamMode::TrueDualPort, RamType::RAM128K) == seq![1u32, 2, 4, 8, 16, 32, 64],
        block_widths(RamMode::TrueDualPort, RamType::LUTRAM).len() == 0,
        forall|mode: RamMode|
            mode != RamMode::TrueDualPort ==> {
                &&& block_widths(mode, RamType::RAM8K) == seq![1u32, 2, 4, 8, 16, 32]
                &&& block_widths(mode, RamType::RAM128K) == seq![1u32, 2, 4, 8, 16, 32, 64, 128]
                &&& block_widths(mode, RamType::LUTRAM) == seq![10u32, 20]
            },
        block_bits(RamType::LUTRAM) == 640,
        block_bits(RamType::RAM8K) == 8192,
        block_bits(RamType::RAM128K) == 131072,
{
}

/// Every mapping configures its blocks in a width that the device offers
/// for the RAM's mode, using all bits of a block: on 8K at most 32 bits per
/// word, and at most 16 for a true dual port RAM; on 128K at most 128, and
/// at most 64 for a true dual port RAM; LUTRAM x10 or x20, never for a true
/// dual port RAM. The blocks side by side hold a word, the chain holds all
/// words.
pub proof fn lemma_mapped_width_offered(p: ParsedRam, t: RamType)
    requires
        mapping_terminates(p, t),
    ensures
        ({
            let w = mapped_width(p, t);
            let d = mapped_depth(p, t);
            &&& t == RamType::LUTRAM ==> p.mode != RamMode::TrueDualPort && (w == 10 || w == 20)
                && w * d == 640
            &&& t == RamType::RAM8K ==> w * d == 8192 && (w == 1 || w == 2 || w == 4 || w == 8
                || w == 16 || (w == 32 && p.mode != RamMode::TrueDualPort))
            &&& t == RamType::RAM128K ==> w * d == 131072 && (w == 1 || w == 2 || w == 4 || w == 8
                || w == 16 || w == 32 || w == 64 || (w == 128 && p.mode != RamMode::TrueDualPort))
            &&& mapped_parallel(p, t) * w >= p.width
            &&& mapped_serial(p, t) * d >= p.depth
            &&& 1 <= mapped_serial(p, t) <= 16
        }),
{
    lemma_mapping_holds_the_ram(p, t);
    lemma_block_widths_table();
    let ws = block_widths(p.mode, t);
    let i = choose|i: int| 0 <= i < ws.len() && ws[i] == mapped_width(p, t);
    assert(ws[i] == mapped_width(p, t));
}

/// What a mapping costs in logic blocks: per word bit one lookup table for
/// every three chained blocks (rounded to the nearest), plus one decoder
/// table per chained block beyond the first (two chained blocks need one),
/// both twice for a true dual port RAM, rounded up to whole logic blocks of
/// ten tables; LUTRAM adds the logic blocks that hold the memory.
pub proof fn lemma_logic_cost_formula(mode: RamMode, t: RamType, width: nat, serial: nat, parallel: nat)
    requires
        1 <= serial <= 16,
    ensures
        ({
            let f: nat = if mode == RamMode::TrueDualPort {
                2
            } else {
                1
            };
            let dec: nat = if serial <= 2 {
                (serial - 1) as nat
            } else {
                serial
            };
            let luts = f * (width * ((serial + 1) / 3) + dec);
            logic_cost(mode, t, width, serial, parallel) == luts / 10 + (if luts % 10 == 0 {
                0nat
            } else {
                1nat
            }) + (if t == RamType::LUTRAM {
                serial * parallel
            } else {
                0nat
            })
        }),
{
    let f: nat = if mode == RamMode::TrueDualPort {
        2
    } else {
        1
    };
    let dec: nat = if serial <= 2 {
        (serial - 1) as nat
    } else {
        serial
    };
    let luts = f * (width * ((serial + 1) / 3) + dec);
    assert(decoder_luts(serial) == dec);
    assert(port_factor(mode) == f);
    assert((luts + 9) / 10 == luts / 10 + if luts % 10 == 0 {
        0nat
    } else {
        1nat
    });
}

} // verus!
