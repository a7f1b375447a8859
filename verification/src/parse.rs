//! Reading the two input descriptions: one line per logical RAM, and one line
//! per circuit with the logic blocks that its logic uses. Fields are separated
//! by tabs.
use vstd::prelude::*;
use vstd::string::StrSliceExecFns;
use crate::decimal::{is_u32_text, parse_u32_in, u32_text_value};
use crate::ram::{Circuit, ParsedRam, RamMode};

verus! {

/// The pieces of `s` between tabs, in order, as `str::split("\t")` yields them
/// (a line without tabs is one piece; two adjacent tabs enclose an empty one).
pub open spec fn tab_fields(s: Seq<char>) -> Seq<Seq<char>>
    decreases s.len(),
{
    if s.len() == 0 {
        seq![Seq::<char>::empty()]
    } else {
        let init = tab_fields(s.drop_last());
        if s.last() == '\t' {
            init.push(Seq::<char>::empty())
        } else {
            init.update(init.len() - 1, init.last().push(s.last()))
        }
    }
}

/// The mode that a RAM line names in its third field; the names are padded
/// with blanks to the width of the longest.
pub open spec fn mode_named(text: Seq<char>) -> Option<RamMode> {
    if text == "ROM           "@ {
        Some(RamMode::ROM)
    } else if text == "SinglePort    "@ {
        Some(RamMode::SinglePort)
    } else if text == "SimpleDualPort"@ {
        Some(RamMode::SimpleDualPort)
    } else if text == "TrueDualPort  "@ {
        Some(RamMode::TrueDualPort)
    } else {
        None
    }
}

/// A well-formed RAM line: circuit, RAM number, mode, depth and width; more
/// fields may follow and are not read.
pub open spec fn ram_line_ok(line: Seq<char>) -> bool {
    let f = tab_fields(line);
    &&& f.len() >= 5
    &&& is_u32_text(f[0])
    &&& is_u32_text(f[1])
    &&& mode_named(f[2]) is Some
    &&& is_u32_text(f[3])
    &&& is_u32_text(f[4])
}

/// The RAM that a well-formed RAM line describes.
pub open spec fn ram_line_value(line: Seq<char>) -> ParsedRam {
    let f = tab_fields(line);
    ParsedRam {
        circuit_id: u32_text_value(f[0]) as u32,
        ram_id: u32_text_value(f[1]) as u32,
        mode: mode_named(f[2])->0,
        depth: u32_text_value(f[3]) as u32,
        width: u32_text_value(f[4]) as u32,
    }
}

/// A well-formed circuit line: circuit number and logic blocks used; more
/// fields may follow and are not read.
pub open spec fn lb_line_ok(line: Seq<char>) -> bool {
    let f = tab_fields(line);
    &&& f.len() >= 2
    &&& is_u32_text(f[0])
    &&& is_u32_text(f[1])
}

/// The circuit number that a well-formed circuit line gives.
pub open spec fn lb_line_id(line: Seq<char>) -> u32 {
    u32_text_value(tab_fields(line)[0]) as u32
}

/// The logic blocks that a well-formed circuit line gives.
pub open spec fn lb_line_usage(line: Seq<char>) -> u32 {
    u32_text_value(tab_fields(line)[1]) as u32
}

proof fn lemma_tab_fields_nonempty(s: Seq<char>)
    ensures
        tab_fields(s).len() >= 1,
    decreases s.len(),
{
    if s.len() > 0 {
        lemma_tab_fields_nonempty(s.drop_last());
    }
}

/// The characters of `s`, one by one.
fn chars_of(s: &str) -> (v: Vec<char>)
    ensures
        v@ == s@,
{
    let n = s.unicode_len();
    let mut v: Vec<char> = Vec::new();
    let mut i: usize = 0;
    while i < n
        invariant
            n == s@.len(),
            i <= n,
            v@ =~= s@.subrange(0, i as int),
        decreases n - i,
    {
        v.push(s.get_char(i));
        i = i + 1;
    }
    v
}

/// Where each field of `text` starts and ends.
fn field_bounds(text: &Vec<char>) -> (b: Vec<(usize, usize)>)
    ensures
        b@.len() == tab_fields(text@).len(),
        forall|k: int|
            0 <= k < b@.len() ==> {
                &&& (#[trigger] b@[k]).0 <= b@[k].1 <= text@.len()
                &&& text@.subrange(b@[k].0 as int, b@[k].1 as int) == tab_fields(text@)[k]
            },
{
    let mut b: Vec<(usize, usize)> = Vec::new();
    let mut start: usize = 0;
    let mut i: usize = 0;
    while i < text.len()
        invariant
            i <= text@.len(),
            start <= i,
            b@.len() + 1 == tab_fields(text@.take(i as int)).len(),
            forall|k: int|
                0 <= k < b@.len() ==> {
                    &&& (#[trigger] b@[k]).0 <= b@[k].1 <= text@.len()
                    &&& text@.subrange(b@[k].0 as int, b@[k].1 as int) == tab_fields(
                        text@.take(i as int),
                    )[k]
                },
            text@.subrange(start as int, i as int) == tab_fields(text@.take(i as int)).last(),
        decreases text.len() - i,
    {
        let ghost before = tab_fields(text@.take(i as int));
        proof {
            lemma_tab_fields_nonempty(text@.take(i as int));
            assert(text@.take(i + 1).drop_last() =~= text@.take(i as int));
            assert(text@.take(i + 1).last() == text@[i as int]);
        }
        if text[i] == '\t' {
            b.push((start, i));
            start = i + 1;
            assert(text@.subrange(start as int, i + 1) =~= Seq::<char>::empty());
        } else {
            assert(text@.subrange(start as int, i + 1) =~= text@.subrange(start as int, i as int).push(
                text@[i as int],
            ));
        }
        i = i + 1;
    }
    proof {
        lemma_tab_fields_nonempty(text@);
    }
    assert(text@.take(i as int) =~= text@);
    b.push((start, i));
    b
}

/// Whether `text[start..end]` is exactly `pattern`.
fn field_equals(text: &Vec<char>, start: usize, end: usize, pattern: &str) -> (r: bool)
    requires
        start <= end <= text@.len(),
    ensures
        r == (text@.subrange(start as int, end as int) == pattern@),
{
    let n = pattern.unicode_len();
    if end - start != n {
        return false;
    }
    let mut i: usize = 0;
    while i < n
        invariant
            n == pattern@.len(),
            start + n == end <= text@.len(),
            i <= n,
            forall|k: int| 0 <= k < i ==> text@[start + k] == pattern@[k],
        decreases n - i,
    {
        if text[start + i] != pattern.get_char(i) {
            assert(text@.subrange(start as int, end as int)[i as int] != pattern@[i as int]);
            return false;
        }
        i = i + 1;
    }
    assert(text@.subrange(start as int, end as int) =~= pattern@);
    true
}

/// The mode named by `text[start..end]`.
fn mode_in(text: &Vec<char>, start: usize, end: usize) -> (r: Option<RamMode>)
    requires
        start <= end <= text@.len(),
    ensures
        r == mode_named(text@.subrange(start as int, end as int)),
{
    if field_equals(text, start, end, "ROM           ") {
        Some(RamMode::ROM)
    } else if field_equals(text, start, end, "SinglePort    ") {
        Some(RamMode::SinglePort)
    } else if field_equals(text, start, end, "SimpleDualPort") {
        Some(RamMode::SimpleDualPort)
    } else if field_equals(text, start, end, "TrueDualPort  ") {
        Some(RamMode::TrueDualPort)
    } else {
        None
    }
}

/// Reads a RAM line; `None` exactly when it is not well-formed.
pub fn ram_parse_checked(ram_string: &str) -> (r: Option<ParsedRam>)
    ensures
        r.is_some() == ram_line_ok(ram_string@),
        r matches Some(p) ==> p == ram_line_value(ram_string@),
{
    let text = chars_of(ram_string);
    let b = field_bounds(&text);
    if b.len() < 5 {
        return None;
    }
    let circuit_id = parse_u32_in(&text, b[0].0, b[0].1);
    let ram_id = parse_u32_in(&text, b[1].0, b[1].1);
    let mode = mode_in(&text, b[2].0, b[2].1);
    let depth = parse_u32_in(&text, b[3].0, b[3].1);
    let width = parse_u32_in(&text, b[4].0, b[4].1);
    match (circuit_id, ram_id, mode, depth, width) {
        (Some(circuit_id), Some(ram_id), Some(mode), Some(depth), Some(width)) => {
            Some(ParsedRam { circuit_id, ram_id, mode, depth, width })
        },
        _ => None,
    }
}

/// Reads a RAM line: circuit, RAM number, mode, depth and width.
pub fn ram_parse(ram_string: &str) -> (p: ParsedRam)
    requires
        ram_line_ok(ram_string@),
    ensures
        p == ram_line_value(ram_string@),
{
    ram_parse_checked(ram_string).unwrap()
}

/// Reads a circuit line; `None` exactly when it is not well-formed.
pub fn lb_parse_checked(lb_string: &str) -> (r: Option<Circuit>)
    ensures
        r.is_some() == lb_line_ok(lb_string@),
        r matches Some(c) ==> {
            &&& c.id == lb_line_id(lb_string@)
            &&& c.logic_lb_usage == lb_line_usage(lb_string@)
            &&& c.ram_mappings@.len() == 0
        },
{
    let text = chars_of(lb_string);
    let b = field_bounds(&text);
    if b.len() < 2 {
        return None;
    }
    let id = parse_u32_in(&text, b[0].0, b[0].1);
    let logic_lb_usage = parse_u32_in(&text, b[1].0, b[1].1);
    match (id, logic_lb_usage) {
        (Some(id), Some(logic_lb_usage)) => Some(
            Circuit { id, logic_lb_usage, ram_mappings: Vec::new() },
        ),
        _ => None,
    }
}

/// Reads a circuit line: a circuit with its logic blocks and no RAMs yet.
pub fn lb_parse(lb_string: &str) -> (c: Circuit)
    requires
        lb_line_ok(lb_string@),
    ensures
        c.id == lb_line_id(lb_string@),
        c.logic_lb_usage == lb_line_usage(lb_string@),
        c.ram_mappings@.len() == 0,
{
    lb_parse_checked(lb_string).unwrap()
}

} // verus!
