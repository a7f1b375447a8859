//! Decimal text: the unsigned integers that `str::parse::<u32>` accepts, and
//! the digits that formatting with `{}` produces.
use vstd::prelude::*;

verus! {

/// A decimal digit.
pub open spec fn is_digit(c: char) -> bool {
    '0' <= c && c <= '9'
}

/// Every character of `s` is a decimal digit.
pub open spec fn all_digits(s: Seq<char>) -> bool {
    forall|i: int| 0 <= i < s.len() ==> is_digit(#[trigger] s[i])
}

/// The number that the digits `s` denote, most significant first.
pub open spec fn digits_value(s: Seq<char>) -> nat
    decreases s.len(),
{
    if s.len() == 0 {
        0
    } else {
        digits_value(s.drop_last()) * 10 + ((s.last() as int - '0' as int) as nat)
    }
}

/// The digits of `s` after an optional leading `+`.
pub open spec fn unsigned_digits(s: Seq<char>) -> Seq<char> {
    if s.len() > 0 && s[0] == '+' {
        s.drop_first()
    } else {
        s
    }
}

/// The texts that denote a `u32`: an optional `+`, then at least one decimal
/// digit, denoting at most `u32::MAX` (leading zeros allowed).
pub open spec fn is_u32_text(s: Seq<char>) -> bool {
    let d = unsigned_digits(s);
    &&& d.len() > 0
    &&& all_digits(d)
    &&& digits_value(d) <= u32::MAX
}

/// The value of a text for which `is_u32_text` holds.
pub open spec fn u32_text_value(s: Seq<char>) -> nat {
    digits_value(unsigned_digits(s))
}

proof fn lemma_digits_value_push(s: Seq<char>, c: char)
    ensures
        digits_value(s.push(c)) == digits_value(s) * 10 + ((c as int - '0' as int) as nat),
{
    assert(s.push(c).drop_last() =~= s);
}

/// Reads the decimal number in `text[start..end]`; `None` exactly where
/// `str::parse::<u32>` reports an error.
pub fn parse_u32_in(text: &Vec<char>, start: usize, end: usize) -> (r: Option<u32>)
    requires
        start <= end <= text.len(),
    ensures
        r.is_some() <==> is_u32_text(text@.subrange(start as int, end as int)),
        r matches Some(v) ==> v == u32_text_value(text@.subrange(start as int, end as int)),
{
    let ghost s = text@.subrange(start as int, end as int);
    let mut i = start;
    if i < end && text[i] == '+' {
        i = i + 1;
    }
    let ghost d = unsigned_digits(s);
    assert(d =~= text@.subrange(i as int, end as int));
    if i == end {
        return None;
    }
    let first = i;
    let mut acc: u64 = 0;
    while i < end
        invariant
            start <= first <= i <= end <= text.len(),
            d =~= text@.subrange(first as int, end as int),
            d == unsigned_digits(text@.subrange(start as int, end as int)),
            all_digits(text@.subrange(first as int, i as int)),
            acc == digits_value(text@.subrange(first as int, i as int)),
            acc <= u32::MAX,
        decreases end - i,
    {
        let c = text[i];
        if !('0' <= c && c <= '9') {
            assert(d[i - first] == c);
            assert(!is_digit(d[i - first]));
            return None;
        }
        proof {
            let p = text@.subrange(first as int, i as int);
            assert(text@.subrange(first as int, i + 1) =~= p.push(c));
            lemma_digits_value_push(p, c);
        }
        let digit = (c as u32 - '0' as u32) as u64;
        acc = acc * 10 + digit;
        i = i + 1;
        if acc > u32::MAX as u64 {
            proof {
                if all_digits(d) {
                    lemma_digits_value_prefix_le(d, (i - first) as int);
                }
            }
            assert(text@.subrange(first as int, i as int) =~= d.subrange(0, (i - first) as int));
            return None;
        }
    }
    assert(text@.subrange(first as int, i as int) =~= d);
    Some(acc as u32)
}

/// A number never exceeds the number that its digits followed by more digits denote.
proof fn lemma_digits_value_prefix_le(d: Seq<char>, k: int)
    requires
        0 <= k <= d.len(),
        all_digits(d),
    ensures
        digits_value(d.subrange(0, k)) <= digits_value(d),
    decreases d.len() - k,
{
    if k < d.len() {
        lemma_digits_value_prefix_le(d, k + 1);
        let p = d.subrange(0, k);
        assert(d.subrange(0, k + 1) =~= p.push(d[k]));
        lemma_digits_value_push(p, d[k]);
    } else {
        assert(d.subrange(0, k) =~= d);
    }
}

/// The character of the decimal digit `d` (`d < 10`).
pub open spec fn digit_char(d: nat) -> char {
    ('0' as int + d) as char
}

/// The digits that `{}` writes for `n`: no sign, no leading zeros.
pub open spec fn decimal_text(n: nat) -> Seq<char>
    decreases n,
{
    if n < 10 {
        seq![digit_char(n)]
    } else {
        decimal_text(n / 10).push(digit_char(n % 10))
    }
}

/// Appends the decimal digits of `n` to `out`.
pub fn push_decimal(out: &mut String, n: u64)
    ensures
        final(out)@ == old(out)@ + decimal_text(n as nat),
    decreases n,
{
    if n >= 10 {
        push_decimal(out, n / 10);
    }
    let d = n % 10;
    let ghost c = digit_char(d as nat);
    let ghost before = out@;
    proof {
        reveal_strlit("0");
        reveal_strlit("1");
        reveal_strlit("2");
        reveal_strlit("3");
        reveal_strlit("4");
        reveal_strlit("5");
        reveal_strlit("6");
        reveal_strlit("7");
        reveal_strlit("8");
        reveal_strlit("9");
    }
    if d == 0 {
        out.append("0");
    } else if d == 1 {
        out.append("1");
    } else if d == 2 {
        out.append("2");
    } else if d == 3 {
        out.append("3");
    } else if d == 4 {
        out.append("4");
    } else if d == 5 {
        out.append("5");
    } else if d == 6 {
        out.append("6");
    } else if d == 7 {
        out.append("7");
    } else if d == 8 {
        out.append("8");
    } else {
        out.append("9");
    }
    assert(out@ =~= before.push(c));
    proof {
        if n >= 10 {
            assert(decimal_text(n as nat) == decimal_text((n / 10) as nat).push(c));
        } else {
            assert(decimal_text(n as nat) == seq![c]);
        }
        assert(final(out)@ =~= old(out)@ + decimal_text(n as nat));
    }
}

proof fn lemma_decimal_text_digits(n: nat)
    ensures
        decimal_text(n).len() > 0,
        all_digits(decimal_text(n)),
        digits_value(decimal_text(n)) == n,
    decreases n,
{
    let t = decimal_text(n);
    assert(digit_char(n % 10) as int == '0' as int + n % 10);
    assert(t.last() == digit_char(n % 10));
    assert(digits_value(t) == digits_value(t.drop_last()) * 10 + (n % 10));
    if n < 10 {
        assert(t.drop_last() =~= Seq::<char>::empty());
    } else {
        lemma_decimal_text_digits(n / 10);
        assert(t.drop_last() =~= decimal_text(n / 10));
        assert(n == (n / 10) * 10 + n % 10);
        assert forall|i: int| 0 <= i < t.len() implies is_digit(#[trigger] t[i]) by {
            if i < t.len() - 1 {
                assert(t[i] == decimal_text(n / 10)[i]);
            }
        }
    }
}

/// Reading back what formatting wrote gives the number again: the digits that
/// `{}` writes for a `u32` are text that parses as a `u32`, with the same value.
pub proof fn lemma_decimal_round_trip(n: u32)
    ensures
        is_u32_text(decimal_text(n as nat)),
        u32_text_value(decimal_text(n as nat)) == n,
{
    lemma_decimal_text_digits(n as nat);
    let t = decimal_text(n as nat);
    assert(is_digit(t[0]));
    assert(unsigned_digits(t) == t);
}

} // verus!
