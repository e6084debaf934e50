//! Decimal text of port numbers.

use vstd::prelude::*;

verus! {

/// The ASCII digit for `d` in `0..10`.
pub open spec fn digit_char(d: nat) -> char {
    (48 + d) as char
}

pub open spec fn is_ascii_digit(c: char) -> bool {
    '0' <= c && c <= '9'
}

/// Decimal digits of `n`, most significant first, with no leading zeros.
pub open spec fn decimal_digits(n: nat) -> Seq<char>
    decreases n,
{
    if n < 10 {
        seq![digit_char(n)]
    } else {
        decimal_digits(n / 10).push(digit_char(n % 10))
    }
}

/// Value of a run of ASCII digits.
pub open spec fn digits_value(d: Seq<char>) -> nat
    decreases d.len(),
{
    if d.len() == 0 {
        0
    } else {
        digits_value(d.drop_last()) * 10 + ((d.last() as int - 48) as nat)
    }
}

/// The text after an optional leading `+`.
pub open spec fn unsigned_digits(s: Seq<char>) -> Seq<char> {
    if s.len() > 0 && s[0] == '+' {
        s.drop_first()
    } else {
        s
    }
}

pub open spec fn all_ascii_digits(d: Seq<char>) -> bool {
    forall|i: int| 0 <= i < d.len() ==> is_ascii_digit(#[trigger] d[i])
}

/// What parsing text as a `u16` gives: an optional `+`, then one or more
/// ASCII digits whose value fits in a `u16`.
pub open spec fn parse_u16(s: Seq<char>) -> Option<u16> {
    let d = unsigned_digits(s);
    if d.len() > 0 && all_ascii_digits(d) && digits_value(d) <= u16::MAX {
        Some(digits_value(d) as u16)
    } else {
        None
    }
}

/// The one-character text of digit `d`.
fn digit_text(d: u16) -> (r: &'static str)
    requires
        d < 10,
    ensures
        r@ == seq![digit_char(d as nat)],
{
    proof {
        reveal_strlit("0");
        reveal_strlit("1");
        reveal_strlit("2");
        reveal_strlit("3");
        reveal_strlit("4");
        reveal_strlit("5");
        reveal_strlit("6");
        reveal_strlit("7");
        reveal_strlit("8");
        reveal_strlit("9");
    }
    match d {
        0 => "0",
        1 => "1",
        2 => "2",
        3 => "3",
        4 => "4",
        5 => "5",
        6 => "6",
        7 => "7",
        8 => "8",
        _ => "9",
    }
}

/// The decimal text of `n`: its digits, with no sign, padding or leading
/// zeros (what `u16::to_string` gives).
pub(crate) fn u16_to_decimal(n: u16) -> (r: String)
    ensures
        r@ == decimal_digits(n as nat),
    decreases n,
{
    if n < 10 {
        String::from_str(digit_text(n))
    } else {
        let mut s = u16_to_decimal(n / 10);
        s.append(digit_text(n % 10));
        s
    }
}

/// Parses a port number the way `str::parse::<u16>` does: an optional `+`
/// followed by ASCII digits whose value fits in a `u16`.
pub fn parse_port(text: &str) -> (r: Option<u16>)
    ensures
        r == parse_u16(text@),
{
    let len = text.unicode_len();
    let ghost s = text@;
    let mut start: usize = 0;
    if len > 0 && text.get_char(0) == '+' {
        start = 1;
    }
    let ghost d = if s.len() > 0 && s[0] == '+' { s.drop_first() } else { s };
    proof {
        assert(d =~= s.skip(start as int));
    }
    if start >= len {
        proof {
            assert(d.len() == 0);
        }
        return None;
    }
    let mut value: u32 = 0;
    let mut i = start;
    while i < len
        invariant
            s == text@,
            len == s.len(),
            start <= i <= len,
            d == s.skip(start as int),
            d == unsigned_digits(s),
            value == digits_value(d.take(i - start)),
            value <= u16::MAX,
            forall|j: int| 0 <= j < i - start ==> is_ascii_digit(#[trigger] d[j]),
        decreases len - i,
    {
        let c = text.get_char(i);
        if c < '0' || c > '9' {
            proof {
                assert(d[i - start] == c);
                assert(!is_ascii_digit(d[i - start]));
                assert(!all_ascii_digits(d));
            }
            return None;
        }
        let ghost t = d.take(i - start + 1);
        proof {
            assert(t.drop_last() =~= d.take(i - start));
            assert(t.last() == c);
        }
        value = value * 10 + (c as u32 - 48);
        proof {
            assert(value == digits_value(t));
        }
        if value > 65535 {
            proof {
                if all_ascii_digits(d) {
                    lemma_digits_value_prefix(d, (i - start + 1) as nat);
                }
            }
            return None;
        }
        i = i + 1;
    }
    proof {
        assert(d.take(i - start) =~= d);
    }
    Some(value as u16)
}

/// A longer run of digits is worth at least as much as its start.
proof fn lemma_digits_value_prefix(d: Seq<char>, k: nat)
    requires
        k <= d.len(),
        all_ascii_digits(d),
    ensures
        digits_value(d.take(k as int)) <= digits_value(d),
    decreases d.len() - k,
{
    if k < d.len() {
        let t = d.take((k + 1) as int);
        assert(t.drop_last() =~= d.take(k as int));
        assert(is_ascii_digit(t.last()));
        lemma_digits_value_prefix(d, k + 1);
    } else {
        assert(d.take(k as int) =~= d);
    }
}

} // verus!
