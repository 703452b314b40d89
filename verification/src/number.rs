//! Decimal numbers in text, read the way `str::parse` reads unsigned
//! integers: an optional `+`, then at least one digit.
use vstd::prelude::*;
use crate::bencode_spec::{all_digits, digits_value, lemma_digits_value_grows, lemma_digits_value_push};

verus! {

/// The number that `s` spells, if it is an optional `+` and then one or more
/// decimal digits.
pub open spec fn decimal_value(s: Seq<u8>) -> Option<nat> {
    let d = if s.len() > 0 && s[0] == 43 {
        s.subrange(1, s.len() as int)
    } else {
        s
    };
    if d.len() > 0 && all_digits(d) {
        Some(digits_value(d))
    } else {
        None
    }
}

/// Reads an unsigned decimal number no greater than `max`.
pub fn parse_decimal(s: &[u8], max: u64) -> (r: Option<u64>)
    ensures
        match r {
            Some(n) => decimal_value(s@) == Some(n as nat) && n <= max,
            None => !(decimal_value(s@) matches Some(v) && v <= max),
        },
{
    let start: usize = if s.len() > 0 && s[0] == 43u8 {
        1
    } else {
        0
    };
    let ghost d = s@.subrange(start as int, s@.len() as int);
    proof {
        if start == 0 {
            assert(d =~= s@);
        }
    }
    if s.len() == start {
        return None;
    }
    proof {
        if start == 1 {
            assert(d == s@.subrange(1, s@.len() as int));
        }
    }
    let mut value: u128 = 0;
    let mut i = start;
    while i < s.len()
        invariant
            start <= i <= s@.len(),
            d == s@.subrange(start as int, s@.len() as int),
            start == (if s@.len() > 0 && s@[0] == 43 { 1int } else { 0int }),
            start < s@.len(),
            decimal_value(s@) == (if d.len() > 0 && all_digits(d) { Some(digits_value(d)) } else { None }),
            all_digits(s@.subrange(start as int, i as int)),
            value == digits_value(s@.subrange(start as int, i as int)),
            value <= max,
        decreases s.len() - i,
    {
        let c = s[i];
        let ghost prefix = s@.subrange(start as int, i as int);
        if c < 48u8 || c > 57u8 {
            proof {
                assert(d[i - start] == c);
            }
            return None;
        }
        proof {
            assert(s@.subrange(start as int, i + 1) =~= prefix.push(c));
            lemma_digits_value_push(prefix, c);
        }
        value = value * 10 + (c - 48) as u128;
        i = i + 1;
        if value > max as u128 {
            proof {
                if all_digits(d) {
                    lemma_digits_value_grows(d, i - start);
                    assert(d.subrange(0, i - start) =~= s@.subrange(start as int, i as int));
                }
            }
            return None;
        }
    }
    Some(value as u64)
}

/// Reads a port number.
pub fn parse_u16(s: &[u8]) -> (r: Option<u16>)
    ensures
        match r {
            Some(n) => decimal_value(s@) == Some(n as nat),
            None => !(decimal_value(s@) matches Some(v) && v <= u16::MAX),
        },
{
    match parse_decimal(s, 65535) {
        Some(n) => Some(n as u16),
        None => None,
    }
}

} // verus!
