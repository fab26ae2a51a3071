use vstd::prelude::*;
use crate::types::Key;

verus! {

/// The value of a hexadecimal digit, if `c` is one.
pub open spec fn hex_digit(c: u8) -> Option<int> {
    if 48 <= c <= 57 {
        Some(c - 48)
    } else if 97 <= c <= 102 {
        Some(c - 87)
    } else if 65 <= c <= 70 {
        Some(c - 55)
    } else {
        None
    }
}

/// The value of a string of hexadecimal digits, most significant first.
pub open spec fn hex_value(s: Seq<u8>) -> Option<int>
    decreases s.len(),
{
    if s.len() == 0 {
        Some(0)
    } else {
        match (hex_value(s.drop_last()), hex_digit(s.last())) {
            (Some(v), Some(d)) => Some(16 * v + d),
            _ => None,
        }
    }
}

/// The digits of a key: an optional `+`, then at least one digit.
pub open spec fn key_digits(s: Seq<u8>) -> Seq<u8> {
    if s.len() > 0 && s[0] == 43u8 { s.skip(1) } else { s }
}

/// The 128-bit number that `s` spells in hexadecimal, if it is one.
pub open spec fn key_value(s: Seq<u8>) -> Option<int> {
    let digits = key_digits(s);
    if digits.len() == 0 {
        None
    } else {
        match hex_value(digits) {
            Some(v) => if v < 0x1_0000_0000_0000_0000_0000_0000_0000_0000 { Some(v) } else { None },
            None => None,
        }
    }
}

proof fn lemma_hex_value_nonneg(s: Seq<u8>)
    requires
        hex_value(s) is Some,
    ensures
        hex_value(s)->Some_0 >= 0,
    decreases s.len(),
{
    if s.len() > 0 {
        lemma_hex_value_nonneg(s.drop_last());
    }
}

proof fn lemma_hex_value_prefix(s: Seq<u8>, i: int)
    requires
        0 <= i <= s.len(),
        hex_value(s.take(i)) is None,
    ensures
        hex_value(s) is None,
    decreases s.len() - i,
{
    if i < s.len() {
        assert(s.take(i + 1).drop_last() =~= s.take(i));
        lemma_hex_value_prefix(s, i + 1);
    } else {
        assert(s.take(i) =~= s);
    }
}

proof fn lemma_hex_value_grows(s: Seq<u8>, i: int)
    requires
        0 <= i <= s.len(),
        hex_value(s) is Some,
    ensures
        hex_value(s.take(i)) is Some,
        hex_value(s.take(i))->Some_0 <= hex_value(s)->Some_0,
    decreases s.len() - i,
{
    if i < s.len() {
        lemma_hex_value_grows(s, i + 1);
        assert(s.take(i + 1).drop_last() =~= s.take(i));
        lemma_hex_value_nonneg(s.take(i));
    } else {
        assert(s.take(i) =~= s);
    }
}

/// Parses a key written as up to 128 bits of hexadecimal: the low word holds
/// the low 64 bits, the high word the rest. `None` when `s` is not such a number.
pub fn parse_key(s: &[u8]) -> (r: Option<Key>)
    ensures
        match key_value(s@) {
            Some(v) => r matches Some(k) && k[0] == v % 0x1_0000_0000_0000_0000 && k[1] == v / 0x1_0000_0000_0000_0000,
            None => r is None,
        },
{
    let start: usize = if s.len() > 0 && s[0] == 43u8 { 1 } else { 0 };
    let ghost digits = key_digits(s@);
    assert(digits =~= s@.skip(start as int));
    if start >= s.len() {
        return None;
    }
    let mut v: u128 = 0;
    let mut i = start;
    assert(digits.take(0) =~= Seq::<u8>::empty());
    while i < s.len()
        invariant
            start <= i <= s@.len(),
            digits == s@.skip(start as int),
            digits == key_digits(s@),
            digits.len() > 0,
            hex_value(digits.take(i - start)) == Some(v as int),
        decreases s@.len() - i,
    {
        let c = s[i];
        let d: u8 = if 48 <= c && c <= 57 {
            c - 48
        } else if 97 <= c && c <= 102 {
            c - 87
        } else if 65 <= c && c <= 70 {
            c - 55
        } else {
            assert(digits.take(i + 1 - start).drop_last() =~= digits.take(i - start));
            assert(hex_value(digits.take(i + 1 - start)) is None);
            proof {
                lemma_hex_value_prefix(digits, i + 1 - start);
            }
            return None;
        };
        assert(digits.take(i + 1 - start).drop_last() =~= digits.take(i - start));
        if v > (u128::MAX - d as u128) / 16 {
            assert(16 * v + d >= 0x1_0000_0000_0000_0000_0000_0000_0000_0000) by (nonlinear_arith)
                requires
                    v > (0xffff_ffff_ffff_ffff_ffff_ffff_ffff_ffffu128 - d as u128) / 16,
                    d < 16,
            ;
            assert(digits.take(i + 1 - start).last() == c);
            assert(hex_value(digits.take(i + 1 - start)) == Some(16 * (v as int) + d));
            proof {
                if hex_value(digits) is Some {
                    lemma_hex_value_grows(digits, i + 1 - start);
                }
            }
            return None;
        }
        v = v * 16 + d as u128;
        i = i + 1;
    }
    assert(digits.take(digits.len() as int) =~= digits);
    let lo = v as u64;
    let hi = (v >> 64u128) as u64;
    assert(lo == v % 0x1_0000_0000_0000_0000) by (bit_vector)
        requires
            lo == v as u64,
    ;
    assert(hi == v / 0x1_0000_0000_0000_0000) by (bit_vector)
        requires
            hi == (v >> 64u128) as u64,
    ;
    Some([lo, hi])
}

} // verus!
