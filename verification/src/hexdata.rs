//! Hex text handling for the wire protocol: decoding hex-encoded
//! memory blocks, rendering numbers as hex for read commands, and
//! parsing hex numbers such as a symbol's address.

use vstd::prelude::*;
use crate::codec::hex_digit;

verus! {

/// Whether `c` is a hex digit of either case.
pub open spec fn is_hex_ascii(c: u8) -> bool {
    (48 <= c && c <= 57) || (97 <= c && c <= 102) || (65 <= c && c <= 70)
}

/// The value of a hex digit of either case; 0 for any other byte.
pub open spec fn hex_ascii_val(c: u8) -> u8 {
    if 48 <= c && c <= 57 {
        (c - 48) as u8
    } else if 97 <= c && c <= 102 {
        (c - 87) as u8
    } else if 65 <= c && c <= 70 {
        (c - 55) as u8
    } else {
        0
    }
}

/// Whether a byte string is well-formed hex: even length, hex digits
/// throughout.
pub open spec fn hex_decodable(s: Seq<u8>) -> bool {
    &&& s.len() % 2 == 0
    &&& forall|i: int| 0 <= i < s.len() ==> is_hex_ascii(#[trigger] s[i])
}

/// Byte `i` of the decoded form: two hex digits, high nibble first.
pub open spec fn hex_byte_at(s: Seq<u8>, i: int) -> u8 {
    (hex_ascii_val(s[2 * i]) * 16 + hex_ascii_val(s[2 * i + 1])) as u8
}

/// Whether `c` is a hex digit of either case.
pub fn is_hex_ascii_byte(c: u8) -> (r: bool)
    ensures
        r == is_hex_ascii(c),
{
    (48 <= c && c <= 57) || (97 <= c && c <= 102) || (65 <= c && c <= 70)
}

/// The value of a hex digit of either case.
pub fn hex_ascii_val_of(c: u8) -> (r: u8)
    requires
        is_hex_ascii(c),
    ensures
        r == hex_ascii_val(c),
        r < 16,
{
    if 48 <= c && c <= 57 {
        c - 48
    } else if 97 <= c && c <= 102 {
        c - 87
    } else {
        c - 55
    }
}

/// Decodes a hex byte string into the bytes it spells, two digits per
/// byte; `None` exactly when the string is odd-length or holds a
/// non-hex byte.
pub fn decode_hex(s: &Vec<u8>) -> (r: Option<Vec<u8>>)
    ensures
        match r {
            Some(b) => {
                &&& hex_decodable(s@)
                &&& b@.len() == s@.len() / 2
                &&& forall|i: int| 0 <= i < b@.len() ==> #[trigger] b@[i] == hex_byte_at(s@, i)
            },
            None => !hex_decodable(s@),
        },
{
    if s.len() % 2 != 0 {
        return None;
    }
    let mut out: Vec<u8> = Vec::new();
    let mut i: usize = 0;
    while i < s.len()
        invariant
            0 <= i <= s@.len(),
            i % 2 == 0,
            s@.len() % 2 == 0,
            out@.len() == i / 2,
            forall|k: int| 0 <= k < i ==> is_hex_ascii(#[trigger] s@[k]),
            forall|j: int| 0 <= j < out@.len() ==> #[trigger] out@[j] == hex_byte_at(s@, j),
        decreases s.len() - i,
    {
        let hi = s[i];
        let lo = s[i + 1];
        if !is_hex_ascii_byte(hi) || !is_hex_ascii_byte(lo) {
            return None;
        }
        let b = hex_ascii_val_of(hi) * 16 + hex_ascii_val_of(lo);
        out.push(b);
        i = i + 2;
    }
    Some(out)
}

/// The shortest lowercase hex spelling of a number, as `{:x}` writes
/// it: a lone `0` for zero, no leading zeros otherwise.
pub open spec fn hex_repr(n: int) -> Seq<u8>
    decreases n when n >= 0
{
    if n < 16 {
        seq![hex_digit(n as u8)]
    } else {
        hex_repr(n / 16) + seq![hex_digit((n % 16) as u8)]
    }
}

/// Appends the hex spelling of `n` to `out`.
pub fn push_hex_u32(n: u32, out: &mut Vec<u8>)
    ensures
        final(out)@ == old(out)@ + hex_repr(n as int),
    decreases n,
{
    if n < 16 {
        out.push(crate::codec::hex_digit_of(n as u8));
    } else {
        push_hex_u32(n / 16, out);
        out.push(crate::codec::hex_digit_of((n % 16) as u8));
        proof {
            assert(old(out)@ + hex_repr(n as int / 16) + seq![hex_digit((n as int % 16) as u8)]
                =~= old(out)@ + hex_repr(n as int));
        }
    }
}

/// The number a hex digit string spells, high digit first; non-hex
/// bytes count as zero.
pub open spec fn hex_value_spec(s: Seq<u8>) -> int
    decreases s.len(),
{
    if s.len() == 0 {
        0
    } else {
        hex_value_spec(s.drop_last()) * 16 + hex_ascii_val(s.last())
    }
}

proof fn lemma_hex_value_nonneg(s: Seq<u8>)
    ensures
        hex_value_spec(s) >= 0,
    decreases s.len(),
{
    if s.len() > 0 {
        lemma_hex_value_nonneg(s.drop_last());
    }
}

proof fn lemma_hex_prefix_le(s: Seq<u8>, i: int)
    requires
        0 <= i <= s.len(),
    ensures
        hex_value_spec(s.take(i)) <= hex_value_spec(s),
    decreases s.len() - i,
{
    if i < s.len() {
        assert(s.take(i + 1).drop_last() =~= s.take(i));
        lemma_hex_value_nonneg(s.take(i));
        lemma_hex_prefix_le(s, i + 1);
    } else {
        assert(s.take(i) =~= s);
    }
}

/// Parses a hex digit string as a 32-bit number, as a symbol table
/// entry's address field spells one. `None` exactly when the string is
/// empty, holds a non-hex byte, or exceeds `u32::MAX`.
pub fn parse_hex_u32(s: &Vec<u8>) -> (r: Option<u32>)
    ensures
        match r {
            Some(v) => {
                &&& s@.len() > 0
                &&& forall|i: int| 0 <= i < s@.len() ==> is_hex_ascii(#[trigger] s@[i])
                &&& v == hex_value_spec(s@)
            },
            None => s@.len() == 0 || (exists|i: int|
                0 <= i < s@.len() && !is_hex_ascii(#[trigger] s@[i])) || hex_value_spec(s@)
                > u32::MAX,
        },
{
    if s.len() == 0 {
        return None;
    }
    let mut acc: u32 = 0;
    let mut i: usize = 0;
    while i < s.len()
        invariant
            0 <= i <= s@.len(),
            acc == hex_value_spec(s@.take(i as int)),
            forall|k: int| 0 <= k < i ==> is_hex_ascii(#[trigger] s@[k]),
        decreases s.len() - i,
    {
        let c = s[i];
        if !is_hex_ascii_byte(c) {
            return None;
        }
        let d = hex_ascii_val_of(c);
        proof {
            assert(s@.take(i + 1).drop_last() =~= s@.take(i as int));
            assert(s@.take(i + 1).last() == s@[i as int]);
        }
        if acc > (u32::MAX - d as u32) / 16 {
            proof {
                lemma_hex_prefix_le(s@, i + 1);
                lemma_hex_value_nonneg(s@.take(i as int));
            }
            return None;
        }
        acc = acc * 16 + d as u32;
        i = i + 1;
    }
    proof {
        assert(s@.take(s@.len() as int) =~= s@);
    }
    Some(acc)
}

} // verus!
