//! Scanning a symbol table listing for an address: given the text a
//! toolchain's symbol lister printed and a symbol name fragment, find
//! the first line mentioning the fragment and parse that line's first
//! field as a 32-bit hex address. Running the lister is the outside
//! collaborator's job; this module only reads its output.

use vstd::prelude::*;
use crate::hexdata::{hex_value_spec, is_hex_ascii, parse_hex_u32};

verus! {

/// The newline byte that ends a line.
pub const NEWLINE: u8 = 10;

/// Whether `c` separates fields within a line.
pub open spec fn is_field_sep(c: u8) -> bool {
    c == 32 || c == 9 || c == 13
}

/// Whether `p` occurs in `t` starting at `k`.
pub open spec fn match_at(t: Seq<u8>, p: Seq<u8>, k: int) -> bool {
    0 <= k && k + p.len() <= t.len() && t.subrange(k, k + p.len()) == p
}

/// The first occurrence of `p` in `t` at or after `i`, if any.
pub open spec fn first_match_from(t: Seq<u8>, p: Seq<u8>, i: int) -> Option<int>
    decreases t.len() + 1 - i
        when 0 <= i <= t.len() + 1
{
    if i + p.len() > t.len() {
        None
    } else if match_at(t, p, i) {
        Some(i)
    } else {
        first_match_from(t, p, i + 1)
    }
}

/// Where the line holding position `k` begins: just after the previous
/// newline.
pub open spec fn line_start(t: Seq<u8>, k: int) -> int
    decreases k
        when 0 <= k <= t.len()
{
    if k == 0 {
        0
    } else if t[k - 1] == NEWLINE {
        k
    } else {
        line_start(t, k - 1)
    }
}

/// Where the line holding position `k` ends: at the next newline, or
/// at the end of the text.
pub open spec fn line_end(t: Seq<u8>, k: int) -> int
    decreases t.len() - k
        when 0 <= k <= t.len()
{
    if k == t.len() {
        k
    } else if t[k] == NEWLINE {
        k
    } else {
        line_end(t, k + 1)
    }
}

/// The first position in `[i, e)` that is not a field separator, or
/// `e`.
pub open spec fn skip_seps(t: Seq<u8>, i: int, e: int) -> int
    decreases e - i
        when 0 <= i <= e <= t.len()
{
    if i == e {
        e
    } else if is_field_sep(t[i]) {
        skip_seps(t, i + 1, e)
    } else {
        i
    }
}

/// The first field-separator position in `[i, e)`, or `e`.
pub open spec fn field_end(t: Seq<u8>, i: int, e: int) -> int
    decreases e - i
        when 0 <= i <= e <= t.len()
{
    if i == e {
        e
    } else if is_field_sep(t[i]) {
        i
    } else {
        field_end(t, i + 1, e)
    }
}

/// The hex digits of an address field: the field as it stands, or with
/// one leading `0x` stripped.
pub open spec fn address_digits(field: Seq<u8>) -> Seq<u8> {
    if field.len() >= 2 && field[0] == 48 && field[1] == 120 {
        field.skip(2)
    } else {
        field
    }
}

/// The address the listing gives for the symbol: on the first line
/// where the fragment occurs, the first field read as 32-bit hex;
/// nothing when the fragment never occurs, the line opens with no
/// field, or the field is not hex that fits 32 bits.
pub open spec fn symbol_address_spec(t: Seq<u8>, p: Seq<u8>) -> Option<u32> {
    match first_match_from(t, p, 0) {
        None => None,
        Some(k) => {
            let s = line_start(t, k);
            let e = line_end(t, k);
            let fs = skip_seps(t, s, e);
            let fe = field_end(t, fs, e);
            let digits = address_digits(t.subrange(fs, fe));
            if digits.len() > 0 && (forall|i: int|
                0 <= i < digits.len() ==> is_hex_ascii(#[trigger] digits[i])) && hex_value_spec(
                digits,
            ) <= u32::MAX {
                Some(hex_value_spec(digits) as u32)
            } else {
                None
            }
        },
    }
}

/// Whether `pattern` occurs in `text` starting at `k`.
fn match_at_pos(text: &Vec<u8>, pattern: &Vec<u8>, k: usize) -> (r: bool)
    requires
        k + pattern@.len() <= text@.len(),
    ensures
        r == match_at(text@, pattern@, k as int),
{
    let n = text.len();
    let mut j: usize = 0;
    while j < pattern.len()
        invariant
            0 <= j <= pattern@.len(),
            k + pattern@.len() <= text@.len(),
            n == text@.len(),
            forall|l: int| 0 <= l < j ==> text@[k + l] == pattern@[l],
        decreases pattern.len() - j,
    {
        if text[k + j] != pattern[j] {
            proof {
                assert(text@.subrange(k as int, k + pattern@.len())[j as int] != pattern@[j as int]);
            }
            return false;
        }
        j = j + 1;
    }
    proof {
        assert(text@.subrange(k as int, k + pattern@.len()) =~= pattern@);
    }
    true
}

/// Finds the first occurrence of `pattern` in `text`.
fn find_first_match(text: &Vec<u8>, pattern: &Vec<u8>) -> (r: Option<usize>)
    ensures
        match r {
            Some(k) => first_match_from(text@, pattern@, 0) == Some(k as int) && k
                + pattern@.len() <= text@.len() && match_at(text@, pattern@, k as int),
            None => first_match_from(text@, pattern@, 0) is None,
        },
{
    let n = text.len();
    let m = pattern.len();
    if m > n {
        return None;
    }
    if m == 0 {
        proof {
            assert(text@.subrange(0, 0) =~= pattern@);
        }
        return Some(0);
    }
    let mut i: usize = 0;
    while i <= n - m
        invariant
            1 <= m <= n,
            0 <= i <= n - m + 1,
            n == text@.len(),
            m == pattern@.len(),
            first_match_from(text@, pattern@, 0) == first_match_from(text@, pattern@, i as int),
        decreases n - m + 1 - i,
    {
        if match_at_pos(text, pattern, i) {
            return Some(i);
        }
        i = i + 1;
    }
    assert(first_match_from(text@, pattern@, i as int) is None);
    None
}

/// Finds the address the listing gives for the symbol fragment: scans
/// for the fragment's first occurrence, walks out to that line's
/// bounds, and parses the line's first field as hex.
#[verifier::loop_isolation(false)]
pub fn find_symbol_address(text: &Vec<u8>, symbol: &Vec<u8>) -> (r: Option<u32>)
    ensures
        r == symbol_address_spec(text@, symbol@),
{
    let k: usize = match find_first_match(text, symbol) {
        None => {
            return None;
        },
        Some(k) => k,
    };
    assert(first_match_from(text@, symbol@, 0) == Some(k as int));
    let mut s: usize = k;
    while s > 0 && text[s - 1] != NEWLINE
        invariant
            0 <= s <= k <= text@.len(),
            line_start(text@, k as int) == line_start(text@, s as int),
        decreases s,
    {
        s = s - 1;
    }
    assert(line_start(text@, k as int) == s as int);
    let mut e: usize = k;
    while e < text.len() && text[e] != NEWLINE
        invariant
            k <= e <= text@.len(),
            line_end(text@, k as int) == line_end(text@, e as int),
        decreases text@.len() - e,
    {
        e = e + 1;
    }
    assert(line_end(text@, k as int) == e as int);
    let mut fs: usize = s;
    while fs < e && is_field_sep_byte(text[fs])
        invariant
            s <= fs <= e,
            skip_seps(text@, s as int, e as int) == skip_seps(text@, fs as int, e as int),
        decreases e - fs,
    {
        fs = fs + 1;
    }
    assert(skip_seps(text@, s as int, e as int) == fs as int);
    let mut fe: usize = fs;
    while fe < e && !is_field_sep_byte(text[fe])
        invariant
            fs <= fe <= e,
            field_end(text@, fs as int, e as int) == field_end(text@, fe as int, e as int),
        decreases e - fe,
    {
        fe = fe + 1;
    }
    assert(field_end(text@, fs as int, e as int) == fe as int);
    let mut field: Vec<u8> = Vec::new();
    let mut j: usize = fs;
    while j < fe
        invariant
            fs <= j <= fe <= text@.len(),
            field@ == text@.subrange(fs as int, j as int),
        decreases fe - j,
    {
        field.push(text[j]);
        proof {
            assert(text@.subrange(fs as int, j as int) + seq![text@[j as int]] =~= text@.subrange(
                fs as int,
                j + 1,
            ));
        }
        j = j + 1;
    }
    let digits: Vec<u8> = if field.len() >= 2 && field[0] == 48 && field[1] == 120 {
        let mut d: Vec<u8> = Vec::new();
        let mut l: usize = 2;
        while l < field.len()
            invariant
                2 <= l <= field@.len(),
                d@ == field@.subrange(2, l as int),
            decreases field.len() - l,
        {
            d.push(field[l]);
            proof {
                assert(field@.subrange(2, l as int) + seq![field@[l as int]] =~= field@.subrange(
                    2,
                    l + 1,
                ));
            }
            l = l + 1;
        }
        proof {
            assert(d@ =~= field@.skip(2));
        }
        d
    } else {
        field
    };
    proof {
        assert(digits@ == address_digits(text@.subrange(fs as int, fe as int)));
    }
    parse_hex_u32(&digits)
}

/// Whether `c` separates fields within a line.
fn is_field_sep_byte(c: u8) -> (r: bool)
    ensures
        r == is_field_sep(c),
{
    c == 32 || c == 9 || c == 13
}

} // verus!
