//! Hexadecimal text: the ciphertext is spelled out as two lowercase digits
//! per byte before it is distributed, and decoded back after collection.

use vstd::prelude::*;

verus! {

/// A byte that is an ASCII hexadecimal digit, either case.
pub open spec fn is_hex_char(c: u8) -> bool {
    (48 <= c <= 57) || (97 <= c <= 102) || (65 <= c <= 70)
}

/// A byte that is a lowercase ASCII hexadecimal digit, `0-9a-f`.
pub open spec fn is_lower_hex_char(c: u8) -> bool {
    (48 <= c <= 57) || (97 <= c <= 102)
}

/// Numeric value of an ASCII hexadecimal digit.
pub open spec fn hex_char_value(c: u8) -> u8
    recommends
        is_hex_char(c),
{
    if 48 <= c <= 57 {
        (c - 48) as u8
    } else if 97 <= c <= 102 {
        (c - 87) as u8
    } else {
        (c - 55) as u8
    }
}

/// Lowercase ASCII digit of a nibble value below sixteen.
pub open spec fn hex_digit(n: u8) -> u8
    recommends
        n < 16,
{
    if n < 10 {
        (n + 48) as u8
    } else {
        (n + 87) as u8
    }
}

/// Hexadecimal encoding of a byte sequence: each byte becomes two lowercase
/// digits, most-significant nibble first.
pub open spec fn hex_encoding(b: Seq<u8>) -> Seq<u8> {
    Seq::new(
        2 * b.len(),
        |i: int|
            if i % 2 == 0 {
                hex_digit(b[i / 2] / 16)
            } else {
                hex_digit(b[i / 2] % 16)
            },
    )
}

/// Every byte of the sequence is a hexadecimal digit.
pub open spec fn all_hex_chars(s: Seq<u8>) -> bool {
    forall|i: int| 0 <= i < s.len() ==> is_hex_char(#[trigger] s[i])
}

/// Decoding of hexadecimal text: `None` when the length is odd or a byte is
/// no hexadecimal digit, else the byte each pair of digits spells.
pub open spec fn hex_decoding(s: Seq<u8>) -> Option<Seq<u8>> {
    if s.len() % 2 == 0 && all_hex_chars(s) {
        Some(
            Seq::new(
                s.len() / 2,
                |i: int| (16 * hex_char_value(s[2 * i]) + hex_char_value(s[2 * i + 1])) as u8,
            ),
        )
    } else {
        None
    }
}

/// Hexadecimal text that does not decode.
#[derive(Clone, Copy, Debug, PartialEq, Eq, Structural)]
pub struct DecodeError;

fn is_hex_char_byte(c: u8) -> (r: bool)
    ensures
        r == is_hex_char(c),
{
    (48 <= c && c <= 57) || (97 <= c && c <= 102) || (65 <= c && c <= 70)
}

fn hex_char_value_byte(c: u8) -> (r: u8)
    requires
        is_hex_char(c),
    ensures
        r == hex_char_value(c),
        r < 16,
{
    if 48 <= c && c <= 57 {
        c - 48
    } else if 97 <= c && c <= 102 {
        c - 87
    } else {
        c - 55
    }
}

fn hex_digit_byte(n: u8) -> (r: u8)
    requires
        n < 16,
    ensures
        r == hex_digit(n),
{
    if n < 10 {
        n + 48
    } else {
        n + 87
    }
}

/// Encodes bytes as lowercase hexadecimal text, two digits per byte.
pub fn hex_encode(bytes: &Vec<u8>) -> (r: Vec<u8>)
    ensures
        r@ == hex_encoding(bytes@),
        r@.len() == 2 * bytes@.len(),
{
    let mut r: Vec<u8> = Vec::new();
    let mut i: usize = 0;
    while i < bytes.len()
        invariant
            i <= bytes@.len(),
            r@.len() == 2 * i,
            forall|j: int| 0 <= j < r@.len() ==> r@[j] == hex_encoding(bytes@)[j],
        decreases bytes@.len() - i,
    {
        let b = bytes[i];
        r.push(hex_digit_byte(b / 16));
        r.push(hex_digit_byte(b % 16));
        i = i + 1;
    }
    proof {
        assert(r@ =~= hex_encoding(bytes@));
    }
    r
}

/// Decodes hexadecimal text, either case, back into bytes; fails exactly when
/// the length is odd or a byte is no hexadecimal digit.
pub fn hex_decode(s: &Vec<u8>) -> (r: Result<Vec<u8>, DecodeError>)
    ensures
        match r {
            Ok(v) => hex_decoding(s@) == Some(v@),
            Err(_) => hex_decoding(s@) is None,
        },
{
    if s.len() % 2 != 0 {
        return Err(DecodeError);
    }
    let mut out: Vec<u8> = Vec::new();
    let mut i: usize = 0;
    while i < s.len()
        invariant
            s@.len() % 2 == 0,
            i % 2 == 0,
            i <= s@.len(),
            out@.len() == i / 2,
            forall|j: int| 0 <= j < i ==> is_hex_char(#[trigger] s@[j]),
            forall|k: int|
                0 <= k < out@.len() ==> out@[k] == (16 * hex_char_value(s@[2 * k]) + hex_char_value(
                    s@[2 * k + 1],
                )) as u8,
        decreases s@.len() - i,
    {
        let c_hi = s[i];
        let c_lo = s[i + 1];
        if !is_hex_char_byte(c_hi) || !is_hex_char_byte(c_lo) {
            proof {
                assert(!all_hex_chars(s@)) by {
                    if !is_hex_char(s@[i as int]) {
                        assert(!(is_hex_char(s@[i as int])));
                    } else {
                        assert(!(is_hex_char(s@[i + 1])));
                    }
                }
            }
            return Err(DecodeError);
        }
        out.push(16 * hex_char_value_byte(c_hi) + hex_char_value_byte(c_lo));
        i = i + 2;
    }
    proof {
        let decoded = Seq::new(
            s@.len() / 2,
            |k: int| (16 * hex_char_value(s@[2 * k]) + hex_char_value(s@[2 * k + 1])) as u8,
        );
        assert(out@ =~= decoded);
    }
    Ok(out)
}

/// A hexadecimal digit decodes back to the nibble it encodes, is never the
/// zero byte, and is a lowercase digit.
pub proof fn lemma_hex_digit(n: u8)
    requires
        n < 16,
    ensures
        is_hex_char(hex_digit(n)),
        is_lower_hex_char(hex_digit(n)),
        hex_digit(n) != 0,
        hex_char_value(hex_digit(n)) == n,
{
}

/// Encoding invertibility: decoding the hexadecimal encoding of any byte
/// sequence yields that sequence back; the encoding is twice as long as the
/// input and holds nothing but lowercase hexadecimal digits, so in particular
/// no zero byte.
pub proof fn lemma_hex_round_trip(b: Seq<u8>)
    ensures
        hex_encoding(b).len() == 2 * b.len(),
        forall|i: int|
            0 <= i < hex_encoding(b).len() ==> is_lower_hex_char(#[trigger] hex_encoding(b)[i]),
        forall|i: int| 0 <= i < hex_encoding(b).len() ==> #[trigger] hex_encoding(b)[i] != 0,
        hex_decoding(hex_encoding(b)) == Some(b),
{
    let e = hex_encoding(b);
    assert forall|i: int| 0 <= i < e.len() implies is_lower_hex_char(#[trigger] e[i]) && e[i]
        != 0 by {
        if i % 2 == 0 {
            lemma_hex_digit(b[i / 2] / 16);
        } else {
            lemma_hex_digit(b[i / 2] % 16);
        }
    }
    assert(all_hex_chars(e));
    let decoded = Seq::new(
        e.len() / 2,
        |k: int| (16 * hex_char_value(e[2 * k]) + hex_char_value(e[2 * k + 1])) as u8,
    );
    assert forall|k: int| 0 <= k < b.len() implies decoded[k] == b[k] by {
        assert(e[2 * k] == hex_digit(b[k] / 16));
        assert(e[2 * k + 1] == hex_digit(b[k] % 16));
        lemma_hex_digit(b[k] / 16);
        lemma_hex_digit(b[k] % 16);
        assert(16 * (b[k] / 16) + b[k] % 16 == b[k]);
    }
    assert(decoded =~= b);
}

} // verus!
