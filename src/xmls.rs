//! XMLS: XMLN glyphs packed two to a byte.

use vstd::prelude::*;

use crate::digits::{digit_char, digit_value, from_digit_char, is_digit, to_digit_char};
use crate::text::{chars_of, string_of};
use crate::xflate::XFlateError;

verus! {

/// The four-bit code of an XMLN glyph: space, `T`, `A`, then the ten digits.
pub open spec fn nibble_of(c: char) -> Option<u8> {
    if c == ' ' {
        Some(1u8)
    } else if c == 'T' {
        Some(2u8)
    } else if c == 'A' {
        Some(3u8)
    } else if is_digit(c) {
        Some((digit_value(c) + 4) as u8)
    } else {
        None
    }
}

/// The glyph of a four-bit code in `1..=13`.
pub open spec fn glyph_of(n: u8) -> Option<char> {
    if n == 1 {
        Some(' ')
    } else if n == 2 {
        Some('T')
    } else if n == 3 {
        Some('A')
    } else if 4 <= n <= 13 {
        Some(digit_char((n - 4) as nat))
    } else {
        None
    }
}

/// Whether `c` is one of the thirteen XMLN glyphs.
pub open spec fn in_alphabet(c: char) -> bool {
    nibble_of(c) is Some
}

/// Whether every character of `s` is an XMLN glyph.
pub open spec fn over_alphabet(s: Seq<char>) -> bool {
    forall|i: int| 0 <= i < s.len() ==> in_alphabet(#[trigger] s[i])
}

/// The code of a glyph, zero for anything else.
pub open spec fn nib(c: char) -> nat {
    match nibble_of(c) {
        Some(n) => n as nat,
        None => 0,
    }
}

/// Glyphs packed two to a byte, high half first; an odd last glyph gets a zero low half.
pub open spec fn packed(s: Seq<char>) -> Seq<u8> {
    Seq::new(
        ((s.len() + 1) / 2) as nat,
        |k: int|
            (nib(s[2 * k]) * 16 + if 2 * k + 1 < s.len() {
                nib(s[2 * k + 1])
            } else {
                0
            }) as u8,
    )
}

/// The glyph of one half-byte; a zero half is padding and gives nothing.
pub open spec fn nibble_text(n: u8) -> Seq<char> {
    if n == 0 {
        Seq::empty()
    } else {
        seq![glyph_of(n)->0]
    }
}

/// The glyphs of one byte, high half first.
pub open spec fn byte_text(b: u8) -> Seq<char> {
    nibble_text(b / 16) + nibble_text(b % 16)
}

/// The glyphs of a packed byte string.
pub open spec fn unpacked(b: Seq<u8>) -> Seq<char>
    decreases b.len(),
{
    if b.len() == 0 {
        Seq::empty()
    } else {
        unpacked(b.drop_last()) + byte_text(b.last())
    }
}

/// Whether each half of each byte is padding or a glyph code.
pub open spec fn valid_nibbles(b: Seq<u8>) -> bool {
    forall|i: int| 0 <= i < b.len() ==> #[trigger] b[i] / 16 <= 13 && b[i] % 16 <= 13
}

pub proof fn lemma_glyph_round_trip(c: char)
    requires
        in_alphabet(c),
    ensures
        1 <= nib(c) <= 13,
        glyph_of(nib(c) as u8) == Some(c),
{
    if is_digit(c) && c != ' ' && c != 'T' && c != 'A' {
        assert(digit_char(digit_value(c)) == c);
    }
}

proof fn lemma_byte_halves(h: nat, l: nat)
    requires
        h < 16,
        l < 16,
    ensures
        (h * 16 + l) / 16 == h,
        (h * 16 + l) % 16 == l,
{
    assert((h * 16 + l) / 16 == h && (h * 16 + l) % 16 == l) by (nonlinear_arith)
        requires
            h < 16,
            l < 16,
    ;
}

proof fn lemma_unpacked_prefix(s: Seq<char>, k: int)
    requires
        over_alphabet(s),
        0 <= k <= packed(s).len(),
    ensures
        unpacked(packed(s).take(k)) == s.take(if 2 * k <= s.len() {
            2 * k
        } else {
            s.len() as int
        }),
    decreases k,
{
    let p = packed(s);
    if k == 0 {
        assert(p.take(0) =~= Seq::<u8>::empty());
        assert(s.take(0) =~= Seq::<char>::empty());
    } else {
        lemma_unpacked_prefix(s, k - 1);
        assert(p.take(k).drop_last() == p.take(k - 1));
        let j = 2 * (k - 1);
        lemma_glyph_round_trip(s[j]);
        let hi = nib(s[j]);
        if j + 1 < s.len() {
            lemma_glyph_round_trip(s[j + 1]);
            lemma_byte_halves(hi, nib(s[j + 1]));
            assert(byte_text(p[k - 1]) =~= seq![s[j], s[j + 1]]);
            assert(s.take(j + 2) =~= s.take(j) + seq![s[j], s[j + 1]]);
        } else {
            lemma_byte_halves(hi, 0);
            assert(byte_text(p[k - 1]) =~= seq![s[j]]);
            assert(s.take(j + 1) =~= s.take(j) + seq![s[j]]);
        }
    }
}

/// Unpacking what packing gave restores every string over the XMLN alphabet.
pub proof fn lemma_xmls_round_trip(s: Seq<char>)
    requires
        over_alphabet(s),
    ensures
        valid_nibbles(packed(s)),
        unpacked(packed(s)) == s,
{
    let p = packed(s);
    assert forall|i: int| 0 <= i < p.len() implies #[trigger] p[i] / 16 <= 13 && p[i] % 16
        <= 13 by {
        lemma_glyph_round_trip(s[2 * i]);
        if 2 * i + 1 < s.len() {
            lemma_glyph_round_trip(s[2 * i + 1]);
            lemma_byte_halves(nib(s[2 * i]), nib(s[2 * i + 1]));
        } else {
            lemma_byte_halves(nib(s[2 * i]), 0);
        }
    }
    lemma_unpacked_prefix(s, p.len() as int);
    assert(p.take(p.len() as int) == p);
    assert(s.take(s.len() as int) == s);
}

/// Every packed byte has a glyph code in its high half and a glyph code or,
/// in the last byte only, padding in its low half.
pub proof fn lemma_packed_nibbles(s: Seq<char>)
    requires
        over_alphabet(s),
    ensures
        forall|k: int|
            0 <= k < packed(s).len() ==> 1 <= #[trigger] packed(s)[k] / 16 <= 13 && packed(s)[k]
                % 16 <= 13 && (packed(s)[k] % 16 == 0 ==> k == packed(s).len() - 1),
{
    let p = packed(s);
    assert forall|k: int| 0 <= k < p.len() implies 1 <= #[trigger] p[k] / 16 <= 13 && p[k] % 16
        <= 13 && (p[k] % 16 == 0 ==> k == p.len() - 1) by {
        lemma_glyph_round_trip(s[2 * k]);
        if 2 * k + 1 < s.len() {
            lemma_glyph_round_trip(s[2 * k + 1]);
            lemma_byte_halves(nib(s[2 * k]), nib(s[2 * k + 1]));
        } else {
            lemma_byte_halves(nib(s[2 * k]), 0);
        }
    }
}

/// Encodes a string of XMLN glyphs two to a byte.
pub fn encode_xmls(xmln: &str) -> (r: Result<Vec<u8>, XFlateError>)
    ensures
        over_alphabet(xmln@) ==> (r matches Ok(v) && v@ == packed(xmln@)),
        !over_alphabet(xmln@) ==> r matches Err(XFlateError::XmlSError(_)),
        r matches Ok(v) ==> forall|k: int|
            0 <= k < v@.len() ==> 1 <= #[trigger] v@[k] / 16 <= 13 && v@[k] % 16 <= 13 && (v@[k]
                % 16 == 0 ==> k == v@.len() - 1),
{
    let chars = chars_of(xmln);
    let n = chars.len();
    let mut encoding: Vec<u8> = Vec::new();
    let mut i: usize = 0;
    while i + 1 < n
        invariant
            chars@ == xmln@,
            n == chars@.len(),
            i <= n,
            i % 2 == 0,
            encoding@.len() == i / 2,
            forall|j: int| 0 <= j < i ==> in_alphabet(#[trigger] chars@[j]),
            forall|k: int| 0 <= k < i / 2 ==> #[trigger] encoding@[k] == packed(xmln@)[k],
        decreases n - i,
    {
        let left = encode_nibble(chars[i])?;
        let right = encode_nibble(chars[i + 1])?;
        encoding.push(merge(left, right));
        i = i + 2;
    }
    if i < n {
        // An odd glyph count leaves a zero low half in the last byte.
        let left = encode_nibble(chars[i])?;
        encoding.push(merge(left, 0));
        i = i + 1;
    }
    proof {
        assert(over_alphabet(xmln@));
        assert(encoding@ =~= packed(xmln@));
        lemma_packed_nibbles(xmln@);
    }
    Ok(encoding)
}

/// Decodes packed glyphs; half-bytes that are zero are padding and are skipped.
pub fn decode_xmls(xmls: &[u8]) -> (r: Result<String, XFlateError>)
    ensures
        valid_nibbles(xmls@) ==> (r matches Ok(s) && s@ == unpacked(xmls@)),
        !valid_nibbles(xmls@) ==> r matches Err(XFlateError::XmlSError(_)),
{
    let mut decoded: Vec<char> = Vec::new();
    let mut i: usize = 0;
    while i < xmls.len()
        invariant
            i <= xmls@.len(),
            decoded@ == unpacked(xmls@.take(i as int)),
            valid_nibbles(xmls@.take(i as int)),
        decreases xmls@.len() - i,
    {
        let (hi, lo) = split(xmls[i]);
        proof {
            assert(xmls@.take(i as int + 1).drop_last() == xmls@.take(i as int));
        }
        if hi != 0 {
            let c = decode_nibble(hi)?;
            decoded.push(c);
        }
        if lo != 0 {
            let c = decode_nibble(lo)?;
            decoded.push(c);
        }
        proof {
            let t = xmls@.take(i as int + 1);
            assert(decoded@ =~= unpacked(xmls@.take(i as int)) + byte_text(xmls@[i as int]));
            assert forall|j: int| 0 <= j < t.len() implies #[trigger] t[j] / 16 <= 13 && t[j] % 16
                <= 13 by {
                if j < i {
                    assert(t[j] == xmls@.take(i as int)[j]);
                }
            }
        }
        i = i + 1;
    }
    proof {
        assert(xmls@.take(i as int) == xmls@);
    }
    Ok(string_of(decoded.as_slice()))
}

fn encode_nibble(symbol: char) -> (r: Result<u8, XFlateError>)
    ensures
        nibble_of(symbol) matches Some(n) ==> r == Ok::<u8, XFlateError>(n),
        nibble_of(symbol) is None ==> r matches Err(XFlateError::XmlSError(_)),
{
    if symbol == ' ' {
        Ok(0x1)
    } else if symbol == 'T' {
        Ok(0x2)
    } else if symbol == 'A' {
        Ok(0x3)
    } else if '0' <= symbol && symbol <= '9' {
        Ok(from_digit_char(symbol) + 4)
    } else {
        Err(XFlateError::XmlSError("unable to encode a character outside the XMLN alphabet".to_string()))
    }
}

fn decode_nibble(nibble: u8) -> (r: Result<char, XFlateError>)
    requires
        nibble != 0,
    ensures
        glyph_of(nibble) matches Some(c) ==> r == Ok::<char, XFlateError>(c),
        glyph_of(nibble) is None ==> r matches Err(XFlateError::XmlSError(_)),
{
    if nibble == 0x1 {
        Ok(' ')
    } else if nibble == 0x2 {
        Ok('T')
    } else if nibble == 0x3 {
        Ok('A')
    } else if nibble <= 0xD {
        Ok(to_digit_char(nibble - 4))
    } else {
        Err(XFlateError::XmlSError("unable to decode a half-byte outside 1..=13".to_string()))
    }
}

fn merge(left: u8, right: u8) -> (r: u8)
    requires
        left < 16,
        right < 16,
    ensures
        r == left * 16 + right,
{
    assert((left << 4u8) | right == left * 16 + right) by (bit_vector)
        requires
            left < 16,
            right < 16,
    ;
    (left << 4) | right
}

fn split(byte: u8) -> (r: (u8, u8))
    ensures
        r.0 == byte / 16,
        r.1 == byte % 16,
{
    assert(byte >> 4u8 == byte / 16 && byte & 0x0Fu8 == byte % 16) by (bit_vector);
    (byte >> 4, byte & 0x0F)
}

} // verus!
