//! Bytes as hexadecimal text.

use vstd::prelude::*;
use vstd::utf8::encode_utf8;

verus! {

/// The lower-case character of a hexadecimal digit.
pub open spec fn hex_char(n: nat) -> char {
    if n < 10 {
        (48 + n) as char
    } else {
        (87 + n) as char
    }
}

/// Bytes in lower-case hexadecimal, two characters each, the high half first.
pub open spec fn hex_text(s: Seq<u8>) -> Seq<char>
    decreases s.len(),
{
    if s.len() == 0 {
        Seq::empty()
    } else {
        hex_text(s.drop_last()) + seq![
            hex_char(s.last() as nat / 16),
            hex_char(s.last() as nat % 16),
        ]
    }
}

/// A character of either case that is a hexadecimal digit, by its code.
pub open spec fn is_hex_digit(c: u8) -> bool {
    48 <= c <= 57 || 65 <= c <= 70 || 97 <= c <= 102
}

/// What a hexadecimal digit counts.
pub open spec fn hex_value(c: u8) -> u8 {
    if c <= 57 {
        (c - 48) as u8
    } else if c <= 70 {
        (c - 55) as u8
    } else {
        (c - 87) as u8
    }
}

/// An even number of digits and nothing else.
pub open spec fn hex_valid(s: Seq<u8>) -> bool {
    s.len() % 2 == 0 && forall|i: int| 0 <= i < s.len() ==> is_hex_digit(#[trigger] s[i])
}

/// The bytes that digits stand for, two digits each.
pub open spec fn hex_bytes(s: Seq<u8>) -> Seq<u8> {
    Seq::new(
        s.len() / 2,
        |i: int| (hex_value(s[2 * i]) * 16 + hex_value(s[2 * i + 1])) as u8,
    )
}

/// What is wrong with text that is not hexadecimal.
#[derive(Clone, Copy, Debug, PartialEq, Eq, Structural)]
pub enum HexFault {
    InvalidHexCharacter { c: char, index: usize },
    OddLength,
    InvalidStringLength,
}

/// The first character that is no digit is at `i`.
pub open spec fn first_bad(s: Seq<u8>, i: int) -> bool {
    &&& 0 <= i < s.len()
    &&& !is_hex_digit(s[i])
    &&& forall|j: int| 0 <= j < i ==> is_hex_digit(#[trigger] s[j])
}

/// `f` says what is wrong with `s`: an odd length before anything else.
pub open spec fn hex_fault(s: Seq<u8>, f: HexFault) -> bool {
    if s.len() % 2 != 0 {
        f == HexFault::OddLength
    } else {
        f matches HexFault::InvalidHexCharacter { c, index } && first_bad(s, index as int) && c
            == s[index as int] as char
    }
}

/// `hex::encode`: the bytes in lower-case hexadecimal.
#[verifier::external_body]
pub(crate) fn hex_encode(data: &[u8]) -> (r: String)
    ensures
        r@ == hex_text(data@),
{
    hex::encode(data)
}

/// `hex::decode`: the bytes that digits of either case stand for, or what is wrong with them. An
/// odd length is found before a character that is no digit, and of those the first is reported.
#[verifier::external_body]
pub(crate) fn hex_decode(data: &[u8]) -> (r: Result<Vec<u8>, HexFault>)
    ensures
        match r {
            Ok(v) => hex_valid(data@) && v@ == hex_bytes(data@),
            Err(f) => !hex_valid(data@) && hex_fault(data@, f),
        },
{
    hex::decode(data).map_err(|e| match e {
        hex::FromHexError::InvalidHexCharacter { c, index } => {
            HexFault::InvalidHexCharacter { c, index }
        },
        hex::FromHexError::OddLength => HexFault::OddLength,
        hex::FromHexError::InvalidStringLength => HexFault::InvalidStringLength,
    })
}

/// What `char`'s `Debug` shows.
pub uninterp spec fn char_debug_text(c: char) -> Seq<char>;

/// `format!("{:?}")` on a character: it between single quotes, escaped where need be. The text is
/// a function of the character; which one is not claimed.
#[verifier::external_body]
fn char_debug(c: char) -> (r: String)
    ensures
        r@ == char_debug_text(c),
{
    format!("{:?}", c)
}

/// A fault in words.
pub open spec fn fault_text(f: HexFault) -> Seq<char> {
    match f {
        HexFault::InvalidHexCharacter { c, index } => "Invalid character "@ + char_debug_text(c)
            + " at position "@ + crate::text::decimal_text(index as nat),
        HexFault::OddLength => "Odd number of digits"@,
        HexFault::InvalidStringLength => "Invalid string length"@,
    }
}

impl HexFault {
    /// The fault in words.
    pub fn message(&self) -> (r: String)
        ensures
            r@ == fault_text(*self),
    {
        match self {
            HexFault::InvalidHexCharacter { c, index } => {
                let mut out: String = "Invalid character ".to_owned();
                let shown: String = char_debug(*c);
                out.append(shown.as_str());
                out.append(" at position ");
                crate::text::push_decimal(&mut out, *index as u64);
                out
            },
            HexFault::OddLength => "Odd number of digits".to_owned(),
            HexFault::InvalidStringLength => "Invalid string length".to_owned(),
        }
    }
}

pub proof fn lemma_hex_text_chars(s: Seq<u8>)
    ensures
        hex_text(s).len() == 2 * s.len(),
        forall|i: int|
            0 <= i < s.len() ==> hex_text(s)[2 * i] == hex_char((#[trigger] s[i]) as nat / 16)
                && hex_text(s)[2 * i + 1] == hex_char(s[i] as nat % 16),
    decreases s.len(),
{
    if s.len() > 0 {
        let t = s.drop_last();
        lemma_hex_text_chars(t);
        assert forall|i: int| 0 <= i < s.len() implies hex_text(s)[2 * i] == hex_char(
            (#[trigger] s[i]) as nat / 16,
        ) && hex_text(s)[2 * i + 1] == hex_char(s[i] as nat % 16) by {
            if i < t.len() {
                assert(t[i] == s[i]);
            }
        }
    }
}

pub proof fn lemma_hex_char(n: nat)
    requires
        n < 16,
    ensures
        48 <= hex_char(n) as u32 <= 102,
        is_hex_digit(hex_char(n) as u8),
        hex_value(hex_char(n) as u8) == n,
{
}

/// The hexadecimal text of bytes decodes, and to those bytes.
pub proof fn law_hex_round_trip(s: Seq<u8>)
    ensures
        hex_valid(encode_utf8(hex_text(s))),
        hex_bytes(encode_utf8(hex_text(s))) == s,
{
    let t = hex_text(s);
    lemma_hex_text_chars(s);
    assert forall|i: int| 0 <= i < t.len() implies exists|n: nat|
        n < 16 && #[trigger] hex_char(n) == #[trigger] t[i] by {
        let k = i / 2;
        let b = s[k];
        if i % 2 == 0 {
            assert(i == 2 * k);
            assert(t[i] == hex_char(b as nat / 16));
        } else {
            assert(i == 2 * k + 1);
            assert(t[i] == hex_char(b as nat % 16));
        }
    }
    assert forall|i: int| 0 <= i < t.len() implies 48 <= (#[trigger] t[i]) as u32 <= 102
        && is_hex_digit(t[i] as u8) by {
        let n = choose|n: nat| n < 16 && #[trigger] hex_char(n) == t[i];
        lemma_hex_char(n);
    }
    assert(vstd::utf8::is_ascii_chars(t));
    vstd::utf8::is_ascii_chars_encode_utf8(t);
    let e = encode_utf8(t);
    assert(e.len() == t.len());
    assert forall|i: int| 0 <= i < e.len() implies is_hex_digit(#[trigger] e[i]) by {
        assert(e[i] == t[i] as u8);
    }
    assert forall|i: int| 0 <= i < s.len() implies #[trigger] hex_bytes(e)[i] == s[i] by {
        assert(e[2 * i] == t[2 * i] as u8);
        assert(e[2 * i + 1] == t[2 * i + 1] as u8);
        let b = s[i];
        lemma_hex_char(b as nat / 16);
        lemma_hex_char(b as nat % 16);
    }
    assert(hex_bytes(e) =~= s);
}

/// Digits and the first six letters, small or capital, are all that is read, and a capital letter reads as
/// the small one does: texts that differ in that alone give the same bytes.
pub proof fn law_capitals_read_alike(s: Seq<u8>, t: Seq<u8>)
    requires
        s.len() == t.len(),
        forall|i: int|
            0 <= i < s.len() ==> (#[trigger] s[i]) == t[i] || (97 <= s[i] <= 122 && t[i] == s[i] - 32),
    ensures
        hex_valid(s) <==> hex_valid(t),
        hex_valid(s) ==> hex_bytes(s) == hex_bytes(t),
        hex_valid(s) <==> s.len() % 2 == 0 && forall|i: int|
            0 <= i < s.len() ==> {
                ||| '0' as u8 <= #[trigger] s[i] <= '9' as u8
                ||| 'a' as u8 <= s[i] <= 'f' as u8
                ||| 'A' as u8 <= s[i] <= 'F' as u8
            },
{
    assert forall|i: int| 0 <= i < s.len() implies is_hex_digit(#[trigger] s[i]) == is_hex_digit(
        t[i],
    ) && (is_hex_digit(s[i]) ==> hex_value(s[i]) == hex_value(t[i])) by {}
    if hex_valid(s) {
        assert forall|i: int| 0 <= i < t.len() implies is_hex_digit(#[trigger] t[i]) by {
            assert(is_hex_digit(s[i]));
        }
        assert forall|i: int| 0 <= i < s.len() / 2 implies #[trigger] hex_bytes(s)[i] == hex_bytes(
            t,
        )[i] by {
            assert(is_hex_digit(s[2 * i]) && is_hex_digit(s[2 * i + 1]));
        }
        assert(hex_bytes(s) =~= hex_bytes(t));
    }
    if hex_valid(t) {
        assert forall|i: int| 0 <= i < s.len() implies is_hex_digit(#[trigger] s[i]) by {
            assert(is_hex_digit(t[i]));
        }
    }
}

} // verus!
