use vstd::prelude::*;

verus! {

/// The lowercase hexadecimal digit of a value in `0..16`.
pub open spec fn hex_digit(v: int) -> char {
    if v < 10 {
        (48 + v) as char
    } else {
        (87 + v) as char
    }
}

/// Two lowercase hexadecimal digits per byte, high nibble first.
pub open spec fn hex_encoding(b: Seq<u8>) -> Seq<char> {
    Seq::new(
        2 * b.len(),
        |i: int|
            if i % 2 == 0 {
                hex_digit(b[i / 2] as int / 16)
            } else {
                hex_digit(b[i / 2] as int % 16)
            },
    )
}

/// A digit of either case.
pub open spec fn is_hex_char(c: char) -> bool {
    ('0' <= c && c <= '9') || ('a' <= c && c <= 'f') || ('A' <= c && c <= 'F')
}

/// The value of a digit of either case.
pub open spec fn hex_value(c: char) -> int {
    if '0' <= c && c <= '9' {
        c as int - 48
    } else if 'a' <= c && c <= 'f' {
        c as int - 87
    } else {
        c as int - 55
    }
}

/// An even number of hexadecimal digits.
pub open spec fn hex_decodable(s: Seq<char>) -> bool {
    &&& s.len() % 2 == 0
    &&& forall|i: int| 0 <= i < s.len() ==> is_hex_char(#[trigger] s[i])
}

/// The bytes that a string of hexadecimal digits spells, two digits per byte.
pub open spec fn hex_decoding(s: Seq<char>) -> Seq<u8> {
    Seq::new(
        (s.len() / 2) as nat,
        |i: int| (16 * hex_value(s[2 * i]) + hex_value(s[2 * i + 1])) as u8,
    )
}

/// Encoding then decoding gives the bytes back.
pub proof fn lemma_hex_round_trip(b: Seq<u8>)
    ensures
        hex_decodable(hex_encoding(b)),
        hex_decoding(hex_encoding(b)) == b,
        hex_encoding(b).len() == 2 * b.len(),
{
    let s = hex_encoding(b);
    assert forall|i: int| 0 <= i < s.len() implies is_hex_char(#[trigger] s[i]) by {
        let x = b[i / 2] as int;
        if i % 2 == 0 {
            assert(0 <= x / 16 < 16);
        } else {
            assert(0 <= x % 16 < 16);
        }
    }
    let d = hex_decoding(s);
    assert forall|i: int| 0 <= i < b.len() implies #[trigger] d[i] == b[i] by {
        let x = b[i] as int;
        assert((2 * i) / 2 == i && (2 * i) % 2 == 0);
        assert((2 * i + 1) / 2 == i && (2 * i + 1) % 2 == 1);
        assert(hex_value(s[2 * i]) == x / 16);
        assert(hex_value(s[2 * i + 1]) == x % 16);
        assert(16 * (x / 16) + x % 16 == x);
    }
    assert(d =~= b);
}

#[verifier::external_type_specification]
#[verifier::external_body]
pub struct ExFromHexError(hex::FromHexError);

/// Relies on `hex::encode`: two lowercase digits per byte, high nibble first.
#[verifier::external_body]
pub(crate) fn encode_hex(bytes: &[u8]) -> (r: String)
    ensures
        r@ == hex_encoding(bytes@),
{
    hex::encode(bytes)
}

/// Relies on `hex::decode`: it accepts exactly an even number of digits of
/// either case and returns the bytes they spell.
#[verifier::external_body]
pub(crate) fn decode_hex(s: &str) -> (r: Result<Vec<u8>, hex::FromHexError>)
    ensures
        r is Ok <==> hex_decodable(s@),
        r matches Ok(v) ==> v@ == hex_decoding(s@),
{
    hex::decode(s)
}

} // verus!
