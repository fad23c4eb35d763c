//! Text encodings of byte strings: lowercase hexadecimal (`hex`) and
//! standard base64 (`base64`).
use vstd::prelude::*;

verus! {

/// The lowercase hexadecimal digit for `d < 16`.
pub open spec fn hex_digit(d: u8) -> char {
    if d < 10 {
        (48 + d) as char
    } else {
        (87 + d) as char
    }
}

/// The value of a hexadecimal digit, either case.
pub open spec fn hex_value(c: char) -> Option<u8> {
    if '0' <= c && c <= '9' {
        Some((c as u8 - 48) as u8)
    } else if 'a' <= c && c <= 'f' {
        Some((c as u8 - 87) as u8)
    } else if 'A' <= c && c <= 'F' {
        Some((c as u8 - 55) as u8)
    } else {
        None
    }
}

/// Two lowercase hexadecimal digits per byte, high nibble first.
pub open spec fn spec_hex_encode(data: Seq<u8>) -> Seq<char> {
    Seq::new(
        2 * data.len(),
        |k: int|
            if k % 2 == 0 {
                hex_digit(data[k / 2] >> 4u8)
            } else {
                hex_digit(data[k / 2] & 15u8)
            },
    )
}

/// Decoding accepts an even number of hexadecimal digits of either case.
pub open spec fn spec_hex_decode(s: Seq<char>) -> Option<Seq<u8>> {
    if s.len() % 2 == 0 && forall|i: int| 0 <= i < s.len() ==> (#[trigger] hex_value(s[i])) is Some {
        Some(
            Seq::new(
                s.len() / 2,
                |i: int| (hex_value(s[2 * i])->0 * 16 + hex_value(s[2 * i + 1])->0) as u8,
            ),
        )
    } else {
        None
    }
}

/// Decoding the hexadecimal rendering of bytes gives the bytes back.
pub proof fn lemma_hex_roundtrip(data: Seq<u8>)
    ensures
        spec_hex_decode(spec_hex_encode(data)) == Some(data),
{
    let s = spec_hex_encode(data);
    assert forall|i: int| 0 <= i < s.len() implies (#[trigger] hex_value(s[i])) is Some by {
        let b = data[i / 2];
        assert(b >> 4u8 < 16u8 && b & 15u8 < 16u8) by (bit_vector);
    }
    assert(s.len() % 2 == 0 && s.len() / 2 == data.len()) by {
        assert((2 * data.len()) % 2 == 0 && (2 * data.len()) / 2 == data.len()) by (nonlinear_arith);
    }
    let d = spec_hex_decode(s)->0;
    assert forall|i: int| 0 <= i < data.len() implies d[i] == data[i] by {
        let b = data[i];
        assert((2 * i) / 2 == i && (2 * i) % 2 == 0 && (2 * i + 1) / 2 == i && (2 * i + 1) % 2 == 1)
            by (nonlinear_arith);
        assert(b >> 4u8 < 16u8 && b & 15u8 < 16u8 && (b >> 4u8) * 16 + (b & 15u8) == b)
            by (bit_vector);
    }
    assert(d =~= data);
}

/// The standard base64 rendering (with padding) of bytes.
pub uninterp spec fn spec_base64_encode(data: Seq<u8>) -> Seq<char>;

/// Standard base64 decoding of a string; `None` when it is not valid base64.
pub uninterp spec fn spec_base64_decode(s: Seq<char>) -> Option<Seq<u8>>;

/// `hex::encode`: two lowercase hexadecimal digits per byte.
#[verifier::external_body]
pub(crate) fn hex_encode(data: &[u8]) -> (s: String)
    ensures
        s@ == spec_hex_encode(data@),
{
    hex::encode(data)
}

/// `hex::decode`: fails on an odd length or a character that is not a
/// hexadecimal digit of either case, and otherwise gives the bytes.
#[verifier::external_body]
pub(crate) fn hex_decode(s: &str) -> (res: Result<Vec<u8>, String>)
    ensures
        match res {
            Ok(v) => spec_hex_decode(s@) == Some(v@),
            Err(_) => spec_hex_decode(s@) is None,
        },
{
    hex::decode(s).map_err(|e| e.to_string())
}

/// `base64::engine::general_purpose::STANDARD.encode`.
#[verifier::external_body]
pub(crate) fn base64_encode(data: &[u8]) -> (s: String)
    ensures
        s@ == spec_base64_encode(data@),
{
    base64::Engine::encode(&base64::engine::general_purpose::STANDARD, data)
}

/// `base64::engine::general_purpose::STANDARD.decode`: the decoded bytes, or
/// the decoder's error; decoding what `encode` produced gives the bytes back.
#[verifier::external_body]
pub(crate) fn base64_decode(s: &str) -> (res: Result<Vec<u8>, String>)
    ensures
        match res {
            Ok(v) => spec_base64_decode(s@) == Some(v@) && forall|b: Seq<u8>|
                s@ == #[trigger] spec_base64_encode(b) ==> v@ == b,
            Err(_) => spec_base64_decode(s@) is None && forall|b: Seq<u8>|
                s@ != #[trigger] spec_base64_encode(b),
        },
{
    base64::Engine::decode(&base64::engine::general_purpose::STANDARD, s).map_err(|e| e.to_string())
}

} // verus!
