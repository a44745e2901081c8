use vstd::prelude::*;
use vstd::string::{StringExecFns, StringSliceAdditionalSpecFns};

verus! {

/// Whether `c` is an ASCII hex digit, in either case.
pub open spec fn is_hex_digit(c: u8) -> bool {
    (0x30 <= c <= 0x39) || (0x61 <= c <= 0x66) || (0x41 <= c <= 0x46)
}

/// The value of a hex digit.
pub open spec fn hex_value(c: u8) -> u8 {
    if 0x30 <= c <= 0x39 {
        (c - 0x30) as u8
    } else if 0x61 <= c <= 0x66 {
        (c - 0x61 + 10) as u8
    } else {
        (c - 0x41 + 10) as u8
    }
}

/// Whether `text` is an even number of hex digits.
pub open spec fn is_hex_text(text: Seq<u8>) -> bool {
    &&& text.len() % 2 == 0
    &&& forall|i: int| 0 <= i < text.len() ==> is_hex_digit(#[trigger] text[i])
}

/// The bytes that hex text stands for: each pair of digits, high digit first.
pub open spec fn hex_bytes(text: Seq<u8>) -> Seq<u8> {
    Seq::new(
        text.len() / 2,
        |i: int| (hex_value(text[2 * i]) * 16 + hex_value(text[2 * i + 1])) as u8,
    )
}

/// The lowercase hex digit for a value below 16.
pub open spec fn hex_char(v: u8) -> char {
    if v < 10 {
        ((0x30 + v) as u8) as char
    } else {
        ((0x61 + v - 10) as u8) as char
    }
}

/// Lowercase hex text of `bytes`, two digits per byte, high digit first.
pub open spec fn hex_chars(bytes: Seq<u8>) -> Seq<char> {
    Seq::new(
        2 * bytes.len(),
        |i: int|
            if i % 2 == 0 {
                hex_char(bytes[i / 2] / 16)
            } else {
                hex_char(bytes[i / 2] % 16)
            },
    )
}

/// Hex text of `bytes` behind a `0x` prefix.
pub open spec fn prefixed_hex(bytes: Seq<u8>) -> Seq<char> {
    seq!['0', 'x'] + hex_chars(bytes)
}

/// The address text without its `0x` prefix, if it has one.
pub open spec fn without_prefix(text: Seq<u8>) -> Seq<u8> {
    if text.len() >= 2 && text[0] == 0x30 && text[1] == 0x78 {
        text.subrange(2, text.len() as int)
    } else {
        text
    }
}

/// Whether an address decodes: hex text after its optional `0x` prefix.
pub open spec fn is_valid_address(address: Seq<u8>) -> bool {
    is_hex_text(without_prefix(address))
}

/// The bytes of a valid address.
pub open spec fn address_bytes(address: Seq<u8>) -> Seq<u8> {
    hex_bytes(without_prefix(address))
}

/// Relies on hex::decode: `Ok` exactly for an even number of hex digits,
/// each pair read as one byte, high digit first.
#[verifier::external_body]
fn decode_hex(text: &[u8]) -> (r: Option<Vec<u8>>)
    ensures
        r is Some <==> is_hex_text(text@),
        r matches Some(b) ==> b@ == hex_bytes(text@),
{
    hex::decode(text).ok()
}

/// Relies on hex::encode: two lowercase digits per byte, high digit first.
#[verifier::external_body]
fn encode_hex(bytes: &[u8]) -> (r: String)
    ensures
        r@ == hex_chars(bytes@),
{
    hex::encode(bytes)
}

/// Decodes an address: strips an optional `0x` prefix and reads the rest as
/// hex; `None` when the rest is not an even number of hex digits.
pub fn decode_address(address: &str) -> (r: Option<Vec<u8>>)
    ensures
        r is Some <==> is_valid_address(address.spec_bytes()),
        r matches Some(b) ==> b@ == address_bytes(address.spec_bytes()),
{
    let text = address.as_bytes();
    if text.len() >= 2 && text[0] == 0x30 && text[1] == 0x78 {
        let rest = vstd::slice::slice_subrange(text, 2, text.len());
        decode_hex(rest)
    } else {
        decode_hex(text)
    }
}

/// A digest or any byte string as `0x`-prefixed lowercase hex.
pub fn to_prefixed_hex(bytes: &[u8]) -> (r: String)
    ensures
        r@ == prefixed_hex(bytes@),
{
    let digits = encode_hex(bytes);
    let prefix = String::from_str("0x");
    proof {
        reveal_strlit("0x");
    }
    let r = prefix.concat(digits.as_str());
    assert(r@ =~= prefixed_hex(bytes@));
    r
}

} // verus!
