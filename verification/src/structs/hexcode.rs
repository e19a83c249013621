//! Hexadecimal text, as the `hex` crate writes and reads it.

use vstd::prelude::*;

verus! {

/// The sixteen digits, in the lower case that encoding produces.
pub open spec fn hex_digits() -> Seq<char> {
    seq!['0', '1', '2', '3', '4', '5', '6', '7', '8', '9', 'a', 'b', 'c', 'd', 'e', 'f']
}

/// The value of one hexadecimal digit of either case, if it is one.
pub open spec fn hex_value(c: char) -> Option<int> {
    if '0' <= c <= '9' {
        Some(c as int - '0' as int)
    } else if 'a' <= c <= 'f' {
        Some(c as int - 'a' as int + 10)
    } else if 'A' <= c <= 'F' {
        Some(c as int - 'A' as int + 10)
    } else {
        None
    }
}

/// Two lower-case digits for each byte, the high half first.
pub open spec fn hex_encoding(bytes: Seq<u8>) -> Seq<char> {
    Seq::new(
        2 * bytes.len(),
        |i: int|
            if i % 2 == 0 {
                hex_digits()[bytes[i / 2] as int / 16]
            } else {
                hex_digits()[bytes[i / 2] as int % 16]
            },
    )
}

/// An even number of hexadecimal digits, of either case.
pub open spec fn is_hex(text: Seq<char>) -> bool {
    &&& text.len() % 2 == 0
    &&& forall|i: int| 0 <= i < text.len() ==> (#[trigger] hex_value(text[i])) is Some
}

/// The bytes that a hexadecimal text stands for.
pub open spec fn hex_decoding(text: Seq<char>) -> Seq<u8> {
    Seq::new(
        text.len() / 2,
        |i: int| (hex_value(text[2 * i]).unwrap() * 16 + hex_value(text[2 * i + 1]).unwrap()) as u8,
    )
}

/// Decoding reads back what encoding wrote.
pub proof fn lemma_hex_round_trip(bytes: Seq<u8>)
    ensures
        is_hex(hex_encoding(bytes)),
        hex_decoding(hex_encoding(bytes)) == bytes,
{
    let text = hex_encoding(bytes);
    assert forall|n: int| 0 <= n < 16 implies hex_value(#[trigger] hex_digits()[n]) == Some(n) by {
        lemma_digit_value(n);
    }
    assert forall|i: int| 0 <= i < text.len() implies (#[trigger] hex_value(text[i])) is Some by {
        let b = bytes[i / 2] as int;
        assert(0 <= b / 16 < 16 && 0 <= b % 16 < 16);
    }
    assert forall|i: int| 0 <= i < bytes.len() implies hex_decoding(text)[i] == bytes[i] by {
        let b = bytes[i] as int;
        assert(0 <= b / 16 < 16 && 0 <= b % 16 < 16);
        assert((2 * i) / 2 == i && (2 * i + 1) / 2 == i);
        assert((2 * i) % 2 == 0 && (2 * i + 1) % 2 == 1);
        assert(text[2 * i] == hex_digits()[b / 16]);
        assert(text[2 * i + 1] == hex_digits()[b % 16]);
        assert((b / 16) * 16 + b % 16 == b);
    }
    assert(hex_decoding(text) =~= bytes);
}

proof fn lemma_digit_value(n: int)
    requires
        0 <= n < 16,
    ensures
        hex_value(hex_digits()[n]) == Some(n),
{
    let d = hex_digits();
    assert(d[0] == '0' && d[1] == '1' && d[2] == '2' && d[3] == '3');
    assert(d[4] == '4' && d[5] == '5' && d[6] == '6' && d[7] == '7');
    assert(d[8] == '8' && d[9] == '9' && d[10] == 'a' && d[11] == 'b');
    assert(d[12] == 'c' && d[13] == 'd' && d[14] == 'e' && d[15] == 'f');
}

/// The error of `hex::decode`.
#[verifier::external_type_specification]
#[verifier::external_body]
pub struct ExFromHexError(hex::FromHexError);

/// Calls `hex::encode`, which writes each byte as two lower-case digits,
/// the high half first.
#[verifier::external_body]
pub(crate) fn encode_hex(data: &[u8]) -> (text: String)
    ensures
        text@ == hex_encoding(data@),
{
    hex::encode(data)
}

/// Calls `hex::decode`, which accepts an even number of hexadecimal digits
/// of either case and returns the byte that each pair stands for; anything
/// else is an error.
#[verifier::external_body]
pub(crate) fn decode_hex(text: &String) -> (r: Result<Vec<u8>, hex::FromHexError>)
    ensures
        r is Ok <==> is_hex(text@),
        r is Ok ==> r.unwrap()@ == hex_decoding(text@),
{
    hex::decode(text)
}

} // verus!
