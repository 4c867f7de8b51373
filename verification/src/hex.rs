//! Byte strings as lowercase hex text.

use vstd::prelude::*;
use vstd::utf8::{encode_utf8, is_ascii_chars, is_ascii_chars_encode_utf8};

use crate::be::lex_lt;

verus! {

/// A hex digit, lowercase.
pub open spec fn hex_char(nibble: int) -> char {
    if nibble < 10 {
        (('0' as int) + nibble) as char
    } else {
        (('a' as int) + (nibble - 10)) as char
    }
}

/// Two lowercase hex digits per byte.
pub open spec fn hex_text(bytes: Seq<u8>) -> Seq<char>
    decreases bytes.len(),
{
    if bytes.len() == 0 {
        Seq::empty()
    } else {
        seq![hex_char(bytes[0] as int / 16), hex_char(bytes[0] as int % 16)] + hex_text(
            bytes.drop_first(),
        )
    }
}

/// The value of an ASCII hex digit of either case.
pub open spec fn hex_value(c: u8) -> Option<int> {
    if 0x30 <= c <= 0x39 {
        Some(c - 0x30)
    } else if 0x61 <= c <= 0x66 {
        Some(c - 0x61 + 10)
    } else if 0x41 <= c <= 0x46 {
        Some(c - 0x41 + 10)
    } else {
        None
    }
}

/// The bytes that pairs of hex digits stand for.
pub open spec fn hex_pairs(text: Seq<u8>) -> Option<Seq<u8>>
    decreases text.len(),
{
    if text.len() == 0 {
        Some(Seq::empty())
    } else if text.len() == 1 {
        None
    } else {
        match (hex_value(text[0]), hex_value(text[1]), hex_pairs(text.skip(2))) {
            (Some(high), Some(low), Some(rest)) => Some(
                seq![(high * 16 + low) as u8] + rest,
            ),
            _ => None,
        }
    }
}

/// What hex text decodes to: an even number of digits, after an optional `0x`.
pub open spec fn hex_decoded(text: Seq<u8>) -> Option<Seq<u8>> {
    if text.len() >= 2 && text[0] == 0x30 && (text[1] == 0x78 || text[1] == 0x58) {
        hex_pairs(text.skip(2))
    } else {
        hex_pairs(text)
    }
}

/// `alloy_primitives::hex::encode`: two lowercase digits per byte.
#[verifier::external_body]
pub(crate) fn hex_encode(bytes: &[u8]) -> (text: String)
    ensures
        text@ == hex_text(bytes@),
{
    alloy_primitives::hex::encode(bytes)
}

/// The error of hex decoding; this crate only carries it.
#[verifier::external_type_specification]
#[verifier::external_body]
pub struct ExFromHexError(alloy_primitives::hex::FromHexError);

/// `alloy_primitives::hex::decode`: an even number of digits of either case,
/// after an optional `0x` or `0X`; an error for anything else.
#[verifier::external_body]
pub(crate) fn hex_decode(text: &[u8]) -> (result: core::result::Result<
    Vec<u8>,
    alloy_primitives::hex::FromHexError,
>)
    ensures
        match result {
            Ok(bytes) => hex_decoded(text@) == Some(bytes@),
            Err(_) => hex_decoded(text@) is None,
        },
{
    alloy_primitives::hex::decode(text)
}

/// Hex text is ASCII, free of slashes, and decodes to what it was made from.
pub proof fn lemma_hex_text(bytes: Seq<u8>)
    ensures
        is_ascii_chars(hex_text(bytes)),
        hex_text(bytes).len() == 2 * bytes.len(),
        forall|i: int| 0 <= i < hex_text(bytes).len() ==> #[trigger] hex_text(bytes)[i] != '/',
        encode_utf8(hex_text(bytes)).len() == 2 * bytes.len(),
        hex_pairs(encode_utf8(hex_text(bytes))) == Some(bytes),
        encode_utf8(hex_text(bytes)).len() >= 2 ==> encode_utf8(hex_text(bytes))[1] != 0x78
            && encode_utf8(hex_text(bytes))[1] != 0x58,
    decreases bytes.len(),
{
    let text = hex_text(bytes);
    if bytes.len() == 0 {
        assert(encode_utf8(text) =~= Seq::empty());
        assert(bytes =~= Seq::empty());
    } else {
        lemma_hex_text(bytes.drop_first());
        let rest = hex_text(bytes.drop_first());
        is_ascii_chars_encode_utf8(rest);
        assert forall|i: int| 0 <= i < text.len() implies #[trigger] text[i] as nat <= 0x7f && text[i]
            != '/' by {
            if i >= 2 {
                assert(text[i] == rest[i - 2]);
            }
        }
        assert(is_ascii_chars(text));
        is_ascii_chars_encode_utf8(text);
        let utf8 = encode_utf8(text);
        assert(utf8.skip(2) =~= encode_utf8(rest));
        let high = bytes[0] as int / 16;
        let low = bytes[0] as int % 16;
        assert(utf8[0] == hex_char(high) as u8);
        assert(utf8[1] == hex_char(low) as u8);
        assert(hex_value(utf8[0]) == Some(high));
        assert(hex_value(utf8[1]) == Some(low));
        assert(seq![bytes[0]] + bytes.drop_first() =~= bytes);
    }
}

/// Hex text sorts like the bytes.
pub proof fn lemma_hex_order(a: Seq<u8>, b: Seq<u8>)
    ensures
        lex_lt(encode_utf8(hex_text(a)), encode_utf8(hex_text(b))) == lex_lt(a, b),
    decreases a.len(),
{
    lemma_hex_text(a);
    lemma_hex_text(b);
    is_ascii_chars_encode_utf8(hex_text(a));
    is_ascii_chars_encode_utf8(hex_text(b));
    reveal_with_fuel(lex_lt, 3);
    if a.len() > 0 && b.len() > 0 {
        let x = encode_utf8(hex_text(a));
        let y = encode_utf8(hex_text(b));
        lemma_hex_order(a.drop_first(), b.drop_first());
        lemma_hex_text(a.drop_first());
        lemma_hex_text(b.drop_first());
        is_ascii_chars_encode_utf8(hex_text(a.drop_first()));
        is_ascii_chars_encode_utf8(hex_text(b.drop_first()));
        assert(x.drop_first().drop_first() =~= encode_utf8(hex_text(a.drop_first())));
        assert(y.drop_first().drop_first() =~= encode_utf8(hex_text(b.drop_first())));
        assert(x[0] == hex_char(a[0] as int / 16) as u8 && x[1] == hex_char(a[0] as int % 16) as u8);
        assert(y[0] == hex_char(b[0] as int / 16) as u8 && y[1] == hex_char(b[0] as int % 16) as u8);
        assert(x.drop_first()[0] == x[1]);
        assert(y.drop_first()[0] == y[1]);
    }
}

} // verus!
