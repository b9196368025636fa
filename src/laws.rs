//! Laws that relate encoding and decoding.
use crate::alphabet::lemma_symbol_inverse;
use crate::base64::{
    decoding, encoding, group_bytes, group_text, group_valid, lemma_encoding_len,
    lemma_group_bits, sextets_of_group, text_decoding, char_value, DecodeError,
};
use vstd::prelude::*;
use vstd::utf8::{is_ascii_chars, is_ascii_chars_encode_utf8};

verus! {

/// The group of characters written for one to three bytes, followed by any
/// text, reads back as a well-formed group that stands for those bytes; it
/// holds `=` exactly where bytes were missing.
pub proof fn lemma_group_round_trip(g: Seq<u8>, rest: Seq<char>)
    requires
        1 <= g.len() <= 3,
    ensures
        ({
            let t = group_text(g) + rest;
            &&& t.len() >= 4
            &&& group_valid(t)
            &&& group_bytes(t) == g
            &&& (t[2] == '=' <==> g.len() == 1)
            &&& (t[3] == '=' <==> g.len() < 3)
        }),
{
    let t = group_text(g) + rest;
    let b1: u8 = if g.len() > 1 { g[1] } else { 0 };
    let b2: u8 = if g.len() > 2 { g[2] } else { 0 };
    let n = sextets_of_group(g[0], b1, b2);
    lemma_group_bits(g[0], b1, b2);
    lemma_symbol_inverse(n.0);
    lemma_symbol_inverse(n.1);
    lemma_symbol_inverse(n.2);
    lemma_symbol_inverse(n.3);
    assert(t[0] == group_text(g)[0] && t[1] == group_text(g)[1]);
    assert(t[2] == group_text(g)[2] && t[3] == group_text(g)[3]);
    assert(char_value(t[0]) == n.0 && char_value(t[1]) == n.1);
    if g.len() == 1 {
        assert(group_bytes(t) =~= g);
    } else if g.len() == 2 {
        assert(char_value(t[2]) == n.2);
        assert(group_bytes(t) =~= g);
    } else {
        assert(char_value(t[2]) == n.2 && char_value(t[3]) == n.3);
        assert(group_bytes(t) =~= g);
    }
}

/// Every character of an encoding is ASCII.
pub proof fn lemma_encoding_ascii(b: Seq<u8>)
    ensures
        is_ascii_chars(encoding(b)),
    decreases b.len(),
{
    if b.len() > 0 {
        let g = if b.len() < 3 { b } else { b.take(3) };
        let b1: u8 = if g.len() > 1 { g[1] } else { 0 };
        let b2: u8 = if g.len() > 2 { g[2] } else { 0 };
        let n = sextets_of_group(g[0], b1, b2);
        lemma_group_bits(g[0], b1, b2);
        lemma_symbol_inverse(n.0);
        lemma_symbol_inverse(n.1);
        lemma_symbol_inverse(n.2);
        lemma_symbol_inverse(n.3);
        assert(is_ascii_chars(group_text(g)));
        if b.len() >= 3 {
            lemma_encoding_ascii(b.skip(3));
            let e = encoding(b);
            assert forall|i: int| 0 <= i < e.len() implies '\0' <= #[trigger] e[i] <= '\u{7f}' by {
                if i >= 4 {
                    assert(e[i] == encoding(b.skip(3))[i - 4]);
                }
            }
        }
    }
}

/// Decoding the encoding of any bytes gives those bytes back.
pub proof fn lemma_decoding_of_encoding(b: Seq<u8>)
    ensures
        decoding(encoding(b)) == Ok::<Seq<u8>, DecodeError>(b),
    decreases b.len(),
{
    if b.len() == 0 {
        assert(b =~= Seq::empty());
    } else if b.len() < 3 {
        lemma_group_round_trip(b, Seq::empty());
        assert(group_text(b) + Seq::<char>::empty() =~= group_text(b));
    } else {
        let t = encoding(b);
        let rest = encoding(b.skip(3));
        lemma_group_round_trip(b.take(3), rest);
        lemma_decoding_of_encoding(b.skip(3));
        assert(t.skip(4) =~= rest);
        assert(b.take(3) + b.skip(3) =~= b);
    }
}

/// Round trip: the text that `encode` gives for any bytes is decoded by
/// `decode` into the same bytes (for a text whose length fits in memory).
pub proof fn law_round_trip(b: Seq<u8>, s: &str)
    requires
        s@ == encoding(b),
        s@.len() <= usize::MAX,
    ensures
        text_decoding(s) == Ok::<Seq<u8>, DecodeError>(b),
{
    lemma_encoding_ascii(b);
    is_ascii_chars_encode_utf8(s@);
    lemma_encoding_len(b);
    lemma_decoding_of_encoding(b);
}

/// Length: the encoding of `b` has `4 * ceil(len(b) / 3)` characters, a
/// multiple of 4.
pub proof fn law_encoding_length(b: Seq<u8>)
    ensures
        encoding(b).len() == 4 * ((b.len() + 2) / 3),
        encoding(b).len() % 4 == 0,
{
    lemma_encoding_len(b);
}

/// Padding: the encoding of `b` ends in `==` where `len(b) % 3 == 1`, in a
/// single `=` where `len(b) % 3 == 2`, and holds no `=` where `len(b) % 3 == 0`;
/// `=` stands nowhere but in that suffix.
pub proof fn law_padding(b: Seq<u8>)
    ensures
        ({
            let e = encoding(b);
            let pad = (3 - b.len() % 3) % 3;
            &&& forall|k: int| 0 <= k < e.len() ==> (#[trigger] e[k] == '=' <==> k >= e.len() - pad)
            &&& b.len() % 3 == 1 ==> e.len() >= 2 && e[e.len() - 2] == '=' && e[e.len() - 1] == '='
            &&& b.len() % 3 == 2 ==> e.len() >= 2 && e[e.len() - 2] != '=' && e[e.len() - 1] == '='
            &&& b.len() % 3 == 0 ==> forall|k: int| 0 <= k < e.len() ==> #[trigger] e[k] != '='
        }),
    decreases b.len(),
{
    let e = encoding(b);
    lemma_encoding_len(b);
    if b.len() == 0 {
    } else if b.len() < 3 {
        lemma_group_round_trip(b, Seq::empty());
        assert(group_text(b) + Seq::<char>::empty() =~= group_text(b));
        let b1: u8 = if b.len() > 1 { b[1] } else { 0 };
        let n = sextets_of_group(b[0], b1, 0);
        lemma_group_bits(b[0], b1, 0);
        lemma_symbol_inverse(n.0);
        lemma_symbol_inverse(n.1);
        lemma_symbol_inverse(n.2);
    } else {
        let rest = encoding(b.skip(3));
        law_padding(b.skip(3));
        lemma_group_round_trip(b.take(3), rest);
        let n = sextets_of_group(b[0], b[1], b[2]);
        lemma_group_bits(b[0], b[1], b[2]);
        lemma_symbol_inverse(n.0);
        lemma_symbol_inverse(n.1);
        lemma_symbol_inverse(n.2);
        lemma_symbol_inverse(n.3);
        lemma_encoding_len(b.skip(3));
        assert forall|k: int| 4 <= k < e.len() implies e[k] == rest[k - 4] by {}
    }
}

/// A text whose length is a multiple of 4 and which holds a character
/// outside 7-bit ASCII is refused with `NotAscii`.
pub proof fn law_rejects_non_ascii(s: &str)
    requires
        s.len() % 4 == 0,
        (exists|i: int| 0 <= i < s@.len() && #[trigger] s@[i] > '\u{7f}'),
    ensures
        text_decoding(s) == Err::<Seq<u8>, DecodeError>(DecodeError::NotAscii),
{
}

/// An ASCII text of a length that is a multiple of 4 whose first group holds
/// a character outside the alphabet in a non-padding position (a first or
/// second character that is not in the alphabet, or a third or fourth one
/// that is neither in the alphabet nor `=`) is refused with `InvalidAlphabet`.
pub proof fn law_rejects_bad_alphabet(s: &str)
    requires
        s.len() % 4 == 0,
        is_ascii_chars(s@),
        s@.len() >= 4,
        !group_valid(s@),
    ensures
        text_decoding(s) == Err::<Seq<u8>, DecodeError>(DecodeError::InvalidAlphabet),
{
}

} // verus!
