//! Encoding bytes as Base64 text and decoding that text back.
use crate::alphabet::{sextet, sextet_of, symbol, symbol_of, INVALID, PAD};
use vstd::prelude::*;
use vstd::utf8::is_ascii_chars;

verus! {

/// Why a text was refused by `decode`.
#[derive(Debug, Clone, Copy, PartialEq, Eq, Structural)]
pub enum DecodeError {
    /// The text's length in bytes is not a multiple of 4.
    InvalidLength,
    /// The text holds a character outside 7-bit ASCII.
    NotAscii,
    /// A character in a non-padding position is not in the alphabet.
    InvalidAlphabet,
}

/// The four 6-bit values of a group of three bytes (a missing byte is 0).
pub open spec fn sextets_of_group(b0: u8, b1: u8, b2: u8) -> (u8, u8, u8, u8) {
    (
        b0 >> 2,
        ((b0 & 3) << 4) | (b1 >> 4),
        ((b1 & 15) << 2) | (b2 >> 6),
        b2 & 63,
    )
}

/// The four characters for the bytes `g`, of which there are one to three;
/// missing bytes count as zero, and each missing byte is shown by one `=`.
pub open spec fn group_text(g: Seq<u8>) -> Seq<char>
    recommends
        1 <= g.len() <= 3,
{
    let b1: u8 = if g.len() > 1 { g[1] } else { 0 };
    let b2: u8 = if g.len() > 2 { g[2] } else { 0 };
    let n = sextets_of_group(g[0], b1, b2);
    seq![
        symbol(n.0),
        symbol(n.1),
        if g.len() > 1 { symbol(n.2) } else { '=' },
        if g.len() > 2 { symbol(n.3) } else { '=' },
    ]
}

/// The Base64 text of `b`: one group of four characters for each three bytes,
/// the last group padded where fewer than three bytes are left.
pub open spec fn encoding(b: Seq<u8>) -> Seq<char>
    decreases b.len(),
{
    if b.len() == 0 {
        Seq::empty()
    } else if b.len() < 3 {
        group_text(b)
    } else {
        group_text(b.take(3)) + encoding(b.skip(3))
    }
}

/// Splitting a group into 6-bit values loses nothing: the decoder's shifts
/// give the bytes back.
pub proof fn lemma_group_bits(b0: u8, b1: u8, b2: u8)
    ensures
        sextets_of_group(b0, b1, b2).0 < 64,
        sextets_of_group(b0, b1, b2).1 < 64,
        sextets_of_group(b0, b1, b2).2 < 64,
        sextets_of_group(b0, b1, b2).3 < 64,
        ((sextets_of_group(b0, b1, b2).0 << 2) | (sextets_of_group(b0, b1, b2).1 >> 4)) == b0,
        ((sextets_of_group(b0, b1, b2).1 << 4) | (sextets_of_group(b0, b1, b2).2 >> 2)) == b1,
        ((sextets_of_group(b0, b1, b2).2 << 6) | sextets_of_group(b0, b1, b2).3) == b2,
{
    assert(b0 >> 2 < 64) by (bit_vector);
    assert(((b0 & 3) << 4) | (b1 >> 4) < 64) by (bit_vector);
    assert(((b1 & 15) << 2) | (b2 >> 6) < 64) by (bit_vector);
    assert(b2 & 63 < 64) by (bit_vector);
    assert((((b0 >> 2) << 2) | ((((b0 & 3) << 4) | (b1 >> 4)) >> 4)) == b0) by (bit_vector);
    assert((((((b0 & 3) << 4) | (b1 >> 4)) << 4) | ((((b1 & 15) << 2) | (b2 >> 6)) >> 2)) == b1)
        by (bit_vector);
    assert((((((b1 & 15) << 2) | (b2 >> 6)) << 6) | (b2 & 63)) == b2) by (bit_vector);
}

/// Encodes `bytes` as padded Base64 text.
pub fn encode(bytes: &[u8]) -> (r: String)
    ensures
        r@ == encoding(bytes@),
        r@.len() == 4 * ((bytes@.len() + 2) / 3),
{
    let mut res = String::new();
    let mut i: usize = 0;
    proof {
        assert(bytes@.skip(0) =~= bytes@);
        assert(res@ + encoding(bytes@) =~= encoding(bytes@));
    }
    while i < bytes.len()
        invariant
            i <= bytes@.len(),
            res@ + encoding(bytes@.skip(i as int)) == encoding(bytes@),
        decreases bytes@.len() - i,
    {
        let ghost rest = bytes@.skip(i as int);
        let ghost before = res@;
        let b0 = bytes[i];
        let left = bytes.len() - i;
        if left == 1 {
            proof {
                lemma_group_bits(b0, 0, 0);
                assert(((b0 & 3) << 4) | (0u8 >> 4) == (b0 & 3) << 4) by (bit_vector);
            }
            res.push(symbol_of(b0 >> 2));
            res.push(symbol_of((b0 & 3) << 4));
            res.push('=');
            res.push('=');
            proof {
                assert(rest =~= seq![b0]);
                assert(res@ =~= before + encoding(rest));
            }
            i = bytes.len();
        } else if left == 2 {
            let b1 = bytes[i + 1];
            proof {
                lemma_group_bits(b0, b1, 0);
                assert(((b1 & 15) << 2) | (0u8 >> 6) == (b1 & 15) << 2) by (bit_vector);
            }
            res.push(symbol_of(b0 >> 2));
            res.push(symbol_of(((b0 & 3) << 4) | (b1 >> 4)));
            res.push(symbol_of((b1 & 15) << 2));
            res.push('=');
            proof {
                assert(rest =~= seq![b0, b1]);
                assert(res@ =~= before + encoding(rest));
            }
            i = bytes.len();
        } else {
            let b1 = bytes[i + 1];
            let b2 = bytes[i + 2];
            proof { lemma_group_bits(b0, b1, b2); }
            res.push(symbol_of(b0 >> 2));
            res.push(symbol_of(((b0 & 3) << 4) | (b1 >> 4)));
            res.push(symbol_of(((b1 & 15) << 2) | (b2 >> 6)));
            res.push(symbol_of(b2 & 63));
            proof {
                assert(rest.take(3) =~= seq![b0, b1, b2]);
                assert(rest.skip(3) =~= bytes@.skip(i + 3));
                assert(res@ + encoding(bytes@.skip(i + 3)) =~= before + encoding(rest));
            }
            i = i + 3;
        }
    }
    proof {
        assert(bytes@.skip(i as int) =~= Seq::<u8>::empty());
        assert(res@ =~= encoding(bytes@));
        lemma_encoding_len(bytes@);
    }
    res
}

/// The text of `b` has four characters for each three bytes, rounded up:
/// a multiple of 4.
pub proof fn lemma_encoding_len(b: Seq<u8>)
    ensures
        encoding(b).len() == 4 * ((b.len() + 2) / 3),
        encoding(b).len() % 4 == 0,
    decreases b.len(),
{
    if b.len() >= 3 {
        lemma_encoding_len(b.skip(3));
    }
}

/// The 6-bit value of the ASCII character `c`, or `INVALID`.
pub open spec fn char_value(c: char) -> u8 {
    sextet(c as u8)
}

/// Whether the group at the front of `t` is well formed: its first two
/// characters are in the alphabet, and each of the last two is in the
/// alphabet or is `=`.
pub open spec fn group_valid(t: Seq<char>) -> bool
    recommends
        t.len() >= 4,
{
    &&& char_value(t[0]) != INVALID
    &&& char_value(t[1]) != INVALID
    &&& (t[2] == '=' || char_value(t[2]) != INVALID)
    &&& (t[3] == '=' || char_value(t[3]) != INVALID)
}

/// The bytes that the group at the front of `t` stands for: one where its
/// third character is `=`, two where only the fourth is, else three.
pub open spec fn group_bytes(t: Seq<char>) -> Seq<u8>
    recommends
        t.len() >= 4,
{
    let n0 = char_value(t[0]);
    let n1 = char_value(t[1]);
    let n2 = char_value(t[2]);
    let n3 = char_value(t[3]);
    let b0: u8 = (n0 << 2) | (n1 >> 4);
    let b1: u8 = (n1 << 4) | (n2 >> 2);
    let b2: u8 = (n2 << 6) | n3;
    if t[2] == '=' {
        seq![b0]
    } else if t[3] == '=' {
        seq![b0, b1]
    } else {
        seq![b0, b1, b2]
    }
}

/// The bytes `p` followed by the decoding `r`, or the error of `r`.
pub open spec fn prefixed(p: Seq<u8>, r: Result<Seq<u8>, DecodeError>) -> Result<
    Seq<u8>,
    DecodeError,
> {
    match r {
        Ok(q) => Ok(p + q),
        Err(e) => Err(e),
    }
}

/// Decoding of ASCII text whose length is a multiple of 4, group by group
/// from the front. A group with `=` ends the decoding: nothing after it is
/// read. A malformed group that is reached fails the whole decoding.
pub open spec fn decoding(t: Seq<char>) -> Result<Seq<u8>, DecodeError>
    decreases t.len(),
{
    if t.len() < 4 {
        // the empty text, as the length is a multiple of 4
        Ok(Seq::empty())
    } else if !group_valid(t) {
        Err(DecodeError::InvalidAlphabet)
    } else if t[2] == '=' || t[3] == '=' {
        Ok(group_bytes(t))
    } else {
        prefixed(group_bytes(t), decoding(t.skip(4)))
    }
}

/// What `decode` gives for the text `s`: the checks on its length in
/// bytes (`str::len`) and on ASCII come first, in that order.
pub open spec fn text_decoding(s: &str) -> Result<Seq<u8>, DecodeError> {
    if s.len() % 4 != 0 {
        Err(DecodeError::InvalidLength)
    } else if !is_ascii_chars(s@) {
        Err(DecodeError::NotAscii)
    } else {
        decoding(s@)
    }
}

/// Decodes padded Base64 text into bytes. Nothing is returned but the error
/// where the text is refused.
///
/// `=` is accepted only as the third or fourth character of a group, and the
/// first group that holds one is the last one read: whatever follows it is
/// neither decoded nor checked. A `=` as the first or second character of a
/// group is refused with `InvalidAlphabet`.
pub fn decode(s: &str) -> (r: Result<Vec<u8>, DecodeError>)
    ensures
        s.len() % 4 != 0 ==> r == Err::<Vec<u8>, DecodeError>(
            DecodeError::InvalidLength,
        ),
        s.len() % 4 == 0 && !is_ascii_chars(s@) ==> r == Err::<Vec<u8>, DecodeError>(
            DecodeError::NotAscii,
        ),
        match r {
            Ok(v) => text_decoding(s) == Ok::<Seq<u8>, DecodeError>(v@),
            Err(e) => text_decoding(s) == Err::<Seq<u8>, DecodeError>(e),
        },
{
    broadcast use vstd::string::is_ascii_spec_bytes;

    if s.len() % 4 != 0 {
        return Err(DecodeError::InvalidLength);
    }
    if !s.is_ascii() {
        return Err(DecodeError::NotAscii);
    }
    let bytes = s.as_bytes();
    let ghost t = s@;
    let n = bytes.len();
    assert(bytes@ =~= Seq::new(t.len(), |k: int| t[k] as u8));
    let mut res: Vec<u8> = Vec::new();
    let mut i: usize = 0;
    assert(t.skip(0) =~= t);
    assert(prefixed(res@, decoding(t)) =~= decoding(t)) by {
        assert(forall|q: Seq<u8>| res@ + q =~= q);
    }
    while i < n
        invariant
            n == bytes@.len(),
            n == t.len(),
            n % 4 == 0,
            i <= n,
            i % 4 == 0,
            is_ascii_chars(t),
            forall|k: int| 0 <= k < n ==> bytes@[k] == #[trigger] t[k] as u8,
            text_decoding(s) == decoding(t),
            decoding(t) == prefixed(res@, decoding(t.skip(i as int))),
        decreases n - i,
    {
        let ghost g = t.skip(i as int);
        let ghost before = res@;
        let c0 = bytes[i];
        let c1 = bytes[i + 1];
        let c2 = bytes[i + 2];
        let c3 = bytes[i + 3];
        assert(g[0] == t[i as int] && g[1] == t[i + 1] && g[2] == t[i + 2] && g[3] == t[i + 3]);
        assert(c2 == PAD <==> g[2] == '=');
        assert(c3 == PAD <==> g[3] == '=');
        let n0 = sextet_of(c0);
        let n1 = sextet_of(c1);
        let n2 = sextet_of(c2);
        let n3 = sextet_of(c3);
        if n0 == INVALID || n1 == INVALID || (c2 != PAD && n2 == INVALID) || (c3 != PAD && n3
            == INVALID) {
            return Err(DecodeError::InvalidAlphabet);
        }
        res.push((n0 << 2) | (n1 >> 4));
        if c2 == PAD {
            assert(res@ =~= before + group_bytes(g));
            return Ok(res);
        }
        res.push((n1 << 4) | (n2 >> 2));
        if c3 == PAD {
            assert(res@ =~= before + group_bytes(g));
            return Ok(res);
        }
        res.push((n2 << 6) | n3);
        assert(g.skip(4) =~= t.skip(i + 4));
        assert(res@ =~= before + group_bytes(g));
        assert(decoding(t) == prefixed(res@, decoding(t.skip(i + 4)))) by {
            match decoding(t.skip(i + 4)) {
                Ok(q) => {
                    assert(before + (group_bytes(g) + q) =~= res@ + q);
                },
                Err(e) => {},
            }
        }
        i = i + 4;
    }
    assert(t.skip(i as int) =~= Seq::<char>::empty());
    assert(res@ + Seq::<u8>::empty() =~= res@);
    Ok(res)
}

/// Relies on `String::push`: appends one character.
pub assume_specification[ String::push ](s: &mut String, ch: char)
    ensures
        final(s)@ == old(s)@.push(ch),
;

} // verus!
