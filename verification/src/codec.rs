//! Frame codec: fixed-size, zero-padded byte buffers carrying UTF-8 text.
//!
//! A frame is a byte buffer of a fixed capacity.  Encoding places the
//! UTF-8 bytes of a text at the front and fills the remainder with zero
//! bytes; a text whose encoding does not fit is rejected outright, never
//! truncated.  Decoding strips the trailing zero bytes and interprets
//! what is left as UTF-8.  An empty decoded text (an all-zero frame) is
//! the conventional failure signal for registration and login replies.
use vstd::prelude::*;
use vstd::utf8::valid_utf8;
use vstd::utf8::decode_utf8;
use vstd::utf8::encode_utf8;

verus! {

/// Why a text cannot be encoded into a frame.
#[derive(Clone, Copy, Debug, PartialEq, Eq, Structural)]
pub enum EncodeError {
    /// The UTF-8 encoding of the text is longer than the frame capacity.
    Oversize,
}

/// Why the bytes of a frame cannot be read back as text.
#[derive(Clone, Copy, Debug, PartialEq, Eq, Structural)]
pub enum DecodeError {
    /// After stripping the zero padding the bytes are not valid UTF-8.
    InvalidUtf8,
}

/// The contents of a frame: the text bytes followed by zero padding up
/// to the capacity.
pub open spec fn spec_pad(bytes: Seq<u8>, cap: nat) -> Seq<u8>
    recommends
        bytes.len() <= cap,
{
    bytes + Seq::new((cap - bytes.len()) as nat, |i: int| 0u8)
}

/// The text bytes of a frame: everything before the trailing zero bytes.
pub open spec fn spec_strip(bytes: Seq<u8>) -> Seq<u8>
    decreases bytes.len(),
{
    if bytes.len() == 0 {
        bytes
    } else if bytes.last() == 0u8 {
        spec_strip(bytes.drop_last())
    } else {
        bytes
    }
}

/// Stripping the padding recovers the text bytes, as long as the text
/// itself does not end in a zero byte.
pub proof fn lemma_strip_pad(bytes: Seq<u8>, cap: nat)
    requires
        bytes.len() <= cap,
        bytes.len() == 0 || bytes.last() != 0u8,
    ensures
        spec_strip(spec_pad(bytes, cap)) == bytes,
    decreases cap - bytes.len(),
{
    if bytes.len() == cap {
        assert(spec_pad(bytes, cap) =~= bytes);
        if bytes.len() == 0 {
        }
    } else {
        let padded = spec_pad(bytes, cap);
        assert(padded.last() == 0u8);
        assert(padded.drop_last() =~= spec_pad(bytes, (cap - 1) as nat));
        lemma_strip_pad(bytes, (cap - 1) as nat);
    }
}

/// Stripping never lengthens the bytes.
pub proof fn lemma_strip_len(bytes: Seq<u8>)
    ensures
        spec_strip(bytes).len() <= bytes.len(),
    decreases bytes.len(),
{
    if bytes.len() > 0 && bytes.last() == 0u8 {
        lemma_strip_len(bytes.drop_last());
    }
}

/// A UTF-8 decoding has at most one character per byte.
pub proof fn lemma_decode_utf8_len(bytes: Seq<u8>)
    requires
        valid_utf8(bytes),
    ensures
        decode_utf8(bytes).len() <= bytes.len(),
    decreases bytes.len(),
{
    if bytes.len() > 0 {
        lemma_decode_utf8_len(vstd::utf8::pop_first_scalar(bytes));
    }
}

/// The UTF-8 encoding of a concatenation is the concatenation of the
/// encodings.
pub proof fn lemma_encode_utf8_concat(a: Seq<char>, b: Seq<char>)
    ensures
        encode_utf8(a + b) == encode_utf8(a) + encode_utf8(b),
    decreases a.len(),
{
    if a.len() == 0 {
        assert(a + b =~= b);
        assert(encode_utf8(a) + encode_utf8(b) =~= encode_utf8(b));
    } else {
        assert((a + b).drop_first() =~= a.drop_first() + b);
        lemma_encode_utf8_concat(a.drop_first(), b);
        assert(encode_utf8(a + b) =~= encode_utf8(a) + encode_utf8(b));
    }
}

/// A sequence of non-zero ASCII bytes is valid UTF-8 and decodes to the
/// corresponding characters, one per byte.
pub proof fn lemma_ascii_bytes_decode(bytes: Seq<u8>)
    requires
        forall|i: int| 0 <= i < bytes.len() ==> #[trigger] bytes[i] < 0x80,
    ensures
        valid_utf8(bytes),
        decode_utf8(bytes).len() == bytes.len(),
        forall|i: int|
            0 <= i < bytes.len() ==> #[trigger] decode_utf8(bytes)[i] == bytes[i] as char,
    decreases bytes.len(),
{
    if bytes.len() > 0 {
        assert(vstd::utf8::is_leading_byte_width_1(bytes[0]));
        assert(vstd::utf8::valid_first_scalar(bytes));
        assert(vstd::utf8::length_of_first_scalar(bytes) == 1);
        let rest = vstd::utf8::pop_first_scalar(bytes);
        assert(rest =~= bytes.drop_first());
        lemma_ascii_bytes_decode(rest);
        let b: u8 = bytes[0];
        assert(vstd::utf8::decode_first_scalar(bytes) == (b & 0x7f));
        assert(b & 0x7f == b) by (bit_vector)
            requires
                b < 0x80,
        ;
    }
}

/// A sequence of ASCII characters encodes to exactly one byte per
/// character.
pub proof fn lemma_ascii_chars_encode(chars: Seq<char>)
    requires
        forall|i: int| 0 <= i < chars.len() ==> ((#[trigger] chars[i]) as u32) < 0x80,
    ensures
        encode_utf8(chars).len() == chars.len(),
    decreases chars.len(),
{
    if chars.len() > 0 {
        let c0 = chars[0] as u32;
        assert(c0 < 0x80);
        assert(vstd::utf8::has_width_1_encoding(c0));
        assert(vstd::utf8::encode_scalar(c0).len() == 1);
        let rest = chars.drop_first();
        assert(forall|i: int| 0 <= i < rest.len() ==> ((#[trigger] rest[i]) as u32) < 0x80);
        lemma_ascii_chars_encode(rest);
    }
}

/// Relies on `String::from_utf8`: it returns `Ok` exactly when the bytes
/// are valid UTF-8, and the returned string then holds those bytes, so
/// its characters are their UTF-8 decoding.
#[verifier::external_body]
pub(crate) fn string_from_utf8(bytes: Vec<u8>) -> (r: Option<String>)
    ensures
        r is Some <==> valid_utf8(bytes@),
        r is Some ==> r.unwrap()@ == decode_utf8(bytes@),
{
    String::from_utf8(bytes).ok()
}

/// Encode `text` into a frame of `cap` bytes: the UTF-8 bytes of the
/// text followed by zero padding.  A text whose encoding exceeds the
/// capacity is rejected; nothing is ever truncated.
pub fn encode_frame(text: &str, cap: usize) -> (r: Result<Vec<u8>, EncodeError>)
    ensures
        r is Ok <==> encode_utf8(text@).len() <= cap,
        r is Ok ==> (r->Ok_0)@ == spec_pad(encode_utf8(text@), cap as nat),
{
    let mut buf = text.as_bytes_vec();
    if buf.len() > cap {
        return Err(EncodeError::Oversize);
    }
    assert(buf@ =~= spec_pad(encode_utf8(text@), buf@.len()));
    while buf.len() < cap
        invariant
            encode_utf8(text@).len() <= buf@.len() <= cap,
            buf@ == spec_pad(encode_utf8(text@), buf@.len()),
        decreases cap - buf.len(),
    {
        buf.push(0u8);
        assert(buf@ =~= spec_pad(encode_utf8(text@), buf@.len()));
    }
    Ok(buf)
}

/// Decode a frame: strip the trailing zero bytes and read the remainder
/// as UTF-8 text.  Fails exactly when that remainder is not valid UTF-8.
pub fn decode_frame(frame: &Vec<u8>) -> (r: Result<String, DecodeError>)
    ensures
        r is Ok <==> valid_utf8(spec_strip(frame@)),
        r is Ok ==> (r->Ok_0)@ == decode_utf8(spec_strip(frame@)),
{
    let mut end: usize = frame.len();
    assert(frame@.subrange(0, end as int) =~= frame@);
    while end > 0 && frame[end - 1] == 0u8
        invariant
            end <= frame@.len(),
            spec_strip(frame@) == spec_strip(frame@.subrange(0, end as int)),
        decreases end,
    {
        assert(frame@.subrange(0, end as int).drop_last() =~= frame@.subrange(
            0,
            end as int - 1,
        ));
        end = end - 1;
    }
    proof {
        if end > 0 {
            assert(spec_strip(frame@.subrange(0, end as int)) == frame@.subrange(0, end as int));
        }
    }
    let mut text: Vec<u8> = Vec::new();
    let mut i: usize = 0;
    while i < end
        invariant
            i <= end <= frame@.len(),
            text@ == frame@.subrange(0, i as int),
        decreases end - i,
    {
        text.push(frame[i]);
        assert(text@ =~= frame@.subrange(0, i as int + 1));
        i = i + 1;
    }
    assert(text@ =~= spec_strip(frame@));
    match string_from_utf8(text) {
        Some(s) => Ok(s),
        None => Err(DecodeError::InvalidUtf8),
    }
}

} // verus!
