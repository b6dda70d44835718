//! Decoding of a byte stream into Unicode scalar values, one multi-byte sequence at a time.
//!
//! The decoder is lenient about the shape of a sequence: the count of leading one bits of
//! the first byte alone decides how many bytes belong to it, and every following byte
//! contributes its low seven bits. What it insists on is that the bytes are there and that
//! the accumulated value is a scalar value. Where either fails, production stops for good
//! and [`Utf8Iter::end`] tells why.
use crate::source::{head, tail, Source};
use vstd::prelude::*;
use vstd::std_specs::bits::{axiom_u8_leading_ones, u8_leading_ones};
use vstd::utf8::{
    encode_scalar, encode_utf8, has_width_1_encoding, has_width_2_encoding,
    has_width_3_encoding, last_continuation_byte, leading_byte_width_1, leading_byte_width_2,
    leading_byte_width_3, leading_byte_width_4, second_last_continuation_byte,
    third_last_continuation_byte,
};

verus! {

/// Whether `v` is a Unicode scalar value: a code point up to `0x10FFFF` that is no surrogate.
pub open spec fn is_scalar_value(v: u32) -> bool {
    v <= 0xD7FF || (0xE000 <= v && v <= 0x10FFFF)
}

/// `char::from_u32` of the standard library: the character with the given value where that
/// value is a Unicode scalar value, and `None` for every other value.
pub assume_specification[ char::from_u32 ](i: u32) -> (c: Option<char>)
    ensures
        c == (if is_scalar_value(i) {
            Some(i as char)
        } else {
            None::<char>
        }),
;

/// The number of bytes in the sequence that `first` opens: its count of leading one bits,
/// and one byte where that count is zero or one.
pub open spec fn sequence_len(first: u8) -> nat {
    if u8_leading_ones(first) <= 1 {
        1
    } else {
        u8_leading_ones(first) as nat
    }
}

/// What the first byte of a sequence contributes: the byte without its leading one bits.
pub open spec fn lead_value(first: u8) -> u32 {
    (first & (0xFFu8 >> u8_leading_ones(first))) as u32
}

/// The accumulated value after one more byte: six places up, then the byte without its top
/// bit. Bits that leave the 32-bit value at the top are lost.
pub open spec fn with_continuation(value: u32, byte: u8) -> u32 {
    (value << 6) | ((byte & 0x7Fu8) as u32)
}

/// The value accumulated from the first `n` bytes of a sequence, for `n` of at least one.
pub open spec fn prefix_value(bytes: Seq<u8>, n: nat) -> u32
    decreases n,
{
    if n <= 1 {
        lead_value(bytes[0])
    } else {
        with_continuation(prefix_value(bytes, (n - 1) as nat), bytes[n - 1])
    }
}

/// Why a decoder stopped producing characters.
#[derive(Clone, Copy, Debug, PartialEq, Eq)]
pub enum DecodeEnd {
    /// The bytes ended where a sequence would have begun.
    Exhausted,
    /// The bytes ended inside a sequence.
    Truncated,
    /// A complete sequence gave a value that is no Unicode scalar value.
    NotScalar,
}

/// The character that the front of `bytes` decodes to, or why it decodes to none.
pub open spec fn first_scalar(bytes: Seq<u8>) -> Result<char, DecodeEnd> {
    if bytes.len() == 0 {
        Err(DecodeEnd::Exhausted)
    } else if bytes.len() < sequence_len(bytes[0]) {
        Err(DecodeEnd::Truncated)
    } else if !is_scalar_value(prefix_value(bytes, sequence_len(bytes[0]))) {
        Err(DecodeEnd::NotScalar)
    } else {
        Ok(prefix_value(bytes, sequence_len(bytes[0])) as char)
    }
}

/// The number of bytes that decoding the front of `bytes` uses up: the whole first
/// sequence, or all there is where the bytes end before it does.
pub open spec fn first_len(bytes: Seq<u8>) -> nat {
    if bytes.len() == 0 {
        0
    } else if bytes.len() < sequence_len(bytes[0]) {
        bytes.len()
    } else {
        sequence_len(bytes[0])
    }
}

/// The characters that `bytes` decode to: one per sequence, up to the first sequence that
/// decodes to none.
pub open spec fn decode(bytes: Seq<u8>) -> Seq<char>
    decreases bytes.len(),
{
    match first_scalar(bytes) {
        Ok(c) => seq![c] + decode(bytes.skip(first_len(bytes) as int)),
        Err(_) => Seq::empty(),
    }
}

/// The count of leading one bits of a byte, read off the range the byte lies in.
pub open spec fn leading_ones_by_range(b: u8) -> u32 {
    if b < 0x80 {
        0
    } else if b < 0xC0 {
        1
    } else if b < 0xE0 {
        2
    } else if b < 0xF0 {
        3
    } else if b < 0xF8 {
        4
    } else if b < 0xFC {
        5
    } else if b < 0xFE {
        6
    } else if b < 0xFF {
        7
    } else {
        8
    }
}

/// The count of leading one bits of a byte is the one its range gives.
pub proof fn lemma_leading_ones_by_range(b: u8)
    ensures
        u8_leading_ones(b) == leading_ones_by_range(b),
{
    axiom_u8_leading_ones(b);
    let n: u32 = u8_leading_ones(b);
    if n == 0 {
        assert(((b >> 7u8) & 1u8) == 0u8 ==> b < 0x80u8) by (bit_vector);
    } else if n == 1 {
        assert(((b >> 7u8) & 1u8) == 1u8 && ((b >> 6u8) & 1u8) == 0u8 ==> 0x80u8 <= b && b
            < 0xC0u8) by (bit_vector);
    } else if n == 2 {
        assert(((b >> 7u8) & 1u8) == 1u8 && ((b >> 6u8) & 1u8) == 1u8 && ((b >> 5u8) & 1u8)
            == 0u8 ==> 0xC0u8 <= b && b < 0xE0u8) by (bit_vector);
    } else if n == 3 {
        assert(((b >> 7u8) & 1u8) == 1u8 && ((b >> 6u8) & 1u8) == 1u8 && ((b >> 5u8) & 1u8)
            == 1u8 && ((b >> 4u8) & 1u8) == 0u8 ==> 0xE0u8 <= b && b < 0xF0u8) by (bit_vector);
    } else if n == 4 {
        assert(((b >> 7u8) & 1u8) == 1u8 && ((b >> 6u8) & 1u8) == 1u8 && ((b >> 5u8) & 1u8)
            == 1u8 && ((b >> 4u8) & 1u8) == 1u8 && ((b >> 3u8) & 1u8) == 0u8 ==> 0xF0u8 <= b && b
            < 0xF8u8) by (bit_vector);
    } else if n == 5 {
        assert(((b >> 7u8) & 1u8) == 1u8 && ((b >> 6u8) & 1u8) == 1u8 && ((b >> 5u8) & 1u8)
            == 1u8 && ((b >> 4u8) & 1u8) == 1u8 && ((b >> 3u8) & 1u8) == 1u8 && ((b >> 2u8) & 1u8)
            == 0u8 ==> 0xF8u8 <= b && b < 0xFCu8) by (bit_vector);
    } else if n == 6 {
        assert(((b >> 7u8) & 1u8) == 1u8 && ((b >> 6u8) & 1u8) == 1u8 && ((b >> 5u8) & 1u8)
            == 1u8 && ((b >> 4u8) & 1u8) == 1u8 && ((b >> 3u8) & 1u8) == 1u8 && ((b >> 2u8) & 1u8)
            == 1u8 && ((b >> 1u8) & 1u8) == 0u8 ==> 0xFCu8 <= b && b < 0xFEu8) by (bit_vector);
    } else if n == 7 {
        assert(((b >> 7u8) & 1u8) == 1u8 && ((b >> 6u8) & 1u8) == 1u8 && ((b >> 5u8) & 1u8)
            == 1u8 && ((b >> 4u8) & 1u8) == 1u8 && ((b >> 3u8) & 1u8) == 1u8 && ((b >> 2u8) & 1u8)
            == 1u8 && ((b >> 1u8) & 1u8) == 1u8 && ((b >> 0u8) & 1u8) == 0u8 ==> b == 0xFEu8)
            by (bit_vector);
    }
}

/// The UTF-8 encoding of a character, in front of any bytes, decodes to that character and
/// uses up exactly the bytes of the encoding.
pub proof fn lemma_first_scalar_of_encoding(c: char, rest: Seq<u8>)
    ensures
        first_scalar(encode_scalar(c as u32) + rest) == Ok::<char, DecodeEnd>(c),
        first_len(encode_scalar(c as u32) + rest) == encode_scalar(c as u32).len(),
{
    let s: u32 = c as u32;
    let bytes = encode_scalar(s) + rest;
    reveal_with_fuel(prefix_value, 4);
    if has_width_1_encoding(s) {
        let b1: u8 = leading_byte_width_1(s);
        assert(s <= 0x7F ==> ({
            let b1 = (s & 0x7F) as u8;
            b1 < 0x80 && (b1 & (0xFFu8 >> 0u32)) as u32 == s
        })) by (bit_vector);
        lemma_leading_ones_by_range(b1);
        assert(bytes[0] == b1);
        assert(prefix_value(bytes, 1) == s);
    } else if has_width_2_encoding(s) {
        let b1: u8 = leading_byte_width_2(s);
        let b2: u8 = last_continuation_byte(s);
        assert(0x80 <= s && s <= 0x7FF ==> ({
            let b1 = 0xC0 | ((s >> 6) & 0x1F) as u8;
            let b2 = 0x80 | (s & 0x3F) as u8;
            0xC0 <= b1 && b1 < 0xE0 && ((((b1 & (0xFFu8 >> 2u32)) as u32) << 6) | ((b2
                & 0x7Fu8) as u32)) == s
        })) by (bit_vector);
        lemma_leading_ones_by_range(b1);
        assert(bytes[0] == b1 && bytes[1] == b2);
        assert(prefix_value(bytes, 2) == s);
    } else if has_width_3_encoding(s) {
        let b1: u8 = leading_byte_width_3(s);
        let b2: u8 = second_last_continuation_byte(s);
        let b3: u8 = last_continuation_byte(s);
        assert(0x800 <= s && s <= 0xFFFF ==> ({
            let b1 = 0xE0 | ((s >> 12) & 0x0F) as u8;
            let b2 = 0x80 | ((s >> 6) & 0x3F) as u8;
            let b3 = 0x80 | (s & 0x3F) as u8;
            0xE0 <= b1 && b1 < 0xF0 && ((((((b1 & (0xFFu8 >> 3u32)) as u32) << 6) | ((b2
                & 0x7Fu8) as u32)) << 6) | ((b3 & 0x7Fu8) as u32)) == s
        })) by (bit_vector);
        lemma_leading_ones_by_range(b1);
        assert(bytes[0] == b1 && bytes[1] == b2 && bytes[2] == b3);
        assert(prefix_value(bytes, 3) == s);
    } else {
        let b1: u8 = leading_byte_width_4(s);
        let b2: u8 = third_last_continuation_byte(s);
        let b3: u8 = second_last_continuation_byte(s);
        let b4: u8 = last_continuation_byte(s);
        assert(0x10000 <= s && s <= 0x10FFFF ==> ({
            let b1 = 0xF0 | ((s >> 18) & 0x7) as u8;
            let b2 = 0x80 | ((s >> 12) & 0x3F) as u8;
            let b3 = 0x80 | ((s >> 6) & 0x3F) as u8;
            let b4 = 0x80 | (s & 0x3F) as u8;
            0xF0 <= b1 && b1 < 0xF8 && ((((((((b1 & (0xFFu8 >> 4u32)) as u32) << 6) | ((b2
                & 0x7Fu8) as u32)) << 6) | ((b3 & 0x7Fu8) as u32)) << 6) | ((b4 & 0x7Fu8) as u32))
                == s
        })) by (bit_vector);
        lemma_leading_ones_by_range(b1);
        assert(bytes[0] == b1 && bytes[1] == b2 && bytes[2] == b3 && bytes[3] == b4);
        assert(prefix_value(bytes, 4) == s);
    }
}

/// Decoding the UTF-8 encoding of a sequence of characters gives the sequence back.
pub proof fn lemma_decode_encoded(chars: Seq<char>)
    ensures
        decode(encode_utf8(chars)) == chars,
    decreases chars.len(),
{
    if chars.len() > 0 {
        let rest = encode_utf8(chars.drop_first());
        let bytes = encode_utf8(chars);
        lemma_first_scalar_of_encoding(chars[0], rest);
        assert(bytes.skip(first_len(bytes) as int) =~= rest);
        lemma_decode_encoded(chars.drop_first());
        assert(seq![chars[0]] + chars.drop_first() =~= chars);
    }
}

/// A lazy decoder of characters from a source of bytes.
///
/// Each call of `next` reads one sequence from the bytes and no more. Once a call has
/// decoded to no character, for whichever reason, every later call returns `None` and reads
/// nothing.
pub struct Utf8Iter<B: Source<Item = u8>> {
    bytes: B,
    end: Option<DecodeEnd>,
}

impl<B: Source<Item = u8>> Utf8Iter<B> {
    /// The bytes that have not been read yet.
    pub closed spec fn unread(&self) -> Seq<u8> {
        self.bytes.remaining()
    }

    /// Why production has stopped, where it has.
    pub closed spec fn stopped(&self) -> Option<DecodeEnd> {
        self.end
    }

    /// A decoder at the start of `bytes`.
    pub fn new(bytes: B) -> (decoder: Self)
        ensures
            decoder.unread() == bytes.remaining(),
            decoder.stopped() is None,
    {
        Utf8Iter { bytes, end: None }
    }

    /// Why production has stopped, or `None` while it has not.
    pub fn end(&self) -> (end: Option<DecodeEnd>)
        ensures
            end == self.stopped(),
    {
        self.end
    }
}

impl<B: Source<Item = u8>> Source for Utf8Iter<B> {
    type Item = char;

    open spec fn remaining(&self) -> Seq<char> {
        if self.stopped() is Some {
            Seq::empty()
        } else {
            decode(self.unread())
        }
    }

    /// Decodes the next character. While production has not stopped, the front of the
    /// unread bytes decides: the bytes that the attempt uses up are read, and the result is
    /// the character they decode to, or `None` together with the reason recorded.
    fn next(&mut self) -> (item: Option<char>)
        ensures
            old(self).stopped() is Some ==> item is None && *final(self) == *old(self),
            old(self).stopped() is None ==> final(self).unread() == old(self).unread().skip(
                first_len(old(self).unread()) as int,
            ),
            old(self).stopped() is None ==> match first_scalar(old(self).unread()) {
                Ok(c) => item == Some(c) && final(self).stopped() is None,
                Err(cause) => item is None && final(self).stopped() == Some(cause),
            },
    {
        if self.end.is_some() {
            return None;
        }
        let ghost input = self.bytes.remaining();
        let first: u8 = match self.bytes.next() {
            Some(b) => b,
            None => {
                self.end = Some(DecodeEnd::Exhausted);
                assert(input.skip(0) =~= input);
                return None;
            },
        };
        let leading: u32 = first.leading_ones();
        proof {
            axiom_u8_leading_ones(first);
            assert(0xFFu8 >> 8u32 == 0u8) by (bit_vector);
            assert(first & 0u8 == 0u8) by (bit_vector);
        }
        let mut value: u32 = if leading < 8 {
            (first & (0xFFu8 >> leading)) as u32
        } else {
            0
        };
        let mut taken: u32 = 1;
        while taken < leading
            invariant
                1 <= taken <= 8,
                leading <= 8,
                taken <= sequence_len(input[0]),
                leading == u8_leading_ones(input[0]),
                taken <= input.len(),
                self.bytes.remaining() == input.skip(taken as int),
                value == prefix_value(input, taken as nat),
                self.end is None,
                old(self).end is None,
                old(self).bytes.remaining() == input,
            decreases leading - taken,
        {
            match self.bytes.next() {
                Some(b) => {
                    assert(input.skip(taken as int).drop_first() =~= input.skip(taken + 1));
                    value = (value << 6) | ((b & 0x7F) as u32);
                },
                None => {
                    self.end = Some(DecodeEnd::Truncated);
                    return None;
                },
            }
            taken = taken + 1;
        }
        match char::from_u32(value) {
            Some(c) => {
                assert((seq![c] + decode(input.skip(taken as int))).drop_first() =~= decode(
                    input.skip(taken as int),
                ));
                Some(c)
            },
            None => {
                self.end = Some(DecodeEnd::NotScalar);
                None
            },
        }
    }
}

} // verus!
