use vstd::prelude::*;
use vstd::utf8::{
    encode_scalar, encode_utf8, has_width_1_encoding, last_continuation_byte,
    leading_byte_width_1, leading_byte_width_2, leading_byte_width_3, leading_byte_width_4,
    second_last_continuation_byte, third_last_continuation_byte,
};
use crate::text::{
    byte_lines_of, free_of, lemma_split_on_nonempty, lemma_split_on_tail, lines_of, split_on,
    without_cr, without_last,
};

verus! {

/// Each line of `lines` in UTF-8.
pub open spec fn all_encoded(lines: Seq<Seq<char>>) -> Seq<Seq<u8>> {
    lines.map_values(|line: Seq<char>| encode_utf8(line))
}

/// A byte with one of the marks of a multi-byte encoding is 128 or more.
proof fn lemma_high_bit(x: u8)
    by (bit_vector)
    ensures
        0x80u8 | x >= 0x80u8,
        0xC0u8 | x >= 0x80u8,
        0xE0u8 | x >= 0x80u8,
        0xF0u8 | x >= 0x80u8,
{
}

/// The low seven bits of a value below 128 are the value.
proof fn lemma_low_bits(v: u32)
    by (bit_vector)
    requires
        v <= 0x7Fu32,
    ensures
        v & 0x7Fu32 == v,
{
}

/// Different characters have different codes.
pub proof fn lemma_distinct_codes(c: char, d: char)
    ensures
        c != d ==> c as u32 != d as u32,
{
}

/// A character below 128 is encoded as the one byte of that value; any other
/// as bytes that are all 128 or more.
pub proof fn lemma_encode_scalar_bytes(c: char)
    ensures
        encode_scalar(c as u32).len() >= 1,
        (c as u32) < 0x80 ==> encode_scalar(c as u32).len() == 1 && encode_scalar(c as u32)[0]
            == c as u32,
        (c as u32) >= 0x80 ==> forall|k: int|
            0 <= k < encode_scalar(c as u32).len() ==> #[trigger] encode_scalar(c as u32)[k]
                >= 0x80,
{
    let v = c as u32;
    let bytes = encode_scalar(v);
    if has_width_1_encoding(v) {
        lemma_low_bits(v);
        assert(leading_byte_width_1(v) == v);
    } else {
        lemma_high_bit(((v >> 6) & 0x1F) as u8);
        lemma_high_bit(((v >> 12) & 0x0F) as u8);
        lemma_high_bit(((v >> 18) & 0x7) as u8);
        lemma_high_bit((v & 0x3F) as u8);
        lemma_high_bit(((v >> 6) & 0x3F) as u8);
        lemma_high_bit(((v >> 12) & 0x3F) as u8);
        assert(leading_byte_width_2(v) >= 0x80);
        assert(leading_byte_width_3(v) >= 0x80);
        assert(leading_byte_width_4(v) >= 0x80);
        assert(last_continuation_byte(v) >= 0x80);
        assert(second_last_continuation_byte(v) >= 0x80);
        assert(third_last_continuation_byte(v) >= 0x80);
    }
}

/// The encoding of a text with one more character is that of the text, then
/// that of the character.
pub proof fn lemma_encode_push(text: Seq<char>, c: char)
    ensures
        encode_utf8(text.push(c)) == encode_utf8(text) + encode_scalar(c as u32),
    decreases text.len(),
{
    let longer = text.push(c);
    if text.len() == 0 {
        assert(longer.drop_first() == text);
        assert(encode_utf8(text) == Seq::<u8>::empty());
        assert(encode_utf8(longer) == encode_scalar(c as u32) + encode_utf8(text));
    } else {
        lemma_encode_push(text.drop_first(), c);
        assert(longer.drop_first() == text.drop_first().push(c));
        assert(longer[0] == text[0]);
    }
}

/// Only the empty text has an empty encoding.
pub proof fn lemma_encode_empty(text: Seq<char>)
    ensures
        encode_utf8(text).len() == 0 <==> text.len() == 0,
{
    if text.len() > 0 {
        lemma_encode_scalar_bytes(text[0]);
    }
}

/// A text is cut at a character below 128 where its encoding is cut at the
/// byte of that value.
pub proof fn lemma_split_encoded(text: Seq<char>, sep: char, byte: u8)
    requires
        byte < 0x80,
        sep as u32 == byte,
    ensures
        split_on(encode_utf8(text), byte) == all_encoded(split_on(text, sep)),
    decreases text.len(),
{
    let empty = Seq::<char>::empty();
    if text.len() == 0 {
        assert(encode_utf8(text) == Seq::<u8>::empty());
        assert(all_encoded(seq![empty]) == seq![Seq::<u8>::empty()]);
    } else {
        let front = text.drop_last();
        let c = text.last();
        let pieces = split_on(front, sep);
        let bytes = encode_scalar(c as u32);
        lemma_split_encoded(front, sep, byte);
        lemma_split_on_nonempty(front, sep);
        lemma_encode_push(front, c);
        lemma_encode_scalar_bytes(c);
        lemma_distinct_codes(c, sep);
        assert(text == front.push(c));
        if c == sep {
            assert(bytes == seq![byte]);
            assert(encode_utf8(text) == encode_utf8(front).push(byte));
            assert(encode_utf8(text).drop_last() == encode_utf8(front));
            assert(all_encoded(pieces.push(empty)) == all_encoded(pieces).push(
                Seq::<u8>::empty(),
            ));
        } else {
            assert(free_of(bytes, byte));
            lemma_split_on_tail(encode_utf8(front), bytes, byte);
            lemma_encode_push(pieces.last(), c);
            let grown = pieces.drop_last().push(pieces.last().push(c));
            assert(all_encoded(pieces).drop_last() == all_encoded(pieces.drop_last()));
            assert(all_encoded(grown) == all_encoded(pieces.drop_last()).push(
                encode_utf8(pieces.last().push(c)),
            ));
        }
    }
}

/// A line ends in a carriage return where its encoding ends in the byte 13.
pub proof fn lemma_encoded_without_cr(line: Seq<char>)
    ensures
        without_last(encode_utf8(line), 13u8) == encode_utf8(without_cr(line)),
{
    if line.len() == 0 {
        assert(encode_utf8(line) == Seq::<u8>::empty());
    } else {
        let front = line.drop_last();
        let c = line.last();
        let bytes = encode_scalar(c as u32);
        assert(line == front.push(c));
        lemma_encode_push(front, c);
        lemma_encode_scalar_bytes(c);
        lemma_distinct_codes(c, '\r');
        assert(encode_utf8(line).last() == bytes[bytes.len() - 1]);
        if c == '\r' {
            assert(bytes == seq![13u8]);
            assert(encode_utf8(line) == encode_utf8(front).push(13u8));
            assert(encode_utf8(line).drop_last() == encode_utf8(front));
        } else {
            assert(bytes[bytes.len() - 1] != 13u8);
        }
    }
}

/// The lines of an encoded text are the encoded lines of the text.
pub proof fn lemma_lines_encoded(text: Seq<char>)
    ensures
        byte_lines_of(encode_utf8(text)) == all_encoded(lines_of(text)),
{
    let pieces = split_on(text, '\n');
    lemma_split_encoded(text, '\n', 10u8);
    lemma_split_on_nonempty(text, '\n');
    lemma_encode_empty(pieces.last());
    let ended = pieces.drop_last().map_values(|line: Seq<char>| without_last(line, '\r'));
    let encoded = all_encoded(pieces);
    let ended_bytes = encoded.drop_last().map_values(|line: Seq<u8>| without_last(line, 13u8));
    assert(ended_bytes == all_encoded(ended)) by {
        assert forall|k: int| 0 <= k < ended.len() implies ended_bytes[k] == all_encoded(
            ended,
        )[k] by {
            lemma_encoded_without_cr(pieces[k]);
        }
    }
    assert(all_encoded(ended.push(pieces.last())) == all_encoded(ended).push(encoded.last()));
}

} // verus!
