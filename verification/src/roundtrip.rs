use crate::connection::spec_wire;
use crate::decimal::{all_digits, decimal_digits, digits_value, is_digit, spec_parse_integer, ZERO};
use crate::decode::{
    lemma_line_found, spec_decode_bulk_string, spec_decode_simple_string, spec_parse_message,
    terminator_at, Decoded, CARRIAGE_RETURN, NEWLINE,
};
use crate::error::RespError;
use crate::value::{line_end, ValueView};
use vstd::prelude::*;
use vstd::utf8::*;

verus! {

/// Two texts, one behind the other, are encoded as their encodings, one
/// behind the other.
pub proof fn lemma_encode_utf8_concat(a: Seq<char>, b: Seq<char>)
    ensures
        encode_utf8(a + b) == encode_utf8(a) + encode_utf8(b),
    decreases a.len(),
{
    if a.len() == 0 {
        assert(a + b =~= b);
        assert(encode_utf8(a) + encode_utf8(b) =~= encode_utf8(b));
    } else {
        assert((a + b).drop_first() =~= a.drop_first() + b);
        lemma_encode_utf8_concat(a.drop_first(), b);
        assert(encode_utf8(a + b) =~= encode_utf8(a) + encode_utf8(b));
    }
}

/// An ASCII character is encoded as itself; the encoding of any other
/// character holds no ASCII byte.
pub proof fn lemma_scalar_bytes(c: char)
    ensures
        encode_scalar(c as u32).len() >= 1,
        (c as u32) < 128 ==> encode_scalar(c as u32) == seq![c as u8] && (c as u8) as char == c,
        (c as u32) >= 128 ==> forall|k: int|
            0 <= k < encode_scalar(c as u32).len() ==> !is_leading_byte_width_1(
                #[trigger] encode_scalar(c as u32)[k],
            ),
{
    let scalar = c as u32;
    let bytes = encode_scalar(scalar);
    assert(forall|low: u8| #![auto] (0x80u8 | low) >= 128) by (bit_vector);
    assert(forall|low: u8| #![auto] (0xC0u8 | low) >= 128) by (bit_vector);
    assert(forall|low: u8| #![auto] (0xE0u8 | low) >= 128) by (bit_vector);
    assert(forall|low: u8| #![auto] (0xF0u8 | low) >= 128) by (bit_vector);
    if scalar < 128 {
        assert((scalar & 0x7F) as u8 == scalar as u8) by (bit_vector)
            requires
                scalar < 128,
        ;
        assert(bytes =~= seq![c as u8]);
    }
}

/// Whether no carriage return of `text` stands directly before a line feed.
pub open spec fn terminator_free(text: Seq<char>) -> bool {
    forall|i: int| 0 <= i && i + 1 < text.len() ==> !(#[trigger] text[i] == '\r' && text[i + 1] == '\n')
}

/// The encoding of a text without a line terminator holds none either, and
/// starts with a line feed only where the text does.
pub proof fn lemma_encoding_keeps_terminators_out(text: Seq<char>)
    requires
        terminator_free(text),
    ensures
        forall|j: int| !terminator_at(encode_utf8(text), j),
        text.len() == 0 ==> encode_utf8(text).len() == 0,
        text.len() > 0 ==> encode_utf8(text).len() > 0 && (encode_utf8(text)[0] == NEWLINE
            ==> text[0] == '\n'),
    decreases text.len(),
{
    if text.len() > 0 {
        let first = text[0];
        let rest = text.drop_first();
        let head = encode_scalar(first as u32);
        let tail = encode_utf8(rest);
        let bytes = encode_utf8(text);
        lemma_scalar_bytes(first);
        assert(terminator_free(rest)) by {
            assert forall|i: int| 0 <= i && i + 1 < rest.len() implies !(#[trigger] rest[i] == '\r'
                && rest[i + 1] == '\n') by {
                assert(rest[i] == text[i + 1]);
                assert(rest[i + 1] == text[i + 2]);
            }
        }
        lemma_encoding_keeps_terminators_out(rest);
        assert(bytes == head + tail);
        assert forall|j: int| !terminator_at(bytes, j) by {
            if terminator_at(bytes, j) {
                if j + 1 < head.len() {
                    assert(bytes[j] == head[j]);
                } else if j >= head.len() {
                    assert(bytes[j] == tail[j - head.len()]);
                    assert(bytes[j + 1] == tail[j + 1 - head.len()]);
                    assert(terminator_at(tail, j - head.len()));
                } else {
                    assert(bytes[j] == head[j]);
                    assert(bytes[j + 1] == tail[0]);
                    assert(is_leading_byte_width_1(head[j]));
                    assert(first == '\r');
                    assert(rest[0] == '\n');
                    assert(text[1] == rest[0]);
                    assert(text[0] == '\r' && text[0int + 1] == '\n');
                }
            }
        }
        assert(bytes[0] == head[0]);
        assert(bytes[0] == NEWLINE ==> is_leading_byte_width_1(head[0]));
    }
}

/// The bytes of a marker, a text and a line end, in this order.
proof fn lemma_line_bytes(marker: char, text: Seq<char>)
    requires
        (marker as u32) < 128,
    ensures
        encode_utf8(seq![marker] + text + line_end()) == seq![marker as u8] + encode_utf8(text)
            + seq![CARRIAGE_RETURN, NEWLINE],
{
    lemma_encode_utf8_concat(seq![marker] + text, line_end());
    lemma_encode_utf8_concat(seq![marker], text);
    lemma_ascii_bytes(seq![marker]);
    lemma_ascii_bytes(line_end());
    assert(encode_utf8(seq![marker]) =~= seq![marker as u8]);
    assert(encode_utf8(line_end()) =~= seq![CARRIAGE_RETURN, NEWLINE]);
}

/// An ASCII text is encoded character by character.
proof fn lemma_ascii_bytes(text: Seq<char>)
    requires
        is_ascii_chars(text),
    ensures
        encode_utf8(text) == Seq::new(text.len(), |i: int| text[i] as u8),
{
    is_ascii_chars_encode_utf8(text);
    assert(encode_utf8(text) =~= Seq::new(text.len(), |i: int| text[i] as u8));
}

/// A simple string whose text holds no line terminator is decoded, from the
/// bytes that it is sent as, to itself, and takes all of them.
pub proof fn lemma_simple_string_round_trip(text: Seq<char>)
    requires
        terminator_free(text),
    ensures
        spec_wire(ValueView::String(text)) matches Some(bytes) && spec_parse_message(bytes)
            == Decoded::Complete(ValueView::String(text), bytes.len()),
{
    let bytes = spec_wire(ValueView::String(text))->Some_0;
    let payload = encode_utf8(text);
    lemma_line_bytes('+', text);
    lemma_encoding_keeps_terminators_out(text);
    let rest = bytes.skip(1);
    assert(rest =~= payload + seq![CARRIAGE_RETURN, NEWLINE]);
    assert forall|j: int| 0 <= j < payload.len() implies !terminator_at(rest, j) by {
        if terminator_at(rest, j) {
            if j + 1 < payload.len() {
                assert(terminator_at(payload, j));
            }
        }
    }
    lemma_line_found(rest, payload.len() as int);
    assert(rest.subrange(0, payload.len() as int) =~= payload);
    encode_utf8_valid_utf8(text);
    encode_utf8_decode_utf8(text);
    assert(spec_decode_simple_string(bytes) == Decoded::Complete(
        ValueView::String(text),
        bytes.len(),
    ));
}

/// An error is sent, and is not decoded: its marker is none of those that
/// the decoder knows.
pub proof fn lemma_error_is_not_decoded(text: Seq<char>)
    ensures
        spec_wire(ValueView::Error(text)) matches Some(bytes) && spec_parse_message(bytes)
            == Decoded::<ValueView>::Failed(RespError::UnrecognizedMessageType),
{
    lemma_line_bytes('-', text);
}

/// The digits of a number are ASCII, and there is at least one.
proof fn lemma_decimal_digits_ascii(n: nat)
    ensures
        decimal_digits(n).len() >= 1,
        is_ascii_chars(decimal_digits(n)),
        forall|i: int|
            0 <= i < decimal_digits(n).len() ==> is_digit(#[trigger] decimal_digits(n)[i] as u8),
    decreases n,
{
    if n >= 10 {
        lemma_decimal_digits_ascii(n / 10);
    }
}

/// The digits that a number is written with spell that number.
pub proof fn lemma_decimal_round_trip(n: nat)
    ensures
        encode_utf8(decimal_digits(n)).len() >= 1,
        all_digits(encode_utf8(decimal_digits(n))),
        digits_value(encode_utf8(decimal_digits(n))) == n,
        n <= i64::MAX ==> spec_parse_integer(encode_utf8(decimal_digits(n))) == Some(n as int),
    decreases n,
{
    let digits = decimal_digits(n);
    let bytes = encode_utf8(digits);
    lemma_decimal_digits_ascii(n);
    lemma_ascii_bytes(digits);
    if n < 10 {
        assert(bytes.drop_last() =~= Seq::<u8>::empty());
        assert(digits_value(bytes.drop_last()) == 0);
        assert(bytes.last() == (ZERO + n) as u8);
        assert(digits_value(bytes) == n);
    } else {
        let shorter = decimal_digits(n / 10);
        lemma_decimal_round_trip(n / 10);
        lemma_decimal_digits_ascii(n / 10);
        lemma_ascii_bytes(shorter);
        assert(bytes.drop_last() =~= encode_utf8(shorter));
        assert(bytes.last() == (ZERO + n % 10) as u8);
        assert(digits_value(bytes) == n);
    }
}

/// A bulk string whose text is ASCII is decoded, from the bytes that it is
/// sent as, to itself, and takes all of them.
pub proof fn lemma_bulk_string_round_trip(text: Seq<char>)
    requires
        is_ascii_chars(text),
        text.len() <= i64::MAX,
    ensures
        spec_wire(ValueView::Bulk(text)) matches Some(bytes) && spec_parse_message(bytes)
            == Decoded::Complete(ValueView::Bulk(text), bytes.len()),
{
    let bytes = spec_wire(ValueView::Bulk(text))->Some_0;
    let length = encode_utf8(decimal_digits(text.len()));
    let payload = encode_utf8(text);
    let end = seq![CARRIAGE_RETURN, NEWLINE];
    lemma_decimal_round_trip(text.len());
    lemma_line_bytes('$', decimal_digits(text.len()));
    lemma_ascii_bytes(line_end());
    assert(encode_utf8(line_end()) =~= end);
    lemma_encode_utf8_concat(seq!['$'] + decimal_digits(text.len()) + line_end() + text, line_end());
    lemma_encode_utf8_concat(seq!['$'] + decimal_digits(text.len()) + line_end(), text);
    assert(bytes == seq![36u8] + length + end + payload + end);
    is_ascii_chars_encode_utf8(text);
    let rest = bytes.skip(1);
    assert(rest =~= length + end + payload + end);
    assert forall|j: int| 0 <= j < length.len() implies !terminator_at(rest, j) by {
        assert(rest[j] == length[j]);
        assert(is_digit(length[j]));
    }
    lemma_line_found(rest, length.len() as int);
    assert(rest.subrange(0, length.len() as int) =~= length);
    let start: int = length.len() as int + 3;
    assert(bytes.subrange(start, start + text.len()) =~= payload);
    encode_utf8_valid_utf8(text);
    encode_utf8_decode_utf8(text);
    assert(spec_decode_bulk_string(bytes) == Decoded::Complete(ValueView::Bulk(text), bytes.len()));
}

} // verus!
