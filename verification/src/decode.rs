use crate::decimal::{parse_integer, spec_parse_integer};
use crate::error::RespError;
use crate::value::{lemma_array_view, views, Value, ValueView};
use vstd::prelude::*;
use vstd::slice::slice_to_vec;
use vstd::utf8::{decode_utf8, encode_utf8, valid_utf8};

verus! {

/// The first byte of a line terminator.
pub const CARRIAGE_RETURN: u8 = 13;

/// The second byte of a line terminator.
pub const NEWLINE: u8 = 10;

/// Whether a line terminator starts at position `i` of `buffer`.
pub open spec fn terminator_at(buffer: Seq<u8>, i: int) -> bool {
    &&& 0 <= i
    &&& i + 1 < buffer.len()
    &&& buffer[i] == CARRIAGE_RETURN
    &&& buffer[i + 1] == NEWLINE
}

/// Whether the first line terminator of `buffer` starts at position `i`.
pub open spec fn first_terminator_at(buffer: Seq<u8>, i: int) -> bool {
    &&& terminator_at(buffer, i)
    &&& forall|j: int| 0 <= j < i ==> !terminator_at(buffer, j)
}

/// The first line of `buffer`, without its terminator, and the number of
/// bytes that the line and its terminator take together; `None` where
/// `buffer` holds no terminator.
pub open spec fn spec_get_line(buffer: Seq<u8>) -> Option<(Seq<u8>, nat)> {
    if exists|i: int| first_terminator_at(buffer, i) {
        let i = choose|i: int| first_terminator_at(buffer, i);
        Some((buffer.subrange(0, i), (i + 2) as nat))
    } else {
        None
    }
}

/// A buffer whose first terminator starts at `i` has the line before `i`.
pub proof fn lemma_line_found(buffer: Seq<u8>, i: int)
    requires
        first_terminator_at(buffer, i),
    ensures
        spec_get_line(buffer) == Some((buffer.subrange(0, i), (i + 2) as nat)),
{
    let k = choose|k: int| first_terminator_at(buffer, k);
    assert(k == i) by {
        if k < i {
            assert(!terminator_at(buffer, k));
        }
        if i < k {
            assert(!terminator_at(buffer, i));
        }
    }
}

/// A buffer without a terminator has no line.
pub proof fn lemma_line_missing(buffer: Seq<u8>)
    requires
        forall|i: int| !terminator_at(buffer, i),
    ensures
        spec_get_line(buffer) is None,
{
}

/// A line lies at the front of its buffer, before the first terminator.
pub proof fn lemma_line_bounds(buffer: Seq<u8>)
    ensures
        spec_get_line(buffer) matches Some((line, span)) ==> {
            &&& 2 <= span <= buffer.len()
            &&& line == buffer.subrange(0, span - 2)
            &&& first_terminator_at(buffer, span - 2)
        },
{
}

/// Scans for the first carriage return that a line feed follows.
pub fn get_line(buffer: &[u8]) -> (found: Option<(&[u8], usize)>)
    ensures
        match found {
            Some((line, span)) => spec_get_line(buffer@) == Some((line@, span as nat)),
            None => spec_get_line(buffer@) is None,
        },
        found matches Some((line, span)) ==> 2 <= span <= buffer@.len(),
{
    let mut i: usize = 1;
    while i < buffer.len()
        invariant
            1 <= i,
            forall|j: int| 0 <= j < i - 1 ==> !terminator_at(buffer@, j),
        decreases buffer.len() - i,
    {
        if buffer[i - 1] == CARRIAGE_RETURN && buffer[i] == NEWLINE {
            proof {
                lemma_line_found(buffer@, i - 1);
            }
            return Some((&buffer[0..(i - 1)], i + 1));
        }
        i += 1;
    }
    proof {
        lemma_line_missing(buffer@);
    }
    None
}

/// The text that `bytes` encode, where they are valid UTF-8.
pub open spec fn spec_parse_string(bytes: Seq<u8>) -> Option<Seq<char>> {
    if valid_utf8(bytes) {
        Some(decode_utf8(bytes))
    } else {
        None
    }
}

/// `std::string::FromUtf8Error`, the error of `String::from_utf8`. Nothing
/// is said of what it holds.
#[verifier::external_type_specification]
#[verifier::external_body]
pub struct ExFromUtf8Error(std::string::FromUtf8Error);

/// `String::from_utf8` of the standard library. It accepts exactly the
/// byte vectors that are valid UTF-8, and the string it gives then has
/// those very bytes as its encoding.
#[verifier::external_body]
fn string_from_utf8(bytes: Vec<u8>) -> (converted: Result<String, std::string::FromUtf8Error>)
    ensures
        converted is Ok <==> valid_utf8(bytes@),
        converted matches Ok(text) ==> encode_utf8(text@) == bytes@,
{
    String::from_utf8(bytes)
}

/// Reads `bytes` as UTF-8 text.
pub fn parse_string(bytes: &[u8]) -> (parsed: Result<String, RespError>)
    ensures
        match parsed {
            Ok(text) => spec_parse_string(bytes@) == Some(text@),
            Err(error) => error == RespError::MalformedUtf8 && spec_parse_string(bytes@) is None,
        },
        parsed matches Ok(text) ==> encode_utf8(text@) == bytes@,
{
    match string_from_utf8(slice_to_vec(bytes)) {
        Ok(text) => {
            proof {
                vstd::utf8::encode_utf8_decode_utf8(text@);
            }
            Ok(text)
        },
        Err(_) => Err(RespError::MalformedUtf8),
    }
}

/// What an attempt to decode one item from the front of a buffer gives.
pub ghost enum Decoded<T> {
    /// A whole item, and the number of bytes that it took.
    Complete(T, nat),
    /// The buffer ends before the item does.
    Incomplete,
    /// The buffer does not start with an item.
    Failed(RespError),
}

/// The outcome that a decoder's result stands for.
pub open spec fn decoded(result: Result<Option<(Value, usize)>, RespError>) -> Decoded<ValueView> {
    match result {
        Ok(Some((value, consumed))) => Decoded::Complete(value@, consumed as nat),
        Ok(None) => Decoded::Incomplete,
        Err(error) => Decoded::Failed(error),
    }
}

/// The marker of a simple string.
pub const SIMPLE_STRING_MARKER: u8 = 43;

/// The marker of a bulk string.
pub const BULK_STRING_MARKER: u8 = 36;

/// The marker of an array.
pub const ARRAY_MARKER: u8 = 42;

/// A simple string: one byte, which is not looked at, then a line of UTF-8
/// text. It takes the line, its terminator and the one byte.
pub open spec fn spec_decode_simple_string(buffer: Seq<u8>) -> Decoded<ValueView> {
    if buffer.len() == 0 {
        Decoded::Incomplete
    } else {
        match spec_get_line(buffer.skip(1)) {
            None => Decoded::Incomplete,
            Some((line, span)) => match spec_parse_string(line) {
                None => Decoded::Failed(RespError::MalformedUtf8),
                Some(text) => Decoded::Complete(ValueView::String(text), span + 1),
            },
        }
    }
}

/// A bulk string: one byte, which is not looked at, then a line that spells
/// a length, then that many bytes of UTF-8 text and two bytes more, which
/// are not looked at either. A negative length is refused.
pub open spec fn spec_decode_bulk_string(buffer: Seq<u8>) -> Decoded<ValueView> {
    if buffer.len() == 0 {
        Decoded::Incomplete
    } else {
        match spec_get_line(buffer.skip(1)) {
            None => Decoded::Incomplete,
            Some((line, span)) => match spec_parse_integer(line) {
                None => Decoded::Failed(RespError::InvalidInteger),
                Some(length) => {
                    let start = span as int + 1;
                    if length < 0 {
                        Decoded::Failed(RespError::InvalidInteger)
                    } else if buffer.len() < start + length + 2 {
                        Decoded::Incomplete
                    } else {
                        match spec_parse_string(buffer.subrange(start, start + length)) {
                            None => Decoded::Failed(RespError::MalformedUtf8),
                            Some(text) => Decoded::Complete(
                                ValueView::Bulk(text),
                                (start + length + 2) as nat,
                            ),
                        }
                    }
                },
            },
        }
    }
}

/// The first `count` messages of `tail`, one behind the other, and the
/// bytes that they take together. The first message that is not whole, or
/// that is refused, decides for all.
pub open spec fn spec_decode_items(tail: Seq<u8>, count: nat) -> Decoded<Seq<ValueView>>
    decreases tail.len(), 2int, count,
{
    if count == 0 {
        Decoded::Complete(Seq::empty(), 0)
    } else {
        match spec_decode_items(tail, (count - 1) as nat) {
            Decoded::Complete(items, consumed) => if consumed <= tail.len() {
                match spec_parse_message(tail.skip(consumed as int)) {
                    Decoded::Complete(item, taken) => Decoded::Complete(
                        items.push(item),
                        consumed + taken,
                    ),
                    Decoded::Incomplete => Decoded::Incomplete,
                    Decoded::Failed(error) => Decoded::Failed(error),
                }
            } else {
                Decoded::Incomplete
            },
            Decoded::Incomplete => Decoded::Incomplete,
            Decoded::Failed(error) => Decoded::Failed(error),
        }
    }
}

/// An array: one byte, which is not looked at, then a line that spells a
/// count, then that many messages. A negative count stands for none.
pub open spec fn spec_decode_array(buffer: Seq<u8>) -> Decoded<ValueView>
    decreases buffer.len(), 0int, 0nat,
{
    if buffer.len() == 0 {
        Decoded::Incomplete
    } else {
        match spec_get_line(buffer.skip(1)) {
            None => Decoded::Incomplete,
            Some((line, span)) => match spec_parse_integer(line) {
                None => Decoded::Failed(RespError::InvalidInteger),
                Some(count) => {
                    let start = span as int + 1;
                    if start <= buffer.len() {
                        match spec_decode_items(
                            buffer.skip(start),
                            if count > 0 {
                                count as nat
                            } else {
                                0
                            },
                        ) {
                            Decoded::Complete(items, consumed) => Decoded::Complete(
                                ValueView::Array(items),
                                (start + consumed) as nat,
                            ),
                            Decoded::Incomplete => Decoded::Incomplete,
                            Decoded::Failed(error) => Decoded::Failed(error),
                        }
                    } else {
                        Decoded::Incomplete
                    }
                },
            },
        }
    }
}

/// One message at the front of `buffer`. Its first byte says of which kind
/// it is; an empty buffer holds no whole message yet.
pub open spec fn spec_parse_message(buffer: Seq<u8>) -> Decoded<ValueView>
    decreases buffer.len(), 1int, 0nat,
{
    if buffer.len() == 0 {
        Decoded::Incomplete
    } else if buffer[0] == SIMPLE_STRING_MARKER {
        spec_decode_simple_string(buffer)
    } else if buffer[0] == ARRAY_MARKER {
        spec_decode_array(buffer)
    } else if buffer[0] == BULK_STRING_MARKER {
        spec_decode_bulk_string(buffer)
    } else {
        Decoded::Failed(RespError::UnrecognizedMessageType)
    }
}

/// Once a message among the first `k` is not whole or is refused, asking
/// for more messages changes nothing.
pub proof fn lemma_items_stuck(tail: Seq<u8>, k: nat, count: nat)
    requires
        k <= count,
        !(spec_decode_items(tail, k) is Complete),
    ensures
        spec_decode_items(tail, count) == spec_decode_items(tail, k),
    decreases count,
{
    if k < count {
        lemma_items_stuck(tail, k, (count - 1) as nat);
    }
}

/// Decodes a simple string from the front of `buffer`.
pub fn decode_simple_string(buffer: &[u8]) -> (result: Result<Option<(Value, usize)>, RespError>)
    ensures
        decoded(result) == spec_decode_simple_string(buffer@),
        result matches Ok(Some((_, consumed))) ==> 0 < consumed <= buffer@.len(),
{
    if buffer.len() == 0 {
        return Ok(None);
    }
    if let Some((line, len)) = get_line(&buffer[1..buffer.len()]) {
        match parse_string(line) {
            Ok(text) => Ok(Some((Value::String(text), len + 1))),
            Err(error) => Err(error),
        }
    } else {
        Ok(None)
    }
}

/// Decodes a bulk string from the front of `buffer`.
pub fn decode_bulk_string(buffer: &[u8]) -> (result: Result<Option<(Value, usize)>, RespError>)
    ensures
        decoded(result) == spec_decode_bulk_string(buffer@),
        result matches Ok(Some((_, consumed))) ==> 0 < consumed <= buffer@.len(),
        result matches Ok(Some((value, consumed))) ==> {
            &&& spec_get_line(buffer@.skip(1)) matches Some((line, span))
            &&& spec_parse_integer(line) matches Some(length)
            &&& value@ matches ValueView::Bulk(text)
            &&& encode_utf8(text).len() == length
            &&& consumed == (1 + span) + length + 2
        },
{
    if buffer.len() == 0 {
        return Ok(None);
    }
    let (bulk_length, bytes_consumed) = if let Some((line, len)) = get_line(
        &buffer[1..buffer.len()],
    ) {
        match parse_integer(line) {
            Ok(bulk_length) => (bulk_length, len + 1),
            Err(error) => {
                return Err(error);
            },
        }
    } else {
        return Ok(None);
    };
    if bulk_length < 0 {
        return Err(RespError::InvalidInteger);
    }
    let remaining = buffer.len() - bytes_consumed;
    if remaining < 2 || bulk_length as u64 > (remaining - 2) as u64 {
        return Ok(None);
    }
    let end_of_bulk = bytes_consumed + (bulk_length as usize);
    let end_of_bulk_line = end_of_bulk + 2;
    match parse_string(&buffer[bytes_consumed..end_of_bulk]) {
        Ok(text) => Ok(Some((Value::Bulk(text), end_of_bulk_line))),
        Err(error) => Err(error),
    }
}

/// Decodes an array, with all its items, from the front of `buffer`.
#[verifier::loop_isolation(false)]
pub fn decode_array(buffer: &[u8]) -> (result: Result<Option<(Value, usize)>, RespError>)
    ensures
        decoded(result) == spec_decode_array(buffer@),
        result matches Ok(Some((_, consumed))) ==> 0 < consumed <= buffer@.len(),
    decreases buffer@.len(), 0int,
{
    if buffer.len() == 0 {
        return Ok(None);
    }
    let (array_length, header) = if let Some((line, len)) = get_line(&buffer[1..buffer.len()]) {
        match parse_integer(line) {
            Ok(array_length) => (array_length, len + 1),
            Err(error) => {
                return Err(error);
            },
        }
    } else {
        return Ok(None);
    };
    let ghost tail = buffer@.skip(header as int);
    let ghost count: nat = if array_length > 0 {
        array_length as nat
    } else {
        0
    };
    let mut bytes_consumed = header;
    let mut items: Vec<Value> = Vec::new();
    let mut i: i64 = 0;
    assert(views(items@) =~= Seq::<ValueView>::empty());
    while i < array_length
        invariant
            0 <= i <= count,
            count == if array_length > 0 {
                array_length as nat
            } else {
                0
            },
            0 < header <= bytes_consumed <= buffer@.len(),
            tail == buffer@.skip(header as int),
            spec_decode_items(tail, i as nat) == Decoded::Complete(
                views(items@),
                (bytes_consumed - header) as nat,
            ),
        decreases array_length - i,
    {
        let ghost rest = tail.skip(bytes_consumed - header);
        assert(rest =~= buffer@.subrange(bytes_consumed as int, buffer@.len() as int));
        match parse_message(&buffer[bytes_consumed..buffer.len()]) {
            Ok(Some((value, len))) => {
                assert(views(items@.push(value)) =~= views(items@).push(value@));
                items.push(value);
                bytes_consumed += len;
            },
            Ok(None) => {
                proof {
                    assert(spec_decode_items(tail, (i + 1) as nat) is Incomplete);
                    lemma_items_stuck(tail, (i + 1) as nat, count);
                }
                return Ok(None);
            },
            Err(error) => {
                proof {
                    assert(spec_decode_items(tail, (i + 1) as nat) == Decoded::<
                        Seq<ValueView>,
                    >::Failed(error));
                    lemma_items_stuck(tail, (i + 1) as nat, count);
                }
                return Err(error);
            },
        }
        i += 1;
    }
    proof {
        lemma_array_view(items);
    }
    Ok(Some((Value::Array(items), bytes_consumed)))
}

/// Decodes one message from the front of `buffer`: the value and the number
/// of bytes that it took, or `None` where the buffer does not hold the
/// whole message yet.
pub fn parse_message(buffer: &[u8]) -> (result: Result<Option<(Value, usize)>, RespError>)
    ensures
        decoded(result) == spec_parse_message(buffer@),
        result matches Ok(Some((_, consumed))) ==> 0 < consumed <= buffer@.len(),
    decreases buffer@.len(), 1int,
{
    if buffer.len() == 0 {
        return Ok(None);
    }
    let marker = buffer[0];
    if marker == SIMPLE_STRING_MARKER {
        decode_simple_string(buffer)
    } else if marker == ARRAY_MARKER {
        decode_array(buffer)
    } else if marker == BULK_STRING_MARKER {
        decode_bulk_string(buffer)
    } else {
        Err(RespError::UnrecognizedMessageType)
    }
}

} // verus!
