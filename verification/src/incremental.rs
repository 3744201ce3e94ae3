use crate::connection::{spec_read_value, ReadStepView};
use crate::decimal::spec_parse_integer;
use crate::decode::{
    lemma_line_bounds, lemma_line_found, lemma_line_missing, spec_decode_items, spec_get_line,
    spec_parse_message, terminator_at, Decoded, ARRAY_MARKER, SIMPLE_STRING_MARKER,
};
use crate::error::RespError;
use vstd::prelude::*;

verus! {

/// Whether `other` starts with the first `n` bytes of `buffer`.
pub open spec fn same_start(buffer: Seq<u8>, other: Seq<u8>, n: int) -> bool {
    &&& 0 <= n <= buffer.len()
    &&& n <= other.len()
    &&& other.subrange(0, n) == buffer.subrange(0, n)
}

/// Two buffers with the same start hold the same bytes there.
proof fn lemma_same_start_bytes(buffer: Seq<u8>, other: Seq<u8>, n: int)
    requires
        same_start(buffer, other, n),
    ensures
        forall|i: int| 0 <= i < n ==> other[i] == buffer[i],
{
    assert forall|i: int| 0 <= i < n implies other[i] == buffer[i] by {
        assert(other.subrange(0, n)[i] == buffer.subrange(0, n)[i]);
    }
}

/// A line is found in the bytes up to the end of its terminator: whatever
/// follows them changes nothing.
pub proof fn lemma_line_stable(buffer: Seq<u8>, other: Seq<u8>)
    requires
        spec_get_line(buffer) matches Some((_, span)) && same_start(buffer, other, span as int),
    ensures
        spec_get_line(other) == spec_get_line(buffer),
{
    let span = spec_get_line(buffer)->Some_0.1 as int;
    let i = span - 2;
    lemma_line_bounds(buffer);
    lemma_same_start_bytes(buffer, other, span);
    assert forall|j: int| 0 <= j < i implies !terminator_at(other, j) by {
        assert(!terminator_at(buffer, j));
    }
    lemma_line_found(other, i);
    assert(other.subrange(0, i) =~= buffer.subrange(0, i));
}

/// Before the end of its terminator, a line is not found.
pub proof fn lemma_line_prefix_missing(buffer: Seq<u8>, k: int)
    requires
        spec_get_line(buffer) matches Some((_, span)) && 0 <= k < span,
    ensures
        spec_get_line(buffer.subrange(0, k)) is None,
{
    let span = spec_get_line(buffer)->Some_0.1 as int;
    let prefix = buffer.subrange(0, k);
    lemma_line_bounds(buffer);
    assert forall|j: int| !terminator_at(prefix, j) by {
        if terminator_at(prefix, j) {
            assert(prefix[j] == buffer[j]);
            assert(prefix[j + 1] == buffer[j + 1]);
            assert(terminator_at(buffer, j));
        }
    }
    lemma_line_missing(prefix);
}

/// A decoded message takes at least one byte, and no more than there are.
pub proof fn lemma_message_bounds(buffer: Seq<u8>)
    ensures
        spec_parse_message(buffer) matches Decoded::Complete(_, consumed) ==> 0 < consumed
            <= buffer.len(),
    decreases buffer.len(), 1int, 0nat,
{
    if buffer.len() > 0 {
        lemma_line_bounds(buffer.skip(1));
        if buffer[0] == ARRAY_MARKER {
            if let Some((line, span)) = spec_get_line(buffer.skip(1)) {
                if let Some(count) = spec_parse_integer(line) {
                    lemma_items_bounds(
                        buffer.skip(span as int + 1),
                        if count > 0 {
                            count as nat
                        } else {
                            0
                        },
                    );
                }
            }
        }
    }
}

/// Decoded messages take no more bytes than there are.
pub proof fn lemma_items_bounds(tail: Seq<u8>, count: nat)
    ensures
        spec_decode_items(tail, count) matches Decoded::Complete(items, consumed) ==> consumed
            <= tail.len() && items.len() == count,
    decreases tail.len(), 2int, count,
{
    if count > 0 {
        lemma_items_bounds(tail, (count - 1) as nat);
        if let Decoded::Complete(_, consumed) = spec_decode_items(tail, (count - 1) as nat) {
            if consumed <= tail.len() {
                lemma_message_bounds(tail.skip(consumed as int));
            }
        }
    }
}

/// Decoding looks at the bytes of the message only: a buffer that starts
/// with the bytes that a message took gives the same value, and takes the
/// same bytes.
pub proof fn lemma_message_stable(buffer: Seq<u8>, other: Seq<u8>)
    requires
        spec_parse_message(buffer) matches Decoded::Complete(_, consumed) && same_start(
            buffer,
            other,
            consumed as int,
        ),
    ensures
        spec_parse_message(other) == spec_parse_message(buffer),
    decreases buffer.len(), 1int, 0nat,
{
    let consumed = spec_parse_message(buffer)->Complete_1 as int;
    lemma_message_bounds(buffer);
    lemma_same_start_bytes(buffer, other, consumed);
    let rest = buffer.skip(1);
    let other_rest = other.skip(1);
    lemma_line_bounds(rest);
    let (line, span) = spec_get_line(rest)->Some_0;
    let start = span as int + 1;
    assert(same_start(rest, other_rest, span as int)) by {
        assert(other_rest.subrange(0, span as int) =~= rest.subrange(0, span as int));
    }
    lemma_line_stable(rest, other_rest);
    if buffer[0] == SIMPLE_STRING_MARKER {
    } else if buffer[0] == ARRAY_MARKER {
        let count: nat = if spec_parse_integer(line)->Some_0 > 0 {
            spec_parse_integer(line)->Some_0 as nat
        } else {
            0
        };
        let tail = buffer.skip(start);
        let other_tail = other.skip(start);
        let taken = spec_decode_items(tail, count)->Complete_1 as int;
        lemma_items_bounds(tail, count);
        assert(same_start(tail, other_tail, taken)) by {
            assert(other_tail.subrange(0, taken) =~= tail.subrange(0, taken));
        }
        lemma_items_stable(tail, other_tail, count);
    } else {
        let length = spec_parse_integer(line)->Some_0;
        assert(other.subrange(start, start + length) =~= buffer.subrange(start, start + length));
    }
}

/// Decoding looks at the bytes of the messages only.
pub proof fn lemma_items_stable(tail: Seq<u8>, other: Seq<u8>, count: nat)
    requires
        spec_decode_items(tail, count) matches Decoded::Complete(_, consumed) && same_start(
            tail,
            other,
            consumed as int,
        ),
    ensures
        spec_decode_items(other, count) == spec_decode_items(tail, count),
    decreases tail.len(), 2int, count,
{
    if count > 0 {
        let before = spec_decode_items(tail, (count - 1) as nat)->Complete_1 as int;
        let last = tail.skip(before);
        let other_last = other.skip(before);
        let taken = spec_parse_message(last)->Complete_1 as int;
        lemma_message_bounds(last);
        lemma_same_start_bytes(tail, other, before + taken);
        assert(same_start(tail, other, before)) by {
            assert(other.subrange(0, before) =~= tail.subrange(0, before));
        }
        lemma_items_stable(tail, other, (count - 1) as nat);
        assert(same_start(last, other_last, taken)) by {
            assert(other_last.subrange(0, taken) =~= last.subrange(0, taken));
        }
        lemma_message_stable(last, other_last);
    }
}

/// A buffer that ends before a message does holds no whole message: every
/// shorter start of the bytes that a message took is incomplete.
pub proof fn lemma_message_prefix_incomplete(buffer: Seq<u8>, k: int)
    requires
        spec_parse_message(buffer) matches Decoded::Complete(_, consumed) && 0 <= k < consumed,
    ensures
        spec_parse_message(buffer.subrange(0, k)) is Incomplete,
    decreases buffer.len(), 1int, 0nat,
{
    let prefix = buffer.subrange(0, k);
    lemma_message_bounds(buffer);
    if k > 0 {
        let rest = buffer.skip(1);
        let prefix_rest = prefix.skip(1);
        lemma_line_bounds(rest);
        let (line, span) = spec_get_line(rest)->Some_0;
        let start = span as int + 1;
        assert(prefix[0] == buffer[0]);
        assert(prefix_rest =~= rest.subrange(0, k - 1));
        if k < start {
            lemma_line_prefix_missing(rest, k - 1);
        } else {
            assert(same_start(rest, prefix_rest, span as int)) by {
                assert(prefix_rest.subrange(0, span as int) =~= rest.subrange(0, span as int));
            }
            lemma_line_stable(rest, prefix_rest);
            if buffer[0] == ARRAY_MARKER {
                let count: nat = if spec_parse_integer(line)->Some_0 > 0 {
                    spec_parse_integer(line)->Some_0 as nat
                } else {
                    0
                };
                let tail = buffer.skip(start);
                lemma_items_bounds(tail, count);
                assert(prefix.skip(start) =~= tail.subrange(0, k - start));
                lemma_items_prefix_incomplete(tail, count, k - start);
            }
        }
    }
}

/// A buffer that ends before the last of the messages does holds not all
/// of them.
pub proof fn lemma_items_prefix_incomplete(tail: Seq<u8>, count: nat, k: int)
    requires
        spec_decode_items(tail, count) matches Decoded::Complete(_, consumed) && 0 <= k < consumed,
    ensures
        spec_decode_items(tail.subrange(0, k), count) is Incomplete,
    decreases tail.len(), 2int, count,
{
    if count > 0 {
        let prefix = tail.subrange(0, k);
        let before = spec_decode_items(tail, (count - 1) as nat)->Complete_1 as int;
        let last = tail.skip(before);
        lemma_items_bounds(tail, count);
        lemma_message_bounds(last);
        if k < before {
            lemma_items_prefix_incomplete(tail, (count - 1) as nat, k);
        } else {
            assert(same_start(tail, prefix, before)) by {
                assert(prefix.subrange(0, before) =~= tail.subrange(0, before));
            }
            lemma_items_stable(tail, prefix, (count - 1) as nat);
            assert(prefix.skip(before) =~= last.subrange(0, k - before));
            lemma_message_prefix_incomplete(last, k - before);
        }
    }
}

/// A message that arrives in two chunks, on a connection that has nothing
/// buffered, is not there after the first chunk, which stays buffered, and
/// is read whole after the second, which leaves nothing buffered.
pub proof fn lemma_split_message_is_read(message: Seq<u8>, k: int)
    requires
        spec_parse_message(message) matches Decoded::Complete(_, consumed) && consumed
            == message.len(),
        0 < k < message.len(),
    ensures
        spec_read_value(Seq::empty(), message.subrange(0, k)) == (
            message.subrange(0, k),
            Ok::<ReadStepView, RespError>(ReadStepView::NeedMore),
        ),
        spec_read_value(message.subrange(0, k), message.subrange(k, message.len() as int)) == (
            Seq::<u8>::empty(),
            Ok::<ReadStepView, RespError>(
                ReadStepView::Value(spec_parse_message(message)->Complete_0),
            ),
        ),
{
    let first = message.subrange(0, k);
    let second = message.subrange(k, message.len() as int);
    lemma_message_prefix_incomplete(message, k);
    assert(Seq::<u8>::empty() + first =~= first);
    assert(first + second =~= message);
    assert(message.skip(message.len() as int) =~= Seq::<u8>::empty());
}

} // verus!
