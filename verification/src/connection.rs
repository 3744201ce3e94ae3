use crate::buffer::{
    buffer_advance, buffer_as_ref, buffer_extend_from_slice, buffer_is_empty, buffer_len,
    buffer_with_capacity, buffered,
};
use crate::decode::{parse_message, spec_parse_message, Decoded};
use crate::error::RespError;
use crate::value::{spec_encode, Value, ValueView};
use bytes::BytesMut;
use vstd::prelude::*;
use vstd::slice::slice_to_vec;
use vstd::utf8::encode_utf8;

verus! {

/// What one chunk of the stream led to.
#[derive(Debug, PartialEq, Eq)]
pub enum ReadStep {
    /// A whole value; the bytes after it stay buffered.
    Value(Value),
    /// The buffered bytes hold no whole value yet: read on.
    NeedMore,
    /// The stream ended, and no byte was left over.
    EndOfStream,
}

/// The mathematical content of a [`ReadStep`].
pub ghost enum ReadStepView {
    Value(ValueView),
    NeedMore,
    EndOfStream,
}

impl View for ReadStep {
    type V = ReadStepView;

    open spec fn view(&self) -> ReadStepView {
        match self {
            ReadStep::Value(value) => ReadStepView::Value(value@),
            ReadStep::NeedMore => ReadStepView::NeedMore,
            ReadStep::EndOfStream => ReadStepView::EndOfStream,
        }
    }
}

/// The outcome that the result of a read stands for.
pub open spec fn read_outcome(result: Result<ReadStep, RespError>) -> Result<
    ReadStepView,
    RespError,
> {
    match result {
        Ok(step) => Ok(step@),
        Err(error) => Err(error),
    }
}

/// What a chunk does to the buffered bytes, and what it leads to. An empty
/// chunk is the end of the stream: a clean one where nothing is buffered,
/// an early one otherwise. Any other chunk comes behind the buffered bytes,
/// and one message is decoded from the front of them all: a whole value
/// leaves the buffer, anything else leaves the bytes where they are.
pub open spec fn spec_read_value(pending: Seq<u8>, chunk: Seq<u8>) -> (
    Seq<u8>,
    Result<ReadStepView, RespError>,
) {
    if chunk.len() == 0 {
        if pending.len() == 0 {
            (pending, Ok(ReadStepView::EndOfStream))
        } else {
            (pending, Err(RespError::ConnectionClosedUnexpectedly))
        }
    } else {
        let bytes = pending + chunk;
        match spec_parse_message(bytes) {
            Decoded::Complete(value, consumed) => (
                bytes.skip(consumed as int),
                Ok(ReadStepView::Value(value)),
            ),
            Decoded::Incomplete => (bytes, Ok(ReadStepView::NeedMore)),
            Decoded::Failed(error) => (bytes, Err(error)),
        }
    }
}

/// The bytes that a value is sent as: its text in UTF-8.
pub open spec fn spec_wire(value: ValueView) -> Option<Seq<u8>> {
    match spec_encode(value) {
        Some(text) => Some(encode_utf8(text)),
        None => None,
    }
}

/// The receiving side of one connection: the bytes that have arrived and
/// have not been decoded yet.
pub struct RespConnection {
    buffer: BytesMut,
}

impl View for RespConnection {
    type V = Seq<u8>;

    closed spec fn view(&self) -> Seq<u8> {
        buffered(self.buffer)
    }
}

impl RespConnection {
    /// A connection on which nothing has arrived yet.
    pub fn new() -> (connection: Self)
        ensures
            connection@ == Seq::<u8>::empty(),
    {
        RespConnection { buffer: buffer_with_capacity(512) }
    }

    /// The number of bytes that have arrived and have not been decoded.
    pub fn pending(&self) -> (len: usize)
        ensures
            len == self@.len(),
    {
        buffer_len(&self.buffer)
    }

    /// Takes the chunk that the last read of the stream gave, an empty one
    /// where the stream has ended, and says what follows from it.
    pub fn read_value(&mut self, chunk: &[u8]) -> (result: Result<ReadStep, RespError>)
        requires
            old(self)@.len() + chunk@.len() <= isize::MAX,
        ensures
            (final(self)@, read_outcome(result)) == spec_read_value(old(self)@, chunk@),
            chunk@.len() == 0 && old(self)@.len() == 0 ==> result matches Ok(
                ReadStep::EndOfStream,
            ),
            chunk@.len() == 0 && old(self)@.len() > 0 ==> result matches Err(
                RespError::ConnectionClosedUnexpectedly,
            ),
    {
        if chunk.len() == 0 {
            if buffer_is_empty(&self.buffer) {
                return Ok(ReadStep::EndOfStream);
            } else {
                return Err(RespError::ConnectionClosedUnexpectedly);
            }
        }
        buffer_extend_from_slice(&mut self.buffer, chunk);
        match parse_message(buffer_as_ref(&self.buffer)) {
            Ok(Some((value, consumed))) => {
                buffer_advance(&mut self.buffer, consumed);
                Ok(ReadStep::Value(value))
            },
            Ok(None) => Ok(ReadStep::NeedMore),
            Err(error) => Err(error),
        }
    }

    /// The bytes to send for `value`.
    pub fn write_value(&mut self, value: Value) -> (result: Result<Vec<u8>, RespError>)
        ensures
            final(self)@ == old(self)@,
            match result {
                Ok(bytes) => spec_wire(value@) == Some(bytes@),
                Err(error) => error == RespError::UnsupportedEncoding && spec_wire(value@)
                    is None,
            },
    {
        match value.encode() {
            Ok(text) => Ok(slice_to_vec(text.as_str().as_bytes())),
            Err(error) => Err(error),
        }
    }
}

} // verus!
