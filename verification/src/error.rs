use vstd::prelude::*;

verus! {

/// Everything that can go wrong while decoding, encoding or reading.
#[derive(Clone, Copy, Debug, PartialEq, Eq, Structural)]
pub enum RespError {
    /// The first byte of a message is not one of the known type markers.
    UnrecognizedMessageType,
    /// A text payload is not valid UTF-8.
    MalformedUtf8,
    /// A length or count line is not a base-10 signed 64-bit integer.
    InvalidInteger,
    /// A value does not have the shape of a command.
    InvalidCommand,
    /// The value has no wire encoding here.
    UnsupportedEncoding,
    /// The peer closed the stream in the middle of a message.
    ConnectionClosedUnexpectedly,
    /// The transport failed. Nothing here reads or writes a stream, so
    /// nothing here returns this kind: it is for the owner of the stream.
    IoError,
}

impl RespError {
    /// Whether the connection can go on after this error. It can where only
    /// the shape of a value was wrong; after anything else the stream is no
    /// longer to be trusted.
    pub fn is_recoverable(&self) -> (recoverable: bool)
        ensures
            recoverable == (*self == RespError::InvalidCommand || *self
                == RespError::UnsupportedEncoding),
    {
        match self {
            RespError::InvalidCommand => true,
            RespError::UnsupportedEncoding => true,
            _ => false,
        }
    }
}

} // verus!
