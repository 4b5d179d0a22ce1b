//! The messages, commands and datagrams that clients and the broker exchange, and the
//! decisions of the msgpack codec that frames them on a byte stream.
use rmpv::Value;
use std::marker::PhantomData;
use vstd::prelude::*;
use vstd::string::StringExecFns;

verus! {

/// A msgpack value, carried through the library as it is.
#[verifier::external_type_specification]
#[verifier::external_body]
pub struct ExValue(Value);

/// A message published on a topic.
#[derive(Debug)]
pub struct Message {
    pub topic: String,
    pub value: Value,
}

/// A request of a client to the broker.
#[derive(Debug)]
pub enum Command {
    /// Publish a message to a topic
    Publish { message: Message },
    /// Subscribe to a topic
    Subscribe { pattern: String },
    /// Unsubscribe from a topic
    Unsubscribe { pattern: String },
}

/// A command together with the client that sent it.
#[derive(Debug)]
pub struct Datagram {
    /// The command to execute
    pub command: Command,
    /// The sender of the command
    pub sender: String,
}

impl Datagram {
    /// Wrap a command sent by `sender`.
    pub fn new(command: Command, sender: &str) -> (d: Datagram)
        ensures
            d.command == command,
            d.sender@ == sender@,
    {
        Datagram { command, sender: String::from_str(sender) }
    }
}

/// The text of the debug rendering of a msgpack value.
pub uninterp spec fn value_debug_text(v: Value) -> Seq<char>;

/// Renders `v` with its `Debug` implementation (rmpv's derived and hand-written formatting).
/// The text is named by `value_debug_text`; nothing more is claimed of it.
#[verifier::external_body]
fn value_debug(v: &Value) -> (s: String)
    ensures
        s@ == value_debug_text(*v),
{
    format!("{:?}", v)
}

/// The one-line description of a command: its kind in capitals, then its topic and value or
/// its pattern, separated by ` - `.
pub open spec fn command_text(c: Command) -> Seq<char> {
    match c {
        Command::Publish { message } => "PUBLISH - "@ + message.topic@ + " - "@ + value_debug_text(message.value),
        Command::Subscribe { pattern } => "SUBSCRIBE - "@ + pattern@,
        Command::Unsubscribe { pattern } => "UNSUBSCRIBE - "@ + pattern@,
    }
}

impl Command {
    /// Describe the command on one line, as it is logged.
    pub fn describe(&self) -> (s: String)
        ensures
            s@ == command_text(*self),
    {
        match self {
            Command::Publish { message } => {
                let mut s = String::from_str("PUBLISH - ");
                s.append(message.topic.as_str());
                s.append(" - ");
                let v = value_debug(&message.value);
                s.append(v.as_str());
                s
            },
            Command::Subscribe { pattern } => {
                let mut s = String::from_str("SUBSCRIBE - ");
                s.append(pattern.as_str());
                s
            },
            Command::Unsubscribe { pattern } => {
                let mut s = String::from_str("UNSUBSCRIBE - ");
                s.append(pattern.as_str());
                s
            },
        }
    }
}

/// The command that publishes `value` on `topic`.
pub fn publish_command(topic: &str, value: Value) -> (c: Command)
    ensures
        c matches Command::Publish { message } && message.topic@ == topic@ && message.value == value,
{
    Command::Publish { message: Message { topic: String::from_str(topic), value } }
}

/// The command that subscribes to topics matching `pattern`.
pub fn subscribe_command(pattern: &str) -> (c: Command)
    ensures
        c matches Command::Subscribe { pattern: p } && p@ == pattern@,
{
    Command::Subscribe { pattern: String::from_str(pattern) }
}

/// The command that drops the subscription to `pattern`.
pub fn unsubscribe_command(pattern: &str) -> (c: Command)
    ensures
        c matches Command::Unsubscribe { pattern: p } && p@ == pattern@,
{
    Command::Unsubscribe { pattern: String::from_str(pattern) }
}

/// How a parse of buffered bytes failed, by the kind of the decoder's error.
pub enum ReadError {
    /// A sequence held another number of items than the value read from it needs.
    LengthMismatch,
    /// The marker byte of a value could not be read.
    InvalidMarkerRead,
    /// The data bytes of a value could not be read.
    InvalidDataRead,
    /// Any other failure, with its text.
    Other(String),
}

/// Why the codec gave up on a stream.
pub enum CodecError {
    /// The bytes do not encode a value of the expected type; the text says why.
    InvalidData(String),
}

/// A codec for sending and receiving byte-encoded msgpack payloads of type `T`.
pub struct MsgPackCodec<T> {
    _marker: PhantomData<T>,
}

impl<T> MsgPackCodec<T> {
    /// Create a codec.
    pub fn new() -> MsgPackCodec<T> {
        MsgPackCodec::<T> { _marker: PhantomData }
    }

    /// Decide what a decoding step yields, from the number of buffered bytes and the outcome
    /// of parsing one value from them: the number of bytes left unread, or the failure.
    /// A parsed value consumes the bytes it was read from (`Some` of their number); a failure
    /// to read a marker, the data or a sequence of the expected length means that more
    /// bytes are needed (`None`); any other failure is invalid data.
    pub fn decode_step(&self, available: usize, parse: Result<usize, ReadError>) -> (r: Result<Option<usize>, CodecError>)
        requires
            parse matches Ok(left) ==> left <= available,
        ensures
            match parse {
                Ok(left) => r == Ok::<Option<usize>, CodecError>(Some((available - left) as usize)),
                Err(ReadError::Other(text)) => r == Err::<Option<usize>, CodecError>(CodecError::InvalidData(text)),
                Err(_) => r == Ok::<Option<usize>, CodecError>(None),
            },
    {
        match parse {
            Ok(left) => Ok(Some(available - left)),
            Err(e) => match e {
                ReadError::LengthMismatch | ReadError::InvalidMarkerRead | ReadError::InvalidDataRead => Ok(None),
                ReadError::Other(text) => Err(CodecError::InvalidData(text)),
            },
        }
    }
}

} // verus!
