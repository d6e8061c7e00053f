//! Serialiser handles and object streams.
//!
//! An object stream carries a sequence of frames: each frame is the length
//! of its payload as eight big-endian bytes, followed by the payload. The
//! payloads are the encodings of the objects; turning values into payloads
//! and back is the job of the serialisers.

use bincode::config::Configuration;
use bincode::error::DecodeError;
use vstd::prelude::*;
use vstd::string::*;

use super::{
    InputStream,
    OutputStream,
    StreamError,
    extension,
    lemma_starts_with_concat,
    lemma_starts_with_transitive,
    starts_with,
};

verus! {

/// bincode's configuration type, carried through opaquely.
#[verifier::external_type_specification]
#[verifier::external_body]
#[verifier::reject_recursive_types(E)]
#[verifier::reject_recursive_types(I)]
#[verifier::reject_recursive_types(L)]
pub struct ExConfiguration<E, I, L>(Configuration<E, I, L>);

/// bincode's little-endian marker, a parameter of its default configuration.
#[verifier::external_type_specification]
#[verifier::external_body]
pub struct ExLittleEndian(bincode::config::LittleEndian);

/// bincode's variable-length integer marker, a parameter of its default
/// configuration.
#[verifier::external_type_specification]
#[verifier::external_body]
pub struct ExVarint(bincode::config::Varint);

/// bincode's no-size-limit marker, a parameter of its default configuration.
#[verifier::external_type_specification]
#[verifier::external_body]
pub struct ExNoLimit(bincode::config::NoLimit);

/// bincode's decoding error, carried through opaquely.
#[verifier::external_type_specification]
#[verifier::external_body]
pub struct ExDecodeError(DecodeError);

/// `bincode::config::standard`: bincode's default configuration. The
/// configuration is opaque here, so nothing is said of the value.
#[verifier::external_body]
fn standard_configuration() -> Configuration {
    bincode::config::standard()
}

/// The error `bincode::error::DecodeError::OtherString` builds around
/// `message`.
pub uninterp spec fn other_string_error(message: Seq<char>) -> DecodeError;

/// `bincode::error::DecodeError::OtherString`: a decoding error that carries
/// `message`. The error is opaque here; the contract claims only that the
/// variant is built from the message alone, so equal messages give the
/// same error.
#[verifier::external_body]
fn decode_error_with_message(message: String) -> (error: DecodeError)
    ensures
        error == other_string_error(message@),
{
    DecodeError::OtherString(message)
}

/// Handle for encoding values as JSON text.
pub struct JsonSerialiser;

impl JsonSerialiser {
    /// Builds the handle.
    pub fn new() -> (result: Self)
        ensures
            result == JsonSerialiser,
    {
        Self {  }
    }
}

/// Handle for encoding values as CBOR bytes.
pub struct CiboriumSerialiser;

impl CiboriumSerialiser {
    /// Builds the handle.
    pub fn new() -> (result: Self)
        ensures
            result == CiboriumSerialiser,
    {
        Self {  }
    }
}

/// Handle for encoding values with bincode under a chosen configuration.
pub struct BincodeSerialiser {
    configuration: Configuration,
}

impl BincodeSerialiser {
    /// The configuration the values are encoded under.
    pub closed spec fn chosen_configuration(&self) -> Configuration {
        self.configuration
    }

    /// Builds the handle with `configuration`.
    pub fn with_confiuration(configuration: Configuration) -> (result: Self)
        ensures
            result.chosen_configuration() == configuration,
    {
        Self { configuration }
    }

    /// Builds the handle with bincode's standard configuration.
    pub fn new() -> (result: Self) {
        Self::with_confiuration(standard_configuration())
    }

    /// The configuration the values are encoded under.
    pub fn configuration(&self) -> (result: Configuration)
        ensures
            result == self.chosen_configuration(),
    {
        self.configuration
    }

    /// Takes what decoding `input_length` bytes produced, the value and the
    /// number of bytes the decoder used, and keeps the value only when the
    /// decoder used every byte; bytes left over are an error.
    pub fn accept_decoded<T>(decoded: (T, usize), input_length: usize) -> (result: Result<
        T,
        DecodeError,
    >)
        ensures
            result is Ok <==> decoded.1 == input_length,
            result matches Ok(value) ==> value == decoded.0,
            result matches Err(error) ==> error == other_string_error(
                "trailing data after object"@,
            ),
    {
        let (value, consumed) = decoded;
        if consumed != input_length {
            let message = String::from_str("trailing data after object");
            return Err(decode_error_with_message(message));
        }
        Ok(value)
    }
}

/// The eight bytes of `value`, most significant first.
pub open spec fn be_bytes(value: u64) -> Seq<u8> {
    seq![
        (value >> 56u64) as u8,
        (value >> 48u64) as u8,
        (value >> 40u64) as u8,
        (value >> 32u64) as u8,
        (value >> 24u64) as u8,
        (value >> 16u64) as u8,
        (value >> 8u64) as u8,
        value as u8,
    ]
}

/// The number whose eight bytes, most significant first, are `bytes`.
pub open spec fn be_value(bytes: Seq<u8>) -> u64
    recommends
        bytes.len() == 8,
{
    (bytes[0] as u64) << 56u64 | (bytes[1] as u64) << 48u64 | (bytes[2] as u64) << 40u64 | (
    bytes[3] as u64) << 32u64 | (bytes[4] as u64) << 24u64 | (bytes[5] as u64) << 16u64 | (
    bytes[6] as u64) << 8u64 | (bytes[7] as u64)
}

/// Whether `bytes` begin with a whole frame: an eight-byte length that
/// fits in this machine's sizes, followed by at least that many bytes.
pub open spec fn holds_whole_frame(bytes: Seq<u8>) -> bool {
    &&& bytes.len() >= 8
    &&& be_value(bytes.take(8)) <= usize::MAX
    &&& bytes.len() - 8 >= be_value(bytes.take(8))
}

/// The frame that carries `payload`: its length in eight big-endian bytes,
/// then the payload itself.
pub open spec fn frame(payload: Seq<u8>) -> Seq<u8> {
    be_bytes(payload.len() as u64) + payload
}

/// Decoding the eight bytes of a number gives the number back.
pub proof fn lemma_be_value_of_bytes(value: u64)
    ensures
        be_bytes(value).len() == 8,
        be_value(be_bytes(value)) == value,
{
    let b0 = (value >> 56u64) as u8;
    let b1 = (value >> 48u64) as u8;
    let b2 = (value >> 40u64) as u8;
    let b3 = (value >> 32u64) as u8;
    let b4 = (value >> 24u64) as u8;
    let b5 = (value >> 16u64) as u8;
    let b6 = (value >> 8u64) as u8;
    let b7 = value as u8;
    assert((b0 as u64) << 56u64 | (b1 as u64) << 48u64 | (b2 as u64) << 40u64 | (b3 as u64)
        << 32u64 | (b4 as u64) << 24u64 | (b5 as u64) << 16u64 | (b6 as u64) << 8u64 | (
    b7 as u64) == value) by (bit_vector)
        requires
            b0 == (value >> 56u64) as u8,
            b1 == (value >> 48u64) as u8,
            b2 == (value >> 40u64) as u8,
            b3 == (value >> 32u64) as u8,
            b4 == (value >> 24u64) as u8,
            b5 == (value >> 16u64) as u8,
            b6 == (value >> 8u64) as u8,
            b7 == value as u8,
    ;
}

/// Eight bytes are the bytes of the number they encode.
pub proof fn lemma_be_bytes_of_value(bytes: Seq<u8>)
    requires
        bytes.len() == 8,
    ensures
        be_bytes(be_value(bytes)) == bytes,
{
    let b0 = bytes[0];
    let b1 = bytes[1];
    let b2 = bytes[2];
    let b3 = bytes[3];
    let b4 = bytes[4];
    let b5 = bytes[5];
    let b6 = bytes[6];
    let b7 = bytes[7];
    let v = be_value(bytes);
    assert({
        &&& (v >> 56u64) as u8 == b0
        &&& (v >> 48u64) as u8 == b1
        &&& (v >> 40u64) as u8 == b2
        &&& (v >> 32u64) as u8 == b3
        &&& (v >> 24u64) as u8 == b4
        &&& (v >> 16u64) as u8 == b5
        &&& (v >> 8u64) as u8 == b6
        &&& v as u8 == b7
    }) by (bit_vector)
        requires
            v == (b0 as u64) << 56u64 | (b1 as u64) << 48u64 | (b2 as u64) << 40u64 | (b3 as u64)
                << 32u64 | (b4 as u64) << 24u64 | (b5 as u64) << 16u64 | (b6 as u64) << 8u64 | (
            b7 as u64),
    ;
    assert(be_bytes(v) =~= bytes);
}

/// The eight header bytes are read most significant first: the number they
/// stand for is the first byte times 256 to the seventh, plus the second
/// times 256 to the sixth, and so on down to the last byte itself.
pub proof fn lemma_be_value_is_big_endian(bytes: Seq<u8>)
    requires
        bytes.len() == 8,
    ensures
        be_value(bytes) == bytes[0] * 0x100000000000000 + bytes[1] * 0x1000000000000 + bytes[2]
            * 0x10000000000 + bytes[3] * 0x100000000 + bytes[4] * 0x1000000 + bytes[5] * 0x10000
            + bytes[6] * 0x100 + bytes[7],
{
    let b0 = bytes[0];
    let b1 = bytes[1];
    let b2 = bytes[2];
    let b3 = bytes[3];
    let b4 = bytes[4];
    let b5 = bytes[5];
    let b6 = bytes[6];
    let b7 = bytes[7];
    assert((b0 as u64) << 56u64 | (b1 as u64) << 48u64 | (b2 as u64) << 40u64 | (b3 as u64)
        << 32u64 | (b4 as u64) << 24u64 | (b5 as u64) << 16u64 | (b6 as u64) << 8u64 | (
    b7 as u64) == b0 * 0x100000000000000u64 + b1 * 0x1000000000000u64 + b2 * 0x10000000000u64
        + b3 * 0x100000000u64 + b4 * 0x1000000u64 + b5 * 0x10000u64 + b6 * 0x100u64 + b7)
        by (bit_vector);
}

/// The eight bytes of a number are its base-256 digits, most significant
/// first: byte `i` is the digit of weight 256 to the power `7 - i`.
pub proof fn lemma_be_bytes_is_big_endian(value: u64)
    ensures
        be_bytes(value).len() == 8,
        be_bytes(value)[0] == value / 0x100000000000000 % 0x100,
        be_bytes(value)[1] == value / 0x1000000000000 % 0x100,
        be_bytes(value)[2] == value / 0x10000000000 % 0x100,
        be_bytes(value)[3] == value / 0x100000000 % 0x100,
        be_bytes(value)[4] == value / 0x1000000 % 0x100,
        be_bytes(value)[5] == value / 0x10000 % 0x100,
        be_bytes(value)[6] == value / 0x100 % 0x100,
        be_bytes(value)[7] == value % 0x100,
{
    let n = value;
    assert((n >> 56u64) as u8 == n / 0x100000000000000u64 % 0x100u64) by (bit_vector);
    assert((n >> 48u64) as u8 == n / 0x1000000000000u64 % 0x100u64) by (bit_vector);
    assert((n >> 40u64) as u8 == n / 0x10000000000u64 % 0x100u64) by (bit_vector);
    assert((n >> 32u64) as u8 == n / 0x100000000u64 % 0x100u64) by (bit_vector);
    assert((n >> 24u64) as u8 == n / 0x1000000u64 % 0x100u64) by (bit_vector);
    assert((n >> 16u64) as u8 == n / 0x10000u64 % 0x100u64) by (bit_vector);
    assert((n >> 8u64) as u8 == n / 0x100u64 % 0x100u64) by (bit_vector);
    assert(n as u8 == n % 0x100u64) by (bit_vector);
}

/// The header of the frame that carries `payload` states the payload's
/// length in eight bytes, most significant first: byte `i` is the length's
/// digit of weight 256 to the power `7 - i`. The payload follows the header
/// unchanged.
pub proof fn lemma_frame_header_is_big_endian(payload: Seq<u8>)
    requires
        payload.len() <= u64::MAX,
    ensures
        frame(payload).len() == 8 + payload.len(),
        frame(payload)[0] == payload.len() / 0x100000000000000 % 0x100,
        frame(payload)[1] == payload.len() / 0x1000000000000 % 0x100,
        frame(payload)[2] == payload.len() / 0x10000000000 % 0x100,
        frame(payload)[3] == payload.len() / 0x100000000 % 0x100,
        frame(payload)[4] == payload.len() / 0x1000000 % 0x100,
        frame(payload)[5] == payload.len() / 0x10000 % 0x100,
        frame(payload)[6] == payload.len() / 0x100 % 0x100,
        frame(payload)[7] == payload.len() % 0x100,
        frame(payload).skip(8) == payload,
{
    lemma_be_bytes_is_big_endian(payload.len() as u64);
    assert(frame(payload).skip(8) =~= payload);
}

/// Frames decode uniquely: when a frame followed by more bytes equals
/// another frame followed by more bytes, the two payloads are the same and
/// so are the bytes after them. So reading a frame back gives exactly the
/// payload that was written into it.
pub proof fn lemma_frame_decodes_uniquely(
    payload: Seq<u8>,
    rest: Seq<u8>,
    other_payload: Seq<u8>,
    other_rest: Seq<u8>,
)
    requires
        payload.len() <= u64::MAX,
        other_payload.len() <= u64::MAX,
        frame(payload) + rest == frame(other_payload) + other_rest,
    ensures
        payload == other_payload,
        rest == other_rest,
{
    let whole = frame(payload) + rest;
    let header = be_bytes(payload.len() as u64);
    let other_header = be_bytes(other_payload.len() as u64);
    lemma_be_value_of_bytes(payload.len() as u64);
    lemma_be_value_of_bytes(other_payload.len() as u64);
    assert(whole.take(8) =~= header);
    assert((frame(other_payload) + other_rest).take(8) =~= other_header);
    assert(payload.len() == other_payload.len());
    let n = payload.len() as int;
    assert(whole.subrange(8, 8 + n) =~= payload);
    assert((frame(other_payload) + other_rest).subrange(8, 8 + n) =~= other_payload);
    assert(whole.skip(8 + n) =~= rest);
    assert((frame(other_payload) + other_rest).skip(8 + n) =~= other_rest);
}

/// A frame written for a payload that fits in this machine's sizes is, to a
/// reader, a whole frame whose header announces that payload's length,
/// whatever bytes follow it. So reading an object back from the bytes
/// written for it succeeds and gives the payload back.
pub proof fn lemma_written_frame_reads_back(payload: Seq<u8>, rest: Seq<u8>)
    requires
        payload.len() <= usize::MAX,
    ensures
        holds_whole_frame(frame(payload) + rest),
        be_value((frame(payload) + rest).take(8)) == payload.len(),
        (frame(payload) + rest).subrange(8, 8 + payload.len() as int) == payload,
{
    lemma_be_value_of_bytes(payload.len() as u64);
    assert((frame(payload) + rest).take(8) =~= be_bytes(payload.len() as u64));
    assert((frame(payload) + rest).subrange(8, 8 + payload.len() as int) =~= payload);
}

/// The eight bytes of `value`, most significant first.
fn encode_length(value: u64) -> (bytes: Vec<u8>)
    ensures
        bytes@ == be_bytes(value),
{
    let mut bytes: Vec<u8> = Vec::new();
    bytes.push((value >> 56u64) as u8);
    bytes.push((value >> 48u64) as u8);
    bytes.push((value >> 40u64) as u8);
    bytes.push((value >> 32u64) as u8);
    bytes.push((value >> 24u64) as u8);
    bytes.push((value >> 16u64) as u8);
    bytes.push((value >> 8u64) as u8);
    bytes.push(value as u8);
    assert(bytes@ =~= be_bytes(value));
    bytes
}

/// The length a frame header announces, when it fits in this machine's
/// sizes; `ObjectTooLarge` otherwise.
pub fn frame_length(header: &[u8]) -> (result: Result<usize, StreamError>)
    requires
        header@.len() == 8,
    ensures
        be_value(header@) <= usize::MAX ==> result == Ok::<usize, StreamError>(
            be_value(header@) as usize,
        ),
        be_value(header@) > usize::MAX ==> result matches Err(StreamError::ObjectTooLarge),
{
    let value: u64 = (header[0] as u64) << 56u64 | (header[1] as u64) << 48u64 | (header[2] as u64)
        << 40u64 | (header[3] as u64) << 32u64 | (header[4] as u64) << 24u64 | (header[5] as u64)
        << 16u64 | (header[6] as u64) << 8u64 | (header[7] as u64);
    match usize::try_from(value) {
        Ok(length) => Ok(length),
        Err(_) => Err(StreamError::ObjectTooLarge),
    }
}

/// An output stream that writes objects as frames onto the stream it wraps.
pub struct ObjectOutputStream<W> where W: OutputStream {
    inner_stream: W,
    serialiser: BincodeSerialiser,
}

impl<W> ObjectOutputStream<W> where W: OutputStream {
    /// The wrapped stream.
    pub closed spec fn inner(&self) -> W {
        self.inner_stream
    }

    /// The serialiser the objects are encoded with.
    pub closed spec fn current_serialiser(&self) -> BincodeSerialiser {
        self.serialiser
    }

    /// Wraps `stream`, encoding objects with bincode's standard configuration.
    pub fn new(stream: W) -> (result: Self)
        ensures
            result.inner() == stream,
    {
        Self { inner_stream: stream, serialiser: BincodeSerialiser::new() }
    }

    /// Writes one object, given as its encoded bytes `data`, as a frame:
    /// the length of `data` in eight big-endian bytes, then `data`.
    pub fn write_object(&mut self, data: &[u8]) -> (result: Result<(), StreamError>)
        ensures
            final(self).current_serialiser() == old(self).current_serialiser(),
            result is Ok ==> final(self).inner().written() == old(self).inner().written() + frame(
                data@,
            ),
            final(self).inner().never_fails() == old(self).inner().never_fails(),
            old(self).inner().never_fails() ==> result is Ok,
            old(self).inner().agrees_with_sink() ==> final(self).inner().agrees_with_sink(),
    {
        let length = match u64::try_from(data.len()) {
            Ok(length) => length,
            Err(_) => {
                return Err(StreamError::ObjectTooLarge);
            },
        };
        let header = encode_length(length);
        self.inner_stream.write_all(header.as_slice())?;
        self.inner_stream.write_all(data)?;
        assert(old(self).inner().written() + header@ + data@ =~= old(self).inner().written()
            + frame(data@));
        Ok(())
    }

    /// Gives the wrapped stream back.
    pub fn into_inner_stream(self) -> (result: W)
        ensures
            result == self.inner(),
    {
        self.inner_stream
    }

    /// The serialiser the objects are encoded with.
    pub fn serialiser(&self) -> (result: &BincodeSerialiser)
        ensures
            *result == self.current_serialiser(),
    {
        &self.serialiser
    }

    /// The serialiser the objects are encoded with, to be changed in place.
    pub fn serialiser_mutable(&mut self) -> (result: &mut BincodeSerialiser)
        ensures
            *result == old(self).current_serialiser(),
            final(self).current_serialiser() == *final(result),
            final(self).inner() == old(self).inner(),
    {
        &mut self.serialiser
    }
}

impl<W> OutputStream for ObjectOutputStream<W> where W: OutputStream {
    open spec fn written(&self) -> Seq<u8> {
        self.inner().written()
    }

    open spec fn never_fails(&self) -> bool {
        self.inner().never_fails()
    }

    open spec fn failures_keep_account(&self) -> bool {
        self.inner().failures_keep_account()
    }

    open spec fn agrees_with_sink(&self) -> bool {
        self.inner().agrees_with_sink()
    }

    fn write(&mut self, buffer: &[u8]) -> (result: Result<usize, StreamError>) {
        self.inner_stream.write(buffer)
    }

    fn flush(&mut self) -> (result: Result<(), StreamError>) {
        self.inner_stream.flush()
    }
}

/// An input stream that reads objects as frames from the stream it wraps.
pub struct ObjectInputStream<R> where R: InputStream {
    inner_stream: R,
    deserialiser: BincodeSerialiser,
}

impl<R> ObjectInputStream<R> where R: InputStream {
    /// The wrapped stream.
    pub closed spec fn inner(&self) -> R {
        self.inner_stream
    }

    /// The serialiser the objects are decoded with.
    pub closed spec fn current_deserialiser(&self) -> BincodeSerialiser {
        self.deserialiser
    }

    /// Wraps `stream`, decoding objects with bincode's standard configuration.
    pub fn new(stream: R) -> (result: Self)
        ensures
            result.inner() == stream,
    {
        Self { inner_stream: stream, deserialiser: BincodeSerialiser::new() }
    }

    /// Reads one frame and gives back its payload: the encoded bytes of one
    /// object. A stream that ends inside the frame makes it fail with
    /// `UnexpectedEndOfStream`; a length that does not fit in this
    /// machine's sizes, with `ObjectTooLarge`.
    pub fn read_object(&mut self) -> (result: Result<Vec<u8>, StreamError>)
        ensures
            final(self).current_deserialiser() == old(self).current_deserialiser(),
            result matches Ok(data) ==> final(self).inner().consumed() == old(
                self,
            ).inner().consumed() + frame(data@),
            final(self).inner().ended() ==> {
                &&& result matches Err(StreamError::UnexpectedEndOfStream)
                &&& starts_with(final(self).inner().consumed(), old(self).inner().consumed())
            },
            result is Err ==> starts_with(final(self).inner().consumed(), old(self).inner().consumed()),
            final(self).inner().reads_never_fail() == old(self).inner().reads_never_fail(),
            final(self).inner().fills_reads() == old(self).inner().fills_reads(),
            result is Ok ==> final(self).inner().content() == old(self).inner().content(),
            old(self).inner().reads_never_fail() ==> {
                ||| result is Ok
                ||| final(self).inner().ended()
                ||| {
                    let header = extension(final(self).inner().consumed(), old(self).inner().consumed());
                    &&& result matches Err(StreamError::ObjectTooLarge)
                    &&& header.len() == 8
                    &&& be_value(header) > usize::MAX
                }
            },
            old(self).inner().fills_reads() && old(self).inner().reads_never_fail() ==> (old(
                self,
            ).inner().content() matches Some(c) ==> (result is Ok <==> holds_whole_frame(
                c.skip(old(self).inner().consumed().len() as int),
            ))),
            result is Ok ==> (old(self).inner().content() matches Some(c) ==> starts_with(
                c,
                final(self).inner().consumed(),
            )),
            old(self).inner().agrees_with_source() ==> final(self).inner().agrees_with_source(),
    {
        let mut header = vec![0u8; 8];
        let ghost start = self.inner_stream.consumed();
        proof {
            self.inner_stream.lemma_content_starts_with_consumed();
            if let Some(c) = self.inner_stream.content() {
                assert(c.skip(start.len() as int).len() == c.len() - start.len());
            }
        }
        self.inner_stream.read_exact(header.as_mut_slice())?;
        proof {
            lemma_starts_with_concat(start, header@);
            self.inner_stream.lemma_content_starts_with_consumed();
            if let Some(c) = self.inner_stream.content() {
                assert(c.skip(start.len() as int).take(8) =~= c.subrange(
                    start.len() as int,
                    start.len() + 8int,
                ));
            }
        }
        let length = frame_length(header.as_slice())?;
        proof {
            lemma_be_bytes_of_value(header@);
        }
        let mut data = vec![0u8; length];
        let ghost middle = self.inner_stream.consumed();
        let outcome = self.inner_stream.read_exact(data.as_mut_slice());
        proof {
            lemma_starts_with_concat(start, header@);
            if outcome is Err {
                lemma_starts_with_transitive(self.inner_stream.consumed(), middle, start);
            }
        }
        outcome?;
        assert(start + header@ + data@ =~= start + frame(data@));
        proof {
            self.inner_stream.lemma_content_starts_with_consumed();
        }
        Ok(data)
    }

    /// Gives the wrapped stream back.
    pub fn into_inner_stream(self) -> (result: R)
        ensures
            result == self.inner(),
    {
        self.inner_stream
    }

    /// The serialiser the objects are decoded with.
    pub fn deserialiser(&self) -> (result: &BincodeSerialiser)
        ensures
            *result == self.current_deserialiser(),
    {
        &self.deserialiser
    }

    /// The serialiser the objects are decoded with, to be changed in place.
    pub fn deserialiser_mutable(&mut self) -> (result: &mut BincodeSerialiser)
        ensures
            *result == old(self).current_deserialiser(),
            final(self).current_deserialiser() == *final(result),
            final(self).inner() == old(self).inner(),
    {
        &mut self.deserialiser
    }
}

impl<R> InputStream for ObjectInputStream<R> where R: InputStream {
    open spec fn consumed(&self) -> Seq<u8> {
        self.inner().consumed()
    }

    open spec fn ended(&self) -> bool {
        self.inner().ended()
    }

    open spec fn reads_never_fail(&self) -> bool {
        self.inner().reads_never_fail()
    }

    open spec fn content(&self) -> Option<Seq<u8>> {
        self.inner().content()
    }

    open spec fn fills_reads(&self) -> bool {
        self.inner().fills_reads()
    }

    open spec fn agrees_with_source(&self) -> bool {
        self.inner().agrees_with_source()
    }

    proof fn lemma_content_starts_with_consumed(&self) {
        self.inner().lemma_content_starts_with_consumed();
    }

    fn read(&mut self, buffer: &mut [u8]) -> (result: Result<usize, StreamError>)
        ensures
            final(self).reads_never_fail() == old(self).reads_never_fail(),
            old(self).reads_never_fail() ==> result is Ok,
            result is Ok ==> final(self).content() == old(self).content(),
            final(self).fills_reads() == old(self).fills_reads(),
    {
        self.inner_stream.read(buffer)
    }
}

} // verus!
