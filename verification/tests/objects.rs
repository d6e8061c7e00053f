use hive::io::serialisation::{
    frame_length, BincodeSerialiser, CiboriumSerialiser, JsonSerialiser, ObjectInputStream,
    ObjectOutputStream,
};
use hive::io::{ByteReader, InputStream, OutputStream, StandardInputStream, StreamError};

/// Hands out `data`, at most `chunk` bytes per read, then reports the end.
struct Bytes {
    data: Vec<u8>,
    position: usize,
    chunk: usize,
}

impl ByteReader for Bytes {
    fn read(&mut self, buffer: &mut [u8]) -> Result<usize, StreamError> {
        let available = self.data.len() - self.position;
        let count = available.min(buffer.len()).min(self.chunk);
        buffer[..count].copy_from_slice(&self.data[self.position..self.position + count]);
        self.position += count;
        Ok(count)
    }
}

fn objects_from(data: Vec<u8>, chunk: usize) -> ObjectInputStream<StandardInputStream<Bytes>> {
    ObjectInputStream::new(StandardInputStream::new(Bytes { data, position: 0, chunk }))
}

#[test]
fn write_object_frames_the_payload() {
    let mut stream = ObjectOutputStream::new(Vec::<u8>::new());
    assert!(stream.write_object(&[1, 2, 3]).is_ok());
    assert!(stream.write_object(&[]).is_ok());
    assert_eq!(
        stream.into_inner_stream(),
        vec![0, 0, 0, 0, 0, 0, 0, 3, 1, 2, 3, 0, 0, 0, 0, 0, 0, 0, 0]
    );
}

#[test]
fn write_object_puts_the_length_first_most_significant_byte_first() {
    let payload = vec![7u8; 0x0102];
    let mut stream = ObjectOutputStream::new(Vec::<u8>::new());
    assert!(stream.write_object(&payload).is_ok());
    let bytes = stream.into_inner_stream();
    assert_eq!(&bytes[..8], &[0, 0, 0, 0, 0, 0, 1, 2]);
    assert_eq!(&bytes[8..], &payload[..]);
}

#[test]
fn read_object_gives_back_what_was_written() {
    let mut out = ObjectOutputStream::new(Vec::<u8>::new());
    assert!(out.write_object(b"first").is_ok());
    assert!(out.write_object(b"").is_ok());
    assert!(out.write_object(b"third object").is_ok());
    let mut input = objects_from(out.into_inner_stream(), 3);
    assert_eq!(input.read_object().ok(), Some(b"first".to_vec()));
    assert_eq!(input.read_object().ok(), Some(Vec::new()));
    assert_eq!(input.read_object().ok(), Some(b"third object".to_vec()));
    assert!(matches!(input.read_object(), Err(StreamError::UnexpectedEndOfStream)));
}

#[test]
fn read_object_reports_a_cut_frame() {
    let mut input = objects_from(vec![0, 0, 0, 0, 0, 0, 0, 5, 1, 2], 100);
    assert!(matches!(input.read_object(), Err(StreamError::UnexpectedEndOfStream)));
    let mut input = objects_from(vec![0, 0, 0], 100);
    assert!(matches!(input.read_object(), Err(StreamError::UnexpectedEndOfStream)));
}

#[test]
fn frame_length_reads_big_endian() {
    assert_eq!(frame_length(&[0, 0, 0, 0, 0, 0, 0, 0]).ok(), Some(0));
    assert_eq!(frame_length(&[0, 0, 0, 0, 1, 0, 0, 2]).ok(), Some(0x0100_0002));
    let largest = frame_length(&[0xff; 8]);
    if usize::BITS == 64 {
        assert_eq!(largest.ok(), Some(usize::MAX));
    } else {
        assert!(matches!(largest, Err(StreamError::ObjectTooLarge)));
    }
}

#[test]
fn object_streams_pass_plain_bytes_through() {
    let mut out = ObjectOutputStream::new(Vec::<u8>::new());
    assert!(out.write_all(&[9, 8]).is_ok());
    assert!(out.flush().is_ok());
    let bytes = out.into_inner_stream();
    assert_eq!(bytes, vec![9, 8]);
    let mut input = objects_from(bytes, 1);
    let mut buffer = [0u8; 2];
    assert!(input.read_exact(&mut buffer).is_ok());
    assert_eq!(buffer, [9, 8]);
}

#[test]
fn bincode_values_round_trip_through_object_streams() {
    let value: (u32, String) = (42, "hive".to_string());
    let mut out = ObjectOutputStream::new(Vec::<u8>::new());
    let configuration = out.serialiser().configuration();
    let encoded = bincode::serde::encode_to_vec(&value, configuration).ok().unwrap();
    assert!(out.write_object(&encoded).is_ok());
    let mut input = objects_from(out.into_inner_stream(), 4);
    let payload = input.read_object().ok().unwrap();
    let decoded = bincode::serde::decode_from_slice::<(u32, String), _>(
        &payload,
        input.deserialiser().configuration(),
    )
    .ok()
    .unwrap();
    let accepted = BincodeSerialiser::accept_decoded(decoded, payload.len());
    assert_eq!(accepted.ok(), Some(value));
}

#[test]
fn accept_decoded_refuses_leftover_bytes() {
    let accepted = BincodeSerialiser::accept_decoded((5u8, 1usize), 2);
    match accepted {
        Err(bincode::error::DecodeError::OtherString(message)) => {
            assert_eq!(message, "trailing data after object");
        },
        _ => panic!("expected the trailing-data error"),
    }
    let accepted = BincodeSerialiser::accept_decoded((5u8, 2usize), 2);
    assert_eq!(accepted.ok(), Some(5u8));
}

#[test]
fn serialiser_handles_can_be_replaced() {
    let mut out = ObjectOutputStream::new(Vec::<u8>::new());
    *out.serialiser_mutable() = BincodeSerialiser::with_confiuration(bincode::config::standard());
    let mut input = objects_from(Vec::new(), 1);
    *input.deserialiser_mutable() = BincodeSerialiser::new();
    let _json = JsonSerialiser::new();
    let _cbor = CiboriumSerialiser::new();
    assert!(out.write_object(&[1]).is_ok());
    assert_eq!(out.into_inner_stream(), vec![0, 0, 0, 0, 0, 0, 0, 1, 1]);
}

#[test]
fn read_two_frames_from_bytes_in_memory() {
    let bytes: [u8; 18] = [0, 0, 0, 0, 0, 0, 0, 1, 5, 0, 0, 0, 0, 0, 0, 0, 1, 7];
    let mut input = ObjectInputStream::new(hive::io::SliceInputStream::new(&bytes[..]));
    assert_eq!(input.read_object().ok(), Some(vec![5u8]));
    assert_eq!(input.read_object().ok(), Some(vec![7u8]));
    assert!(matches!(input.read_object(), Err(StreamError::UnexpectedEndOfStream)));
}

#[test]
fn written_objects_read_back_from_memory() {
    let mut out = ObjectOutputStream::new(Vec::<u8>::new());
    assert!(out.write_object(b"first").is_ok());
    assert!(out.write_object(b"").is_ok());
    let bytes = out.into_inner_stream();
    let mut input = ObjectInputStream::new(hive::io::SliceInputStream::new(&bytes[..]));
    assert_eq!(input.read_object().ok(), Some(b"first".to_vec()));
    assert_eq!(input.read_object().ok(), Some(Vec::new()));
    assert!(matches!(input.read_object(), Err(StreamError::UnexpectedEndOfStream)));
}
