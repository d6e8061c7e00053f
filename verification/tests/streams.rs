use hive::io::{
    copy, process_stream, BufferedInputStream, BufferedOutputStream, ByteReader, ByteWriter,
    CopyFrom, HasBufferedInputStream, HasBufferedOutputStream, InputStream, OutputStream,
    StandardInputStream, StandardOutputStream, StreamError, DEFAULT_BUFFER_SIZE,
};
use std::cell::RefCell;
use std::rc::Rc;

/// Hands out `data`, at most `chunk` bytes per read, then reports the end.
struct Source {
    data: Vec<u8>,
    position: usize,
    chunk: usize,
    reads: Rc<RefCell<usize>>,
}

impl ByteReader for Source {
    fn read(&mut self, buffer: &mut [u8]) -> Result<usize, StreamError> {
        *self.reads.borrow_mut() += 1;
        let available = self.data.len() - self.position;
        let count = available.min(buffer.len()).min(self.chunk);
        buffer[..count].copy_from_slice(&self.data[self.position..self.position + count]);
        self.position += count;
        Ok(count)
    }
}

fn source(data: &[u8], chunk: usize) -> StandardInputStream<Source> {
    StandardInputStream::new(Source {
        data: data.to_vec(),
        position: 0,
        chunk,
        reads: Rc::new(RefCell::new(0)),
    })
}

fn counted_source(data: &[u8], chunk: usize) -> (StandardInputStream<Source>, Rc<RefCell<usize>>) {
    let reads = Rc::new(RefCell::new(0));
    let stream = StandardInputStream::new(Source {
        data: data.to_vec(),
        position: 0,
        chunk,
        reads: reads.clone(),
    });
    (stream, reads)
}

/// Fails on every read.
struct Broken;

impl ByteReader for Broken {
    fn read(&mut self, _buffer: &mut [u8]) -> Result<usize, StreamError> {
        Err(StreamError::Other("broken".to_string()))
    }
}

/// Accepts at most `limit` bytes per write into a shared vector; counts flushes.
struct Sink {
    data: Rc<RefCell<Vec<u8>>>,
    limit: usize,
    flushes: Rc<RefCell<usize>>,
}

impl ByteWriter for Sink {
    fn write(&mut self, buffer: &[u8]) -> Result<usize, StreamError> {
        let count = buffer.len().min(self.limit);
        self.data.borrow_mut().extend_from_slice(&buffer[..count]);
        Ok(count)
    }

    fn flush(&mut self) -> Result<(), StreamError> {
        *self.flushes.borrow_mut() += 1;
        Ok(())
    }
}

struct SinkView {
    data: Rc<RefCell<Vec<u8>>>,
    flushes: Rc<RefCell<usize>>,
}

impl SinkView {
    fn bytes(&self) -> Vec<u8> {
        self.data.borrow().clone()
    }

    fn flushes(&self) -> usize {
        *self.flushes.borrow()
    }
}

fn sink(limit: usize) -> (StandardOutputStream<Sink>, SinkView) {
    let data = Rc::new(RefCell::new(Vec::new()));
    let flushes = Rc::new(RefCell::new(0));
    let stream = StandardOutputStream::new(Sink { data: data.clone(), limit, flushes: flushes.clone() });
    (stream, SinkView { data, flushes })
}

fn sample(length: usize) -> Vec<u8> {
    (0..length).map(|i| (i * 7 % 251) as u8).collect()
}

#[test]
fn vector_accepts_every_byte() {
    let mut out: Vec<u8> = vec![9];
    assert_eq!(out.write(&[1, 2, 3]).ok(), Some(3));
    assert!(out.flush().is_ok());
    assert_eq!(out, vec![9, 1, 2, 3]);
}

#[test]
fn standard_input_reads_through() {
    let mut input = source(&[5, 6], 8);
    let mut buffer = [0u8; 4];
    assert_eq!(input.read(&mut buffer).ok(), Some(2));
    assert_eq!(&buffer[..2], &[5, 6]);
    assert_eq!(input.read(&mut buffer).ok(), Some(0));
}

#[test]
fn standard_output_writes_through() {
    let (mut output, view) = sink(1);
    assert_eq!(output.write(&[2, 3]).ok(), Some(1));
    assert!(output.flush().is_ok());
    assert_eq!(view.bytes(), vec![2]);
    assert_eq!(view.flushes(), 1);
}

#[test]
fn write_all_keeps_writing_until_done() {
    let (mut output, view) = sink(2);
    assert!(output.write_all(&[1, 2, 3, 4, 5]).is_ok());
    assert_eq!(view.bytes(), vec![1, 2, 3, 4, 5]);
}

#[test]
fn write_all_reports_a_writer_that_accepts_nothing() {
    let (mut output, _view) = sink(0);
    assert!(matches!(output.write_all(&[1]), Err(StreamError::WriteZero)));
    assert!(output.write_all(&[]).is_ok());
}

#[test]
fn write_bytes_writes_one_byte() {
    let (mut output, view) = sink(10);
    assert!(output.write_bytes(42).is_ok());
    assert!(output.write_bytes(7).is_ok());
    assert_eq!(view.bytes(), vec![42, 7]);
}

#[test]
fn skip_drops_the_requested_amount() {
    let data = sample(20000);
    let mut input = source(&data, 3000);
    assert_eq!(input.skip(10000).ok(), Some(10000));
    let mut next = [0u8; 1];
    assert!(input.read_exact(&mut next).is_ok());
    assert_eq!(next[0], data[10000]);
}

#[test]
fn skip_stops_at_the_end() {
    let mut input = source(&sample(100), 7);
    assert_eq!(input.skip(1000).ok(), Some(100));
    assert_eq!(input.skip(5).ok(), Some(0));
    assert_eq!(input.skip(0).ok(), Some(0));
}

#[test]
fn skip_passes_errors_on() {
    let mut input: StandardInputStream<Broken> = StandardInputStream::new(Broken);
    assert!(matches!(input.skip(3), Err(StreamError::Other(_))));
}

#[test]
fn read_exact_fills_the_buffer() {
    let mut input = source(&[1, 2, 3, 4, 5], 2);
    let mut buffer = [0u8; 4];
    assert!(input.read_exact(&mut buffer).is_ok());
    assert_eq!(buffer, [1, 2, 3, 4]);
}

#[test]
fn read_exact_reports_a_short_stream() {
    let mut input = source(&[1, 2, 3], 2);
    let mut buffer = [0u8; 4];
    assert!(matches!(input.read_exact(&mut buffer), Err(StreamError::UnexpectedEndOfStream)));
}

#[test]
fn read_exact_of_nothing_reads_nothing() {
    let (mut input, reads) = counted_source(&[1], 2);
    let mut empty: [u8; 0] = [];
    assert!(input.read_exact(&mut empty).is_ok());
    assert_eq!(*reads.borrow(), 0);
}

#[test]
fn buffered_input_gives_the_inner_bytes_in_order() {
    let data = sample(50);
    let mut stream = BufferedInputStream::with_capacity(source(&data, 5), 8);
    let mut collected = Vec::new();
    let mut buffer = [0u8; 3];
    loop {
        let count = stream.read(&mut buffer).ok().unwrap();
        if count == 0 {
            break;
        }
        collected.extend_from_slice(&buffer[..count]);
    }
    assert_eq!(collected, data);
}

#[test]
fn buffered_input_fills_large_requests_across_refills() {
    let data = sample(30);
    let mut stream = BufferedInputStream::with_capacity(source(&data, 4), 4);
    let mut buffer = [0u8; 20];
    assert_eq!(stream.read(&mut buffer).ok(), Some(20));
    assert_eq!(&buffer[..], &data[..20]);
    let mut buffer = [0u8; 20];
    assert_eq!(stream.read(&mut buffer).ok(), Some(10));
    assert_eq!(&buffer[..10], &data[20..]);
    assert_eq!(stream.read(&mut buffer).ok(), Some(0));
}

#[test]
fn buffered_input_with_empty_request_reads_nothing() {
    let (input, reads) = counted_source(&[1, 2], 2);
    let mut stream = BufferedInputStream::new(input);
    let mut empty: [u8; 0] = [];
    assert_eq!(stream.read(&mut empty).ok(), Some(0));
    assert_eq!(*reads.borrow(), 0);
}

#[test]
fn buffered_input_without_room_reads_nothing() {
    let mut stream = BufferedInputStream::with_capacity(source(&[1, 2], 2), 0);
    let mut buffer = [0u8; 2];
    assert_eq!(stream.read(&mut buffer).ok(), Some(0));
}

#[test]
fn buffered_input_passes_errors_on() {
    let inner: StandardInputStream<Broken> = StandardInputStream::new(Broken);
    let mut stream = BufferedInputStream::new(inner);
    let mut buffer = [0u8; 2];
    assert!(matches!(stream.read(&mut buffer), Err(StreamError::Other(_))));
}

#[test]
fn refill_reads_one_block() {
    let (input, reads) = counted_source(&sample(10), 100);
    let mut stream = BufferedInputStream::with_capacity(input, 4);
    assert_eq!(stream.refill().ok(), Some(true));
    assert_eq!(stream.refill().ok(), Some(true));
    assert_eq!(stream.refill().ok(), Some(true));
    assert_eq!(stream.refill().ok(), Some(false));
    assert_eq!(*reads.borrow(), 4);
    let mut inner = stream.into_inner_stream();
    let mut buffer = [0u8; 1];
    assert_eq!(inner.read(&mut buffer).ok(), Some(0));
}

#[test]
fn buffered_input_reads_ahead_one_block() {
    assert_eq!(DEFAULT_BUFFER_SIZE, 8192);
    let data = sample(DEFAULT_BUFFER_SIZE + 10);
    let mut stream = BufferedInputStream::new(source(&data, usize::MAX));
    let mut buffer = [0u8; 1];
    assert_eq!(stream.read(&mut buffer).ok(), Some(1));
    let mut inner = stream.into_inner_stream();
    let mut rest = [0u8; 20];
    assert_eq!(inner.read(&mut rest).ok(), Some(10));
    assert_eq!(&rest[..10], &data[DEFAULT_BUFFER_SIZE..]);
}

#[test]
fn buffered_output_passes_bytes_on_when_flushed() {
    let (inner, view) = sink(100);
    let mut stream = BufferedOutputStream::with_capacity(inner, 64);
    assert_eq!(stream.write(&[1, 2, 3]).ok(), Some(3));
    assert_eq!(stream.write(&[4]).ok(), Some(1));
    assert!(view.bytes().is_empty());
    assert!(stream.flush().is_ok());
    assert_eq!(view.bytes(), vec![1, 2, 3, 4]);
    assert_eq!(view.flushes(), 1);
}

#[test]
fn buffered_output_into_inner_stream_flushes() {
    let (inner, view) = sink(3);
    let mut stream = BufferedOutputStream::new(inner);
    assert!(stream.write_all(&sample(10)).is_ok());
    assert!(stream.into_inner_stream().is_ok());
    assert_eq!(view.bytes(), sample(10));
}

#[test]
fn buffered_output_flushes_on_its_own_when_full() {
    let (inner, view) = sink(1000);
    let mut stream = BufferedOutputStream::with_capacity(inner, 4);
    assert!(stream.write_all(&[1, 2, 3, 4, 5, 6, 7, 8, 9, 10]).is_ok());
    assert!(!view.bytes().is_empty());
    assert!(stream.into_inner_stream().is_ok());
    assert_eq!(view.bytes(), vec![1, 2, 3, 4, 5, 6, 7, 8, 9, 10]);
}

#[test]
fn buffered_output_reports_a_failing_inner_stream() {
    let (inner, _view) = sink(0);
    let mut stream = BufferedOutputStream::new(inner);
    assert_eq!(stream.write(&[1]).ok(), Some(1));
    assert!(matches!(stream.flush(), Err(StreamError::WriteZero)));
}

#[test]
fn copy_moves_everything_and_counts() {
    let data = sample(20000);
    let mut input = source(&data, 1000);
    let (mut output, view) = sink(333);
    assert_eq!(copy(&mut input, &mut output).ok(), Some(20000));
    assert_eq!(view.bytes(), data);
}

#[test]
fn copy_to_and_copy_from_move_everything() {
    let data = sample(500);
    let mut input = source(&data, 64);
    let mut out: Vec<u8> = Vec::new();
    assert_eq!(input.copy_to(&mut out).ok(), Some(500));
    assert_eq!(out, data);
    let mut input = source(&data, 64);
    let mut out: Vec<u8> = Vec::new();
    assert_eq!(out.copy_from(&mut input).ok(), Some(500));
    assert_eq!(out, data);
}

#[test]
fn copy_of_an_empty_stream_moves_nothing() {
    let mut input = source(&[], 8);
    let mut out: Vec<u8> = Vec::new();
    assert_eq!(copy(&mut input, &mut out).ok(), Some(0));
    assert!(out.is_empty());
}

#[test]
fn process_stream_moves_everything() {
    let data = sample(9000);
    let mut input = source(&data, 4096);
    let (mut output, view) = sink(100);
    assert!(process_stream(&mut input, &mut output).is_ok());
    assert_eq!(view.bytes(), data);
}

#[test]
fn process_stream_passes_errors_on() {
    let (mut output, _view) = sink(100);
    let mut broken: StandardInputStream<Broken> = StandardInputStream::new(Broken);
    assert!(matches!(process_stream(&mut broken, &mut output), Err(StreamError::Other(_))));
    let mut input = source(&[1], 1);
    let (mut output, _view) = sink(0);
    assert!(matches!(process_stream(&mut input, &mut output), Err(StreamError::WriteZero)));
}

#[test]
fn streams_wrap_themselves_in_buffers() {
    let mut input = source(&[1, 2, 3], 8).into_buffered_input_stream();
    let mut buffer = [0u8; 3];
    assert_eq!(input.read(&mut buffer).ok(), Some(3));
    let mut output = Vec::<u8>::new().into_buffered_output_stream();
    assert!(output.write_all(&buffer).is_ok());
    assert_eq!(output.into_inner_stream().ok(), Some(vec![1, 2, 3]));
}

#[test]
fn slice_input_hands_out_its_bytes_then_ends() {
    let data = [1u8, 2, 3, 4, 5];
    let mut input = hive::io::SliceInputStream::new(&data);
    let mut buffer = [9u8; 3];
    assert_eq!(input.read(&mut buffer).ok(), Some(3));
    assert_eq!(buffer, [1, 2, 3]);
    let mut buffer = [9u8; 3];
    assert_eq!(input.read(&mut buffer).ok(), Some(2));
    assert_eq!(buffer, [4, 5, 9]);
    assert_eq!(input.read(&mut buffer).ok(), Some(0));
}

#[test]
fn buffered_input_leaves_the_rest_of_the_buffer() {
    let data = [1u8, 2, 3];
    let mut stream = BufferedInputStream::with_capacity(hive::io::SliceInputStream::new(&data), 2);
    let mut buffer = [7u8; 5];
    assert_eq!(stream.read(&mut buffer).ok(), Some(3));
    assert_eq!(buffer, [1, 2, 3, 7, 7]);
}

#[test]
fn buffered_output_into_a_vector_always_succeeds() {
    let mut stream = BufferedOutputStream::with_capacity(Vec::<u8>::new(), 4);
    assert_eq!(stream.write(b"ab").ok(), Some(2));
    assert_eq!(stream.write(b"cd").ok(), Some(2));
    assert!(stream.write_bytes(b'e').is_ok());
    assert_eq!(stream.into_inner_stream().ok(), Some(b"abcde".to_vec()));
}

#[test]
fn skip_over_bytes_in_memory() {
    let data = *b"hello";
    let mut input = hive::io::SliceInputStream::new(&data);
    assert_eq!(input.skip(3).ok(), Some(3));
    let mut rest = [0u8; 2];
    let mut copy = hive::io::SliceInputStream::new(&data);
    assert_eq!(copy.skip(3).ok(), Some(3));
    assert_eq!(copy.read(&mut rest).ok(), Some(2));
    assert_eq!(&rest, b"lo");
    assert_eq!(input.skip(10).ok(), Some(2));
    let mut buffer = [0u8; 1];
    assert_eq!(input.read(&mut buffer).ok(), Some(0));
}

#[test]
fn process_stream_appends_bytes_in_memory() {
    let data = *b"abc";
    let mut input = hive::io::SliceInputStream::new(&data);
    let mut output: Vec<u8> = vec![b'x'];
    assert!(process_stream(&mut input, &mut output).is_ok());
    assert_eq!(output, b"xabc".to_vec());
    let mut buffer = [0u8; 1];
    assert_eq!(input.read(&mut buffer).ok(), Some(0));
}

#[test]
fn copy_to_counts_bytes_in_memory() {
    let data = sample(20000);
    let mut input = hive::io::SliceInputStream::new(&data);
    let mut output: Vec<u8> = Vec::new();
    assert_eq!(input.copy_to(&mut output).ok(), Some(20000));
    assert_eq!(output, data);
}

#[test]
fn buffered_reads_over_bytes_in_memory() {
    let data = *b"abcde";
    let mut stream = BufferedInputStream::with_capacity(hive::io::SliceInputStream::new(&data), 2);
    let mut first = [0u8; 1];
    assert_eq!(stream.read(&mut first).ok(), Some(1));
    assert_eq!(&first, b"a");
    let mut rest = [0u8; 4];
    assert_eq!(stream.read(&mut rest).ok(), Some(4));
    assert_eq!(&rest, b"bcde");
}

#[test]
fn buffered_read_stops_at_the_end_of_bytes_in_memory() {
    let data = *b"ab";
    let mut stream = BufferedInputStream::with_capacity(hive::io::SliceInputStream::new(&data), 4);
    let mut buffer = [0u8; 5];
    assert_eq!(stream.read(&mut buffer).ok(), Some(2));
    assert_eq!(buffer, [b'a', b'b', 0, 0, 0]);
    assert_eq!(stream.read(&mut buffer).ok(), Some(0));
    assert_eq!(buffer, [b'a', b'b', 0, 0, 0]);
}

#[test]
fn refill_drops_what_is_held() {
    let data = *b"abcd";
    let mut stream = BufferedInputStream::with_capacity(hive::io::SliceInputStream::new(&data), 2);
    let mut first = [0u8; 1];
    assert_eq!(stream.read(&mut first).ok(), Some(1));
    assert_eq!(&first, b"a");
    assert_eq!(stream.refill().ok(), Some(true));
    let mut rest = [0u8; 2];
    assert_eq!(stream.read(&mut rest).ok(), Some(2));
    assert_eq!(&rest, b"cd");
    assert_eq!(stream.refill().ok(), Some(false));
}

#[test]
fn copy_reports_no_overflow_for_small_streams() {
    let data = sample(10);
    let mut input = hive::io::SliceInputStream::new(&data);
    let mut output: Vec<u8> = Vec::new();
    assert!(!matches!(copy(&mut input, &mut output), Err(StreamError::CountOverflow)));
    assert_eq!(output, data);
}

#[test]
fn buffered_read_pulls_whole_blocks() {
    let data = sample(20);
    let (input, reads) = counted_source(&data, 100);
    let mut stream = BufferedInputStream::with_capacity(input, 4);
    let mut buffer = [0u8; 5];
    assert_eq!(stream.read(&mut buffer).ok(), Some(5));
    assert_eq!(&buffer[..], &data[..5]);
    assert_eq!(*reads.borrow(), 2);
    let mut inner = stream.into_inner_stream();
    let mut next = [0u8; 1];
    assert_eq!(inner.read(&mut next).ok(), Some(1));
    assert_eq!(next[0], data[8]);
}

/// Accepts bytes until `room` of them were taken, then fails every write.
struct Capped {
    data: Rc<RefCell<Vec<u8>>>,
    room: usize,
}

impl ByteWriter for Capped {
    fn write(&mut self, buffer: &[u8]) -> Result<usize, StreamError> {
        let taken = self.data.borrow().len();
        if taken >= self.room {
            return Err(StreamError::Other("full".to_string()));
        }
        let count = buffer.len().min(self.room - taken);
        self.data.borrow_mut().extend_from_slice(&buffer[..count]);
        Ok(count)
    }

    fn flush(&mut self) -> Result<(), StreamError> {
        Ok(())
    }
}

#[test]
fn process_stream_keeps_what_a_failing_output_took() {
    let data = sample(20000);
    let taken = Rc::new(RefCell::new(Vec::new()));
    let mut output: StandardOutputStream<Capped> =
        StandardOutputStream::new(Capped { data: taken.clone(), room: 10000 });
    let mut input = hive::io::SliceInputStream::new(&data);
    assert!(matches!(process_stream(&mut input, &mut output), Err(StreamError::Other(_))));
    assert_eq!(&taken.borrow()[..], &data[..10000]);
    let mut rest = vec![0u8; 20000 - 2 * DEFAULT_BUFFER_SIZE];
    assert_eq!(input.read(&mut rest).ok(), Some(20000 - 2 * DEFAULT_BUFFER_SIZE));
    assert_eq!(&rest[..], &data[2 * DEFAULT_BUFFER_SIZE..]);
}
