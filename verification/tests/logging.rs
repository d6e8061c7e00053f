use hive::io::{ByteWriter, StreamError};
use hive::log::{
    clamp_margin_size, generate_margin, DataTypeIndicator, FileLogger, Logger, StandardLogger,
    MARGIN_SPACER,
};
use hive::tester::launch_test;
use hive::text::{NEWLINE, SPACE, TAB, WHITESPACE};
use std::cell::RefCell;
use std::rc::Rc;

/// Collects everything written into a shared vector; fails when told to.
struct Lines {
    data: Rc<RefCell<Vec<u8>>>,
    failing: bool,
}

impl ByteWriter for Lines {
    fn write(&mut self, buffer: &[u8]) -> Result<usize, StreamError> {
        if self.failing {
            return Err(StreamError::Other("full".to_string()));
        }
        self.data.borrow_mut().extend_from_slice(buffer);
        Ok(buffer.len())
    }

    fn flush(&mut self) -> Result<(), StreamError> {
        Ok(())
    }
}

fn lines() -> (Lines, Rc<RefCell<Vec<u8>>>) {
    let data = Rc::new(RefCell::new(Vec::new()));
    (Lines { data: data.clone(), failing: false }, data)
}

fn text(data: &Rc<RefCell<Vec<u8>>>) -> String {
    String::from_utf8(data.borrow().clone()).unwrap()
}

#[test]
fn characters_are_the_expected_ones() {
    assert_eq!(WHITESPACE, '\u{0}');
    assert_eq!(SPACE, ' ');
    assert_eq!(TAB, '\t');
    assert_eq!(NEWLINE, '\n');
    assert_eq!(MARGIN_SPACER, '\t');
}

#[test]
fn margins_are_tabs() {
    assert_eq!(generate_margin(0), "");
    assert_eq!(generate_margin(1), "\t");
    assert_eq!(generate_margin(3), "\t\t\t");
}

#[test]
fn margin_sizes_are_kept() {
    assert_eq!(clamp_margin_size(0), 0);
    assert_eq!(clamp_margin_size(5), 5);
    assert_eq!(clamp_margin_size(usize::MAX), usize::MAX);
}

#[test]
fn indicators_have_their_texts() {
    assert_eq!(DataTypeIndicator::Blank.to_string(), "\u{0}");
    assert_eq!(DataTypeIndicator::Process.to_string(), "... ");
    assert_eq!(DataTypeIndicator::Alert.to_string(), "! ");
    assert_eq!(DataTypeIndicator::Error.to_string(), "!! ");
    assert_eq!(DataTypeIndicator::Header.to_string(), ":: ");
    assert_eq!(DataTypeIndicator::SubData.to_string(), "-- ");
}

#[test]
fn standard_logger_writes_indented_lines() {
    let (sink, data) = lines();
    let mut logger = StandardLogger::new(sink);
    logger.log("plain");
    logger.increase_margin();
    logger.log_process("working");
    logger.increase_margin();
    logger.log_alert("look");
    logger.log_error("bad");
    logger.decrease_margin();
    logger.log_header("title");
    logger.reset_margin_size();
    logger.log_sub_data("detail");
    logger.submit_log("raw");
    assert_eq!(
        text(&data),
        "plain\n\t... working\n\t\t! look\n\t\t!! bad\n\t:: title\n-- detail\nraw\n"
    );
}

#[test]
fn margins_saturate_at_both_ends() {
    let (sink, _data) = lines();
    let mut logger = StandardLogger::new(sink);
    logger.decrease_margin();
    assert_eq!(logger.get_margin_size(), 0);
    logger.set_margin_size(1);
    logger.decrease_margin();
    assert_eq!(logger.get_margin_size(), 0);
    logger.set_margin_size(usize::MAX);
    logger.increase_margin();
    assert_eq!(logger.get_margin_size(), usize::MAX);
    logger.decrease_margin();
    assert_eq!(logger.get_margin_size(), usize::MAX - 1);
    logger.increase_margin();
    assert_eq!(logger.get_margin_size(), usize::MAX);
}

#[test]
fn file_logger_writes_the_same_lines() {
    let (sink, data) = lines();
    let mut logger = FileLogger::new(sink);
    logger.set_margin_size(2);
    logger.log("x");
    assert_eq!(text(&data), "\t\tx\n");
}

#[test]
fn a_failing_stream_drops_the_line() {
    let data = Rc::new(RefCell::new(Vec::new()));
    let mut logger = FileLogger::new(Lines { data: data.clone(), failing: true });
    assert!(!logger.has_failed());
    logger.log("lost");
    assert!(data.borrow().is_empty());
    assert!(logger.has_failed());
}

#[test]
fn launch_test_logs_its_session() {
    let (sink, data) = lines();
    let mut logger = FileLogger::new(sink);
    launch_test(&mut logger);
    assert_eq!(text(&data), "... ALARIC!\n\t!! 0x0\n");
    assert!(!logger.has_failed());
    assert_eq!(logger.get_margin_size(), 1);
}

/// Takes bytes until `room` of them were taken, then fails every write.
struct Tight {
    data: Rc<RefCell<Vec<u8>>>,
    room: usize,
}

impl ByteWriter for Tight {
    fn write(&mut self, buffer: &[u8]) -> Result<usize, StreamError> {
        let taken = self.data.borrow().len();
        if taken >= self.room {
            return Err(StreamError::Other("full".to_string()));
        }
        let count = buffer.len().min(self.room - taken);
        self.data.borrow_mut().extend_from_slice(&buffer[..count]);
        Ok(count)
    }

    fn flush(&mut self) -> Result<(), StreamError> {
        Ok(())
    }
}

#[test]
fn a_line_cut_short_is_recorded_as_a_failure() {
    let data = Rc::new(RefCell::new(Vec::new()));
    let mut logger: StandardLogger<Tight> = StandardLogger::new(Tight { data: data.clone(), room: 9 });
    logger.log("first");
    assert!(!logger.has_failed());
    logger.log("second");
    assert!(logger.has_failed());
    assert_eq!(text(&data), "first\nsec");
}
