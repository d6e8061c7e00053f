//! Indented logging.
//!
//! A logger keeps a margin size; every line it logs starts with that many
//! tabs, optionally followed by a short indicator of the kind of line.
//! A logger is modelled by its margin and by the entries it has submitted.

use vstd::prelude::*;
use vstd::string::*;

use crate::io::{ByteWriter, OutputStream, StandardOutputStream, lemma_starts_with_concat, starts_with};
use crate::text::{NEWLINE, TAB, WHITESPACE};

verus! {

/// The character a margin is made of, once per margin step.
pub const MARGIN_SPACER: char = TAB;

/// `String::push`: appends `character` to `text`.
#[verifier::external_body]
fn push_char(text: &mut String, character: char)
    ensures
        final(text)@ == old(text)@.push(character),
{
    text.push(character);
}

/// The margin of `size` steps: that many spacer characters.
pub open spec fn margin_text(size: nat) -> Seq<char> {
    Seq::new(size, |i: int| MARGIN_SPACER)
}

/// The margin one step wider than `size`, where there is room for it.
pub open spec fn increased_margin(size: usize) -> usize {
    if size == usize::MAX {
        size
    } else {
        (size + 1) as usize
    }
}

/// The margin one step narrower than `size`, where there is one.
pub open spec fn decreased_margin(size: usize) -> usize {
    if size <= 1 {
        0
    } else {
        (size - 1) as usize
    }
}

/// Builds the margin of `margin_size` steps.
pub fn generate_margin(margin_size: usize) -> (margin: String)
    ensures
        margin@ == margin_text(margin_size as nat),
        margin@.len() == margin_size,
        forall|i: int| 0 <= i < margin_size ==> #[trigger] margin@[i] == '\t',
{
    let mut margin = String::new();
    if margin_size > 0 {
        let mut step: usize = 0;
        while step < margin_size
            invariant
                step <= margin_size,
                margin@ == margin_text(step as nat),
            decreases margin_size - step,
        {
            push_char(&mut margin, MARGIN_SPACER);
            step = step + 1;
            assert(margin@ =~= margin_text(step as nat));
        }
    }
    assert(margin@ =~= margin_text(margin_size as nat));
    proof {
        lemma_margin_is_one_tab_per_step(margin_size as nat);
    }
    margin
}

/// A margin of `size` steps is exactly `size` characters, each a tab.
pub proof fn lemma_margin_is_one_tab_per_step(size: nat)
    ensures
        margin_text(size).len() == size,
        forall|i: int| 0 <= i < size ==> #[trigger] margin_text(size)[i] == '\t',
{
}

/// The margin size a logger keeps when asked for `size`: sizes below one
/// become zero and sizes at the top of the range stay there, so every size
/// is kept as it is.
pub fn clamp_margin_size(size: usize) -> (kept: usize)
    ensures
        kept == size,
{
    if size < 1 {
        0
    } else if size >= usize::MAX {
        usize::MAX
    } else {
        size
    }
}

/// The kind of a log line, shown right after its margin.
pub enum DataTypeIndicator {
    /// A line with no particular kind.
    Blank,
    /// Work in progress.
    Process,
    /// Something that calls for attention.
    Alert,
    /// A failure.
    Error,
    /// A heading.
    Header,
    /// A detail under the previous line.
    SubData,
}

impl DataTypeIndicator {
    /// The text that marks a line of this kind.
    pub open spec fn text(&self) -> Seq<char> {
        match self {
            DataTypeIndicator::Blank => seq![WHITESPACE],
            DataTypeIndicator::Process => seq!['.', '.', '.', ' '],
            DataTypeIndicator::Alert => seq!['!', ' '],
            DataTypeIndicator::Error => seq!['!', '!', ' '],
            DataTypeIndicator::Header => seq![':', ':', ' '],
            DataTypeIndicator::SubData => seq!['-', '-', ' '],
        }
    }

    /// The text that marks a line of this kind.
    pub fn to_string(&self) -> (text: String)
        ensures
            text@ == self.text(),
    {
        match self {
            DataTypeIndicator::Blank => {
                let mut text = String::new();
                push_char(&mut text, WHITESPACE);
                assert(text@ =~= seq![WHITESPACE]);
                text
            },
            DataTypeIndicator::Process => {
                proof {
                    reveal_strlit("... ");
                }
                String::from_str("... ")
            },
            DataTypeIndicator::Alert => {
                proof {
                    reveal_strlit("! ");
                }
                String::from_str("! ")
            },
            DataTypeIndicator::Error => {
                proof {
                    reveal_strlit("!! ");
                }
                String::from_str("!! ")
            },
            DataTypeIndicator::Header => {
                proof {
                    reveal_strlit(":: ");
                }
                String::from_str(":: ")
            },
            DataTypeIndicator::SubData => {
                proof {
                    reveal_strlit("-- ");
                }
                String::from_str("-- ")
            },
        }
    }
}

/// A destination for log lines that indents them by a margin.
pub trait Logger {
    /// The current margin size.
    spec fn margin(&self) -> usize;

    /// Every entry submitted so far, in order.
    spec fn entries(&self) -> Seq<Seq<char>>;

    /// Every byte sent so far to where the lines go, in order.
    spec fn sent(&self) -> Seq<u8>;

    /// Whether some entry failed to reach where the lines go; once set it
    /// stays set.
    spec fn failed(&self) -> bool;

    /// The current margin size.
    fn get_margin_size(&self) -> (size: usize)
        ensures
            size == self.margin(),
    ;

    /// Makes `size` the margin size.
    fn set_margin_size(&mut self, size: usize)
        ensures
            final(self).margin() == size,
            final(self).entries() == old(self).entries(),
            final(self).sent() == old(self).sent(),
            final(self).failed() == old(self).failed(),
    ;

    /// Records `text` as it is, as one entry, and sends it as one line.
    fn submit_log(&mut self, text: &str)
        ensures
            final(self).entries() == old(self).entries().push(text@),
            final(self).margin() == old(self).margin(),
            old(self).failed() ==> final(self).failed(),
            !final(self).failed() ==> final(self).sent() == old(self).sent() + line_bytes(text@),
    ;

    /// Records `text` behind the current margin.
    fn log(&mut self, text: &str)
        ensures
            final(self).entries() == old(self).entries().push(
                margin_text(old(self).margin() as nat) + text@,
            ),
            final(self).margin() == old(self).margin(),
            old(self).failed() ==> final(self).failed(),
            !final(self).failed() ==> final(self).sent() == old(self).sent() + line_bytes(
                margin_text(old(self).margin() as nat) + text@,
            ),
    {
        let mut data = String::new();
        let margin_size = self.get_margin_size();
        let margin = generate_margin(margin_size);
        data.append(margin.as_str());
        data.append(text);
        assert(data@ =~= margin_text(margin_size as nat) + text@);
        self.submit_log(data.as_str());
    }

    /// Records `text` as a line about work in progress.
    fn log_process(&mut self, text: &str)
        ensures
            final(self).entries() == old(self).entries().push(
                margin_text(old(self).margin() as nat) + DataTypeIndicator::Process.text() + text@,
            ),
            final(self).margin() == old(self).margin(),
            old(self).failed() ==> final(self).failed(),
            !final(self).failed() ==> final(self).sent() == old(self).sent() + line_bytes(
                margin_text(old(self).margin() as nat) + DataTypeIndicator::Process.text() + text@,
            ),
    {
        let mut data = String::new();
        data.append(DataTypeIndicator::Process.to_string().as_str());
        data.append(text);
        self.log(data.as_str());
        assert(margin_text(old(self).margin() as nat) + data@ =~= margin_text(
            old(self).margin() as nat,
        ) + DataTypeIndicator::Process.text() + text@);
    }

    /// Records `text` as a line that calls for attention.
    fn log_alert(&mut self, text: &str)
        ensures
            final(self).entries() == old(self).entries().push(
                margin_text(old(self).margin() as nat) + DataTypeIndicator::Alert.text() + text@,
            ),
            final(self).margin() == old(self).margin(),
            old(self).failed() ==> final(self).failed(),
            !final(self).failed() ==> final(self).sent() == old(self).sent() + line_bytes(
                margin_text(old(self).margin() as nat) + DataTypeIndicator::Alert.text() + text@,
            ),
    {
        let mut data = String::new();
        data.append(DataTypeIndicator::Alert.to_string().as_str());
        data.append(text);
        self.log(data.as_str());
        assert(margin_text(old(self).margin() as nat) + data@ =~= margin_text(
            old(self).margin() as nat,
        ) + DataTypeIndicator::Alert.text() + text@);
    }

    /// Records `text` as a line about a failure.
    fn log_error(&mut self, text: &str)
        ensures
            final(self).entries() == old(self).entries().push(
                margin_text(old(self).margin() as nat) + DataTypeIndicator::Error.text() + text@,
            ),
            final(self).margin() == old(self).margin(),
            old(self).failed() ==> final(self).failed(),
            !final(self).failed() ==> final(self).sent() == old(self).sent() + line_bytes(
                margin_text(old(self).margin() as nat) + DataTypeIndicator::Error.text() + text@,
            ),
    {
        let mut data = String::new();
        data.append(DataTypeIndicator::Error.to_string().as_str());
        data.append(text);
        self.log(data.as_str());
        assert(margin_text(old(self).margin() as nat) + data@ =~= margin_text(
            old(self).margin() as nat,
        ) + DataTypeIndicator::Error.text() + text@);
    }

    /// Records `text` as a heading.
    fn log_header(&mut self, text: &str)
        ensures
            final(self).entries() == old(self).entries().push(
                margin_text(old(self).margin() as nat) + DataTypeIndicator::Header.text() + text@,
            ),
            final(self).margin() == old(self).margin(),
            old(self).failed() ==> final(self).failed(),
            !final(self).failed() ==> final(self).sent() == old(self).sent() + line_bytes(
                margin_text(old(self).margin() as nat) + DataTypeIndicator::Header.text() + text@,
            ),
    {
        let mut data = String::new();
        data.append(DataTypeIndicator::Header.to_string().as_str());
        data.append(text);
        self.log(data.as_str());
        assert(margin_text(old(self).margin() as nat) + data@ =~= margin_text(
            old(self).margin() as nat,
        ) + DataTypeIndicator::Header.text() + text@);
    }

    /// Records `text` as a detail under the previous line.
    fn log_sub_data(&mut self, text: &str)
        ensures
            final(self).entries() == old(self).entries().push(
                margin_text(old(self).margin() as nat) + DataTypeIndicator::SubData.text() + text@,
            ),
            final(self).margin() == old(self).margin(),
            old(self).failed() ==> final(self).failed(),
            !final(self).failed() ==> final(self).sent() == old(self).sent() + line_bytes(
                margin_text(old(self).margin() as nat) + DataTypeIndicator::SubData.text() + text@,
            ),
    {
        let mut data = String::new();
        data.append(DataTypeIndicator::SubData.to_string().as_str());
        data.append(text);
        self.log(data.as_str());
        assert(margin_text(old(self).margin() as nat) + data@ =~= margin_text(
            old(self).margin() as nat,
        ) + DataTypeIndicator::SubData.text() + text@);
    }

    /// Widens the margin by one step, unless it is as wide as it can be.
    fn increase_margin(&mut self)
        ensures
            final(self).margin() == increased_margin(old(self).margin()),
            final(self).entries() == old(self).entries(),
            final(self).sent() == old(self).sent(),
            final(self).failed() == old(self).failed(),
    {
        let margin_size = self.get_margin_size();
        let size = if margin_size >= usize::MAX {
            usize::MAX
        } else {
            margin_size + 1
        };
        self.set_margin_size(size);
    }

    /// Narrows the margin by one step, unless it is already empty.
    fn decrease_margin(&mut self)
        ensures
            final(self).margin() == decreased_margin(old(self).margin()),
            final(self).entries() == old(self).entries(),
            final(self).sent() == old(self).sent(),
            final(self).failed() == old(self).failed(),
    {
        let margin_size = self.get_margin_size();
        let size = if margin_size <= 1 {
            0
        } else {
            margin_size - 1
        };
        self.set_margin_size(size);
    }

    /// Removes the margin.
    fn reset_margin_size(&mut self)
        ensures
            final(self).margin() == 0,
            final(self).entries() == old(self).entries(),
            final(self).sent() == old(self).sent(),
            final(self).failed() == old(self).failed(),
    {
        self.set_margin_size(0);
    }
}

/// The bytes that record `text` as one line: its UTF-8 encoding, ended by
/// a newline.
pub open spec fn line_bytes(text: Seq<char>) -> Seq<u8> {
    vstd::utf8::encode_utf8(text.push(NEWLINE))
}

/// Encoding characters one after another is encoding each in turn.
proof fn lemma_encode_utf8_concat(first: Seq<char>, second: Seq<char>)
    ensures
        vstd::utf8::encode_utf8(first + second) == vstd::utf8::encode_utf8(first)
            + vstd::utf8::encode_utf8(second),
    decreases first.len(),
{
    if first.len() == 0 {
        assert(first + second =~= second);
        assert(vstd::utf8::encode_utf8(first) =~= Seq::<u8>::empty());
        assert(Seq::<u8>::empty() + vstd::utf8::encode_utf8(second) =~= vstd::utf8::encode_utf8(
            second,
        ));
    } else {
        assert((first + second).drop_first() =~= first.drop_first() + second);
        assert((first + second)[0] == first[0]);
        lemma_encode_utf8_concat(first.drop_first(), second);
        assert(vstd::utf8::encode_utf8(first + second) =~= vstd::utf8::encode_scalar(
            first[0] as u32,
        ) + (vstd::utf8::encode_utf8(first.drop_first()) + vstd::utf8::encode_utf8(second)));
    }
}

/// The bytes sent for a line are the UTF-8 encoding of its characters
/// followed by the single newline byte 0x0A; they are valid UTF-8, and
/// decoding them gives the characters back, followed by a newline.
pub proof fn lemma_line_bytes_are_utf8_then_newline(text: Seq<char>)
    ensures
        line_bytes(text) == vstd::utf8::encode_utf8(text) + seq![0x0Au8],
        vstd::utf8::valid_utf8(line_bytes(text)),
        vstd::utf8::decode_utf8(line_bytes(text)) == text.push('\n'),
{
    let newline = seq!['\n'];
    assert(text.push(NEWLINE) =~= text + newline);
    lemma_encode_utf8_concat(text, newline);
    assert(('\n' as u32) == 10u32);
    assert((10u32 & 0x7Fu32) as u8 == 0x0Au8) by (bit_vector);
    assert(newline.drop_first() =~= Seq::<char>::empty());
    assert(vstd::utf8::encode_utf8(newline.drop_first()) =~= Seq::<u8>::empty());
    assert(vstd::utf8::has_width_1_encoding(10u32));
    assert(vstd::utf8::encode_scalar(10u32) =~= seq![0x0Au8]);
    assert(vstd::utf8::encode_utf8(newline) =~= vstd::utf8::encode_scalar(newline[0] as u32)
        + vstd::utf8::encode_utf8(newline.drop_first()));
    assert(vstd::utf8::encode_utf8(newline) =~= seq![0x0Au8]);
    vstd::utf8::encode_utf8_valid_utf8(text.push(NEWLINE));
    vstd::utf8::encode_utf8_decode_utf8(text.push(NEWLINE));
}

/// Writes `text` and a newline to `stream`; says whether the write failed.
fn write_line<T: ByteWriter>(stream: &mut StandardOutputStream<T>, text: &str) -> (failed: bool)
    ensures
        !failed ==> final(stream).written() == old(stream).written() + line_bytes(text@),
        failed ==> final(stream).written() != old(stream).written() + line_bytes(text@),
        starts_with(final(stream).written(), old(stream).written()),
        starts_with(old(stream).written() + line_bytes(text@), final(stream).written()),
{
    let mut data = String::new();
    data.append(text);
    push_char(&mut data, NEWLINE);
    let outcome = stream.write_all(data.as_str().as_bytes());
    proof {
        if outcome is Ok {
            lemma_starts_with_concat(old(stream).written(), line_bytes(text@));
            let whole = old(stream).written() + line_bytes(text@);
            assert(whole.take(whole.len() as int) =~= whole);
        }
    }
    outcome.is_err()
}

/// A logger that writes each entry as a line to a standard stream, such as
/// the standard output.
pub struct StandardLogger<T> where T: ByteWriter {
    stream: StandardOutputStream<T>,
    margin_size: usize,
    submitted: Ghost<Seq<Seq<char>>>,
    write_failed: bool,
}

impl<T> StandardLogger<T> where T: ByteWriter {
    /// The stream the lines go to.
    pub closed spec fn output(&self) -> StandardOutputStream<T> {
        self.stream
    }

    /// A logger with no margin that writes to `stream`.
    pub fn new(stream: T) -> (result: Self)
        ensures
            result.output().inner() == stream,
            result.output().written() == Seq::<u8>::empty(),
            result.margin() == 0,
            result.entries() == Seq::<Seq<char>>::empty(),
            !result.failed(),
    {
        Self {
            stream: StandardOutputStream::wrapping(stream),
            margin_size: 0,
            submitted: Ghost(Seq::empty()),
            write_failed: false,
        }
    }

    /// Whether some entry failed to be written; such an entry was dropped.
    pub fn has_failed(&self) -> (failed: bool)
        ensures
            failed == self.failed(),
    {
        self.write_failed
    }
}

impl<T> Logger for StandardLogger<T> where T: ByteWriter {
    closed spec fn margin(&self) -> usize {
        self.margin_size
    }

    closed spec fn entries(&self) -> Seq<Seq<char>> {
        self.submitted@
    }

    /// The bytes the stream accepted.
    open spec fn sent(&self) -> Seq<u8> {
        self.output().written()
    }

    closed spec fn failed(&self) -> bool {
        self.write_failed
    }

    fn get_margin_size(&self) -> (size: usize) {
        self.margin_size
    }

    /// Keeps `size` as the margin size; nothing is written.
    fn set_margin_size(&mut self, size: usize)
        ensures
            final(self).output() == old(self).output(),
    {
        self.margin_size = clamp_margin_size(size);
    }

    /// Writes `text` as one line; when the write fails the line is dropped
    /// and the failure is recorded. What the stream accepted is always a
    /// start of the line, and the failure is recorded exactly when it is
    /// not the whole line.
    fn submit_log(&mut self, text: &str)
        ensures
            starts_with(final(self).sent(), old(self).sent()),
            starts_with(old(self).sent() + line_bytes(text@), final(self).sent()),
            final(self).failed() == (old(self).failed() || final(self).sent() != old(self).sent()
                + line_bytes(text@)),
    {
        let failed = write_line(&mut self.stream, text);
        self.submitted = Ghost(self.submitted@.push(text@));
        if failed {
            self.write_failed = true;
        }
    }
}

/// A logger that appends each entry as a line to a file.
pub struct FileLogger<T> where T: ByteWriter {
    file: StandardOutputStream<T>,
    margin_size: usize,
    submitted: Ghost<Seq<Seq<char>>>,
    write_failed: bool,
}

impl<T> FileLogger<T> where T: ByteWriter {
    /// The file the lines go to.
    pub closed spec fn output(&self) -> StandardOutputStream<T> {
        self.file
    }

    /// A logger with no margin that appends to `file`, opened for appending.
    pub fn new(file: T) -> (result: Self)
        ensures
            result.output().inner() == file,
            result.output().written() == Seq::<u8>::empty(),
            result.margin() == 0,
            result.entries() == Seq::<Seq<char>>::empty(),
            !result.failed(),
    {
        Self {
            file: StandardOutputStream::wrapping(file),
            margin_size: 0,
            submitted: Ghost(Seq::empty()),
            write_failed: false,
        }
    }

    /// Whether some entry failed to be written; such an entry was dropped.
    pub fn has_failed(&self) -> (failed: bool)
        ensures
            failed == self.failed(),
    {
        self.write_failed
    }
}

impl<T> Logger for FileLogger<T> where T: ByteWriter {
    closed spec fn margin(&self) -> usize {
        self.margin_size
    }

    closed spec fn entries(&self) -> Seq<Seq<char>> {
        self.submitted@
    }

    /// The bytes the file accepted.
    open spec fn sent(&self) -> Seq<u8> {
        self.output().written()
    }

    closed spec fn failed(&self) -> bool {
        self.write_failed
    }

    fn get_margin_size(&self) -> (size: usize) {
        self.margin_size
    }

    /// Keeps `size` as the margin size; nothing is written.
    fn set_margin_size(&mut self, size: usize)
        ensures
            final(self).output() == old(self).output(),
    {
        self.margin_size = clamp_margin_size(size);
    }

    /// Writes `text` as one line; when the write fails the line is dropped
    /// and the failure is recorded. What the stream accepted is always a
    /// start of the line, and the failure is recorded exactly when it is
    /// not the whole line.
    fn submit_log(&mut self, text: &str)
        ensures
            starts_with(final(self).sent(), old(self).sent()),
            starts_with(old(self).sent() + line_bytes(text@), final(self).sent()),
            final(self).failed() == (old(self).failed() || final(self).sent() != old(self).sent()
                + line_bytes(text@)),
    {
        let failed = write_line(&mut self.file, text);
        self.submitted = Ghost(self.submitted@.push(text@));
        if failed {
            self.write_failed = true;
        }
    }
}

/// Widening the margin and then narrowing it gives the margin back, unless
/// it was already as wide as it can be; narrowing and then widening gives
/// it back unless it was already empty. Neither step ever wraps around.
pub proof fn lemma_margin_steps_undo(size: usize)
    ensures
        size < usize::MAX ==> decreased_margin(increased_margin(size)) == size,
        size > 0 ==> increased_margin(decreased_margin(size)) == size,
        increased_margin(size) >= size,
        decreased_margin(size) <= size,
        increased_margin(size) - size <= 1,
        size - decreased_margin(size) <= 1,
{
}

} // verus!
