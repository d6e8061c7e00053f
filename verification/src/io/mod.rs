//! Byte streams: the reading and writing interfaces, buffering on top of
//! them, and the loops that move bytes from one stream to another.
//!
//! A readable stream is modelled by the bytes it has handed out so far
//! (`consumed`), by whether its latest read reported the end of the data
//! (`ended`) and by whether its reads can fail at all; a writable stream by
//! the bytes it has accepted so far (`written`) and by whether its writes
//! can fail at all. A readable stream whose bytes are fixed in advance, as
//! bytes held in memory are, also has a known `content`, and when its reads
//! fill their buffers as far as that content allows, every read, skip, copy
//! and framed object read from it is pinned down to the byte. Successful
//! operations are specified exactly over these sequences. A failed read
//! hands out nothing. A failed write of a raw sink or a vector leaves its
//! account as it was, so a loop of writes that fails has delivered a start
//! of its bytes; what a failed write of a buffered stream leaves behind is
//! left open, since it keeps every gathered byte after passing part of them
//! on in a flush that failed.

pub mod serialisation;

use vstd::prelude::*;
use vstd::slice::slice_subrange;

verus! {

/// The size of the scratch buffers used when moving bytes between streams.
pub const DEFAULT_BUFFER_SIZE: usize = 8192;

/// What went wrong in a stream operation.
#[derive(Debug)]
pub enum StreamError {
    /// A read needed more bytes than the stream held before it ended.
    UnexpectedEndOfStream,
    /// A writer accepted none of the bytes it was handed.
    WriteZero,
    /// A framed object's length does not fit in this machine's sizes.
    ObjectTooLarge,
    /// More bytes went through than a `u64` can count.
    CountOverflow,
    /// A failure reported by an underlying stream, with its description.
    Other(String),
}

/// The bytes of `buffer` after `count` bytes of `source`, starting at
/// `from`, were copied over its positions `at .. at + count`.
pub open spec fn copied_into(buffer: Seq<u8>, at: int, source: Seq<u8>, from: int, count: int) -> Seq<u8> {
    buffer.take(at) + source.subrange(from, from + count) + buffer.skip(at + count)
}

/// Whether `prefix` is where `whole` starts.
pub open spec fn starts_with(whole: Seq<u8>, prefix: Seq<u8>) -> bool {
    prefix.len() <= whole.len() && whole.take(prefix.len() as int) == prefix
}

/// The bytes `after` holds beyond its start `before`.
pub open spec fn extension(after: Seq<u8>, before: Seq<u8>) -> Seq<u8> {
    after.skip(before.len() as int)
}

/// A sequence starts with itself followed by anything.
pub proof fn lemma_starts_with_concat(prefix: Seq<u8>, rest: Seq<u8>)
    ensures
        starts_with(prefix + rest, prefix),
        extension(prefix + rest, prefix) == rest,
{
    assert((prefix + rest).take(prefix.len() as int) =~= prefix);
    assert((prefix + rest).skip(prefix.len() as int) =~= rest);
}

/// Starting with a prefix survives appending more bytes.
pub proof fn lemma_starts_with_extend(whole: Seq<u8>, prefix: Seq<u8>, rest: Seq<u8>)
    requires
        starts_with(whole, prefix),
    ensures
        starts_with(whole + rest, prefix),
{
    assert((whole + rest).take(prefix.len() as int) =~= whole.take(prefix.len() as int));
}

/// Starting with a prefix is transitive.
pub proof fn lemma_starts_with_transitive(whole: Seq<u8>, middle: Seq<u8>, prefix: Seq<u8>)
    requires
        starts_with(whole, middle),
        starts_with(middle, prefix),
    ensures
        starts_with(whole, prefix),
{
    assert(whole.take(prefix.len() as int) =~= middle.take(prefix.len() as int));
}

/// The smaller of `a` and `b`.
pub open spec fn smaller(a: int, b: int) -> int {
    if a <= b {
        a
    } else {
        b
    }
}

/// `need` rounded up to a whole number of blocks of `block` bytes; nothing
/// when nothing is needed.
pub open spec fn whole_blocks(need: int, block: int) -> int
    decreases need,
{
    if need <= 0 || block <= 0 {
        0
    } else if need <= block {
        block
    } else {
        block + whole_blocks(need - block, block)
    }
}

/// Rounding up to whole blocks gives at least the need, and nothing below
/// zero.
pub proof fn lemma_whole_blocks_at_least(need: int, block: int)
    requires
        block > 0,
    ensures
        whole_blocks(need, block) >= need,
        whole_blocks(need, block) >= 0,
    decreases need,
{
    if need > block {
        lemma_whole_blocks_at_least(need - block, block);
    }
}

/// Rounding up to whole blocks never makes less of more.
pub proof fn lemma_whole_blocks_monotonic(smaller_need: int, larger_need: int, block: int)
    requires
        smaller_need <= larger_need,
    ensures
        whole_blocks(smaller_need, block) <= whole_blocks(larger_need, block),
    decreases larger_need,
{
    if block > 0 && smaller_need > block {
        lemma_whole_blocks_monotonic(smaller_need - block, larger_need - block, block);
    } else if block > 0 && larger_need > block {
        lemma_whole_blocks_at_least(larger_need - block, block);
    }
}

/// Every need within one block below a whole number of blocks `whole`
/// rounds up to `whole`.
pub proof fn lemma_whole_blocks_within(whole: int, need: int, block: int)
    requires
        block > 0,
        whole >= 0,
        whole_blocks(whole, block) == whole,
        whole - block < need <= whole,
    ensures
        whole_blocks(need, block) == whole,
    decreases whole,
{
    if whole > block {
        lemma_whole_blocks_within(whole - block, need - block, block);
    }
}

/// What an output whose failed writes keep the account holds after a loop
/// that moves bytes to it in blocks failed: what it held before, then the
/// bytes moved, short of at most one block at their end.
pub open spec fn delivered_but_last_block(before: Seq<u8>, moved: Seq<u8>, after: Seq<u8>) -> bool {
    &&& starts_with(after, before)
    &&& starts_with(before + moved, after)
    &&& after.len() + DEFAULT_BUFFER_SIZE >= before.len() + moved.len()
}

/// An output that took every byte moved holds them all, with nothing short.
proof fn lemma_delivered_in_full(before: Seq<u8>, moved: Seq<u8>)
    ensures
        delivered_but_last_block(before, moved, before + moved),
{
    lemma_starts_with_concat(before, moved);
    assert((before + moved).take((before + moved).len() as int) =~= before + moved);
}

/// An output that took every byte moved before a block, then only the start
/// of that block, is short of at most that block.
proof fn lemma_delivered_but_last_block(
    before: Seq<u8>,
    moved_before: Seq<u8>,
    block: Seq<u8>,
    after: Seq<u8>,
)
    requires
        starts_with(after, before + moved_before),
        starts_with(before + moved_before + block, after),
        block.len() <= DEFAULT_BUFFER_SIZE,
    ensures
        delivered_but_last_block(before, moved_before + block, after),
{
    lemma_starts_with_concat(before, moved_before);
    lemma_starts_with_transitive(after, before + moved_before, before);
    assert(before + moved_before + block =~= before + (moved_before + block));
}

/// A source of bytes.
pub trait InputStream {
    /// Every byte this stream has handed out so far, in order.
    spec fn consumed(&self) -> Seq<u8>;

    /// Whether the latest read asked for at least one byte and got none:
    /// the stream reported the end of its data.
    spec fn ended(&self) -> bool;

    /// Whether every read of this stream succeeds, as reads of bytes held
    /// in memory do.
    spec fn reads_never_fail(&self) -> bool;

    /// Every byte this stream hands out over its life, those already handed
    /// out included, when these are fixed in advance, as for bytes held in
    /// memory; `None` when they are not known.
    spec fn content(&self) -> Option<Seq<u8>>;

    /// Whether, while the content is known, each read fills as much of the
    /// buffer as the bytes still to come allow.
    spec fn fills_reads(&self) -> bool;

    /// Whether what this stream reports as handed out agrees with the
    /// record its underlying source keeps of the bytes it produced, where the
    /// source keeps one. Every operation keeps this agreement.
    spec fn agrees_with_source(&self) -> bool;

    /// What this stream handed out is where its known content starts.
    proof fn lemma_content_starts_with_consumed(&self)
        ensures
            self.content() matches Some(c) ==> starts_with(c, self.consumed()),
    ;

    /// Reads up to `buffer.len()` bytes into the start of `buffer` and says
    /// how many it read. Reading zero bytes into a non-empty buffer reports
    /// the end of the data.
    fn read(&mut self, buffer: &mut [u8]) -> (result: Result<usize, StreamError>)
        ensures
            final(buffer)@.len() == old(buffer)@.len(),
            result matches Ok(n) ==> {
                &&& n <= old(buffer)@.len()
                &&& final(self).consumed() == old(self).consumed() + final(buffer)@.take(n as int)
                &&& final(self).ended() == (n == 0 && old(buffer)@.len() > 0)
            },
            result is Err ==> {
                &&& final(self).consumed() == old(self).consumed()
                &&& !final(self).ended()
            },
            final(self).reads_never_fail() == old(self).reads_never_fail(),
            old(self).reads_never_fail() ==> result is Ok,
            result is Ok ==> final(self).content() == old(self).content(),
            final(self).fills_reads() == old(self).fills_reads(),
            old(self).fills_reads() ==> (old(self).content() matches Some(c) ==> (
            result matches Ok(n) ==> n == smaller(
                old(buffer)@.len() as int,
                c.len() - old(self).consumed().len(),
            ))),
            old(self).agrees_with_source() ==> final(self).agrees_with_source(),
    ;

    /// Reads and drops up to `amount` bytes, stopping early only when the
    /// stream reports its end, and says how many it dropped.
    fn skip(&mut self, amount: u64) -> (result: Result<u64, StreamError>)
        ensures
            result matches Ok(skipped) ==> {
                &&& skipped <= amount
                &&& starts_with(final(self).consumed(), old(self).consumed())
                &&& final(self).consumed().len() == old(self).consumed().len() + skipped
                &&& skipped < amount ==> final(self).ended()
            },
            result is Err ==> {
                &&& starts_with(final(self).consumed(), old(self).consumed())
                &&& final(self).consumed().len() < old(self).consumed().len() + amount
            },
            amount == 0 ==> {
                &&& result == Ok::<u64, StreamError>(0)
                &&& final(self).consumed() == old(self).consumed()
                &&& final(self).ended() == old(self).ended()
            },
            final(self).reads_never_fail() == old(self).reads_never_fail(),
            old(self).reads_never_fail() ==> result is Ok,
            final(self).fills_reads() == old(self).fills_reads(),
            result is Ok ==> final(self).content() == old(self).content(),
            result is Ok ==> (old(self).content() matches Some(c) ==> starts_with(
                c,
                final(self).consumed(),
            )),
            old(self).fills_reads() ==> (old(self).content() matches Some(c) ==> (
            result matches Ok(skipped) ==> skipped == smaller(
                amount as int,
                c.len() - old(self).consumed().len(),
            ))),
        old(self).agrees_with_source() ==> final(self).agrees_with_source(),
    {
        let mut remaining: u64 = amount;
        let mut skipped: u64 = 0;
        assert(self.consumed().take(self.consumed().len() as int) =~= self.consumed());
        proof {
            self.lemma_content_starts_with_consumed();
        }
        while remaining > 0
            invariant_except_break
                skipped == 0 ==> self.ended() == old(self).ended(),
            invariant
                skipped + remaining == amount,
                starts_with(self.consumed(), old(self).consumed()),
                self.consumed().len() == old(self).consumed().len() + skipped,
                self.reads_never_fail() == old(self).reads_never_fail(),
                self.fills_reads() == old(self).fills_reads(),
                self.content() == old(self).content(),
                self.content() matches Some(c) ==> starts_with(c, self.consumed()),
                old(self).agrees_with_source() ==> self.agrees_with_source(),
            ensures
                old(self).agrees_with_source() ==> self.agrees_with_source(),
                skipped + remaining == amount,
                starts_with(self.consumed(), old(self).consumed()),
                self.consumed().len() == old(self).consumed().len() + skipped,
                remaining == 0 || self.ended(),
                amount == 0 ==> self.ended() == old(self).ended(),
                self.reads_never_fail() == old(self).reads_never_fail(),
                self.fills_reads() == old(self).fills_reads(),
                self.content() == old(self).content(),
                self.content() matches Some(c) ==> starts_with(c, self.consumed()),
                remaining > 0 ==> (self.fills_reads() ==> (self.content() matches Some(c) ==> c.len()
                    == self.consumed().len())),
            decreases remaining,
        {
            let size: usize = if remaining < 8192 {
                remaining as usize
            } else {
                DEFAULT_BUFFER_SIZE
            };
            let mut buffer = vec![0u8; size];
            let ghost before = self.consumed();
            let count = self.read(buffer.as_mut_slice())?;
            proof {
                lemma_starts_with_extend(before, old(self).consumed(), buffer@.take(count as int));
                self.lemma_content_starts_with_consumed();
            }
            if count == 0 {
                break ;
            }
            skipped = skipped + count as u64;
            remaining = remaining - count as u64;
        }
        assert(skipped == 0 ==> self.consumed() =~= old(self).consumed());
        Ok(skipped)
    }

    /// Fills the whole of `buffer`, one `read` after another. A stream that
    /// ends first makes it fail with `UnexpectedEndOfStream`.
    fn read_exact(&mut self, buffer: &mut [u8]) -> (result: Result<(), StreamError>)
        ensures
            final(buffer)@.len() == old(buffer)@.len(),
            result is Ok ==> final(self).consumed() == old(self).consumed() + final(buffer)@,
            result is Ok && old(buffer)@.len() > 0 ==> !final(self).ended(),
            result is Err ==> {
                &&& starts_with(final(self).consumed(), old(self).consumed())
                &&& final(self).consumed().len() < old(self).consumed().len() + old(buffer)@.len()
            },
            old(buffer)@.len() == 0 ==> {
                &&& result is Ok
                &&& final(self).consumed() == old(self).consumed()
                &&& final(self).ended() == old(self).ended()
            },
            old(buffer)@.len() > 0 && final(self).ended() ==> {
                &&& result matches Err(StreamError::UnexpectedEndOfStream)
                &&& starts_with(final(self).consumed(), old(self).consumed())
                &&& final(self).consumed().len() < old(self).consumed().len() + old(buffer)@.len()
            },
            final(self).reads_never_fail() == old(self).reads_never_fail(),
            old(self).reads_never_fail() ==> result is Ok || final(self).ended(),
            final(self).fills_reads() == old(self).fills_reads(),
            result is Ok ==> final(self).content() == old(self).content(),
            result is Ok ==> (old(self).content() matches Some(c) ==> final(buffer)@ == c.subrange(
                old(self).consumed().len() as int,
                (old(self).consumed().len() + old(buffer)@.len()) as int,
            )),
            old(self).fills_reads() && old(self).reads_never_fail() ==> (old(
                self,
            ).content() matches Some(c) ==> (result is Ok <==> old(buffer)@.len() <= c.len()
                - old(self).consumed().len())),
        old(self).agrees_with_source() ==> final(self).agrees_with_source(),
    {
        let mut filled: usize = 0;
        proof {
            self.lemma_content_starts_with_consumed();
        }
        while filled < buffer.len()
            invariant
                buffer@.len() == old(buffer)@.len(),
                filled <= buffer@.len(),
                self.consumed() == old(self).consumed() + buffer@.take(filled as int),
                filled > 0 ==> !self.ended(),
                filled == 0 ==> self.ended() == old(self).ended(),
                self.reads_never_fail() == old(self).reads_never_fail(),
                self.fills_reads() == old(self).fills_reads(),
                self.content() == old(self).content(),
                self.content() matches Some(c) ==> starts_with(c, self.consumed()),
                old(self).agrees_with_source() ==> self.agrees_with_source(),
            decreases buffer@.len() - filled,
        {
            let wanted: usize = buffer.len() - filled;
            let mut chunk = vec![0u8; wanted];
            match self.read(chunk.as_mut_slice()) {
                Ok(0) => {
                    proof {
                        lemma_starts_with_concat(old(self).consumed(), buffer@.take(filled as int));
                    }
                    return Err(StreamError::UnexpectedEndOfStream);
                },
                Ok(n) => {
                    let ghost before = buffer@;
                    copy_bytes(buffer, filled, chunk.as_slice(), 0, n);
                    assert(buffer@.take(filled + n as int) == before.take(filled as int)
                        + chunk@.take(n as int));
                    filled = filled + n;
                    proof {
                        self.lemma_content_starts_with_consumed();
                    }
                },
                Err(e) => {
                    proof {
                        lemma_starts_with_concat(old(self).consumed(), buffer@.take(filled as int));
                    }
                    return Err(e);
                },
            }
        }
        assert(buffer@.take(filled as int) == buffer@);
        proof {
            if let Some(c) = old(self).content() {
                let start = old(self).consumed().len() as int;
                assert(c.take(self.consumed().len() as int) == self.consumed());
                assert(buffer@ =~= self.consumed().subrange(start, self.consumed().len() as int));
                assert(c.subrange(start, start + buffer@.len()) =~= self.consumed().subrange(
                    start,
                    self.consumed().len() as int,
                ));
            }
        }
        Ok(())
    }

    /// Moves every remaining byte of this stream to `output`; says how many.
    /// Fails with `CountOverflow` when more bytes went through than a `u64`
    /// counts.
    fn copy_to<W>(&mut self, output: &mut W) -> (result: Result<u64, StreamError>) where
        Self: Sized,
        W: OutputStream,

        ensures
            result matches Ok(total) ==> {
                &&& starts_with(final(self).consumed(), old(self).consumed())
                &&& final(output).written() == old(output).written() + extension(
                    final(self).consumed(),
                    old(self).consumed(),
                )
                &&& total == extension(final(self).consumed(), old(self).consumed()).len()
                &&& final(self).ended()
            },
            result is Err ==> starts_with(final(self).consumed(), old(self).consumed()),
            final(output).never_fails() == old(output).never_fails(),
            result is Err && old(output).never_fails() ==> final(output).written() == old(
                output,
            ).written() + extension(final(self).consumed(), old(self).consumed()),
            final(self).reads_never_fail() == old(self).reads_never_fail(),
            final(self).fills_reads() == old(self).fills_reads(),
            old(self).reads_never_fail() && old(output).never_fails() ==> (result is Ok || (
            result matches Err(StreamError::CountOverflow) && extension(
                final(self).consumed(),
                old(self).consumed(),
            ).len() > u64::MAX)),
            result is Ok ==> final(self).content() == old(self).content(),
            old(self).fills_reads() ==> (old(self).content() matches Some(c) ==> (result is Ok
                ==> final(self).consumed() == c)),
            final(output).failures_keep_account() == old(output).failures_keep_account(),
            result is Err && old(output).failures_keep_account() ==> delivered_but_last_block(
                old(output).written(),
                extension(final(self).consumed(), old(self).consumed()),
                final(output).written(),
            ),
            old(self).agrees_with_source() ==> final(self).agrees_with_source(),
            old(output).agrees_with_sink() ==> final(output).agrees_with_sink(),
    {
        let mut buffer = vec![0u8; DEFAULT_BUFFER_SIZE];
        let mut total: u64 = 0;
        let ghost start = self.consumed();
        proof {
            lemma_starts_with_concat(start, Seq::<u8>::empty());
            assert(start + Seq::<u8>::empty() =~= start);
            assert(output.written() + Seq::<u8>::empty() =~= output.written());
            self.lemma_content_starts_with_consumed();
        }
        loop
            invariant
                buffer@.len() == DEFAULT_BUFFER_SIZE,
                start == old(self).consumed(),
                starts_with(self.consumed(), start),
                output.written() == old(output).written() + extension(self.consumed(), start),
                total == extension(self.consumed(), start).len(),
                output.never_fails() == old(output).never_fails(),
                output.failures_keep_account() == old(output).failures_keep_account(),
                old(self).agrees_with_source() ==> self.agrees_with_source(),
                old(output).agrees_with_sink() ==> output.agrees_with_sink(),
                self.reads_never_fail() == old(self).reads_never_fail(),
                self.fills_reads() == old(self).fills_reads(),
                self.content() == old(self).content(),
                self.content() matches Some(c) ==> starts_with(c, self.consumed()),
            decreases u64::MAX - total,
        {
            let ghost before = self.consumed();
            proof {
                lemma_delivered_in_full(old(output).written(), extension(before, start));
            }
            let count = self.read(buffer.as_mut_slice())?;
            let ghost piece = buffer@.take(count as int);
            proof {
                lemma_starts_with_extend(before, start, piece);
                assert(extension(self.consumed(), start) =~= extension(before, start) + piece);
                self.lemma_content_starts_with_consumed();
            }
            if count == 0 {
                proof {
                    if let Some(c) = self.content() {
                        if self.fills_reads() {
                            assert(c =~= self.consumed());
                        }
                    }
                }
                return Ok(total);
            }
            let block = slice_subrange(buffer.as_slice(), 0, count);
            assert(block@ =~= piece);
            match output.write_all(block) {
                Ok(()) => {},
                Err(e) => {
                    proof {
                        if old(output).failures_keep_account() {
                            lemma_delivered_but_last_block(
                                old(output).written(),
                                extension(before, start),
                                piece,
                                output.written(),
                            );
                        }
                    }
                    return Err(e);
                },
            }
            assert(output.written() =~= old(output).written() + extension(self.consumed(), start));
            if total > u64::MAX - count as u64 {
                proof {
                    lemma_delivered_in_full(old(output).written(), extension(self.consumed(), start));
                }
                return Err(StreamError::CountOverflow);
            }
            total = total + count as u64;
        }
    }
}

/// Copies `count` bytes of `source`, starting at `from`, over the positions
/// `at .. at + count` of `target`.
fn copy_bytes(target: &mut [u8], at: usize, source: &[u8], from: usize, count: usize)
    requires
        at + count <= old(target)@.len(),
        from + count <= source@.len(),
    ensures
        final(target)@ == copied_into(old(target)@, at as int, source@, from as int, count as int),
{
    let target_length = target.len();
    let source_length = source.len();
    let mut i: usize = 0;
    while i < count
        invariant
            target_length == old(target)@.len(),
            source_length == source@.len(),
            i <= count,
            at + count <= old(target)@.len(),
            from + count <= source@.len(),
            target@.len() == old(target)@.len(),
            forall|j: int|
                0 <= j < target@.len() ==> #[trigger] target@[j] == if at <= j < at + i {
                    source@[from + j - at]
                } else {
                    old(target)@[j]
                },
        decreases count - i,
    {
        target[at + i] = source[from + i];
        i = i + 1;
    }
    assert(target@ =~= copied_into(old(target)@, at as int, source@, from as int, count as int));
}

/// A sink for bytes.
pub trait OutputStream {
    /// Every byte this stream has accepted so far, in order.
    spec fn written(&self) -> Seq<u8>;

    /// Whether this stream accepts every byte it is handed and never
    /// reports a failure, as an in-memory vector does.
    spec fn never_fails(&self) -> bool;

    /// Whether a write that fails leaves the bytes accepted so far as they
    /// were, as the writes of a raw sink do.
    spec fn failures_keep_account(&self) -> bool;

    /// Whether what this stream reports as written agrees with the record
    /// its underlying sink keeps of the bytes it accepted, where the sink
    /// keeps one. Every operation keeps this agreement.
    spec fn agrees_with_sink(&self) -> bool;

    /// Accepts a prefix of `buffer` and says how long it was.
    fn write(&mut self, buffer: &[u8]) -> (result: Result<usize, StreamError>)
        ensures
            result matches Ok(n) ==> {
                &&& n <= buffer@.len()
                &&& final(self).written() == old(self).written() + buffer@.take(n as int)
            },
            final(self).never_fails() == old(self).never_fails(),
            old(self).never_fails() ==> result == Ok::<usize, StreamError>(buffer@.len() as usize),
            final(self).failures_keep_account() == old(self).failures_keep_account(),
            old(self).failures_keep_account() ==> (result is Err ==> final(self).written() == old(
                self,
            ).written()),
            old(self).agrees_with_sink() ==> final(self).agrees_with_sink(),
    ;

    /// Pushes the accepted bytes on towards their destination.
    fn flush(&mut self) -> (result: Result<(), StreamError>)
        ensures
            result is Ok ==> final(self).written() == old(self).written(),
            final(self).never_fails() == old(self).never_fails(),
            old(self).never_fails() ==> result is Ok,
            final(self).failures_keep_account() == old(self).failures_keep_account(),
            old(self).agrees_with_sink() ==> final(self).agrees_with_sink(),
    ;

    /// Writes the whole of `buffer`, one `write` after another. A write that
    /// accepts nothing makes it fail with `WriteZero`. When failures keep
    /// the account, a failure leaves accepted a part of `buffer` short of
    /// the whole, from its start.
    fn write_all(&mut self, buffer: &[u8]) -> (result: Result<(), StreamError>)
        ensures
            result is Ok ==> final(self).written() == old(self).written() + buffer@,
            buffer@.len() == 0 ==> result is Ok && final(self).written() == old(self).written(),
            final(self).never_fails() == old(self).never_fails(),
            old(self).never_fails() ==> result is Ok,
            final(self).failures_keep_account() == old(self).failures_keep_account(),
            old(self).failures_keep_account() ==> (result is Err ==> {
                &&& starts_with(final(self).written(), old(self).written())
                &&& starts_with(old(self).written() + buffer@, final(self).written())
                &&& final(self).written().len() < old(self).written().len() + buffer@.len()
            }),
                old(self).agrees_with_sink() ==> final(self).agrees_with_sink(),
    {
        let mut offset: usize = 0;
        while offset < buffer.len()
            invariant
                offset <= buffer@.len(),
                self.never_fails() == old(self).never_fails(),
                self.failures_keep_account() == old(self).failures_keep_account(),
                self.written() == old(self).written() + buffer@.take(offset as int),
                old(self).agrees_with_sink() ==> self.agrees_with_sink(),
            decreases buffer@.len() - offset,
        {
            let rest = slice_subrange(buffer, offset, buffer.len());
            proof {
                lemma_starts_with_concat(old(self).written(), buffer@.take(offset as int));
                assert((old(self).written() + buffer@).take(self.written().len() as int)
                    =~= self.written());
            }
            match self.write(rest) {
                Ok(0) => {
                    return Err(StreamError::WriteZero);
                },
                Ok(n) => {
                    assert(buffer@.take(offset as int) + rest@.take(n as int) == buffer@.take(
                        offset + n as int,
                    ));
                    offset = offset + n;
                },
                Err(e) => {
                    return Err(e);
                },
            }
        }
        assert(buffer@.take(offset as int) == buffer@);
        assert(old(self).written() + Seq::<u8>::empty() =~= old(self).written());
        Ok(())
    }

    /// Writes the single byte `byte`.
    fn write_bytes(&mut self, byte: u8) -> (result: Result<(), StreamError>)
        ensures
            result is Ok ==> final(self).written() == old(self).written().push(byte),
            final(self).never_fails() == old(self).never_fails(),
            old(self).never_fails() ==> result is Ok,
            final(self).failures_keep_account() == old(self).failures_keep_account(),
            old(self).agrees_with_sink() ==> final(self).agrees_with_sink(),
    {
        let one = [byte];
        let result = self.write_all(&one);
        assert(one@ == seq![byte]);
        result
    }
}

/// A growable vector accepts every byte it is handed, at its end.
impl OutputStream for Vec<u8> {
    open spec fn written(&self) -> Seq<u8> {
        self@
    }

    open spec fn never_fails(&self) -> bool {
        true
    }

    open spec fn failures_keep_account(&self) -> bool {
        true
    }

    /// A vector is its own sink.
    open spec fn agrees_with_sink(&self) -> bool {
        true
    }

    fn write(&mut self, buffer: &[u8]) -> (result: Result<usize, StreamError>)
        ensures
            result == Ok::<usize, StreamError>(buffer@.len() as usize),
    {
        self.extend_from_slice(buffer);
        assert(self@ =~= old(self)@ + buffer@);
        assert(buffer@.take(buffer@.len() as int) =~= buffer@);
        Ok(buffer.len())
    }

    fn flush(&mut self) -> (result: Result<(), StreamError>)
        ensures
            result is Ok,
            final(self)@ == old(self)@,
    {
        Ok(())
    }
}

/// An input stream over bytes held in memory: it hands them out in order,
/// as the standard library's reader over a byte slice does, and reports
/// the end once they are all handed out.
pub struct SliceInputStream<'a> {
    data: &'a [u8],
    position: usize,
    at_end: Ghost<bool>,
}

impl<'a> SliceInputStream<'a> {
    #[verifier::type_invariant]
    spec fn well_formed(self) -> bool {
        self.position <= self.data@.len()
    }

    /// How many bytes have been handed out.
    spec fn handed_out(self) -> int {
        if self.position <= self.data@.len() {
            self.position as int
        } else {
            self.data@.len() as int
        }
    }

    /// All the bytes this stream reads from.
    pub closed spec fn data(&self) -> Seq<u8> {
        self.data@
    }

    /// The bytes not handed out yet.
    pub closed spec fn remaining(&self) -> Seq<u8> {
        self.data@.skip(self.handed_out())
    }

    /// What was handed out followed by what remains is all the data; the
    /// data is the stream's content, and a stream that reported its end
    /// has nothing left.
    pub proof fn lemma_parts(&self)
        ensures
            self.consumed() + self.remaining() == self.data(),
            self.content() == Some(self.data()),
            self.ended() ==> self.remaining().len() == 0,
    {
        assert(self.consumed() + self.remaining() =~= self.data());
    }

    /// A stream that will hand out the bytes of `data`.
    pub fn new(data: &'a [u8]) -> (result: Self)
        ensures
            result.data() == data@,
            result.remaining() == data@,
            result.consumed() == Seq::<u8>::empty(),
            result.content() == Some(data@),
            !result.ended(),
    {
        let result = SliceInputStream { data, position: 0, at_end: Ghost(false) };
        assert(data@.skip(0) =~= data@);
        assert(data@.take(0) =~= Seq::<u8>::empty());
        result
    }
}

impl<'a> InputStream for SliceInputStream<'a> {
    closed spec fn consumed(&self) -> Seq<u8> {
        self.data@.take(self.handed_out())
    }

    closed spec fn ended(&self) -> bool {
        self.at_end@ && self.handed_out() == self.data@.len()
    }

    open spec fn reads_never_fail(&self) -> bool {
        true
    }

    open spec fn content(&self) -> Option<Seq<u8>> {
        Some(self.data())
    }

    open spec fn fills_reads(&self) -> bool {
        true
    }

    /// Bytes in memory are their own source.
    open spec fn agrees_with_source(&self) -> bool {
        true
    }

    proof fn lemma_content_starts_with_consumed(&self) {
        assert(self.data@.take(self.handed_out()).len() == self.handed_out());
    }

    /// Copies as many of the remaining bytes as fit to the start of
    /// `buffer`; the rest of `buffer` is left as it was.
    fn read(&mut self, buffer: &mut [u8]) -> (result: Result<usize, StreamError>)
        ensures
            final(self).data() == old(self).data(),
            final(self).reads_never_fail(),
            final(self).content() == old(self).content(),
            final(self).fills_reads(),
            result == Ok::<usize, StreamError>(
                if old(self).remaining().len() < old(buffer)@.len() {
                    old(self).remaining().len() as usize
                } else {
                    old(buffer)@.len() as usize
                },
            ),
            result matches Ok(n) ==> {
                &&& final(buffer)@ == copied_into(old(buffer)@, 0, old(self).remaining(), 0, n as int)
                &&& old(self).remaining() == final(buffer)@.take(n as int) + final(self).remaining()
            },
    {
        proof {
            use_type_invariant(&*self);
        }
        let available: usize = self.data.len() - self.position;
        let count: usize = if available < buffer.len() {
            available
        } else {
            buffer.len()
        };
        let ghost before = self.data@;
        let ghost from = self.position;
        copy_bytes(buffer, 0, self.data, self.position, count);
        self.position = self.position + count;
        let reported_end = count == 0 && buffer.len() > 0;
        self.at_end = Ghost(reported_end);
        proof {
            assert(old(self).remaining().subrange(0, count as int) =~= before.subrange(
                from as int,
                from + count as int,
            ));
            assert(buffer@.take(count as int) =~= before.subrange(from as int, from + count as int));
            assert(before.take(from + count as int) =~= before.take(from as int) + buffer@.take(
                count as int,
            ));
            assert(old(self).remaining() =~= buffer@.take(count as int) + self.remaining());
        }
        Ok(count)
    }
}

/// A raw source of bytes, such as an open file or the standard input: the
/// shape of `std::io::Read`. A read fills a prefix of the buffer and says
/// how long it is; reading nothing into a non-empty buffer means the source
/// has no more bytes.
pub trait ByteReader {
    /// Whether `produced` is a record this source keeps of the bytes it
    /// has produced. A source that keeps no such record says `false`, and
    /// then `produced` means nothing.
    open spec fn records_produced(&self) -> bool {
        false
    }

    /// Every byte this source has produced so far, in order, for a source
    /// that keeps this record.
    open spec fn produced(&self) -> Seq<u8> {
        Seq::empty()
    }

    /// Reads up to `buffer.len()` bytes into the start of `buffer`. As for
    /// `std::io::Read::read`, a read that fails has read nothing.
    fn read(&mut self, buffer: &mut [u8]) -> (result: Result<usize, StreamError>)
        ensures
            final(buffer)@.len() == old(buffer)@.len(),
            result matches Ok(n) ==> n <= old(buffer)@.len(),
            final(self).records_produced() == old(self).records_produced(),
            old(self).records_produced() ==> (result matches Ok(n) ==> final(self).produced()
                == old(self).produced() + final(buffer)@.take(n as int)),
            old(self).records_produced() ==> (result is Err ==> final(self).produced() == old(
                self,
            ).produced()),
    ;
}

/// A raw sink for bytes, such as an open file or the standard output: the
/// shape of `std::io::Write`. A write accepts a prefix of the bytes and
/// says how long it is.
pub trait ByteWriter {
    /// Whether `received` is a record this sink keeps of the bytes it has
    /// accepted. A sink that keeps no such record says `false`, and then
    /// `received` means nothing.
    open spec fn records_received(&self) -> bool {
        false
    }

    /// Every byte this sink has accepted so far, in order, for a sink that
    /// keeps this record.
    open spec fn received(&self) -> Seq<u8> {
        Seq::empty()
    }

    /// Accepts a prefix of `buffer`. As for `std::io::Write::write`, a write
    /// that fails has accepted nothing.
    fn write(&mut self, buffer: &[u8]) -> (result: Result<usize, StreamError>)
        ensures
            result matches Ok(n) ==> n <= buffer@.len(),
            final(self).records_received() == old(self).records_received(),
            old(self).records_received() ==> (result matches Ok(n) ==> final(self).received()
                == old(self).received() + buffer@.take(n as int)),
            old(self).records_received() ==> (result is Err ==> final(self).received() == old(
                self,
            ).received()),
    ;

    /// Pushes the accepted bytes on towards their destination; what the sink
    /// accepted stays as it was.
    fn flush(&mut self) -> (result: Result<(), StreamError>)
        ensures
            final(self).records_received() == old(self).records_received(),
            old(self).records_received() ==> final(self).received() == old(self).received(),
    ;
}

/// The input stream over a raw source: it reads straight from the source
/// and keeps account of what it handed out.
pub struct StandardInputStream<T> where T: ByteReader {
    inner_stream: T,
    handed_out: Ghost<Seq<u8>>,
    at_end: Ghost<bool>,
    earlier: Ghost<Seq<u8>>,
}

impl<T> StandardInputStream<T> where T: ByteReader {
    /// The wrapped source.
    pub closed spec fn inner(&self) -> T {
        self.inner_stream
    }

    /// What the source had produced before this stream wrapped it.
    pub closed spec fn produced_before(&self) -> Seq<u8> {
        self.earlier@
    }

    /// Whether the source, keeping a record of what it produced, has
    /// produced what it had before this stream wrapped it, then exactly what
    /// this stream handed out. Wrapping establishes it and reads keep it.
    pub open spec fn matches_source(&self) -> bool {
        self.inner().records_produced() ==> self.inner().produced() == self.produced_before()
            + self.consumed()
    }

    /// Wraps the conversion of `stream`; nothing has been read yet.
    pub fn new<S>(stream: S) -> (result: Self) where S: Into<T>
        ensures
            <S as vstd::std_specs::convert::IntoSpec<T>>::obeys_into_spec() ==> result.inner()
                == <S as vstd::std_specs::convert::IntoSpec<T>>::into_spec(stream),
            result.consumed() == Seq::<u8>::empty(),
            !result.ended(),
            result.inner().records_produced() ==> result.produced_before()
                == result.inner().produced(),
            result.matches_source(),
    {
        let inner: T = stream.into();
        let ghost earlier = inner.produced();
        assert(earlier + Seq::<u8>::empty() =~= earlier);
        Self {
            inner_stream: inner,
            handed_out: Ghost(Seq::empty()),
            at_end: Ghost(false),
            earlier: Ghost(earlier),
        }
    }
}

impl<T> InputStream for StandardInputStream<T> where T: ByteReader {
    closed spec fn consumed(&self) -> Seq<u8> {
        self.handed_out@
    }

    closed spec fn ended(&self) -> bool {
        self.at_end@
    }

    /// A raw source may always fail.
    open spec fn reads_never_fail(&self) -> bool {
        false
    }

    /// What a raw source will hand out is not known in advance.
    open spec fn content(&self) -> Option<Seq<u8>> {
        None
    }

    open spec fn fills_reads(&self) -> bool {
        false
    }

    open spec fn agrees_with_source(&self) -> bool {
        self.matches_source()
    }

    proof fn lemma_content_starts_with_consumed(&self) {
    }

    /// Reads from the source once, into all of `buffer`, and hands out what
    /// the source produced. For a source that keeps a record, what it
    /// produced is exactly what this stream hands out, on top of what it had
    /// before.
    fn read(&mut self, buffer: &mut [u8]) -> (result: Result<usize, StreamError>)
        ensures
            !final(self).reads_never_fail(),
            final(self).content() is None,
            !final(self).fills_reads(),
            final(self).produced_before() == old(self).produced_before(),
            final(self).inner().records_produced() == old(self).inner().records_produced(),
            old(self).inner().records_produced() ==> (result matches Ok(n)
                ==> final(self).inner().produced() == old(self).inner().produced()
                + final(buffer)@.take(n as int)),
            old(self).inner().records_produced() ==> (result is Err
                ==> final(self).inner().produced() == old(self).inner().produced()),
            old(self).matches_source() ==> final(self).matches_source(),
    {
        match self.inner_stream.read(buffer) {
            Ok(count) => {
                self.handed_out = Ghost(self.handed_out@ + buffer@.take(count as int));
                assert(self.earlier@ + self.handed_out@ =~= old(self).earlier@ + old(
                    self,
                ).handed_out@ + buffer@.take(count as int));
                let reported_end = count == 0 && buffer.len() > 0;
                self.at_end = Ghost(reported_end);
                Ok(count)
            },
            Err(e) => {
                self.at_end = Ghost(false);
                Err(e)
            },
        }
    }
}

/// The output stream over a raw sink: it writes straight to the sink and
/// keeps account of what the sink accepted.
pub struct StandardOutputStream<T> where T: ByteWriter {
    inner_stream: T,
    accepted: Ghost<Seq<u8>>,
    earlier: Ghost<Seq<u8>>,
}

impl<T> StandardOutputStream<T> where T: ByteWriter {
    /// Whether the sink, keeping a record of what it accepted, has accepted
    /// what it held before this stream wrapped it, then exactly what this
    /// stream wrote. Wrapping establishes it and writes and flushes keep it.
    pub open spec fn matches_sink(&self) -> bool {
        self.inner().records_received() ==> self.inner().received() == self.received_before()
            + self.written()
    }

    /// The wrapped sink.
    pub closed spec fn inner(&self) -> T {
        self.inner_stream
    }

    /// What the sink had accepted before this stream wrapped it.
    pub closed spec fn received_before(&self) -> Seq<u8> {
        self.earlier@
    }

    /// Wraps the conversion of `stream`; nothing has been written yet.
    pub fn new<S>(stream: S) -> (result: Self) where S: Into<T>
        ensures
            <S as vstd::std_specs::convert::IntoSpec<T>>::obeys_into_spec() ==> result.inner()
                == <S as vstd::std_specs::convert::IntoSpec<T>>::into_spec(stream),
            result.written() == Seq::<u8>::empty(),
            result.inner().records_received() ==> result.received_before()
                == result.inner().received(),
            result.matches_sink(),
    {
        Self::wrapping(stream.into())
    }

    /// Wraps `stream` itself; nothing has been written yet.
    pub(crate) fn wrapping(stream: T) -> (result: Self)
        ensures
            result.inner() == stream,
            result.written() == Seq::<u8>::empty(),
            result.inner().records_received() ==> result.received_before()
                == result.inner().received(),
            result.matches_sink(),
    {
        let ghost earlier = stream.received();
        assert(earlier + Seq::<u8>::empty() =~= earlier);
        Self { inner_stream: stream, accepted: Ghost(Seq::empty()), earlier: Ghost(earlier) }
    }
}

impl<T> OutputStream for StandardOutputStream<T> where T: ByteWriter {
    closed spec fn written(&self) -> Seq<u8> {
        self.accepted@
    }

    /// A raw sink may always fail.
    open spec fn never_fails(&self) -> bool {
        false
    }

    /// A failed write of a raw sink is not counted as accepted.
    open spec fn failures_keep_account(&self) -> bool {
        true
    }

    open spec fn agrees_with_sink(&self) -> bool {
        self.matches_sink()
    }

    /// Hands all of `buffer` to the sink in one write and reports what the
    /// sink accepted; a failed write leaves the account unchanged. For a
    /// sink that keeps a record, what it accepted is exactly what this
    /// stream reports as written, on top of what it held before.
    fn write(&mut self, buffer: &[u8]) -> (result: Result<usize, StreamError>)
        ensures
            result is Err ==> final(self).written() == old(self).written(),
            final(self).received_before() == old(self).received_before(),
            final(self).inner().records_received() == old(self).inner().records_received(),
            old(self).inner().records_received() ==> (result matches Ok(n)
                ==> final(self).inner().received() == old(self).inner().received()
                + buffer@.take(n as int)),
            old(self).inner().records_received() ==> (result is Err
                ==> final(self).inner().received() == old(self).inner().received()),
            old(self).matches_sink() ==> final(self).matches_sink(),
    {
        let result = self.inner_stream.write(buffer);
        if let Ok(count) = result {
            self.accepted = Ghost(self.accepted@ + buffer@.take(count as int));
            assert(self.earlier@ + self.accepted@ =~= old(self).earlier@ + old(self).accepted@
                + buffer@.take(count as int));
        }
        result
    }

    fn flush(&mut self) -> (result: Result<(), StreamError>)
        ensures
            final(self).written() == old(self).written(),
            final(self).received_before() == old(self).received_before(),
            final(self).inner().records_received() == old(self).inner().records_received(),
            old(self).inner().records_received() ==> final(self).inner().received() == old(
                self,
            ).inner().received(),
            old(self).matches_sink() ==> final(self).matches_sink(),
    {
        self.inner_stream.flush()
    }
}

/// The block of bytes a buffered input stream holds, with the part of it
/// not handed out yet.
struct Window {
    bytes: Vec<u8>,
    position: usize,
    length: usize,
}

impl Window {
    #[verifier::type_invariant]
    spec fn well_formed(self) -> bool {
        self.position <= self.length <= self.bytes@.len()
    }

    /// The bytes not handed out yet.
    spec fn pending(self) -> Seq<u8> {
        self.bytes@.subrange(self.position as int, self.length as int)
    }

    fn with_capacity(capacity: usize) -> (result: Window)
        ensures
            result.bytes@.len() == capacity,
            result.pending() == Seq::<u8>::empty(),
    {
        let result = Window { bytes: vec![0u8; capacity], position: 0, length: 0 };
        assert(result.pending() =~= Seq::<u8>::empty());
        result
    }

    /// Drops what is held and reads one block from `source`.
    fn refill_from<S: InputStream>(&mut self, source: &mut S) -> (result: Result<bool, StreamError>)
        ensures
            final(self).bytes@.len() == old(self).bytes@.len(),
            result matches Ok(more) ==> {
                &&& more == (final(self).pending().len() > 0)
                &&& final(source).consumed() == old(source).consumed() + final(self).pending()
                &&& final(source).ended() == (final(self).pending().len() == 0
                    && final(self).bytes@.len() > 0)
            },
            result is Err ==> !final(source).ended(),
            old(source).agrees_with_source() ==> final(source).agrees_with_source(),
            final(source).reads_never_fail() == old(source).reads_never_fail(),
            old(source).reads_never_fail() ==> result is Ok,
            final(self).pending().len() <= final(self).bytes@.len(),
            final(source).fills_reads() == old(source).fills_reads(),
            result is Ok ==> final(source).content() == old(source).content(),
            old(source).fills_reads() ==> (old(source).content() matches Some(c) ==> (result is Ok
                ==> final(self).pending().len() == smaller(
                old(self).bytes@.len() as int,
                c.len() - old(source).consumed().len(),
            ))),
    {
        proof {
            use_type_invariant(&*self);
        }
        let previous_length = self.length;
        self.position = 0;
        self.length = 0;
        let mut block: Vec<u8> = Vec::new();
        std::mem::swap(&mut block, &mut self.bytes);
        let outcome = source.read(block.as_mut_slice());
        std::mem::swap(&mut block, &mut self.bytes);
        match outcome {
            Ok(count) => {
                self.length = count;
                assert(self.pending() =~= self.bytes@.take(count as int));
                Ok(count != 0)
            },
            Err(e) => {
                self.length = previous_length;
                Err(e)
            },
        }
    }

    /// Copies as many held bytes as fit into `target` from position `at`
    /// on, hands them out, and says how many.
    fn take_into(&mut self, target: &mut [u8], at: usize) -> (count: usize)
        requires
            at <= old(target)@.len(),
        ensures
            final(self).bytes@ == old(self).bytes@,
            final(self).length == old(self).length,
            count == if old(self).pending().len() < old(target)@.len() - at {
                old(self).pending().len() as int
            } else {
                old(target)@.len() - at
            },
            final(target)@ == copied_into(old(target)@, at as int, old(self).pending(), 0, count as int),
            old(self).pending() == old(self).pending().take(count as int) + final(self).pending(),
    {
        proof {
            use_type_invariant(&*self);
        }
        let available: usize = self.length - self.position;
        let requested: usize = target.len() - at;
        let count: usize = if available < requested {
            available
        } else {
            requested
        };
        copy_bytes(target, at, self.bytes.as_slice(), self.position, count);
        let ghost from = self.position;
        self.position = self.position + count;
        proof {
            let held = self.bytes@;
            assert(held.subrange(from as int, from + count as int) =~= old(self).pending().subrange(0, count as int));
            assert(old(self).pending() =~= old(self).pending().take(count as int) + self.pending());
        }
        count
    }
}

/// One pass of a buffered read that found nothing held, refilled with
/// `fetched` bytes and handed `count` of them out: what the inner stream has
/// handed out stays the need so far, rounded up to whole blocks, capped by
/// the length of its content.
proof fn lemma_refill_step(
    length: int,
    first: int,
    before: int,
    written: int,
    held_first: int,
    block: int,
    fetched: int,
    count: int,
)
    requires
        block > 0,
        first <= before <= length,
        before - first == written - held_first,
        before == smaller(length, first + whole_blocks(written - held_first, block)),
        before < length ==> whole_blocks(before - first, block) == before - first,
        fetched == smaller(block, length - before),
        1 <= count <= fetched,
    ensures
        before + fetched == smaller(
            length,
            first + whole_blocks(written + count - held_first, block),
        ),
        before + fetched < length ==> whole_blocks(before + fetched - first, block) == before
            + fetched - first,
{
    let whole = before - first;
    assert(whole_blocks(whole + block, block) == whole + block);
    lemma_whole_blocks_within(whole + block, whole + count, block);
}

/// One pass of a buffered read that handed out `count` of the `held` bytes
/// it held, without reading from the inner stream.
proof fn lemma_serve_step(
    length: int,
    first: int,
    current: int,
    written: int,
    held: int,
    held_first: int,
    block: int,
    count: int,
)
    requires
        block > 0,
        first <= current <= length,
        current - first == written + held - held_first,
        current == smaller(length, first + whole_blocks(written - held_first, block)),
        current < length ==> whole_blocks(current - first, block) == current - first,
        1 <= count <= held <= block,
    ensures
        current == smaller(length, first + whole_blocks(written + count - held_first, block)),
{
    if current < length {
        lemma_whole_blocks_within(current - first, written + count - held_first, block);
    } else {
        lemma_whole_blocks_monotonic(written - held_first, written + count - held_first, block);
    }
}

/// An input stream that reads its inner stream a block at a time and hands
/// the bytes out from memory.
pub struct BufferedInputStream<T> where T: InputStream {
    inner_stream: T,
    window: Window,
    delivered: Ghost<Seq<u8>>,
    at_end: Ghost<bool>,
}

impl<T> BufferedInputStream<T> where T: InputStream {
    /// The wrapped stream.
    pub closed spec fn inner(&self) -> T {
        self.inner_stream
    }

    /// The bytes read from the inner stream and not handed out yet.
    pub closed spec fn pending(&self) -> Seq<u8> {
        self.window.pending()
    }

    /// How many bytes one refill asks the inner stream for.
    pub closed spec fn capacity(&self) -> nat {
        self.window.bytes@.len()
    }

    /// The inner stream has handed out exactly what this stream handed
    /// out, followed by what this stream still holds.
    pub open spec fn in_sync(&self) -> bool {
        self.inner().consumed() == self.consumed() + self.pending()
    }

    /// While in sync, what this stream handed out is where the inner
    /// stream's output starts, and the rest of that output is what this
    /// stream still holds: buffering neither loses, adds nor reorders bytes.
    pub proof fn lemma_hands_out_a_prefix(&self)
        requires
            self.in_sync(),
        ensures
            starts_with(self.inner().consumed(), self.consumed()),
            extension(self.inner().consumed(), self.consumed()) == self.pending(),
    {
        lemma_starts_with_concat(self.consumed(), self.pending());
    }

    /// Wraps `stream` with a buffer of `capacity` bytes.
    pub fn with_capacity(stream: T, capacity: usize) -> (result: Self)
        ensures
            result.inner() == stream,
            result.capacity() == capacity,
            result.pending().len() == 0,
            result.consumed() == stream.consumed(),
            !result.ended(),
            result.in_sync(),
    {
        let ghost start = stream.consumed();
        let result = Self {
            inner_stream: stream,
            window: Window::with_capacity(capacity),
            delivered: Ghost(start),
            at_end: Ghost(false),
        };
        assert(start + Seq::<u8>::empty() =~= start);
        result
    }

    /// Wraps `stream` with a buffer of `DEFAULT_BUFFER_SIZE` bytes.
    pub fn new(stream: T) -> (result: Self)
        ensures
            result.inner() == stream,
            result.capacity() == DEFAULT_BUFFER_SIZE,
            result.pending().len() == 0,
            result.consumed() == stream.consumed(),
            !result.ended(),
            result.in_sync(),
    {
        Self::with_capacity(stream, DEFAULT_BUFFER_SIZE)
    }

    /// Gives the wrapped stream back; the bytes still held are dropped.
    pub fn into_inner_stream(self) -> (result: T)
        ensures
            result == self.inner(),
    {
        self.inner_stream
    }

    /// Drops what is held and reads one block from the inner stream; says
    /// whether that block holds any byte.
    pub fn refill(&mut self) -> (result: Result<bool, StreamError>)
        ensures
            final(self).consumed() == old(self).consumed(),
            final(self).ended() == old(self).ended(),
            final(self).capacity() == old(self).capacity(),
            result matches Ok(more) ==> {
                &&& more == (final(self).pending().len() > 0)
                &&& final(self).inner().consumed() == old(self).inner().consumed()
                    + final(self).pending()
                &&& final(self).inner().ended() == (final(self).pending().len() == 0
                    && final(self).capacity() > 0)
            },
            old(self).in_sync() && old(self).pending().len() == 0 && result is Ok
                ==> final(self).in_sync(),
            final(self).inner().reads_never_fail() == old(self).inner().reads_never_fail(),
            old(self).inner().reads_never_fail() ==> result is Ok,
            old(self).inner().agrees_with_source() ==> final(self).inner().agrees_with_source(),
            final(self).pending().len() <= final(self).capacity(),
            final(self).inner().fills_reads() == old(self).inner().fills_reads(),
            final(self).fills_reads() == old(self).fills_reads(),
            result is Ok ==> final(self).inner().content() == old(self).inner().content(),
            old(self).inner().content() matches Some(c) ==> (result is Ok ==> final(self).content()
                == Some(old(self).consumed() + c.skip(old(self).inner().consumed().len() as int))),
            old(self).fills_reads() ==> (old(self).inner().content() matches Some(c) ==> (result is Ok
                ==> final(self).pending().len() == smaller(
                old(self).capacity() as int,
                c.len() - old(self).inner().consumed().len(),
            ))),
    {
        let result = self.window.refill_from(&mut self.inner_stream);
        proof {
            if old(self).pending().len() == 0 {
                assert(old(self).consumed() + old(self).pending() =~= old(self).consumed());
            }
            if let Some(c) = old(self).inner().content() {
                if result is Ok {
                    self.inner().lemma_content_starts_with_consumed();
                    let before = old(self).inner().consumed();
                    let after = self.inner().consumed();
                    assert(c.take(after.len() as int) =~= before + self.pending());
                    assert(c.skip(before.len() as int) =~= self.pending() + c.skip(
                        after.len() as int,
                    )) by {
                        assert forall|k: int| 0 <= k < c.len() - before.len() implies c.skip(
                            before.len() as int,
                        )[k] == (self.pending() + c.skip(after.len() as int))[k] by {
                            if k < self.pending().len() {
                                assert(c.take(after.len() as int)[before.len() + k] == c[before.len() + k]);
                            }
                        }
                    }
                    assert(self.consumed() + self.pending() + c.skip(after.len() as int)
                        =~= old(self).consumed() + c.skip(before.len() as int));
                }
            }
        }
        result
    }
}

impl<T> InputStream for BufferedInputStream<T> where T: InputStream {
    closed spec fn consumed(&self) -> Seq<u8> {
        self.delivered@
    }

    closed spec fn ended(&self) -> bool {
        self.at_end@
    }

    open spec fn reads_never_fail(&self) -> bool {
        self.inner().reads_never_fail()
    }

    /// What was handed out, then what is held, then what the inner stream
    /// still has to come.
    open spec fn content(&self) -> Option<Seq<u8>> {
        match self.inner().content() {
            Some(c) => Some(
                self.consumed() + self.pending() + c.skip(self.inner().consumed().len() as int),
            ),
            None => None,
        }
    }

    open spec fn fills_reads(&self) -> bool {
        self.inner().fills_reads() && self.capacity() > 0
    }

    open spec fn agrees_with_source(&self) -> bool {
        self.inner().agrees_with_source()
    }

    proof fn lemma_content_starts_with_consumed(&self) {
        if let Some(c) = self.inner().content() {
            lemma_starts_with_concat(
                self.consumed(),
                self.pending() + c.skip(self.inner().consumed().len() as int),
            );
            assert(self.consumed() + self.pending() + c.skip(self.inner().consumed().len() as int)
                =~= self.consumed() + (self.pending() + c.skip(
                self.inner().consumed().len() as int,
            )));
        }
    }

    /// Fills `buffer` from the bytes held, refilling from the inner stream
    /// whenever they run out; stops short only when a refill brings nothing.
    /// The bytes of `buffer` past those read are left as they were.
    #[verifier::rlimit(40)]
    fn read(&mut self, buffer: &mut [u8]) -> (result: Result<usize, StreamError>)
        ensures
            final(self).capacity() == old(self).capacity(),
            final(self).reads_never_fail() == old(self).reads_never_fail(),
            old(self).reads_never_fail() ==> result is Ok,
            old(self).in_sync() && result is Ok ==> final(self).in_sync(),
            result matches Ok(n) ==> final(buffer)@.skip(n as int) == old(buffer)@.skip(n as int),
            result matches Ok(n) ==> n < old(buffer)@.len() ==> {
                &&& final(self).pending().len() == 0
                &&& final(self).capacity() > 0 ==> final(self).inner().ended()
            },
            old(buffer)@.len() == 0 ==> {
                &&& result == Ok::<usize, StreamError>(0)
                &&& final(self).inner() == old(self).inner()
                &&& final(self).pending() == old(self).pending()
            },
            0 < old(buffer)@.len() <= old(self).pending().len() ==> {
                &&& result == Ok::<usize, StreamError>(old(buffer)@.len() as usize)
                &&& final(self).inner() == old(self).inner()
                &&& old(self).pending() == final(buffer)@ + final(self).pending()
            },
            final(self).pending().len() <= final(self).capacity(),
            result is Ok ==> final(self).content() == old(self).content(),
            final(self).fills_reads() == old(self).fills_reads(),
            final(self).inner().reads_never_fail() == old(self).inner().reads_never_fail(),
            final(self).inner().fills_reads() == old(self).inner().fills_reads(),
            result is Ok ==> final(self).inner().content() == old(self).inner().content(),
            old(self).fills_reads() ==> (old(self).inner().content() matches Some(c) ==> (
            result is Ok ==> final(self).inner().consumed().len() == smaller(
                c.len() as int,
                old(self).inner().consumed().len() + whole_blocks(
                    old(buffer)@.len() - old(self).pending().len(),
                    old(self).capacity() as int,
                ),
            ))),
            old(self).fills_reads() ==> (old(self).content() matches Some(c) ==> (
            result matches Ok(n) ==> n == smaller(
                old(buffer)@.len() as int,
                c.len() - old(self).consumed().len(),
            ))),
    {
        self.at_end = Ghost(false);
        if buffer.len() == 0 {
            assert(buffer@.take(0) =~= Seq::<u8>::empty());
            assert(self.delivered@ + Seq::<u8>::empty() =~= self.delivered@);
            assert(buffer@.skip(0) =~= old(buffer)@.skip(0));
            proof {
                use_type_invariant(&self.window);
                self.inner().lemma_content_starts_with_consumed();
            }
            return Ok(0);
        }
        let ghost start = self.delivered@;
        let ghost served = old(buffer)@.len() <= old(self).pending().len();
        let mut written: usize = 0;
        assert(buffer@.take(0) =~= Seq::<u8>::empty());
        assert(start + Seq::<u8>::empty() =~= start);
        proof {
            self.inner().lemma_content_starts_with_consumed();
        }
        while written < buffer.len()
            invariant
                buffer@.len() == old(buffer)@.len(),
                written <= buffer@.len(),
                self.delivered@ == start + buffer@.take(written as int),
                start == old(self).delivered@,
                self.capacity() == old(self).capacity(),
                self.inner().reads_never_fail() == old(self).inner().reads_never_fail(),
                self.inner().fills_reads() == old(self).inner().fills_reads(),
                self.inner().content() == old(self).inner().content(),
                old(self).inner().agrees_with_source() ==> self.inner().agrees_with_source(),
                self.content() == old(self).content(),
                !self.at_end@,
                old(self).in_sync() ==> self.in_sync(),
                forall|j: int| written <= j < buffer@.len() ==> buffer@[j] == old(buffer)@[j],
                self.inner().consumed().len() - old(self).inner().consumed().len() == written
                    + self.pending().len() - old(self).pending().len(),
                old(self).fills_reads() ==> (old(self).inner().content() matches Some(c) ==> {
                    let length = c.len() as int;
                    let first = old(self).inner().consumed().len() as int;
                    let now = self.inner().consumed().len() as int;
                    let block = old(self).capacity() as int;
                    &&& now <= length
                    &&& now == smaller(length, first + whole_blocks(
                        written - old(self).pending().len(),
                        block,
                    ))
                    &&& now < length ==> whole_blocks(now - first, block) == now - first
                }),
                served == (old(buffer)@.len() <= old(self).pending().len()),
                served ==> {
                    ||| written == 0 && self.pending() == old(self).pending() && self.inner()
                        == old(self).inner()
                    ||| written == buffer@.len() && self.inner() == old(self).inner() && old(
                        self,
                    ).pending() == buffer@ + self.pending()
                },
            ensures
                buffer@.len() == old(buffer)@.len(),
                written <= buffer@.len(),
                self.delivered@ == start + buffer@.take(written as int),
                self.capacity() == old(self).capacity(),
                self.inner().reads_never_fail() == old(self).inner().reads_never_fail(),
                self.inner().fills_reads() == old(self).inner().fills_reads(),
                self.inner().content() == old(self).inner().content(),
                old(self).inner().agrees_with_source() ==> self.inner().agrees_with_source(),
                self.content() == old(self).content(),
                !self.at_end@,
                old(self).in_sync() ==> self.in_sync(),
                forall|j: int| written <= j < buffer@.len() ==> buffer@[j] == old(buffer)@[j],
                written < buffer@.len() ==> {
                    &&& self.pending().len() == 0
                    &&& self.capacity() > 0 ==> self.inner().ended()
                },
                written < buffer@.len() && old(self).fills_reads() ==> (old(
                    self,
                ).content() matches Some(c) ==> self.consumed() == c),
                old(self).fills_reads() ==> (old(self).inner().content() matches Some(c) ==> self.inner().consumed().len()
                    == smaller(
                    c.len() as int,
                    old(self).inner().consumed().len() + whole_blocks(
                        buffer@.len() - old(self).pending().len(),
                        old(self).capacity() as int,
                    ),
                )),
                served ==> written == buffer@.len() && self.inner() == old(self).inner() && old(
                    self,
                ).pending() == buffer@ + self.pending(),
            decreases buffer@.len() - written,
        {
            proof {
                use_type_invariant(&self.window);
            }
            let ghost now_top = self.inner().consumed().len() as int;
            let ghost held_top = self.pending().len() as int;
            if self.window.position == self.window.length {
                assert(self.pending() =~= Seq::<u8>::empty());
                assert(self.consumed() + self.pending() =~= self.consumed());
                proof {
                    self.inner().lemma_content_starts_with_consumed();
                }
                match self.refill() {
                    Ok(more) => {
                        proof {
                            self.inner().lemma_content_starts_with_consumed();
                            if let Some(c) = self.inner().content() {
                                if !more && self.fills_reads() {
                                    assert(self.pending() =~= Seq::<u8>::empty());
                                    assert(c.skip(self.inner().consumed().len() as int)
                                        =~= Seq::<u8>::empty());
                                    assert(self.consumed() + self.pending() + c.skip(
                                        self.inner().consumed().len() as int,
                                    ) =~= self.consumed());
                                }
                            }
                        }
                        if !more {
                            proof {
                                lemma_whole_blocks_monotonic(
                                    written - old(self).pending().len(),
                                    buffer@.len() - old(self).pending().len(),
                                    old(self).capacity() as int,
                                );
                            }
                            break ;
                        }
                    },
                    Err(e) => {
                        self.delivered = Ghost(start);
                        return Err(e);
                    },
                }
            }
            let ghost before = buffer@;
            let ghost held = self.pending();
            let ghost handed = self.delivered@;
            let ghost at = written;
            let count = self.window.take_into(buffer, written);
            proof {
                assert(buffer@.take(written + count as int) =~= before.take(written as int)
                    + held.take(count as int));
                assert forall|j: int| at + count <= j < buffer@.len() implies buffer@[j]
                    == old(buffer)@[j] by {
                    assert(buffer@[j] == before.skip(at + count as int)[j - at - count]);
                }
                if served && at == 0 {
                    assert(count == buffer@.len());
                    assert(buffer@ =~= held.take(count as int));
                }
                if old(self).fills_reads() {
                    if let Some(c) = old(self).inner().content() {
                        if held_top == 0 {
                            lemma_refill_step(
                                c.len() as int,
                                old(self).inner().consumed().len() as int,
                                now_top,
                                at as int,
                                old(self).pending().len() as int,
                                old(self).capacity() as int,
                                held.len() as int,
                                count as int,
                            );
                        } else {
                            lemma_serve_step(
                                c.len() as int,
                                old(self).inner().consumed().len() as int,
                                now_top,
                                at as int,
                                held_top,
                                old(self).pending().len() as int,
                                old(self).capacity() as int,
                                count as int,
                            );
                        }
                    }
                }
            }
            self.delivered = Ghost(self.delivered@ + held.take(count as int));
            written = written + count;
            assert(self.delivered@ =~= start + buffer@.take(written as int));
            assert((handed + held.take(count as int)) + self.pending() =~= handed + (held.take(
                count as int,
            ) + self.pending()));
            proof {
                if let Some(c) = self.inner().content() {
                    let rest = c.skip(self.inner().consumed().len() as int);
                    assert((handed + held.take(count as int)) + self.pending() + rest =~= handed
                        + held + rest);
                }
            }
        }
        self.at_end = Ghost(written == 0);
        assert(buffer@.skip(written as int) =~= old(buffer)@.skip(written as int));
        proof {
            use_type_invariant(&self.window);
            self.lemma_content_starts_with_consumed();
        }
        Ok(written)
    }
}

/// `Vec::capacity`: how many bytes the vector can hold before it has to grow.
/// The standard library documents that this is never below the length; the
/// exact figure is the allocator's choice and is left unsaid.
#[verifier::external_body]
fn vec_capacity(vector: &Vec<u8>) -> (capacity: usize)
    ensures
        capacity >= vector@.len(),
{
    vector.capacity()
}

/// An output stream that gathers written bytes in memory and passes them on
/// to its inner stream once its buffer is full or on a flush.
pub struct BufferedOutputStream<T> where T: OutputStream {
    inner_stream: T,
    buffer: Vec<u8>,
}

impl<T> BufferedOutputStream<T> where T: OutputStream {
    /// The wrapped stream.
    pub closed spec fn inner(&self) -> T {
        self.inner_stream
    }

    /// The bytes accepted and not passed on yet.
    pub closed spec fn pending(&self) -> Seq<u8> {
        self.buffer@
    }

    /// Wraps `stream` with a buffer that has room for `capacity` bytes.
    pub fn with_capacity(stream: T, capacity: usize) -> (result: Self)
        ensures
            result.inner() == stream,
            result.pending() == Seq::<u8>::empty(),
    {
        Self { inner_stream: stream, buffer: Vec::with_capacity(capacity) }
    }

    /// Wraps `stream` with a buffer that has room for `DEFAULT_BUFFER_SIZE`
    /// bytes.
    pub fn new(stream: T) -> (result: Self)
        ensures
            result.inner() == stream,
            result.pending() == Seq::<u8>::empty(),
    {
        Self::with_capacity(stream, DEFAULT_BUFFER_SIZE)
    }

    /// Flushes, then gives the wrapped stream back.
    pub fn into_inner_stream(self) -> (result: Result<T, StreamError>)
        ensures
            result matches Ok(stream) ==> stream.written() == self.written(),
            self.inner().never_fails() ==> result is Ok,
    {
        let mut this = self;
        this.flush()?;
        Ok(this.inner_stream)
    }
}

impl<T> OutputStream for BufferedOutputStream<T> where T: OutputStream {
    open spec fn written(&self) -> Seq<u8> {
        self.inner().written() + self.pending()
    }

    open spec fn never_fails(&self) -> bool {
        self.inner().never_fails()
    }

    /// A failed flush may have passed part of the gathered bytes on while
    /// keeping all of them.
    open spec fn failures_keep_account(&self) -> bool {
        false
    }

    open spec fn agrees_with_sink(&self) -> bool {
        self.inner().agrees_with_sink()
    }

    /// Accepts all of `buffer`; once the gathered bytes fill the buffer's
    /// room they are flushed.
    fn write(&mut self, buffer: &[u8]) -> (result: Result<usize, StreamError>)
        ensures
            result matches Ok(n) ==> {
                &&& n == buffer@.len()
                &&& {
                    ||| final(self).inner() == old(self).inner() && final(self).pending()
                        == old(self).pending() + buffer@
                    ||| final(self).pending().len() == 0 && final(self).inner().written()
                        == old(self).inner().written() + old(self).pending() + buffer@
                }
            },
    {
        self.buffer.extend_from_slice(buffer);
        assert(self.buffer@ =~= old(self).buffer@ + buffer@);
        if self.buffer.len() >= vec_capacity(&self.buffer) {
            self.flush()?;
        }
        assert(buffer@.take(buffer@.len() as int) =~= buffer@);
        assert(old(self).inner().written() + (old(self).pending() + buffer@) =~= old(
            self,
        ).inner().written() + old(self).pending() + buffer@);
        Ok(buffer.len())
    }

    /// Passes every gathered byte on to the inner stream, then flushes it.
    fn flush(&mut self) -> (result: Result<(), StreamError>)
        ensures
            result is Ok ==> {
                &&& final(self).pending().len() == 0
                &&& final(self).inner().written() == old(self).inner().written() + old(
                    self,
                ).pending()
            },
    {
        if !self.buffer.is_empty() {
            self.inner_stream.write_all(self.buffer.as_slice())?;
            self.buffer.clear();
        }
        let result = self.inner_stream.flush();
        assert(self.inner().written() + Seq::<u8>::empty() =~= self.inner().written());
        assert(old(self).inner().written() + Seq::<u8>::empty() =~= old(self).inner().written());
        result
    }
}


/// What a call that moves the bytes of an input stream to an output stream
/// until the input ends promises: on success the input reported its end,
/// and the output accepted exactly the bytes the input handed out during
/// the call, whose number is the one returned. On failure the input has
/// handed out only bytes that follow what it had handed out before, and an
/// output that never fails holds every one of them. When neither stream
/// can fail, the only failure is `CountOverflow`, exactly when more bytes
/// went through than a `u64` counts. When the input's content is known and
/// its reads fill their buffers, success means it handed out all of it.
pub open spec fn copied_through<R: InputStream, W: OutputStream>(
    input_before: R,
    input_after: R,
    output_before: W,
    output_after: W,
    result: Result<u64, StreamError>,
) -> bool {
    let moved = extension(input_after.consumed(), input_before.consumed());
    &&& result matches Ok(total) ==> {
        &&& starts_with(input_after.consumed(), input_before.consumed())
        &&& output_after.written() == output_before.written() + moved
        &&& total == moved.len()
        &&& input_after.ended()
    }
    &&& result is Err ==> starts_with(input_after.consumed(), input_before.consumed())
    &&& output_after.never_fails() == output_before.never_fails()
    &&& result is Err && output_before.never_fails() ==> output_after.written()
        == output_before.written() + moved
    &&& input_after.reads_never_fail() == input_before.reads_never_fail()
    &&& input_after.fills_reads() == input_before.fills_reads()
    &&& input_before.reads_never_fail() && output_before.never_fails() ==> (result is Ok || (
    result matches Err(StreamError::CountOverflow) && moved.len() > u64::MAX))
    &&& result is Ok ==> input_after.content() == input_before.content()
    &&& input_before.fills_reads() ==> (input_before.content() matches Some(c) ==> (result is Ok
        ==> input_after.consumed() == c))
    &&& output_after.failures_keep_account() == output_before.failures_keep_account()
    &&& result is Err && output_before.failures_keep_account() ==> delivered_but_last_block(
        output_before.written(),
        moved,
        output_after.written(),
    )
    &&& input_before.agrees_with_source() ==> input_after.agrees_with_source()
    &&& output_before.agrees_with_sink() ==> output_after.agrees_with_sink()
}

/// Moves every remaining byte of `input` to `output`, a block at a time,
/// and says how many bytes it moved.
pub fn copy<R, W>(input: &mut R, output: &mut W) -> (result: Result<u64, StreamError>) where
    R: InputStream,
    W: OutputStream,

    ensures
        copied_through(*old(input), *final(input), *old(output), *final(output), result),
{
    input.copy_to(output)
}

/// Output streams that can pull in every remaining byte of an input stream.
/// Every output stream has this ability.
pub trait CopyFrom: OutputStream {
    /// Moves every remaining byte of `input` to this stream; says how many.
    fn copy_from<R>(&mut self, input: &mut R) -> (result: Result<u64, StreamError>) where
        Self: Sized,
        R: InputStream,

        ensures
            copied_through(*old(input), *final(input), *old(self), *final(self), result),
    ;
}

impl<W> CopyFrom for W where W: OutputStream {
    /// Moves every remaining byte of `input` to this stream; says how many.
    fn copy_from<R>(&mut self, input: &mut R) -> (result: Result<u64, StreamError>) where
        Self: Sized,
        R: InputStream,

    {
        input.copy_to(self)
    }
}

/// Moves every remaining byte of `input` to `output`, a block at a time.
/// Fails with `CountOverflow` when more bytes went through than a `u64`
/// counts.
pub fn process_stream<R, W>(input: &mut R, output: &mut W) -> (result: Result<(), StreamError>) where
    R: InputStream,
    W: OutputStream,

    ensures
        result is Ok ==> {
            &&& starts_with(final(input).consumed(), old(input).consumed())
            &&& final(output).written() == old(output).written() + extension(
                final(input).consumed(),
                old(input).consumed(),
            )
            &&& final(input).ended()
            &&& extension(final(input).consumed(), old(input).consumed()).len() <= u64::MAX
        },
        result is Err ==> starts_with(final(input).consumed(), old(input).consumed()),
        final(output).never_fails() == old(output).never_fails(),
        result is Err && old(output).never_fails() ==> final(output).written() == old(
            output,
        ).written() + extension(final(input).consumed(), old(input).consumed()),
        final(input).reads_never_fail() == old(input).reads_never_fail(),
        final(input).fills_reads() == old(input).fills_reads(),
        old(input).reads_never_fail() && old(output).never_fails() ==> (result is Ok || (
        result matches Err(StreamError::CountOverflow) && extension(
            final(input).consumed(),
            old(input).consumed(),
        ).len() > u64::MAX)),
        result is Ok ==> final(input).content() == old(input).content(),
        old(input).fills_reads() ==> (old(input).content() matches Some(c) ==> (result is Ok
            ==> final(input).consumed() == c)),
        final(output).failures_keep_account() == old(output).failures_keep_account(),
        result is Err && old(output).failures_keep_account() ==> delivered_but_last_block(
            old(output).written(),
            extension(final(input).consumed(), old(input).consumed()),
            final(output).written(),
        ),
        old(input).agrees_with_source() ==> final(input).agrees_with_source(),
        old(output).agrees_with_sink() ==> final(output).agrees_with_sink(),
{
    let mut buffer = vec![0u8; DEFAULT_BUFFER_SIZE];
    let mut moved: u64 = 0;
    let ghost start = input.consumed();
    proof {
        lemma_starts_with_concat(start, Seq::<u8>::empty());
        assert(start + Seq::<u8>::empty() =~= start);
        assert(output.written() + Seq::<u8>::empty() =~= output.written());
        input.lemma_content_starts_with_consumed();
    }
    loop
        invariant
            buffer@.len() == DEFAULT_BUFFER_SIZE,
            start == old(input).consumed(),
            starts_with(input.consumed(), start),
            output.written() == old(output).written() + extension(input.consumed(), start),
            moved == extension(input.consumed(), start).len(),
            output.never_fails() == old(output).never_fails(),
            output.failures_keep_account() == old(output).failures_keep_account(),
            old(input).agrees_with_source() ==> input.agrees_with_source(),
            old(output).agrees_with_sink() ==> output.agrees_with_sink(),
            input.reads_never_fail() == old(input).reads_never_fail(),
            input.fills_reads() == old(input).fills_reads(),
            input.content() == old(input).content(),
            input.content() matches Some(c) ==> starts_with(c, input.consumed()),
        ensures
            starts_with(input.consumed(), start),
            output.written() == old(output).written() + extension(input.consumed(), start),
            input.ended(),
            output.never_fails() == old(output).never_fails(),
            output.failures_keep_account() == old(output).failures_keep_account(),
            old(input).agrees_with_source() ==> input.agrees_with_source(),
            old(output).agrees_with_sink() ==> output.agrees_with_sink(),
            moved == extension(input.consumed(), start).len(),
            input.reads_never_fail() == old(input).reads_never_fail(),
            input.fills_reads() == old(input).fills_reads(),
            input.content() == old(input).content(),
            input.fills_reads() ==> (input.content() matches Some(c) ==> input.consumed() == c),
        decreases u64::MAX - moved,
    {
        let ghost before = input.consumed();
        proof {
            lemma_delivered_in_full(old(output).written(), extension(before, start));
        }
        let count = input.read(buffer.as_mut_slice())?;
        let ghost piece = buffer@.take(count as int);
        proof {
            lemma_starts_with_extend(before, start, piece);
            assert(extension(input.consumed(), start) =~= extension(before, start) + piece);
            input.lemma_content_starts_with_consumed();
        }
        if count == 0 {
            proof {
                if let Some(c) = input.content() {
                    if input.fills_reads() {
                        assert(c =~= input.consumed());
                    }
                }
            }
            break ;
        }
        let block = slice_subrange(buffer.as_slice(), 0, count);
        assert(block@ =~= piece);
        match output.write_all(block) {
            Ok(()) => {},
            Err(e) => {
                proof {
                    if old(output).failures_keep_account() {
                        lemma_delivered_but_last_block(
                            old(output).written(),
                            extension(before, start),
                            piece,
                            output.written(),
                        );
                    }
                }
                return Err(e);
            },
        }
        assert(output.written() =~= old(output).written() + extension(input.consumed(), start));
        if moved > u64::MAX - count as u64 {
            proof {
                lemma_delivered_in_full(old(output).written(), extension(input.consumed(), start));
            }
            return Err(StreamError::CountOverflow);
        }
        moved = moved + count as u64;
    }
    Ok(())
}

/// Streams that can be wrapped in a `BufferedOutputStream`.
pub trait HasBufferedOutputStream<T> where T: OutputStream {
    /// Wraps this stream in a buffered output stream.
    fn into_buffered_output_stream(self) -> (result: BufferedOutputStream<T>)
        ensures
            result.pending() == Seq::<u8>::empty(),
    ;
}

/// Streams that can be wrapped in a `BufferedInputStream`.
pub trait HasBufferedInputStream<T> where T: InputStream {
    /// Wraps this stream in a buffered input stream.
    fn into_buffered_input_stream(self) -> (result: BufferedInputStream<T>)
        ensures
            result.pending().len() == 0,
            result.in_sync(),
    ;
}

impl<W> HasBufferedOutputStream<W> for W where W: OutputStream {
    fn into_buffered_output_stream(self) -> (result: BufferedOutputStream<W>)
        ensures
            result.inner() == self,
    {
        BufferedOutputStream::new(self)
    }
}

impl<R> HasBufferedInputStream<R> for R where R: InputStream {
    fn into_buffered_input_stream(self) -> (result: BufferedInputStream<R>)
        ensures
            result.inner() == self,
            result.consumed() == self.consumed(),
            result.capacity() == DEFAULT_BUFFER_SIZE,
    {
        BufferedInputStream::new(self)
    }
}

} // verus!
