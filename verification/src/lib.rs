//! Bounded-memory line iterators over byte streams.
//!
//! A fixed-capacity window is used to read newline-delimited records, so an
//! input with an arbitrarily long run of bytes and no terminator can never
//! force unbounded memory growth.  A logical line that does not fit in one
//! window is handed out piecewise, every piece explicitly marked incomplete,
//! so a caller can never mistake a truncated record for a whole one.
use vstd::prelude::*;

pub mod bound;
pub mod model;
pub mod splitter;

verus! {

/// A line iterator over `reader` with the given window capacity.  The window
/// must hold at least one byte, or the underlying reader could never deliver
/// a chunk.
pub fn lines_rc_with_capacity<T: std::io::Read>(reader: T, buffer_capacity: usize) -> (r:
    bound::RcLineIterator<T>)
    requires
        buffer_capacity >= 1,
    ensures
        r.splitter().capacity() == buffer_capacity,
        !r.splitter().pending(),
{
    bound::RcLineIterator::new(bound::make_line_reader(buffer_capacity, reader), buffer_capacity)
}

/// A line iterator over `reader` with the default window capacity of 64 KiB.
pub fn lines_rc<T: std::io::Read>(reader: T) -> (r: bound::RcLineIterator<T>)
    ensures
        r.splitter().capacity() == 65536,
        !r.splitter().pending(),
{
    lines_rc_with_capacity(reader, 64 * 1024)
}

/// What a call for the next record can report besides a complete line.
#[derive(Debug)]
pub enum Error<T> {
    /// A failure of the underlying reader, forwarded verbatim.
    Io(std::io::Error),
    /// The record's bytes are not valid UTF-8.
    Encoding(std::str::Utf8Error),
    /// A piece of a logical line that could not be confirmed complete within
    /// the capacity bound.  Every piece of such a line is reported this way,
    /// including its final, naturally terminated tail.
    Incomplete(T),
}

#[verifier::external_type_specification]
#[verifier::external_body]
pub struct ExIoError(std::io::Error);

#[verifier::external_type_specification]
#[verifier::external_body]
pub struct ExUtf8Error(std::str::Utf8Error);

} // verus!
