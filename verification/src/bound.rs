//! The capacity-bounded line iterator: a linereader-backed chunk source
//! feeding the verified line splitter.
use crate::splitter::{event_outcome, LineSplitter};
use crate::Error;
use std::rc::Rc;
use vstd::prelude::*;

verus! {

#[verifier::external_type_specification]
#[verifier::external_body]
#[verifier::reject_recursive_types(R)]
pub struct ExLineReader<R>(linereader::LineReader<R>);

/// Relies on linereader's LineReader::with_capacity: a buffered reader over
/// `inner` whose window holds `capacity` bytes and whose delimiter is `\n`.
/// A window of zero bytes would make its reading loop forever, so it is
/// excluded.
#[verifier::external_body]
pub(crate) fn make_line_reader<R: std::io::Read>(capacity: usize, inner: R) -> (r: linereader::LineReader<
    R,
>)
    requires
        capacity >= 1,
{
    linereader::LineReader::with_capacity(capacity, inner)
}

/// Relies on linereader's LineReader::next_line: the next chunk of the
/// stream — up to and including the first `\n` found within the window, the
/// full window when none is found, or the unterminated remainder at end of
/// stream — with `None` once the stream is exhausted and an I/O failure
/// forwarded verbatim.  What the chunk holds depends on the underlying
/// stream, so nothing is promised of it: the caller handles every outcome.
#[verifier::external_body]
fn next_chunk<R: std::io::Read>(reader: &mut linereader::LineReader<R>) -> (r: Option<
    Result<Vec<u8>, std::io::Error>,
>) {
    match reader.next_line() {
        None => None,
        Some(Ok(line)) => Some(Ok(line.to_vec())),
        Some(Err(e)) => Some(Err(e)),
    }
}

/// A bounded-memory line iterator over the byte stream behind `R`: each call
/// for the next record reads one chunk within the capacity bound and hands
/// out a complete line, an explicitly marked incomplete fragment, or a
/// failure, through a reference-counted handle to a reused buffer.
#[verifier::reject_recursive_types(R)]
pub struct RcLineIterator<R> {
    line_reader: linereader::LineReader<R>,
    splitter: LineSplitter,
}

impl<R> RcLineIterator<R> {
    /// The state of the splitting state machine: window size, continuation
    /// flag and shared buffer.
    pub closed spec fn splitter(&self) -> LineSplitter {
        self.splitter
    }

    /// Wrap a chunked reader whose window holds `max_size` bytes.
    pub fn new(line_reader: linereader::LineReader<R>, max_size: usize) -> (r: RcLineIterator<
        R,
    >)
        ensures
            r.splitter().capacity() == max_size,
            !r.splitter().pending(),
            r.splitter().buffer_chars() == Seq::<char>::empty(),
    {
        RcLineIterator { line_reader, splitter: LineSplitter::new(max_size) }
    }

    /// The next record of the stream: `None` at end of stream, else the
    /// complete line, incomplete fragment, or failure that the splitter
    /// derives from the chunk the reader delivered.  Whatever the stream
    /// holds, the call acts as one lawful step of the splitting state
    /// machine.
    pub fn next(&mut self) -> (r: Option<Result<Rc<String>, Error<Rc<String>>>>) where
        R: std::io::Read,

        ensures
            exists|event: Option<Result<Vec<u8>, std::io::Error>>|
                event_outcome(old(self).splitter(), event, final(self).splitter(), r),
    {
        let event = next_chunk(&mut self.line_reader);
        let ghost witness = event;
        let r = self.splitter.handle_event(event);
        proof {
            assert(event_outcome(old(self).splitter(), witness, self.splitter(), r));
        }
        r
    }
}

} // verus!
