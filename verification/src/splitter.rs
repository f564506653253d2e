//! The bounded line splitter: the state machine that turns raw chunks from a
//! capacity-bounded reader into complete lines and explicitly marked
//! incomplete fragments, writing each record into a reusable shared buffer.
use crate::model::{
    chunks, emitted_incomplete, lemma_run_contents, lemma_small_lines_split_plainly,
    line_within, lines_of, pending_after, raw_lines, run, strip_terminator,
};
use crate::Error;
use std::rc::Rc;
use vstd::prelude::*;
use vstd::string::StringExecFns;
use vstd::utf8::{decode_utf8, valid_utf8};

verus! {

/// Relies on std::str::from_utf8: it returns Ok exactly on valid UTF-8
/// input, and the returned string is the decoding of those bytes, as
/// vstd's UTF-8 model states it.
#[verifier::external_body]
fn bytes_as_utf8(bytes: &[u8]) -> (r: Result<&str, std::str::Utf8Error>)
    ensures
        r is Ok <==> valid_utf8(bytes@),
        r matches Ok(s) ==> s@ == decode_utf8(bytes@),
{
    std::str::from_utf8(bytes)
}

/// Relies on Rc::get_mut: it yields mutable access only while no other
/// handle to the same storage is live; the held text is then replaced in
/// place, reusing the storage.
#[verifier::external_body]
fn try_rewrite_in_place(buffer: &mut Rc<String>, content: &str) -> (reused: bool)
    ensures
        reused ==> final(buffer)@ == content@,
        !reused ==> *final(buffer) == *old(buffer),
{
    match Rc::get_mut(buffer) {
        Some(text) => {
            text.clear();
            text.push_str(content);
            true
        },
        None => false,
    }
}

/// Relies on Rc::clone: the new handle refers to the very same value.
#[verifier::external_body]
fn clone_handle(buffer: &Rc<String>) -> (r: Rc<String>)
    ensures
        r == *buffer,
{
    Rc::clone(buffer)
}

/// Remove the line terminator, if any, from an owned chunk of bytes: a
/// trailing `\n`, and a `\r` directly before it.
fn strip_newline(chunk: &mut Vec<u8>)
    ensures
        final(chunk)@ == strip_terminator(old(chunk)@),
{
    let n = chunk.len();
    if n > 0 && chunk[n - 1] == 10u8 {
        chunk.pop();
        let m = chunk.len();
        if m > 0 && chunk[m - 1] == 13u8 {
            chunk.pop();
        }
        proof {
            if old(chunk)@.drop_last().len() > 0 && old(chunk)@.drop_last().last() == 13u8 {
                assert(chunk@ =~= old(chunk)@.drop_last().drop_last());
            } else {
                assert(chunk@ =~= old(chunk)@.drop_last());
            }
        }
    }
}

/// The state of the bounded line splitter: the fixed window size the
/// underlying reader was built with, the one-bit continuation flag, and the
/// reusable shared output buffer.
pub struct LineSplitter {
    capacity: usize,
    pending_incomplete: bool,
    buffer: Rc<String>,
}

impl LineSplitter {
    /// The window size the splitter was built with.
    pub closed spec fn capacity(&self) -> usize {
        self.capacity
    }

    /// True between two records that belong to one logical line whose first
    /// piece was already handed out truncated.
    pub closed spec fn pending(&self) -> bool {
        self.pending_incomplete
    }

    /// The characters the shared output buffer currently holds.
    pub closed spec fn buffer_chars(&self) -> Seq<char> {
        self.buffer@
    }

    /// A fresh splitter for a reader with window size `capacity`.
    pub fn new(capacity: usize) -> (r: LineSplitter)
        ensures
            r.capacity() == capacity,
            !r.pending(),
            r.buffer_chars() == Seq::<char>::empty(),
    {
        LineSplitter { capacity, pending_incomplete: false, buffer: Rc::new(String::new()) }
    }

    /// Consume one raw chunk and produce one record.
    pub fn process_chunk(&mut self, chunk: Vec<u8>) -> (r: Result<
        Rc<String>,
        Error<Rc<String>>,
    >)
        ensures
            chunk_outcome(*old(self), chunk@, *final(self), r),
    {
        let mut content = chunk;
        strip_newline(&mut content);
        let was_pending = self.pending_incomplete;
        let fills_window = content.len() == self.capacity;
        self.pending_incomplete = fills_window;
        match bytes_as_utf8(content.as_slice()) {
            Err(e) => Err(Error::Encoding(e)),
            Ok(text) => {
                if !try_rewrite_in_place(&mut self.buffer, text) {
                    self.buffer = Rc::new(String::from_str(text));
                }
                let handle = clone_handle(&self.buffer);
                if was_pending || fills_window {
                    Err(Error::Incomplete(handle))
                } else {
                    Ok(handle)
                }
            },
        }
    }

    /// Consume one event of the underlying reader: no event at all means the
    /// stream is exhausted, and the splitter reports exhaustion while
    /// touching nothing, so every later call reports it again.
    pub fn handle_event(&mut self, event: Option<Result<Vec<u8>, std::io::Error>>) -> (r:
        Option<Result<Rc<String>, Error<Rc<String>>>>)
        ensures
            event_outcome(*old(self), event, *final(self), r),
    {
        match event {
            None => None,
            Some(Err(e)) => Some(Err(Error::Io(e))),
            Some(Ok(chunk)) => Some(self.process_chunk(chunk)),
        }
    }
}

/// What consuming the raw chunk `chunk` in state `pre` does: how the
/// continuation flag moves, what the buffer holds afterwards, and which
/// record comes back — a complete line, an incomplete fragment, or an
/// encoding failure, each with the terminator-stripped decoded content.
pub open spec fn chunk_outcome(
    pre: LineSplitter,
    chunk: Seq<u8>,
    post: LineSplitter,
    r: Result<Rc<String>, Error<Rc<String>>>,
) -> bool {
    let stripped = strip_terminator(chunk);
    &&& post.capacity() == pre.capacity()
    &&& post.pending() == pending_after(pre.capacity() as nat, chunk)
    &&& (valid_utf8(stripped) ==> {
        &&& post.buffer_chars() == decode_utf8(stripped)
        &&& (if emitted_incomplete(pre.pending(), pre.capacity() as nat, chunk) {
            r matches Err(Error::Incomplete(h)) && h@ == decode_utf8(stripped)
        } else {
            r matches Ok(h) && h@ == decode_utf8(stripped)
        })
    })
    &&& (!valid_utf8(stripped) ==> {
        &&& r matches Err(Error::Encoding(_))
        &&& post.buffer_chars() == pre.buffer_chars()
    })
}

/// What one call for the next record does, given the underlying reader's
/// event: end of input is forwarded with the state untouched, an I/O failure
/// is forwarded verbatim with the state untouched, and a delivered chunk is
/// consumed as `chunk_outcome` says.
pub open spec fn event_outcome(
    pre: LineSplitter,
    event: Option<Result<Vec<u8>, std::io::Error>>,
    post: LineSplitter,
    r: Option<Result<Rc<String>, Error<Rc<String>>>>,
) -> bool {
    match event {
        None => post == pre && r is None,
        Some(Err(e)) => post == pre && (r matches Some(Err(Error::Io(e2))) && e2 == e),
        Some(Ok(chunk)) => r matches Some(record) && chunk_outcome(pre, chunk@, post, record),
    }
}

/// A record handed back by the splitter agrees with a record of the model
/// run: for valid text, the same incomplete mark and the decoded content.
pub open spec fn record_matches(
    r: Result<Rc<String>, Error<Rc<String>>>,
    record: (Seq<u8>, bool),
) -> bool {
    valid_utf8(record.0) ==> (if record.1 {
        r matches Err(Error::Incomplete(h)) && h@ == decode_utf8(record.0)
    } else {
        r matches Ok(h) && h@ == decode_utf8(record.0)
    })
}

/// Law: chunk steps compose to the model run.  Stepping a splitter through
/// all the chunks of a stream, each step an outcome of `process_chunk`,
/// hands back record for record what `run` says for those chunks: the laws
/// proved of `run` in `crate::model` therefore speak of whole runs of the
/// executable splitter.
pub proof fn lemma_steps_match_run(
    states: Seq<LineSplitter>,
    cs: Seq<Seq<u8>>,
    results: Seq<Result<Rc<String>, Error<Rc<String>>>>,
    cap: nat,
)
    requires
        states.len() == cs.len() + 1,
        results.len() == cs.len(),
        states[0].capacity() as nat == cap,
        forall|k: int|
            0 <= k < cs.len() ==> #[trigger] chunk_outcome(
                states[k],
                cs[k],
                states[k + 1],
                results[k],
            ),
    ensures
        forall|k: int|
            0 <= k < cs.len() ==> record_matches(
                #[trigger] results[k],
                run(states[0].pending(), cs, cap)[k],
            ),
    decreases cs.len(),
{
    if cs.len() > 0 {
        let p0 = states[0].pending();
        let tail_states = states.drop_first();
        let tail_cs = cs.drop_first();
        let tail_results = results.drop_first();
        let first: int = 0;
        assert(chunk_outcome(states[first], cs[first], states[first + 1], results[first]));
        assert forall|k: int|
            0 <= k < tail_cs.len() implies #[trigger] chunk_outcome(
            tail_states[k],
            tail_cs[k],
            tail_states[k + 1],
            tail_results[k],
        ) by {
            let shifted: int = k + 1;
            assert(chunk_outcome(
                states[shifted],
                cs[shifted],
                states[shifted + 1],
                results[shifted],
            ));
            assert(tail_states[k] == states[k + 1]);
            assert(tail_states[k + 1] == states[k + 2]);
            assert(tail_cs[k] == cs[k + 1]);
            assert(tail_results[k] == results[k + 1]);
        }
        lemma_steps_match_run(tail_states, tail_cs, tail_results, cap);
        assert(run(p0, cs, cap)[0] == (
            strip_terminator(cs.first()),
            emitted_incomplete(p0, cap, cs.first()),
        ));
        assert(record_matches(results[0], run(p0, cs, cap)[0]));
        assert(tail_states[0] == states[1]);
        assert(states[1].pending() == pending_after(cap, cs.first()));
        let tail_run = run(pending_after(cap, cs.first()), tail_cs, cap);
        lemma_run_contents(pending_after(cap, cs.first()), tail_cs, cap);
        let unfolded = seq![
            (strip_terminator(cs.first()), emitted_incomplete(p0, cap, cs.first())),
        ] + tail_run;
        assert(run(p0, cs, cap) == unfolded);
        assert forall|k: int| 0 < k < cs.len() implies record_matches(
            #[trigger] results[k],
            run(p0, cs, cap)[k],
        ) by {
            assert(unfolded[k] == tail_run[k - 1]);
            assert(run(p0, cs, cap)[k] == tail_run[k - 1]);
            assert(record_matches(tail_results[k - 1], run(
                tail_states[0].pending(),
                tail_cs,
                cap,
            )[k - 1]));
            assert(tail_results[k - 1] == results[k]);
        }
    }
}

/// Law: when every logical line of an input fits within the window, a
/// splitter stepped through the input's chunks hands back one record per
/// logical line, in order, and — for valid text — each record is a complete
/// line holding exactly the decoded content of the plain line split, never
/// an incomplete fragment.
pub proof fn lemma_small_lines_all_ok(
    states: Seq<LineSplitter>,
    s: Seq<u8>,
    results: Seq<Result<Rc<String>, Error<Rc<String>>>>,
    cap: nat,
)
    requires
        cap > 0,
        states.len() == chunks(s, cap).len() + 1,
        results.len() == chunks(s, cap).len(),
        states[0].capacity() as nat == cap,
        !states[0].pending(),
        forall|k: int|
            0 <= k < raw_lines(s).len() ==> line_within(#[trigger] raw_lines(s)[k], cap),
        forall|k: int|
            0 <= k < results.len() ==> #[trigger] chunk_outcome(
                states[k],
                chunks(s, cap)[k],
                states[k + 1],
                results[k],
            ),
    ensures
        results.len() == lines_of(s).len(),
        forall|k: int|
            0 <= k < results.len() ==> (valid_utf8(lines_of(s)[k])
                ==> (#[trigger] results[k] matches Ok(h) && h@ == decode_utf8(lines_of(s)[k]))),
{
    let cs = chunks(s, cap);
    lemma_steps_match_run(states, cs, results, cap);
    lemma_small_lines_split_plainly(s, cap);
    lemma_run_contents(false, cs, cap);
    let plain = lines_of(s).map_values(|l: Seq<u8>| (l, false));
    assert forall|k: int| 0 <= k < results.len() implies (valid_utf8(lines_of(s)[k])
        ==> (#[trigger] results[k] matches Ok(h) && h@ == decode_utf8(lines_of(s)[k]))) by {
        assert(record_matches(results[k], run(states[0].pending(), cs, cap)[k]));
        assert(run(states[0].pending(), cs, cap)[k] == plain[k]);
        assert(plain[k] == (lines_of(s)[k], false));
    }
}

/// Law: exhaustion is idempotent.  A call that sees no further event from
/// the reader reports end of sequence and touches nothing, so the call after
/// it reports end of sequence again — data is never re-emitted.
pub proof fn lemma_exhaustion_idempotent(
    s0: LineSplitter,
    s1: LineSplitter,
    s2: LineSplitter,
    r1: Option<Result<Rc<String>, Error<Rc<String>>>>,
    r2: Option<Result<Rc<String>, Error<Rc<String>>>>,
)
    requires
        event_outcome(s0, None, s1, r1),
        event_outcome(s1, None, s2, r2),
    ensures
        r1 is None,
        r2 is None,
        s2 == s0,
{
}

} // verus!
