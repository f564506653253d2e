//! Mathematical model of capacity-bounded line reading.
//!
//! The model describes how a reader with a window of `cap` bytes cuts an
//! input stream into chunks (each chunk ends at the first newline found
//! within the window, or fills the window whole), how terminators are
//! stripped, and which records the splitter marks incomplete.  The laws at
//! the bottom relate a whole run of the splitter to a plain line split of
//! the same input.
use vstd::prelude::*;

verus! {

/// A chunk's content with its line terminator removed: a trailing `\n` is
/// dropped, and a `\r` directly before it is dropped too.  A chunk without a
/// trailing `\n` is kept whole, even if it ends in `\r`.
pub open spec fn strip_terminator(chunk: Seq<u8>) -> Seq<u8> {
    if chunk.len() > 0 && chunk.last() == 10u8 {
        let no_nl = chunk.drop_last();
        if no_nl.len() > 0 && no_nl.last() == 13u8 {
            no_nl.drop_last()
        } else {
            no_nl
        }
    } else {
        chunk
    }
}

/// The terminator bytes that `strip_terminator` removes from `chunk`.
pub open spec fn terminator_of(chunk: Seq<u8>) -> Seq<u8> {
    chunk.skip(strip_terminator(chunk).len() as int)
}

/// Stripping a chunk keeps a prefix of it: content plus terminator is the
/// chunk itself.
pub proof fn lemma_strip_reassemble(chunk: Seq<u8>)
    ensures
        strip_terminator(chunk) + terminator_of(chunk) == chunk,
        strip_terminator(chunk).len() <= chunk.len(),
{
    let s = strip_terminator(chunk);
    assert(s == chunk.take(s.len() as int)) by {
        if chunk.len() > 0 && chunk.last() == 10u8 {
            let no_nl = chunk.drop_last();
            assert(no_nl =~= chunk.take(chunk.len() - 1));
            if no_nl.len() > 0 && no_nl.last() == 13u8 {
                assert(no_nl.drop_last() =~= chunk.take(chunk.len() - 2));
            }
        }
    }
    assert(s + terminator_of(chunk) =~= chunk);
}

/// The least index in `[from, bound)` holding a newline byte, or `bound`
/// when there is none.
pub open spec fn scan_nl(s: Seq<u8>, bound: nat, from: nat) -> nat
    decreases bound - from,
{
    if from >= bound {
        bound
    } else if s[from as int] == 10u8 {
        from
    } else {
        scan_nl(s, bound, (from + 1) as nat)
    }
}

/// What `scan_nl` returns: an index no smaller than `from`, no larger than
/// `bound`, pointing at a newline when below `bound`, with no newline before
/// it.
pub proof fn lemma_scan_nl(s: Seq<u8>, bound: nat, from: nat)
    requires
        from <= bound,
        bound <= s.len(),
    ensures
        from <= scan_nl(s, bound, from) <= bound,
        scan_nl(s, bound, from) < bound ==> s[scan_nl(s, bound, from) as int] == 10u8,
        forall|j: int| from <= j < scan_nl(s, bound, from) ==> s[j] != 10u8,
    decreases bound - from,
{
    if from < bound && s[from as int] != 10u8 {
        lemma_scan_nl(s, bound, (from + 1) as nat);
    }
}

/// `scan_nl` is pinned down by the properties of `lemma_scan_nl`.
pub proof fn lemma_scan_nl_unique(s: Seq<u8>, bound: nat, from: nat, m: nat)
    requires
        from <= m <= bound <= s.len(),
        m < bound ==> s[m as int] == 10u8,
        forall|j: int| from <= j < m ==> s[j] != 10u8,
    ensures
        scan_nl(s, bound, from) == m,
    decreases m - from,
{
    if from < m {
        lemma_scan_nl_unique(s, bound, (from + 1) as nat, m);
    }
}

/// Length of the first chunk a reader with window `cap` delivers from `s`:
/// up to and including the first newline when one lies within the window,
/// else the whole window (or all of `s` when `s` is shorter).
pub open spec fn chunk_split(s: Seq<u8>, cap: nat) -> nat {
    let b: nat = if s.len() <= cap {
        s.len()
    } else {
        cap
    };
    let i: nat = scan_nl(s, b, 0);
    if i < b {
        (i + 1) as nat
    } else {
        b
    }
}

/// The chunks a reader with window `cap` delivers for the input `s`, in
/// order.
pub open spec fn chunks(s: Seq<u8>, cap: nat) -> Seq<Seq<u8>>
    decreases s.len(),
{
    if cap == 0 || s.len() == 0 {
        Seq::empty()
    } else {
        let n = chunk_split(s, cap);
        seq![s.take(n as int)] + chunks(s.skip(n as int), cap)
    }
}

/// Length of the first logical line of `s`, terminator included: up to and
/// including the first newline, else all of `s`.
pub open spec fn line_split(s: Seq<u8>) -> nat {
    let i: nat = scan_nl(s, s.len(), 0);
    if i < s.len() {
        (i + 1) as nat
    } else {
        s.len()
    }
}

/// The logical lines of `s` with their terminators still attached.
pub open spec fn raw_lines(s: Seq<u8>) -> Seq<Seq<u8>>
    decreases s.len(),
{
    if s.len() == 0 {
        Seq::empty()
    } else {
        let n = line_split(s);
        seq![s.take(n as int)] + raw_lines(s.skip(n as int))
    }
}

/// The logical lines of `s` as a plain `\n`/`\r\n`-aware splitter yields
/// them: terminators stripped, a final unterminated line included.
pub open spec fn lines_of(s: Seq<u8>) -> Seq<Seq<u8>> {
    raw_lines(s).map_values(|l: Seq<u8>| strip_terminator(l))
}

/// A raw chunk signals truncation when its terminator-stripped content still
/// fills the whole window: the reader found no newline within `cap` bytes.
pub open spec fn chunk_fills_window(chunk: Seq<u8>, cap: nat) -> bool {
    strip_terminator(chunk).len() == cap
}

/// The continuation flag after consuming `chunk`: truncation is pending
/// exactly when this chunk itself was truncated.
pub open spec fn pending_after(cap: nat, chunk: Seq<u8>) -> bool {
    chunk_fills_window(chunk, cap)
}

/// Whether the record built from `chunk` is marked incomplete: either this
/// chunk was truncated, or it is the tail of a logical line an earlier piece
/// of which was already handed out truncated.
pub open spec fn emitted_incomplete(pending: bool, cap: nat, chunk: Seq<u8>) -> bool {
    pending || chunk_fills_window(chunk, cap)
}

/// One record of a run: its terminator-stripped content and its incomplete
/// mark.
pub open spec fn run(pending: bool, cs: Seq<Seq<u8>>, cap: nat) -> Seq<(Seq<u8>, bool)>
    decreases cs.len(),
{
    if cs.len() == 0 {
        Seq::empty()
    } else {
        seq![(strip_terminator(cs.first()), emitted_incomplete(pending, cap, cs.first()))]
            + run(pending_after(cap, cs.first()), cs.drop_first(), cap)
    }
}

/// Every record a splitter with window `cap` emits for the input `s`, in
/// emission order: terminator-stripped content plus incomplete mark.
pub open spec fn outputs(s: Seq<u8>, cap: nat) -> Seq<(Seq<u8>, bool)> {
    run(false, chunks(s, cap), cap)
}

/// All the byte sequences of `cs`, concatenated in order.
pub open spec fn concat_bytes(cs: Seq<Seq<u8>>) -> Seq<u8>
    decreases cs.len(),
{
    if cs.len() == 0 {
        Seq::empty()
    } else {
        cs.first() + concat_bytes(cs.drop_first())
    }
}

/// A run emits one record per chunk, each holding that chunk's
/// terminator-stripped content.
pub proof fn lemma_run_contents(pending: bool, cs: Seq<Seq<u8>>, cap: nat)
    ensures
        run(pending, cs, cap).len() == cs.len(),
        forall|k: int|
            0 <= k < cs.len() ==> #[trigger] run(pending, cs, cap)[k].0 == strip_terminator(
                cs[k],
            ),
    decreases cs.len(),
{
    if cs.len() > 0 {
        lemma_run_contents(pending_after(cap, cs.first()), cs.drop_first(), cap);
        assert forall|k: int| 0 <= k < cs.len() implies #[trigger] run(pending, cs, cap)[k].0
            == strip_terminator(cs[k]) by {
            if k > 0 {
                assert(run(pending, cs, cap)[k] == run(
                    pending_after(cap, cs.first()),
                    cs.drop_first(),
                    cap,
                )[k - 1]);
                assert(cs.drop_first()[k - 1] == cs[k]);
            }
        }
    }
}

/// Law: concatenating every emitted record's content in emission order, each
/// with its original terminator re-appended, reconstructs the input exactly.
/// Nothing is lost, reordered or invented when a logical line is handed out
/// piecewise.
pub proof fn lemma_records_reassemble_input(s: Seq<u8>, cap: nat)
    requires
        cap > 0,
    ensures
        outputs(s, cap).len() == chunks(s, cap).len(),
        concat_bytes(
            Seq::new(
                outputs(s, cap).len(),
                |k: int| outputs(s, cap)[k].0 + terminator_of(chunks(s, cap)[k]),
            ),
        ) == s,
{
    let cs = chunks(s, cap);
    lemma_run_contents(false, cs, cap);
    lemma_chunks_cover_input(s, cap);
    let rebuilt = Seq::new(
        outputs(s, cap).len(),
        |k: int| outputs(s, cap)[k].0 + terminator_of(cs[k]),
    );
    assert forall|k: int| 0 <= k < cs.len() implies rebuilt[k] == cs[k] by {
        lemma_strip_reassemble(cs[k]);
    }
    assert(rebuilt =~= cs);
}

/// The terminator-stripped contents of each of `cs`, concatenated in order.
pub open spec fn concat_contents(cs: Seq<Seq<u8>>) -> Seq<u8> {
    concat_bytes(cs.map_values(|c: Seq<u8>| strip_terminator(c)))
}

/// Law: for the chunks of one logical line — every chunk but the last
/// holding no terminator, which is how a capacity-bounded reader delivers a
/// line that overran its window — concatenating the emitted contents in
/// emission order and re-appending the last chunk's terminator reconstructs
/// the logical line's bytes exactly.
pub proof fn lemma_line_fragments_reassemble(cs: Seq<Seq<u8>>)
    requires
        cs.len() > 0,
        forall|k: int| 0 <= k < cs.len() - 1 ==> terminator_of(#[trigger] cs[k]).len() == 0,
    ensures
        concat_contents(cs) + terminator_of(cs.last()) == concat_bytes(cs),
    decreases cs.len(),
{
    let mapped = cs.map_values(|c: Seq<u8>| strip_terminator(c));
    lemma_strip_reassemble(cs[0]);
    assert(mapped.first() == strip_terminator(cs.first()));
    if cs.len() == 1 {
        assert(concat_bytes(mapped.drop_first()) =~= Seq::<u8>::empty()) by {
            assert(mapped.drop_first().len() == 0);
        }
        assert(concat_bytes(mapped) =~= strip_terminator(cs[0]));
        assert(concat_bytes(cs.drop_first()) =~= Seq::<u8>::empty()) by {
            assert(cs.drop_first().len() == 0);
        }
        assert(concat_bytes(cs) =~= cs[0]);
        assert(cs.last() == cs[0]);
        assert(concat_contents(cs) + terminator_of(cs.last()) == strip_terminator(cs[0])
            + terminator_of(cs[0]));
    } else {
        assert(strip_terminator(cs[0]) =~= cs[0]) by {
            assert(terminator_of(cs[0]).len() == 0);
            assert(strip_terminator(cs[0]) + terminator_of(cs[0]) == cs[0]);
        }
        let rest = cs.drop_first();
        assert forall|k: int|
            0 <= k < rest.len() - 1 implies terminator_of(#[trigger] rest[k]).len() == 0 by {
            assert(rest[k] == cs[k + 1]);
        }
        lemma_line_fragments_reassemble(rest);
        assert(rest.last() == cs.last());
        assert(mapped.drop_first() =~= rest.map_values(|c: Seq<u8>| strip_terminator(c)));
        assert((cs[0] + concat_contents(rest)) + terminator_of(cs.last()) =~= cs[0]
            + (concat_contents(rest) + terminator_of(cs.last())));
        assert(concat_contents(cs) + terminator_of(cs.last()) == cs[0] + concat_bytes(rest));
    }
}

/// A logical line fits within the window `cap` when it is at most `cap`
/// bytes with its terminator and strictly shorter than `cap` once stripped.
pub open spec fn line_within(l: Seq<u8>, cap: nat) -> bool {
    l.len() <= cap && strip_terminator(l).len() < cap
}

/// Law: when every logical line of the input fits within the window, the
/// splitter emits exactly the plain `\n`/`\r\n`-aware line split of the
/// input, in order, every record complete and none marked incomplete.
pub proof fn lemma_small_lines_split_plainly(s: Seq<u8>, cap: nat)
    requires
        cap > 0,
        forall|k: int|
            0 <= k < raw_lines(s).len() ==> line_within(#[trigger] raw_lines(s)[k], cap),
    ensures
        outputs(s, cap) == lines_of(s).map_values(|l: Seq<u8>| (l, false)),
    decreases s.len(),
{
    let rhs = lines_of(s).map_values(|l: Seq<u8>| (l, false));
    if s.len() == 0 {
        assert(outputs(s, cap) =~= rhs);
    } else {
        let i2: nat = scan_nl(s, s.len(), 0);
        lemma_scan_nl(s, s.len(), 0);
        let ls = line_split(s);
        let r0 = raw_lines(s)[0];
        assert(r0 == s.take(ls as int));
        assert(line_within(r0, cap));
        let b: nat = if s.len() <= cap {
            s.len()
        } else {
            cap
        };
        if i2 < s.len() {
            assert(r0.len() == ls);
            lemma_scan_nl_unique(s, b, 0, i2);
        } else {
            assert(s.take(s.len() as int) =~= s);
            assert(strip_terminator(s) == s);
            lemma_scan_nl_unique(s, b, 0, b);
        }
        let n = chunk_split(s, cap);
        assert(n == ls);
        let c0 = s.take(n as int);
        assert(strip_terminator(c0).len() < cap);
        let t = s.skip(n as int);
        assert forall|k: int|
            0 <= k < raw_lines(t).len() implies line_within(#[trigger] raw_lines(t)[k], cap) by {
            assert(raw_lines(t)[k] == raw_lines(s)[k + 1]);
        }
        lemma_small_lines_split_plainly(t, cap);
        assert(chunks(s, cap).first() == c0);
        assert(chunks(s, cap).drop_first() =~= chunks(t, cap));
        assert(raw_lines(s).drop_first() =~= raw_lines(t));
        lemma_run_contents(false, chunks(s, cap), cap);
        lemma_run_contents(false, chunks(t, cap), cap);
        assert forall|k: int| 0 <= k < outputs(s, cap).len() implies outputs(s, cap)[k] == rhs[k]
        by {
            if k == 0 {
                assert(outputs(s, cap)[0] == (strip_terminator(c0), emitted_incomplete(
                    false,
                    cap,
                    c0,
                )));
                assert(lines_of(s)[0] == strip_terminator(r0));
            } else {
                assert(outputs(s, cap)[k] == run(
                    pending_after(cap, c0),
                    chunks(s, cap).drop_first(),
                    cap,
                )[k - 1]);
                assert(pending_after(cap, c0) == false);
                assert(outputs(s, cap)[k] == outputs(t, cap)[k - 1]);
                assert(outputs(t, cap)[k - 1] == lines_of(t).map_values(
                    |l: Seq<u8>| (l, false),
                )[k - 1]);
                assert(lines_of(t)[k - 1] == strip_terminator(raw_lines(t)[k - 1]));
                assert(lines_of(s)[k] == strip_terminator(raw_lines(s)[k]));
                assert(raw_lines(s)[k] == raw_lines(t)[k - 1]);
            }
        }
        assert(outputs(s, cap).len() == chunks(s, cap).len());
        assert(rhs.len() == raw_lines(s).len());
        assert(raw_lines(s).len() == 1 + raw_lines(t).len());
        assert(chunks(s, cap).len() == 1 + chunks(t, cap).len());
        assert(chunks(t, cap).len() == raw_lines(t).len()) by {
            assert(outputs(t, cap).len() == chunks(t, cap).len());
            assert(outputs(t, cap) == lines_of(t).map_values(|l: Seq<u8>| (l, false)));
        }
        assert(outputs(s, cap) =~= rhs);
    }
}

/// The chunks of `s` are a partition of `s`: concatenated in order they give
/// the input back.
pub proof fn lemma_chunks_cover_input(s: Seq<u8>, cap: nat)
    requires
        cap > 0,
    ensures
        concat_bytes(chunks(s, cap)) == s,
    decreases s.len(),
{
    if s.len() == 0 {
        assert(concat_bytes(chunks(s, cap)) =~= s);
    } else {
        let b: nat = if s.len() <= cap {
            s.len()
        } else {
            cap
        };
        lemma_scan_nl(s, b, 0);
        let n = chunk_split(s, cap);
        lemma_chunks_cover_input(s.skip(n as int), cap);
        assert(chunks(s, cap).first() == s.take(n as int));
        assert(chunks(s, cap).drop_first() =~= chunks(s.skip(n as int), cap));
        assert(s.take(n as int) + s.skip(n as int) =~= s);
    }
}

} // verus!
