use reflines::splitter::LineSplitter;
use reflines::Error;
use std::rc::Rc;

fn chunk(bytes: &[u8]) -> Option<Result<Vec<u8>, std::io::Error>> {
    Some(Ok(bytes.to_vec()))
}

fn expect_ok(r: Option<Result<Rc<String>, Error<Rc<String>>>>) -> Rc<String> {
    match r {
        Some(Ok(h)) => h,
        other => panic!("expected a complete line, got {:?}", other),
    }
}

fn expect_incomplete(r: Option<Result<Rc<String>, Error<Rc<String>>>>) -> Rc<String> {
    match r {
        Some(Err(Error::Incomplete(h))) => h,
        other => panic!("expected an incomplete fragment, got {:?}", other),
    }
}

#[test]
fn oversized_line_is_emitted_piecewise() {
    // Capacity 5 and input "12345678\r\n123": the reader delivers "12345"
    // (window full, no terminator), then "678\r\n", then "123" at end of
    // stream.  The first two records are incomplete, the last is a complete
    // line: it fits in one fill and no piece of it was ever truncated.
    let mut splitter = LineSplitter::new(5);
    assert_eq!(*expect_incomplete(splitter.handle_event(chunk(b"12345"))), "12345");
    assert_eq!(*expect_incomplete(splitter.handle_event(chunk(b"678\r\n"))), "678");
    assert_eq!(*expect_ok(splitter.handle_event(chunk(b"123"))), "123");
    assert!(splitter.handle_event(None).is_none());
}

#[test]
fn small_lines_come_back_complete_and_in_order() {
    let mut splitter = LineSplitter::new(64);
    assert_eq!(*expect_ok(splitter.handle_event(chunk(b"x\n"))), "x");
    assert_eq!(*expect_ok(splitter.handle_event(chunk(b"y\r\n"))), "y");
    assert_eq!(*expect_ok(splitter.handle_event(chunk(b" \n"))), " ");
    assert_eq!(*expect_ok(splitter.handle_event(chunk(b"tail"))), "tail");
}

#[test]
fn fragments_reassemble_the_original_line() {
    // Capacity 3 and the logical line "abcd\n": concatenating the emitted
    // contents and re-appending the terminator gives the line back.
    let mut splitter = LineSplitter::new(3);
    let first = expect_incomplete(splitter.handle_event(chunk(b"abc")));
    let second = expect_incomplete(splitter.handle_event(chunk(b"d\n")));
    let rebuilt = format!("{}{}\n", first, second);
    assert_eq!(rebuilt.as_bytes(), b"abcd\n");
}

#[test]
fn invalid_utf8_reports_encoding_failure() {
    // "ab\xFE" fits the window whole, but its trailing byte is not valid
    // UTF-8, so the one emitted record is an encoding failure, not a line.
    let mut splitter = LineSplitter::new(64);
    match splitter.handle_event(chunk(&[b'a', b'b', 254])) {
        Some(Err(Error::Encoding(_))) => {}
        other => panic!("expected an encoding failure, got {:?}", other),
    }
    // The failure does not end the sequence: a later valid line still comes.
    assert_eq!(*expect_ok(splitter.handle_event(chunk(b"ok\n"))), "ok");
}

#[test]
fn carriage_return_alone_is_not_a_terminator() {
    let mut splitter = LineSplitter::new(64);
    assert_eq!(*expect_ok(splitter.handle_event(chunk(b"ab\r"))), "ab\r");
}

#[test]
fn io_failure_is_forwarded_verbatim() {
    let mut splitter = LineSplitter::new(64);
    let failure = std::io::Error::new(std::io::ErrorKind::UnexpectedEof, "broken pipe");
    match splitter.handle_event(Some(Err(failure))) {
        Some(Err(Error::Io(e))) => assert_eq!(e.kind(), std::io::ErrorKind::UnexpectedEof),
        other => panic!("expected a forwarded reader failure, got {:?}", other),
    }
    // The failure does not end the sequence either.
    assert_eq!(*expect_ok(splitter.handle_event(chunk(b"on\n"))), "on");
}

#[test]
fn exhaustion_is_idempotent() {
    let mut splitter = LineSplitter::new(8);
    assert_eq!(*expect_ok(splitter.handle_event(chunk(b"last\n"))), "last");
    assert!(splitter.handle_event(None).is_none());
    assert!(splitter.handle_event(None).is_none());
    assert!(splitter.handle_event(None).is_none());
}

#[test]
fn dropped_handles_let_the_buffer_be_reused() {
    // When the caller drops the previous handle before asking again, the
    // next record is written into the very same shared storage: repeated
    // calls do not grow the allocated storage.
    let mut splitter = LineSplitter::new(64);
    let first = expect_ok(splitter.handle_event(chunk(b"aaa\n")));
    let storage = Rc::as_ptr(&first);
    drop(first);
    let second = expect_ok(splitter.handle_event(chunk(b"bbb\n")));
    assert_eq!(*second, "bbb");
    assert_eq!(Rc::as_ptr(&second), storage);
}

#[test]
fn retained_handles_are_never_overwritten() {
    // When the caller keeps the previous handle, the next record goes into
    // fresh storage and the old content stays intact.
    let mut splitter = LineSplitter::new(64);
    let kept = expect_ok(splitter.handle_event(chunk(b"ccc\n")));
    let next = expect_ok(splitter.handle_event(chunk(b"ddd\n")));
    assert_eq!(*kept, "ccc");
    assert_eq!(*next, "ddd");
    assert!(!Rc::ptr_eq(&kept, &next));
}

#[test]
fn truncated_line_taints_its_natural_tail() {
    // The final piece of a truncated logical line ends cleanly at a
    // terminator, yet it must still be reported incomplete.
    let mut splitter = LineSplitter::new(4);
    assert_eq!(*expect_incomplete(splitter.handle_event(chunk(b"wxyz"))), "wxyz");
    assert_eq!(*expect_incomplete(splitter.handle_event(chunk(b"!\n"))), "!");
    // The line after it is untainted.
    assert_eq!(*expect_ok(splitter.handle_event(chunk(b"ok\n"))), "ok");
}

#[test]
fn exact_fit_with_terminator_is_complete() {
    // A chunk that fills the window but ends with a terminator held the
    // whole logical line, so the record is complete.
    let mut splitter = LineSplitter::new(5);
    assert_eq!(*expect_ok(splitter.handle_event(chunk(b"1234\n"))), "1234");
    // A chunk that fills the window once stripped did not: it is truncated.
    assert_eq!(*expect_incomplete(splitter.handle_event(chunk(b"56789"))), "56789");
}
