use reflines::{lines_rc, lines_rc_with_capacity, Error};
use std::io::{BufRead, BufReader, Cursor};

/// The bounded iterator must agree with std's own line iterator whenever
/// every line fits the window: same lines, same order, same end, and a
/// failure wherever std reports one.
fn assert_behave_same<T: AsRef<[u8]>>(input: &T) {
    let mut own_iter = BufReader::new(Cursor::new(input)).lines();
    let mut rc_iter = lines_rc(Cursor::new(input));
    loop {
        match (own_iter.next(), rc_iter.next()) {
            (Some(own_line), Some(rc_line)) => match own_line {
                Ok(o) => assert_eq!(o, *rc_line.unwrap()),
                Err(_) => {
                    rc_line.unwrap_err();
                }
            },
            (None, None) => break,
            (own_line, rc_line) => panic!(
                "one side ended early: std has more: {}, rc has more: {}",
                own_line.is_some(),
                rc_line.is_some()
            ),
        }
    }
}

#[test]
fn return_whitespace_line() {
    assert_behave_same(&" \r\n");
    assert_behave_same(&" \n");
}

#[test]
fn return_whitespace_on_last_line() {
    assert_behave_same(&"\r\n ");
    assert_behave_same(&"\n ");
}

#[test]
fn return_trailing_double_linebkreak() {
    assert_behave_same(&"\r\n\r\n");
    assert_behave_same(&"\n\n");
}

#[test]
fn return_whitespace_line_and_terminating_a() {
    assert_behave_same(&"\r\na")
}

#[test]
fn assert_non_ascii_returns_error() {
    let buf = ['a' as u8, 'b' as u8, 254];
    assert_behave_same(&buf);
}

#[test]
fn empty_input_has_no_lines() {
    assert_behave_same(&"");
    let mut lines = lines_rc(Cursor::new(""));
    assert!(lines.next().is_none());
    assert!(lines.next().is_none());
}

#[test]
fn oversized_line_is_split_by_the_reader() {
    let cursor = Cursor::new("12345678\r\n123");
    let mut lines = lines_rc_with_capacity(cursor, 5);
    if let Error::Incomplete(x) = lines.next().unwrap().unwrap_err() {
        assert_eq!(*x, "12345");
    } else {
        panic!("expected incomplete if EOL was not detected");
    }
    if let Error::Incomplete(x) = lines.next().unwrap().unwrap_err() {
        assert_eq!(*x, "678");
    } else {
        panic!("expected incomplete line for the rest");
    }
    assert_eq!(*lines.next().unwrap().unwrap(), "123");
    assert!(lines.next().is_none());
    assert!(lines.next().is_none());
}
