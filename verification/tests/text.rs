use linemap::LineNumber;
use linemap::enforce_length;
use linemap::max_line;

#[test]
fn enforce_length_short() {
    let result = enforce_length("foo\nbar\n", 5);
    assert_eq!(result, "foo  \nbar  \n");
}

#[test]
fn enforce_length_long() {
    let result = enforce_length("foobar\nbarbaz\n", 3);
    assert_eq!(result, "foo\nbar\n");
}

#[test]
fn enforce_length_idempotent() {
    let once = enforce_length("foobar\nx\n\nyz", 4);
    assert_eq!(once, "foob\nx   \n    \nyz  \n");
    let twice = enforce_length(&once, 4);
    assert_eq!(twice, once);
}

#[test]
fn enforce_length_empty_text() {
    assert_eq!(enforce_length("", 4), "");
}

#[test]
fn enforce_length_terminates_last_line() {
    assert_eq!(enforce_length("ab", 3), "ab \n");
}

#[test]
fn max_line_without_trailing_newline() {
    assert_eq!(max_line("foo\nbar"), LineNumber::from(1));
}

#[test]
fn max_line_with_trailing_newline() {
    assert_eq!(max_line("foo\nbar\n"), LineNumber::from(1));
}

#[test]
fn max_line_single_line() {
    assert_eq!(max_line("x"), LineNumber::from(0));
}
