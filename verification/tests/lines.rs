use linemap::AbsoluteRange;
use linemap::Change;
use linemap::LineNumber;
use linemap::LinePosition;
use linemap::LineRange;
use linemap::MatchedLine;
use linemap::NewlinePositions;
use linemap::add_context;
use linemap::relevant_lines;

fn matched_line(i: usize) -> MatchedLine {
    MatchedLine {
        line: LineNumber::from(i),
        opposite_line: LineNumber::from(i),
    }
}

#[test]
fn from_offset_newline_boundary() {
    let newline_positions = NewlinePositions::from("abc\nbar");
    let position = newline_positions.from_offset(4);
    assert_eq!(
        position,
        LinePosition {
            line: LineNumber::from(1),
            column: 0
        }
    );
}

#[test]
fn from_offset_within_first_line() {
    let newline_positions = NewlinePositions::from("abc\nbar");
    let position = newline_positions.from_offset(2);
    assert_eq!(
        position,
        LinePosition {
            line: LineNumber::from(0),
            column: 2
        }
    );
}

#[test]
fn from_offset_is_monotonic() {
    let newline_positions = NewlinePositions::from("ab\ncd\nef");
    let mut previous_line = 0;
    for offset in 0..9 {
        let line = newline_positions.from_offset(offset).line.number;
        assert!(previous_line <= line);
        previous_line = line;
    }
}

#[test]
fn from_ranges_first_line() {
    let newline_positions = NewlinePositions::from("foo");
    let relative_ranges = newline_positions.from_ranges(&vec![AbsoluteRange { start: 1, end: 3 }]);
    assert_eq!(
        relative_ranges,
        vec![LineRange {
            line: LineNumber::from(0),
            start: 1,
            end: 3
        }]
    );
}

#[test]
fn from_ranges_split_over_multiple_lines() {
    let newline_positions = NewlinePositions::from("foo\nbar\nbaz\naaaaaaaaaaa");
    let relative_ranges = newline_positions.from_ranges(&vec![AbsoluteRange { start: 5, end: 10 }]);

    assert_eq!(
        relative_ranges,
        vec![
            (LineRange {
                line: LineNumber::from(1),
                start: 1,
                end: 3
            }),
            (LineRange {
                line: LineNumber::from(2),
                start: 0,
                end: 2
            })
        ]
    );
}

#[test]
fn relevant_lines_unique() {
    let changes = vec![
        Change {
            range: AbsoluteRange { start: 0, end: 6 },
            opposite_line: LineNumber::from(0),
        },
        Change {
            range: AbsoluteRange { start: 1, end: 2 },
            opposite_line: LineNumber::from(5),
        },
    ];
    let result = relevant_lines(&changes, "foo\nbar");
    assert_eq!(
        result,
        vec![
            MatchedLine {
                line: LineNumber::from(0),
                opposite_line: LineNumber::from(0),
            },
            MatchedLine {
                line: LineNumber::from(1),
                opposite_line: LineNumber::from(0),
            },
        ]
    );
    for i in 0..result.len() {
        for j in (i + 1)..result.len() {
            assert_ne!(result[i].line, result[j].line);
        }
    }
}

#[test]
fn relevant_lines_first_encounter_order() {
    let changes = vec![
        Change {
            range: AbsoluteRange { start: 4, end: 5 },
            opposite_line: LineNumber::from(7),
        },
        Change {
            range: AbsoluteRange { start: 0, end: 1 },
            opposite_line: LineNumber::from(2),
        },
    ];
    let result = relevant_lines(&changes, "foo\nbar");
    assert_eq!(
        result,
        vec![
            MatchedLine {
                line: LineNumber::from(1),
                opposite_line: LineNumber::from(7),
            },
            MatchedLine {
                line: LineNumber::from(0),
                opposite_line: LineNumber::from(2),
            },
        ]
    );
}

#[test]
fn test_add_context() {
    let start_lines = [matched_line(5), matched_line(12), matched_line(14)];
    let result = add_context(&start_lines, 2, LineNumber::from(20));

    let expected = [
        matched_line(3),
        matched_line(4),
        matched_line(5),
        matched_line(6),
        matched_line(7),
        matched_line(10),
        matched_line(11),
        matched_line(12),
        matched_line(13),
        matched_line(14),
        matched_line(15),
        matched_line(16),
    ];
    assert_eq!(result, expected);
}

#[test]
fn test_add_zero_context() {
    let start_lines = [
        MatchedLine {
            line: LineNumber::from(5),
            opposite_line: LineNumber::from(5),
        },
        MatchedLine {
            line: LineNumber::from(12),
            opposite_line: LineNumber::from(12),
        },
        MatchedLine {
            line: LineNumber::from(14),
            opposite_line: LineNumber::from(14),
        },
    ];
    let result = add_context(&start_lines, 0, LineNumber::from(20));

    assert_eq!(result, start_lines);
}

#[test]
fn add_context_clamps_at_buffer_edges() {
    let start_lines = [MatchedLine {
        line: LineNumber::from(1),
        opposite_line: LineNumber::from(1),
    }];
    let result = add_context(&start_lines, 3, LineNumber::from(2));
    assert_eq!(
        result,
        vec![matched_line(0), matched_line(1), matched_line(2)]
    );
}

#[test]
fn add_context_clamps_opposite_at_zero() {
    let start_lines = [MatchedLine {
        line: LineNumber::from(2),
        opposite_line: LineNumber::from(0),
    }];
    let result = add_context(&start_lines, 2, LineNumber::from(10));
    let expected = vec![
        MatchedLine {
            line: LineNumber::from(0),
            opposite_line: LineNumber::from(0),
        },
        MatchedLine {
            line: LineNumber::from(1),
            opposite_line: LineNumber::from(0),
        },
        MatchedLine {
            line: LineNumber::from(2),
            opposite_line: LineNumber::from(0),
        },
        MatchedLine {
            line: LineNumber::from(3),
            opposite_line: LineNumber::from(1),
        },
        MatchedLine {
            line: LineNumber::from(4),
            opposite_line: LineNumber::from(2),
        },
    ];
    assert_eq!(result, expected);
}

#[test]
fn relevant_lines_no_changes() {
    let changes: Vec<Change> = vec![];
    let result = relevant_lines(&changes, "foo\nbar");
    assert_eq!(result, vec![]);
}

#[test]
fn from_offset_past_buffer_end() {
    let newline_positions = NewlinePositions::from("abc");
    let position = newline_positions.from_offset(10);
    assert_eq!(
        position,
        LinePosition {
            line: LineNumber::from(0),
            column: 10
        }
    );
}
