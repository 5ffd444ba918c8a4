use std::sync::Arc;

use pest::{Position, Span};

#[test]
fn split() {
    let input = Arc::new(String::from("a"));
    let start = Position::from_start(input);
    let mut end = start.clone();

    assert!(end.skip(1));

    let span = start.clone().span(&end.clone());

    assert_eq!(span.split(), (start, end));
}

#[test]
fn lines_mid() {
    let input = Arc::new(String::from("abc\ndef\nghi"));
    let span = Span::new(input, 1, 7).unwrap();
    let mut lines: Vec<String> = Vec::new();
    let mut cursor = span.lines();
    while let Some(line) = cursor.next() {
        lines.push(line);
    }
    assert_eq!(lines.len(), 2);
    assert_eq!(lines[0], "abc\n".to_owned());
    assert_eq!(lines[1], "def\n".to_owned());
}

#[test]
fn lines_eof() {
    let input = Arc::new(String::from("abc\ndef\nghi"));
    let span = Span::new(input, 5, 11).unwrap();
    assert!(span.end_pos().at_end());
    let mut lines: Vec<String> = Vec::new();
    let mut cursor = span.lines();
    while let Some(line) = cursor.next() {
        lines.push(line);
    }
    assert_eq!(lines.len(), 2);
    assert_eq!(lines[0], "def\n".to_owned());
    assert_eq!(lines[1], "ghi".to_owned());
}

// The concatenation of the yielded lines covers exactly the text from the
// start of the first covered line to the end of the last covered line, even
// when the span starts and ends mid-line.
#[test]
fn lines_concatenation_covers_whole_lines() {
    let input = Arc::new(String::from("abc\ndef\nghi"));
    let span = Span::new(Arc::clone(&input), 1, 7).unwrap();
    let mut joined = String::new();
    let mut cursor = span.lines();
    while let Some(line) = cursor.next() {
        joined.push_str(&line);
    }
    assert_eq!(joined, input[0..8].to_owned());

    let span = Span::new(Arc::clone(&input), 5, 9).unwrap();
    let mut joined = String::new();
    let mut cursor = span.lines();
    while let Some(line) = cursor.next() {
        joined.push_str(&line);
    }
    assert_eq!(joined, "def\nghi".to_owned());
}

#[test]
fn span_new_validates_offsets() {
    let input = Arc::new(String::from("Hello!"));
    assert_eq!(None, Span::new(Arc::clone(&input), 100, 0));
    assert_eq!(None, Span::new(Arc::clone(&input), 3, 1));
    assert_eq!(None, Span::new(Arc::clone(&input), 0, 7));
    assert!(Span::new(Arc::clone(&input), 0, 6).is_some());
    assert_eq!("ell", Span::new(Arc::clone(&input), 1, 4).unwrap().as_str());
    assert_eq!("", Span::new(Arc::clone(&input), 2, 2).unwrap().as_str());

    // `é` occupies bytes 1 and 2: offset 2 falls inside the codepoint.
    let accented = Arc::new(String::from("h\u{e9}llo"));
    assert_eq!(None, Span::new(Arc::clone(&accented), 0, 2));
    assert_eq!(None, Span::new(Arc::clone(&accented), 2, 3));
    assert_eq!("\u{e9}", Span::new(Arc::clone(&accented), 1, 3).unwrap().as_str());
}

#[test]
fn empty_input_and_empty_span() {
    let input = Arc::new(String::new());
    let span = Span::new(Arc::clone(&input), 0, 0).unwrap();
    assert_eq!("", span.as_str());
    assert!(span.lines().next().is_none());
    assert!(Position::from_start(input).at_end());
}

#[test]
fn span_identity_equality() {
    let input = Arc::new(String::from("abc"));
    let one = Span::new(Arc::clone(&input), 0, 2).unwrap();
    let two = Span::new(Arc::clone(&input), 0, 2).unwrap();
    assert_eq!(one, two);
    assert!(one != Span::new(Arc::clone(&input), 0, 3).unwrap());

    let other_run = Span::new(Arc::new(String::from("abc")), 0, 2).unwrap();
    assert!(one != other_run);
}

#[test]
fn span_getters() {
    let input = Arc::new(String::from("abc\ndef"));
    let span = Span::new(Arc::clone(&input), 2, 5).unwrap();
    assert_eq!(2, span.start());
    assert_eq!(5, span.end());
    assert_eq!(2, span.start_pos().pos());
    assert_eq!(5, span.end_pos().pos());
    assert_eq!("c\nd", span.as_str());
    assert_eq!("abc\ndef", span.input().as_str());
}

#[test]
fn position_line_boundaries() {
    let input = Arc::new(String::from("abc\ndef\nghi"));
    let pos = Position::new(Arc::clone(&input), 5).unwrap();
    assert_eq!(4, pos.find_line_start());
    assert_eq!(8, pos.find_line_end());
    assert!(!pos.at_end());

    let at_start = Position::from_start(Arc::clone(&input));
    assert_eq!(0, at_start.find_line_start());
    assert_eq!(4, at_start.find_line_end());

    let at_end = Position::new(Arc::clone(&input), 11).unwrap();
    assert!(at_end.at_end());
    assert_eq!(8, at_end.find_line_start());
    assert_eq!(11, at_end.find_line_end());
}

#[test]
fn position_new_rejects_mid_codepoint() {
    let input = Arc::new(String::from("h\u{e9}llo"));
    assert!(Position::new(Arc::clone(&input), 2).is_none());
    assert!(Position::new(Arc::clone(&input), 20).is_none());
    assert!(Position::new(Arc::clone(&input), 1).is_some());
}

#[test]
fn position_skip_counts_characters() {
    let input = Arc::new(String::from("\u{e9}a"));
    let mut pos = Position::from_start(Arc::clone(&input));
    assert!(pos.skip(1));
    assert_eq!(2, pos.pos());
    assert!(pos.skip(1));
    assert_eq!(3, pos.pos());
    assert!(!pos.skip(1));
    assert_eq!(3, pos.pos());

    let mut fresh = Position::from_start(Arc::clone(&input));
    assert!(!fresh.skip(3));
    assert_eq!(0, fresh.pos());
}
