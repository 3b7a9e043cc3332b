use editor_core::lines::EditLine;
use editor_core::virtual_file::{parse_chunk, LineCursor, LoadedLine};

#[test]
fn line_cursor_moves_within_its_version() {
    let cursor = LineCursor::at_anchor(7);
    assert_eq!(cursor.relative(), 0);
    assert_eq!(cursor.offset_version(), 7);
    let next = cursor.plus(3);
    assert_eq!(next.relative(), 3);
    assert_eq!(next.offset_version(), 7);
    let back = next.plus(-5);
    assert_eq!(back.relative(), -2);
    assert_eq!(back.plus(2), cursor);
    assert_ne!(LineCursor::at_anchor(8), cursor);
}

#[test]
fn loaded_line_keeps_its_place_in_the_file() {
    let line = LoadedLine::from_loaded(EditLine::new("a\u{20ac}b".to_string()), 40);
    assert_eq!(line.line().str(), "a\u{20ac}b");
    let loc = line.loaded_loc().unwrap();
    assert_eq!(loc.loaded_offset, 40);
    assert_eq!(loc.loaded_size, 5);
}

#[test]
fn new_line_has_no_place_in_the_file() {
    let line = LoadedLine::new(EditLine::new("text".to_string()));
    assert_eq!(line.line().str(), "text");
    assert!(line.loaded_loc().is_none());
    assert_eq!(LoadedLine::new(EditLine::empty()).line().str(), "");
}

#[test]
fn test_parse_chunk() {
    let data = b"line1\nline2\nline3\n";
    let lines = parse_chunk(&data.to_vec());
    assert_eq!(lines.len(), 4);
    assert_eq!(lines[0].str(), "line1");
    assert_eq!(lines[1].str(), "line2");
    assert_eq!(lines[2].str(), "line3");
    assert_eq!(lines[3].str(), "");
}

#[test]
fn test_parse_chunk_empty() {
    let data = b"";
    let lines = parse_chunk(&data.to_vec());
    assert_eq!(lines.len(), 0);
}

#[test]
fn test_parse_chunk_no_newline() {
    let data = b"line1";
    let lines = parse_chunk(&data.to_vec());
    assert_eq!(lines.len(), 1);
    assert_eq!(lines[0].str(), "line1");
}

#[test]
fn test_parse_chunk_multiple_newlines() {
    let data = b"line1\n\nline2\n";
    let lines = parse_chunk(&data.to_vec());
    assert_eq!(lines.len(), 4);
    assert_eq!(lines[0].str(), "line1");
    assert_eq!(lines[1].str(), "");
    assert_eq!(lines[2].str(), "line2");
    assert_eq!(lines[3].str(), "");
}

#[test]
fn parse_chunk_of_one_line_feed_and_of_broken_text() {
    let lines = parse_chunk(&b"\n".to_vec());
    assert_eq!(lines.len(), 2);
    assert_eq!(lines[0].str(), "");
    assert_eq!(lines[1].str(), "");
    let lines = parse_chunk(&vec![b'a', 0xFF, b'\n', b'b']);
    assert_eq!(lines.len(), 2);
    assert_eq!(lines[0].str(), "a\u{fffd}");
    assert_eq!(lines[1].str(), "b");
}
