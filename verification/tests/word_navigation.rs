use editor_core::text_buffer::TextBuffer;
use editor_core::word_navigation::{
    find_completion_word_start, find_word_end, find_word_start, find_word_start_left,
    find_word_start_right, is_word_char,
};


#[test]
fn test_is_word_char() {
    assert!(is_word_char(b'a'));
    assert!(is_word_char(b'Z'));
    assert!(is_word_char(b'0'));
    assert!(is_word_char(b'_'));
    assert!(!is_word_char(b' '));
    assert!(!is_word_char(b'.'));
    assert!(!is_word_char(b'-'));
}

#[test]
fn test_find_word_start() {
    let buffer = TextBuffer::new(b"hello world test".to_vec());
    assert_eq!(find_word_start(&buffer, 0), 0); // Start of "hello"
    assert_eq!(find_word_start(&buffer, 3), 0); // Middle of "hello"
    assert_eq!(find_word_start(&buffer, 6), 6); // Start of "world"
    assert_eq!(find_word_start(&buffer, 8), 6); // Middle of "world"
}

#[test]
fn test_find_word_end() {
    let buffer = TextBuffer::new(b"hello world test".to_vec());
    assert_eq!(find_word_end(&buffer, 0), 5); // End of "hello"
    assert_eq!(find_word_end(&buffer, 3), 5); // Middle of "hello"
    assert_eq!(find_word_end(&buffer, 6), 11); // End of "world"
}

#[test]
fn test_find_word_start_left() {
    let buffer = TextBuffer::new(b"hello world test".to_vec());
    assert_eq!(find_word_start_left(&buffer, 6), 0); // From "world" to "hello"
    assert_eq!(find_word_start_left(&buffer, 12), 6); // From "test" to "world"
}

#[test]
fn test_find_word_start_right() {
    let buffer = TextBuffer::new(b"hello world test".to_vec());
    assert_eq!(find_word_start_right(&buffer, 0), 6); // From "hello" to "world"
    assert_eq!(find_word_start_right(&buffer, 6), 12); // From "world" to "test"
}

#[test]
fn completion_word_starts() {
    let buffer = TextBuffer::new(b"args.som".to_vec());
    assert_eq!(find_completion_word_start(&buffer, 8), 5);
    let buffer = TextBuffer::new(b"Self::new".to_vec());
    assert_eq!(find_completion_word_start(&buffer, 9), 6);
    let buffer = TextBuffer::new(b"hello".to_vec());
    assert_eq!(find_completion_word_start(&buffer, 5), 0);
    let buffer = TextBuffer::new(b"args.".to_vec());
    assert_eq!(find_completion_word_start(&buffer, 5), 5);
    assert_eq!(find_completion_word_start(&buffer, 0), 0);
}

#[test]
fn word_searches_at_the_edges() {
    let buffer = TextBuffer::new(b"hello world test".to_vec());
    assert_eq!(find_word_end(&buffer, 16), 16);
    assert_eq!(find_word_end(&buffer, 40), 16);
    assert_eq!(find_word_end(&buffer, 5), 5);
    assert_eq!(find_word_start_right(&buffer, 12), 16);
    assert_eq!(find_word_start_right(&buffer, 99), 16);
    assert_eq!(find_word_start(&buffer, 16), 12);
    assert_eq!(find_word_start(&buffer, 99), 12);
    assert_eq!(find_word_start_left(&buffer, 0), 0);
    assert_eq!(find_word_start_left(&buffer, 3), 0);
    let empty = TextBuffer::empty();
    assert_eq!(find_word_start(&empty, 4), 0);
    assert_eq!(find_word_start_left(&empty, 4), 0);
    assert_eq!(find_word_end(&empty, 0), 0);
}

#[test]
fn word_searches_stop_at_the_scan_window() {
    let mut text = vec![b'a'; 1500];
    text.push(b' ');
    let buffer = TextBuffer::new(text);
    assert_eq!(find_word_start(&buffer, 1400), 400);
    assert_eq!(find_word_end(&buffer, 100), 1100);
    assert_eq!(find_word_end(&buffer, 600), 1500);
}
