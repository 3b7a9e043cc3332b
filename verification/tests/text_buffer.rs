use editor_core::piece_tree::{BufferLocation, Position};
use editor_core::text_buffer::TextBuffer;


#[test]
fn test_empty_buffer() {
    let buffer = TextBuffer::empty();
    assert_eq!(buffer.total_bytes(), 0);
    assert_eq!(buffer.line_count(), 1); // Empty doc has 1 line
}

#[test]
fn test_new_from_content() {
    let buffer = TextBuffer::new(b"hello\nworld".to_vec());
    assert_eq!(buffer.total_bytes(), 11);
    assert_eq!(buffer.line_count(), 2);
}

#[test]
fn test_get_all_text() {
    let buffer = TextBuffer::new(b"hello\nworld".to_vec());
    assert_eq!(buffer.get_all_text(), b"hello\nworld");
}

#[test]
fn test_insert_at_start() {
    let mut buffer = TextBuffer::new(b"world".to_vec());
    buffer.insert_bytes(0, b"hello ".to_vec());

    assert_eq!(buffer.get_all_text(), b"hello world");
    assert_eq!(buffer.total_bytes(), 11);
}

#[test]
fn test_insert_in_middle() {
    let mut buffer = TextBuffer::new(b"helloworld".to_vec());
    buffer.insert_bytes(5, b" ".to_vec());

    assert_eq!(buffer.get_all_text(), b"hello world");
    assert_eq!(buffer.total_bytes(), 11);
}

#[test]
fn test_insert_at_end() {
    let mut buffer = TextBuffer::new(b"hello".to_vec());
    buffer.insert_bytes(5, b" world".to_vec());

    assert_eq!(buffer.get_all_text(), b"hello world");
    assert_eq!(buffer.total_bytes(), 11);
}

#[test]
fn test_insert_with_newlines() {
    let mut buffer = TextBuffer::new(b"hello".to_vec());
    buffer.insert_bytes(5, b"\nworld\ntest".to_vec());

    assert_eq!(buffer.get_all_text(), b"hello\nworld\ntest");
    assert_eq!(buffer.line_count(), 3);
}

#[test]
fn test_delete_from_start() {
    let mut buffer = TextBuffer::new(b"hello world".to_vec());
    buffer.delete_bytes(0, 6);

    assert_eq!(buffer.get_all_text(), b"world");
    assert_eq!(buffer.total_bytes(), 5);
}

#[test]
fn test_delete_from_middle() {
    let mut buffer = TextBuffer::new(b"hello world".to_vec());
    buffer.delete_bytes(5, 1);

    assert_eq!(buffer.get_all_text(), b"helloworld");
    assert_eq!(buffer.total_bytes(), 10);
}

#[test]
fn test_delete_from_end() {
    let mut buffer = TextBuffer::new(b"hello world".to_vec());
    buffer.delete_bytes(6, 5);

    assert_eq!(buffer.get_all_text(), b"hello ");
    assert_eq!(buffer.total_bytes(), 6);
}

#[test]
fn test_delete_with_newlines() {
    let mut buffer = TextBuffer::new(b"hello\nworld\ntest".to_vec());
    buffer.delete_bytes(5, 7); // Delete "\nworld\n"

    assert_eq!(buffer.get_all_text(), b"hellotest");
    assert_eq!(buffer.line_count(), 1);
}

#[test]
fn test_offset_position_conversions() {
    let buffer = TextBuffer::new(b"hello\nworld\ntest".to_vec());

    let pos = buffer.offset_to_position(0);
    assert_eq!(pos, Position { line: 0, column: 0 });

    let pos = buffer.offset_to_position(6);
    assert_eq!(pos, Position { line: 1, column: 0 });

    let offset = buffer.position_to_offset(Position { line: 1, column: 0 });
    assert_eq!(offset, 6);
}

#[test]
fn test_insert_at_position() {
    let mut buffer = TextBuffer::new(b"hello\nworld".to_vec());
    buffer.insert_at_position(Position { line: 1, column: 0 }, b"beautiful ".to_vec());

    assert_eq!(buffer.get_all_text(), b"hello\nbeautiful world");
}

#[test]
fn test_delete_range() {
    let mut buffer = TextBuffer::new(b"hello\nworld\ntest".to_vec());

    let start = Position { line: 0, column: 5 };
    let end = Position { line: 2, column: 0 };
    buffer.delete_range(start, end);

    assert_eq!(buffer.get_all_text(), b"hellotest");
}

#[test]
fn test_get_line() {
    let buffer = TextBuffer::new(b"hello\nworld\ntest".to_vec());

    assert_eq!(buffer.get_line(0), Some(b"hello\n".to_vec()));
    assert_eq!(buffer.get_line(1), Some(b"world\n".to_vec()));
    assert_eq!(buffer.get_line(2), Some(b"test".to_vec()));
    assert_eq!(buffer.get_line(3), None);
}

#[test]
fn test_multiple_operations() {
    let mut buffer = TextBuffer::new(b"line1\nline2\nline3".to_vec());

    buffer.insert_bytes(0, b"start\n".to_vec());
    assert_eq!(buffer.line_count(), 4);

    buffer.delete_bytes(6, 6); // Delete "line1\n"
    assert_eq!(buffer.line_count(), 3);

    buffer.insert_bytes(6, b"new\n".to_vec());
    assert_eq!(buffer.line_count(), 4);

    let text = buffer.get_all_text();
    assert_eq!(text, b"start\nnew\nline2\nline3");
}

#[test]
fn test_get_text_range() {
    let buffer = TextBuffer::new(b"hello world".to_vec());

    assert_eq!(buffer.get_text_range(0, 5), b"hello");
    assert_eq!(buffer.get_text_range(6, 5), b"world");
    assert_eq!(buffer.get_text_range(0, 11), b"hello world");
}

#[test]
fn text_buffer_test_empty_operations() {
    let mut buffer = TextBuffer::new(b"hello".to_vec());

    buffer.insert_bytes(2, Vec::new());
    assert_eq!(buffer.get_all_text(), b"hello");

    buffer.delete_bytes(2, 0);
    assert_eq!(buffer.get_all_text(), b"hello");
}

#[test]
fn test_sequential_inserts_at_beginning() {
    // Two inserts at the start must keep their order
    let mut buffer = TextBuffer::new(b"initial\ntext".to_vec());

    // Delete all
    buffer.delete_bytes(0, 12);
    assert_eq!(buffer.get_all_text(), b"");

    // Insert 'a' at 0
    buffer.insert_bytes(0, vec![b'a']);
    assert_eq!(buffer.get_all_text(), b"a");

    // Insert 'b' at 0 (should give "ba")
    buffer.insert_bytes(0, vec![b'b']);
    assert_eq!(buffer.get_all_text(), b"ba");
}

fn text_with_newlines(seed: u64, len: usize) -> Vec<u8> {
    let mut state = seed;
    let mut text = Vec::new();
    for _ in 0..len {
        state = state.wrapping_mul(6364136223846793005).wrapping_add(1442695040888963407);
        let pick = (state >> 33) % 27;
        if pick == 26 {
            text.push(b'\n');
        } else {
            text.push(b'a' + pick as u8);
        }
    }
    text
}

fn next(state: &mut u64, bound: usize) -> usize {
    *state = state.wrapping_mul(6364136223846793005).wrapping_add(1442695040888963407);
    ((*state >> 33) as usize) % bound
}

#[test]
fn line_count_is_line_feeds_plus_one() {
    for seed in 0..40u64 {
        let text = text_with_newlines(seed, (seed as usize * 7) % 100);
        let buffer = TextBuffer::new(text.clone());
        let newline_count = text.iter().filter(|&&b| b == b'\n').count();
        assert_eq!(buffer.line_count(), newline_count + 1);
        assert_eq!(buffer.get_all_text(), text);
    }
}

#[test]
fn offset_position_round_trip_for_every_offset() {
    for seed in 0..40u64 {
        let text = text_with_newlines(seed + 100, 1 + (seed as usize * 5) % 90);
        let buffer = TextBuffer::new(text.clone());
        for offset in 0..=text.len() {
            let pos = buffer.offset_to_position(offset);
            let back = buffer.position_to_offset(pos);
            assert_eq!(back, offset);
        }
    }
}

#[test]
fn slices_match_the_content() {
    for seed in 0..20u64 {
        let text = text_with_newlines(seed + 200, 1 + (seed as usize * 9) % 90);
        let mut buffer = TextBuffer::new(text.clone());
        buffer.insert_bytes(text.len() / 2, b"xyz".to_vec());
        let content = buffer.get_all_text();
        for offset in 0..=content.len() {
            for len in 0..=(content.len() - offset) {
                assert_eq!(buffer.get_text_range(offset, len), content[offset..offset + len].to_vec());
            }
        }
    }
}

#[test]
fn slice_is_clamped_to_the_document() {
    let buffer = TextBuffer::new(b"hello world".to_vec());
    assert_eq!(buffer.get_text_range(6, 100), b"world");
    assert_eq!(buffer.get_text_range(11, 5), b"");
    assert_eq!(buffer.get_text_range(50, 5), b"");
}

#[test]
fn random_edits_match_a_plain_vector() {
    for seed in 0..30u64 {
        let mut state = seed + 7;
        let mut buffer = TextBuffer::new(b"initial\ntext".to_vec());
        let mut expected = b"initial\ntext".to_vec();
        for _ in 0..60 {
            if next(&mut state, 2) == 0 {
                let offset = next(&mut state, 200);
                let len = next(&mut state, 12);
                let text = text_with_newlines(state, len);
                buffer.insert_bytes(offset, text.clone());
                let at = offset.min(expected.len());
                expected.splice(at..at, text);
            } else {
                let offset = next(&mut state, 200);
                let bytes = 1 + next(&mut state, 49);
                buffer.delete_bytes(offset, bytes);
                if offset < expected.len() {
                    let bytes = bytes.min(expected.len() - offset);
                    expected.drain(offset..offset + bytes);
                }
            }
            assert_eq!(buffer.total_bytes(), expected.len());
            let newline_count = expected.iter().filter(|&&b| b == b'\n').count();
            assert_eq!(buffer.line_count(), newline_count + 1);
            assert!(buffer.line_count() >= 1);
        }
        assert_eq!(buffer.get_all_text(), expected);
        for offset in 0..=expected.len() {
            let pos = buffer.offset_to_position(offset);
            assert_eq!(buffer.position_to_offset(pos), offset);
        }
    }
}

#[test]
fn insert_then_delete_restores_the_text() {
    for seed in 0..30u64 {
        let text = text_with_newlines(seed + 300, (seed as usize * 3) % 100);
        let inserted = text_with_newlines(seed + 400, 1 + (seed as usize) % 20);
        let mut buffer = TextBuffer::new(text.clone());
        let offset = (seed as usize * 11) % (text.len() + 1);
        let initial = buffer.total_bytes();
        buffer.insert_bytes(offset, inserted.clone());
        assert_eq!(buffer.total_bytes(), initial + inserted.len());
        buffer.delete_bytes(offset, inserted.len());
        assert_eq!(buffer.get_all_text(), text);
    }
}

#[test]
fn insert_past_the_end_appends() {
    let mut buffer = TextBuffer::new(b"abc".to_vec());
    let cursor = buffer.insert_bytes(100, b"def".to_vec());
    assert_eq!(buffer.get_all_text(), b"abcdef");
    assert_eq!(cursor.piece_start + cursor.offset_in_piece, 3);
}

#[test]
fn delete_past_the_end_is_clamped() {
    let mut buffer = TextBuffer::new(b"hello".to_vec());
    buffer.delete_bytes(3, 100);
    assert_eq!(buffer.get_all_text(), b"hel");
    buffer.delete_bytes(3, 1);
    assert_eq!(buffer.get_all_text(), b"hel");
    buffer.delete_bytes(10, 1);
    assert_eq!(buffer.get_all_text(), b"hel");
}

#[test]
fn typing_in_sequence_extends_one_piece() {
    let mut buffer = TextBuffer::new(b"base".to_vec());
    buffer.insert_bytes(4, b"a".to_vec());
    let pieces = buffer.stats().piece_count;
    buffer.insert_bytes(5, b"b".to_vec());
    buffer.insert_bytes(6, b"c".to_vec());
    assert_eq!(buffer.stats().piece_count, pieces);
    assert_eq!(buffer.get_all_text(), b"baseabc");
    let info = buffer.piece_info_at_offset(6).unwrap();
    assert_eq!(info.location, BufferLocation::Added(1));
    assert_eq!(info.offset, 0);
    assert_eq!(info.bytes, 3);
    assert_eq!(info.offset_in_piece, Some(2));
}

#[test]
fn typing_elsewhere_makes_a_new_piece() {
    let mut buffer = TextBuffer::new(b"base".to_vec());
    buffer.insert_bytes(4, b"a".to_vec());
    let pieces = buffer.stats().piece_count;
    buffer.insert_bytes(0, b"b".to_vec());
    assert_eq!(buffer.stats().piece_count, pieces + 1);
    buffer.insert_bytes(3, b"c".to_vec());
    assert_eq!(buffer.stats().piece_count, pieces + 3);
    assert_eq!(buffer.get_all_text(), b"bbacsea");
}

#[test]
fn piece_info_reports_the_window() {
    let buffer = TextBuffer::new(b"hello".to_vec());
    let info = buffer.piece_info_at_offset(3).unwrap();
    assert_eq!(info.location, BufferLocation::Stored(0));
    assert_eq!(info.offset, 0);
    assert_eq!(info.bytes, 5);
    assert_eq!(info.offset_in_piece, Some(3));
    assert!(buffer.piece_info_at_offset(5).is_none());
}

#[test]
fn stats_report_totals() {
    let buffer = TextBuffer::new(b"a\nb\nc".to_vec());
    let stats = buffer.stats();
    assert_eq!(stats.total_bytes, 5);
    assert_eq!(stats.line_feed_count, 2);
    assert_eq!(stats.piece_count, 1);
    let empty = TextBuffer::empty();
    assert_eq!(empty.stats().piece_count, 0);
}

#[test]
fn line_start_offsets() {
    let buffer = TextBuffer::new(b"hello\nworld\ntest".to_vec());
    assert_eq!(buffer.line_start_offset(0), Some(0));
    assert_eq!(buffer.line_start_offset(1), Some(6));
    assert_eq!(buffer.line_start_offset(2), Some(12));
    assert_eq!(buffer.line_start_offset(3), None);
}

#[test]
fn positions_are_clamped() {
    let buffer = TextBuffer::new(b"hello\nworld".to_vec());
    assert_eq!(buffer.position_to_offset(Position { line: 5, column: 0 }), 11);
    assert_eq!(buffer.position_to_offset(Position { line: 1, column: 99 }), 11);
    assert_eq!(buffer.position_to_offset(Position { line: 0, column: 2 }), 2);
    assert_eq!(buffer.offset_to_position(99), Position { line: 1, column: 5 });
    assert_eq!(buffer.offset_to_position(5), Position { line: 0, column: 5 });
}

#[test]
fn empty_document_has_one_line() {
    let buffer = TextBuffer::empty();
    assert_eq!(buffer.get_line(0), Some(Vec::new()));
    assert_eq!(buffer.get_line(1), None);
    assert_eq!(buffer.offset_to_position(0), Position { line: 0, column: 0 });
}

#[test]
fn all_text_as_string() {
    let buffer = TextBuffer::new("a\u{20ac}b".as_bytes().to_vec());
    assert_eq!(buffer.get_all_text_string(), "a\u{20ac}b");
    let broken = TextBuffer::new(vec![b'a', 0xE2, 0x82]);
    assert_eq!(broken.get_all_text_string(), "a\u{fffd}");
}

#[test]
fn deleting_backward_removes_a_whole_code_point() {
    let mut buffer = TextBuffer::new("a\u{20ac}".as_bytes().to_vec());
    let at = buffer.delete_backward(4);
    assert_eq!(at, 1);
    assert_eq!(buffer.get_all_text(), b"a");
    assert_eq!(buffer.total_bytes(), 1);
}

#[test]
fn deleting_backward_from_a_lone_euro_sign_empties_the_buffer() {
    let mut buffer = TextBuffer::new("\u{20ac}".as_bytes().to_vec());
    let at = buffer.delete_backward(3);
    assert_eq!(at, 0);
    assert_eq!(buffer.get_all_text(), b"");
    assert_eq!(buffer.delete_backward(0), 0);
}

#[test]
fn deleting_backward_through_mixed_text() {
    let mut buffer = TextBuffer::new("\u{e6}\u{f8}\u{e5}".as_bytes().to_vec());
    let at = buffer.delete_backward(6);
    assert_eq!(buffer.get_all_text(), "\u{e6}\u{f8}".as_bytes());
    let at = buffer.delete_backward(at);
    assert_eq!(buffer.get_all_text(), "\u{e6}".as_bytes());
    let at = buffer.delete_backward(at);
    assert_eq!(at, 0);
    assert_eq!(buffer.get_all_text(), b"");

    let mut buffer = TextBuffer::new("a\u{1f600}b".as_bytes().to_vec());
    let at = buffer.delete_backward(6);
    assert_eq!(buffer.get_all_text(), "a\u{1f600}".as_bytes());
    let at = buffer.delete_backward(at);
    assert_eq!(at, 1);
    assert_eq!(buffer.get_all_text(), b"a");
}

#[test]
fn deleting_forward_removes_a_whole_code_point() {
    let mut buffer = TextBuffer::new("a\u{20ac}b".as_bytes().to_vec());
    buffer.delete_forward(0);
    assert_eq!(buffer.get_all_text(), "\u{20ac}b".as_bytes());
    buffer.delete_forward(0);
    assert_eq!(buffer.get_all_text(), b"b");
    buffer.delete_forward(1);
    assert_eq!(buffer.get_all_text(), b"b");
}

#[test]
fn deleting_a_selection_of_three_code_points() {
    let mut buffer = TextBuffer::new("a\u{e6}\u{f8}\u{e5}b".as_bytes().to_vec());
    let start = 1;
    let mut end = start;
    for _ in 0..3 {
        end = buffer.next_char_boundary(end);
    }
    assert_eq!(end, 7);
    buffer.delete_bytes(start, end - start);
    assert_eq!(buffer.get_all_text(), b"ab");
}

#[test]
fn char_boundaries() {
    let buffer = TextBuffer::new("a\u{20ac}b".as_bytes().to_vec());
    assert_eq!(buffer.prev_char_boundary(0), 0);
    assert_eq!(buffer.prev_char_boundary(1), 0);
    assert_eq!(buffer.prev_char_boundary(4), 1);
    assert_eq!(buffer.prev_char_boundary(3), 1);
    assert_eq!(buffer.prev_char_boundary(99), 4);
    assert_eq!(buffer.next_char_boundary(1), 4);
    assert_eq!(buffer.next_char_boundary(2), 4);
    assert_eq!(buffer.next_char_boundary(4), 5);
    assert_eq!(buffer.next_char_boundary(5), 5);
    assert_eq!(buffer.byte_at(0), Some(b'a'));
    assert_eq!(buffer.byte_at(5), None);
}

#[test]
fn piece_tree_stays_shallow() {
    let mut buffer = TextBuffer::new(vec![b'x'; 4000]);
    // Inserts at scattered places: each cuts a piece and adds one.
    let mut state = 99u64;
    for _ in 0..2000 {
        let at = next(&mut state, buffer.total_bytes() + 1);
        buffer.insert_bytes(at, b"ab".to_vec());
    }
    let stats = buffer.stats();
    assert!(stats.piece_count > 2000);
    let mut bound = 0;
    while (1usize << bound) < stats.piece_count + 1 {
        bound += 1;
    }
    assert!(stats.depth <= 2 * bound, "depth {} for {} pieces", stats.depth, stats.piece_count);

    // Inserts at the end, each after a delete so that none is coalesced.
    let mut buffer = TextBuffer::empty();
    for i in 0..3000usize {
        buffer.insert_bytes(i, b"a\n".to_vec());
        buffer.delete_bytes(i + 1, 1);
    }
    let stats = buffer.stats();
    assert_eq!(stats.total_bytes, 3000);
    assert!(stats.piece_count >= 1500);
    let mut bound = 0;
    while (1usize << bound) < stats.piece_count + 1 {
        bound += 1;
    }
    assert!(stats.depth <= 2 * bound, "depth {} for {} pieces", stats.depth, stats.piece_count);
    assert!(stats.depth >= 1);
}

#[test]
fn appending_to_an_edit_arena() {
    let mut buffer = TextBuffer::new(b"base".to_vec());
    assert_eq!(buffer.try_append_to_existing_buffer(4, b"x"), None);
    buffer.insert_bytes(4, b"ab".to_vec());
    assert_eq!(buffer.try_append_to_existing_buffer(5, b"x"), None);
    assert_eq!(buffer.try_append_to_existing_buffer(6, b""), None);
    assert_eq!(buffer.try_append_to_existing_buffer(0, b"x"), None);
    assert_eq!(buffer.try_append_to_existing_buffer(7, b"x"), None);
    assert_eq!(
        buffer.try_append_to_existing_buffer(6, b"xy"),
        Some((BufferLocation::Added(1), 2, 2))
    );
    // The arena grew; the document did not.
    assert_eq!(buffer.get_all_text(), b"baseab");
    // The piece no longer ends where its arena ends.
    assert_eq!(buffer.try_append_to_existing_buffer(6, b"z"), None);
}

#[test]
fn first_insert_opens_an_edit_arena_and_the_next_extends_its_piece() {
    let mut b = TextBuffer::new(b"ab".to_vec());
    assert_eq!(b.stats().piece_count, 1);
    let original = b.piece_info_at_offset(1).unwrap();
    assert_eq!((original.location, original.offset, original.bytes), (BufferLocation::Stored(0), 0, 2));

    b.insert_bytes(2, b"c".to_vec());
    assert_eq!(b.stats().piece_count, 2);
    let typed = b.piece_info_at_offset(2).unwrap();
    assert_eq!((typed.location, typed.offset, typed.bytes), (BufferLocation::Added(1), 0, 1));
    let original = b.piece_info_at_offset(1).unwrap();
    assert_eq!((original.location, original.offset, original.bytes), (BufferLocation::Stored(0), 0, 2));

    b.insert_bytes(3, b"d".to_vec());
    assert_eq!(b.get_all_text(), b"abcd");
    assert_eq!(b.stats().piece_count, 2);
    let at_three = b.piece_info_at_offset(3).unwrap();
    assert_eq!(at_three.location, BufferLocation::Added(1));
    let at_two = b.piece_info_at_offset(2).unwrap();
    assert_eq!((at_two.location, at_two.offset, at_two.bytes), (BufferLocation::Added(1), 0, 2));
    assert_eq!(at_two.offset_in_piece, Some(0));

    let mut e = TextBuffer::empty();
    assert_eq!(e.stats().piece_count, 0);
    e.insert_bytes(0, b"x".to_vec());
    let first = e.piece_info_at_offset(0).unwrap();
    assert_eq!((first.location, first.offset, first.bytes), (BufferLocation::Added(1), 0, 1));
}

#[test]
fn insert_lengthens_the_document_by_the_text() {
    let mut b = TextBuffer::new(b"one\ntwo".to_vec());
    let mut plain = b"one\ntwo".to_vec();
    for (offset, text) in [(0usize, &b"ab"[..]), (9, b"\n"), (4, b"xyz"), (4, b""), (12, b"end")] {
        let n0 = b.total_bytes();
        assert!(offset <= n0);
        b.insert_bytes(offset, text.to_vec());
        plain.splice(offset..offset, text.iter().cloned());
        assert_eq!(b.total_bytes(), n0 + text.len());
        assert_eq!(b.total_bytes(), plain.len());
        assert_eq!(b.get_all_text(), plain);
    }
}
