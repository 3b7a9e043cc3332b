use editor_core::piece_tree::{BufferLocation, Cursor, PieceTree, StringBuffer};

fn arenas() -> Vec<StringBuffer> {
    vec![
        StringBuffer::new(0, b"hello\nworld".to_vec()),
        StringBuffer::new(1, b"big \nred ".to_vec()),
    ]
}

#[test]
fn string_buffer_appends_at_its_end() {
    let mut buffer = StringBuffer::new(3, b"ab\n".to_vec());
    assert_eq!(buffer.line_feed_count(), 1);
    assert_eq!(buffer.append(b"c\n\n"), 3);
    assert_eq!(buffer.data, b"ab\nc\n\n");
    assert_eq!(buffer.line_feed_count(), 3);
    assert_eq!(buffer.id, 3);
    assert_eq!(BufferLocation::Added(3).buffer_id(), 3);
    assert_eq!(BufferLocation::Stored(0).buffer_id(), 0);
    assert!(BufferLocation::Added(3).is_added());
    assert!(!BufferLocation::Stored(3).is_added());
}

#[test]
fn piece_tree_of_one_piece() {
    let buffers = arenas();
    let tree = PieceTree::new(BufferLocation::Stored(0), 0, 11, 1);
    assert_eq!(tree.total_bytes(), 11);
    assert_eq!(tree.line_count(), 2);
    assert_eq!(tree.offset_to_position(8, &buffers), (1, 2));
    assert_eq!(tree.position_to_offset(1, 2, &buffers), 8);
    assert_eq!(tree.line_range(0, &buffers), Some((0, Some(6))));
    assert_eq!(tree.line_range(1, &buffers), Some((6, None)));
    assert_eq!(tree.line_range(2, &buffers), None);
    let empty = PieceTree::new(BufferLocation::Stored(0), 0, 0, 0);
    assert_eq!(empty.total_bytes(), 0);
    assert_eq!(PieceTree::empty().line_count(), 1);
    assert!(PieceTree::empty().find_by_offset(0).is_none());
}

#[test]
fn piece_tree_insert_cuts_the_piece_it_falls_in() {
    let buffers = arenas();
    let mut tree = PieceTree::new(BufferLocation::Stored(0), 0, 11, 1);
    let cursor = tree.insert(6, BufferLocation::Added(1), 0, 5, 1, &buffers);
    assert_eq!(cursor, Cursor { piece_start: 6, offset_in_piece: 0 });
    assert_eq!(tree.total_bytes(), 16);
    assert_eq!(tree.line_count(), 3);
    assert_eq!(tree.stats().piece_count, 3);

    let head = tree.find_by_offset(5).unwrap();
    assert_eq!((head.location, head.offset, head.bytes), (BufferLocation::Stored(0), 0, 6));
    assert_eq!(head.offset_in_piece, Some(5));
    let mid = tree.find_by_offset(6).unwrap();
    assert_eq!((mid.location, mid.offset, mid.bytes), (BufferLocation::Added(1), 0, 5));
    let tail = tree.find_by_offset(15).unwrap();
    assert_eq!((tail.location, tail.offset, tail.bytes), (BufferLocation::Stored(0), 6, 5));
    assert_eq!(tail.offset_in_piece, Some(4));
    assert!(tree.find_by_offset(16).is_none());

    // "hello\n" "big \n" "world"
    assert_eq!(tree.line_range(1, &buffers), Some((6, Some(11))));
    assert_eq!(tree.line_range(2, &buffers), Some((11, None)));
    assert_eq!(tree.offset_to_position(12, &buffers), (2, 1));
    assert_eq!(tree.cursor_at_offset(8), Cursor { piece_start: 6, offset_in_piece: 2 });
    assert_eq!(tree.cursor_at_offset(99), Cursor { piece_start: 16, offset_in_piece: 0 });
}

#[test]
fn piece_tree_insert_extends_a_piece_it_continues() {
    let buffers = arenas();
    let mut tree = PieceTree::new(BufferLocation::Stored(0), 0, 11, 1);
    tree.insert(11, BufferLocation::Added(1), 0, 5, 1, &buffers);
    assert_eq!(tree.stats().piece_count, 2);
    tree.insert(16, BufferLocation::Added(1), 5, 4, 0, &buffers);
    assert_eq!(tree.stats().piece_count, 2);
    let last = tree.find_by_offset(19).unwrap();
    assert_eq!((last.location, last.offset, last.bytes), (BufferLocation::Added(1), 0, 9));
    assert_eq!(tree.line_count(), 3);
}

#[test]
fn piece_tree_delete_trims_and_drops_pieces() {
    let buffers = arenas();
    let mut tree = PieceTree::new(BufferLocation::Stored(0), 0, 11, 1);
    tree.insert(6, BufferLocation::Added(1), 0, 5, 1, &buffers);
    // "hello\nbig \nworld": delete "lo\nbig \nwo"
    tree.delete(3, 10, &buffers);
    assert_eq!(tree.total_bytes(), 6);
    assert_eq!(tree.line_count(), 1);
    assert_eq!(tree.stats().piece_count, 2);
    let head = tree.find_by_offset(0).unwrap();
    assert_eq!((head.location, head.offset, head.bytes), (BufferLocation::Stored(0), 0, 3));
    let tail = tree.find_by_offset(3).unwrap();
    assert_eq!((tail.location, tail.offset, tail.bytes), (BufferLocation::Stored(0), 8, 3));
    tree.delete(4, 100, &buffers);
    assert_eq!(tree.total_bytes(), 4);
    tree.delete(9, 1, &buffers);
    assert_eq!(tree.total_bytes(), 4);
    tree.delete(0, 4, &buffers);
    assert_eq!(tree.total_bytes(), 0);
    assert_eq!(tree.stats().piece_count, 0);
}
