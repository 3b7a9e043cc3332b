use editor_core::chunk_tree::{ChunkPiece, ChunkTree, ChunkTreeNode};


#[test]
fn test_empty_tree() {
    let tree = ChunkTree::new(2);
    assert!(tree.is_empty());
    assert_eq!(tree.len(), 0);
    assert_eq!(tree.collect_bytes(0), Vec::<u8>::new());
}

#[test]
fn chunk_tree_test_empty_operations() {
    let tree = ChunkTree::from_slice(b"test", 2);
    let tree = tree.remove(2..2); // Empty range
    assert_eq!(tree.collect_bytes(0), b"test");
}

#[test]
fn test_from_slice() {
    let data = b"Hello World!";
    let tree = ChunkTree::from_slice(data, 2);
    assert!(!tree.is_empty());
    assert_eq!(tree.len(), data.len());
    assert_eq!(tree.collect_bytes(0), b"Hello World!");
}

#[test]
fn test_from_slice_big() {
    let data = b"Hello World!";
    let tree = ChunkTree::from_slice(data, 20);
    assert!(!tree.is_empty());
    println!("tree: {:?}", tree);
    assert_eq!(tree.len(), data.len());
    assert_eq!(tree.collect_bytes(0), b"Hello World!");
}

#[test]
fn test_insert_middle() {
    let tree = ChunkTree::from_slice(b"Hello World!", 2);
    let tree = tree.insert(5, b" beautiful");
    assert_eq!(tree.collect_bytes(0), b"Hello beautiful World!");
}

#[test]
fn test_insert_sparse_big() {
    let tree = ChunkTree::new(20);
    let tree = tree.insert(5, b"ahem, ahem");
    println!("tree: {:?}", tree);
    assert_eq!(tree.collect_bytes(b'_'), b"_____ahem, ahem");
}

#[test]
fn test_insert_start() {
    let tree = ChunkTree::from_slice(b"World!", 2);
    let tree = tree.insert(0, b"Hello ");
    assert_eq!(tree.collect_bytes(0), b"Hello World!");
}

#[test]
fn test_insert_end() {
    let tree = ChunkTree::from_slice(b"Hello", 2);
    let tree = tree.insert(5, b" World!");
    assert_eq!(tree.collect_bytes(0), b"Hello World!");
}

#[test]
fn test_remove_middle() {
    let tree = ChunkTree::from_slice(b"Hello beautiful World!", 2);
    let tree = tree.remove(5..15);
    assert_eq!(tree.collect_bytes(0), b"Hello World!");
}

#[test]
fn test_remove_start() {
    let tree = ChunkTree::from_slice(b"Hello World!", 2);
    let tree = tree.remove(0..6);
    assert_eq!(tree.collect_bytes(0), b"World!");
}

#[test]
fn test_remove_end() {
    let tree = ChunkTree::from_slice(b"Hello World!", 2);
    let tree = tree.remove(5..12);
    assert_eq!(tree.collect_bytes(0), b"Hello");
}

#[test]
fn test_from_slice_big_chunk() {
    let data = b"Hello World!";
    let tree = ChunkTree::from_slice(data, 15);
    assert!(!tree.is_empty());
    assert_eq!(tree.len(), data.len());
    assert_eq!(tree.collect_bytes(0), b"Hello World!");
}

#[test]
fn test_insert_middle_big_chunk() {
    let tree = ChunkTree::from_slice(b"Hello World!", 15);
    let tree = tree.insert(5, b" beautiful");
    assert_eq!(tree.collect_bytes(0), b"Hello beautiful World!");
}

#[test]
fn test_insert_start_big_chunk() {
    let tree = ChunkTree::from_slice(b"World!", 15);
    let tree = tree.insert(0, b"Hello ");
    assert_eq!(tree.collect_bytes(0), b"Hello World!");
}

#[test]
fn test_insert_end_big_chunk() {
    let tree = ChunkTree::from_slice(b"Hello", 15);
    let tree = tree.insert(5, b" World!");
    assert_eq!(tree.collect_bytes(0), b"Hello World!");
}

#[test]
fn test_remove_middle_big_chunk() {
    let tree = ChunkTree::from_slice(b"Hello beautiful World!", 15);
    let tree = tree.remove(5..15);
    assert_eq!(tree.collect_bytes(0), b"Hello World!");
}

#[test]
fn test_remove_start_big_chunk() {
    let tree = ChunkTree::from_slice(b"Hello World!", 15);
    let tree = tree.remove(0..6);
    assert_eq!(tree.collect_bytes(0), b"World!");
}

#[test]
fn test_remove_end_big_chunk() {
    let tree = ChunkTree::from_slice(b"Hello World!", 15);
    let tree = tree.remove(5..12);
    assert_eq!(tree.collect_bytes(0), b"Hello");
}

#[test]
fn test_sparse_insert_small() {
    let tree = ChunkTree::from_slice(b"Hello", 2);
    let tree = tree.insert(6, b" World!");
    assert_eq!(tree.len(), 13);
}



#[test]
fn test_remove_beyond_end_small() {
    let tree = ChunkTree::from_slice(b"Hello", 2);
    let tree = tree.remove(3..6);
    assert_eq!(tree.len(), 3);
    assert_eq!(tree.collect_bytes(0), b"Hel");
}

#[test]
fn test_remove_beyond_end() {
    let tree = ChunkTree::from_slice(b"Hello", 15);
    let tree = tree.remove(3..8);
    assert_eq!(tree.len(), 3);
    assert_eq!(tree.collect_bytes(0), b"Hel");
}

#[test]
fn test_insert_all_ranges() {
    let initial = b"Hello World!";
    let tree = ChunkTree::from_slice(initial, 2);
    for pos in 0..=initial.len() {
        for len in 0..=initial.len() {
            let data = ("0123456789abcdefgh"[0..len]).as_bytes();

            // Test insert
            let mut reference = Vec::from(&initial[..]);
            reference.splice(pos..pos, data.iter().cloned());
            let modified_tree = tree.insert(pos, &data);
            assert_eq!(modified_tree.collect_bytes(0), reference);
            if len > 0 {
                assert_ne!(modified_tree.collect_bytes(0), tree.collect_bytes(0));
            } else {
                assert_eq!(modified_tree.collect_bytes(0), tree.collect_bytes(0));
            }
        }
    }
}

#[test]
fn test_remove_all_ranges() {
    let initial = b"Hello World!";
    let tree = ChunkTree::from_slice(initial, 2);
    for pos in 0..initial.len() {
        for len in 0..=initial.len() {
            // Test remove
            let range = pos..std::cmp::min(pos + len, tree.len());
            let mut reference = Vec::from(&initial[..]);
            reference.splice(range.clone(), []);
            let modified_tree = tree.remove(range);
            assert_eq!(modified_tree.collect_bytes(0), reference);
            if len > 0 {
                assert_ne!(modified_tree.collect_bytes(0), tree.collect_bytes(0));
            } else {
                assert_eq!(modified_tree.collect_bytes(0), tree.collect_bytes(0));
            }
        }
    }
}

#[test]
fn test_iterator() {
    // Empty tree
    let empty_tree = ChunkTreeNode::empty();
    let mut iter = empty_tree.iter();
    assert_eq!(iter.next(), None);

    // Simple leaf node
    let leaf = ChunkTreeNode::from_slice(b"abc", 2);
    let mut iter = leaf.iter();
    assert_eq!(iter.next(), Some(ChunkPiece::Data { data: b"a" }));
    assert_eq!(iter.next(), Some(ChunkPiece::Data { data: b"bc" }));
    assert_eq!(iter.next(), None);

    // Gap node
    let gap: ChunkTreeNode<'_> = ChunkTreeNode::Gap { size: 3 };
    let mut iter = gap.iter();
    assert_eq!(iter.next(), Some(ChunkPiece::Gap { size: 3 }));
    assert_eq!(iter.next(), None);

    // Complex tree with internal nodes
    let tree = ChunkTreeNode::from_slice(b"Hello", 2);
    let tree = tree.insert(5, b" World!", 2);

    let expected = vec![
        ChunkPiece::Data { data: b"He" },
        ChunkPiece::Data { data: b"l" },
        ChunkPiece::Data { data: b"lo" },
        ChunkPiece::Data { data: b" " },
        ChunkPiece::Data { data: b"Wo" },
        ChunkPiece::Data { data: b"rl" },
        ChunkPiece::Data { data: b"d!" },
    ];

    let mut actual = Vec::new();
    let mut pieces = tree.iter();
    while let Some(piece) = pieces.next() {
        actual.push(piece);
    }

    for (index, (a, e)) in actual.iter().zip(expected.iter()).enumerate() {
        println!("index: {}, actual: {:?}, expected: {:?}", index, a, e);
        assert_eq!(a, e);
    }
    println!("actual: {:?}", actual);
    assert_eq!(actual.len(), expected.len());
}

#[test]
fn test_fill_sparse() {
    let tree = ChunkTree::new(2);
    let tree = tree.insert(1, b"the end");
    let tree = tree.insert(0, b"start");
    assert_eq!(tree.collect_bytes(b'_'), b"start_the end");
}

#[test]
fn test_complex_sparse_operations() {
    let tree = ChunkTree::new(30);

    // Test sparse insert with large gap
    let tree = tree.insert(10, b"hello");
    assert_eq!(tree.len(), 15);
    assert_eq!(tree.collect_bytes(b'_'), b"__________hello");

    // Test sparse remove beyond end
    let tree = tree.remove(20..30);
    assert_eq!(tree.len(), 15);

    // Test removing gaps
    let tree = tree.remove(5..12);
    println!("tree: {:?}", tree);
    assert_eq!(tree.collect_bytes(b'_'), b"_____llo");

    // Test complex insert chain
    let tree = tree.insert(2, b"ABC");
    println!("tree: {:?}", tree);
    assert_eq!(tree.collect_bytes(b'_'), b"__ABC___llo");
    let tree = tree.insert(8, b"XYZ");
    assert_eq!(tree.collect_bytes(b'_'), b"__ABC___XYZllo");
}

#[test]
fn test_internal_node_edge_cases() {
    let tree = ChunkTree::from_slice(b"abcdef", 2);

    // Test internal node operations at boundaries
    let tree = tree.remove(0..2); // Remove from start
    let tree = tree.remove(2..4); // Remove from middle
    assert_eq!(tree.collect_bytes(b'_'), b"cd");

    // Test empty gap creation
    let tree = tree.insert(10, b"end");
    assert_eq!(tree.collect_bytes(b'_'), b"cd________end");
}

#[test]
fn test_iterator_complex() {
    let tree = ChunkTree::new(10);
    println!("tree: {:?}", tree);
    let tree = tree.insert(5, b"middle");
    println!("tree: {:?}", tree);
    let tree = tree.insert(0, b"start");
    println!("tree: {:?}", tree);
    let tree = tree.insert(20, b"end");
    println!("tree: {:?}", tree);

    let mut pieces: Vec<ChunkPiece> = Vec::new();
    let mut walk = tree.iter();
    while let Some(piece) = walk.next() {
        pieces.push(piece);
    }
    assert!(pieces.len() > 0);

    // Verify the structure contains expected data and gaps
    let mut found_start = false;
    let mut found_middle = false;
    let mut found_end = false;

    for piece in pieces {
        match piece {
            ChunkPiece::Data { data } => {
                let str = String::from_utf8_lossy(data);
                println!("data: {:?}", str);
                if data == b"start" {
                    found_start = true;
                }
                if data == b"middle" {
                    found_middle = true;
                }
                if data == b"end" {
                    found_end = true;
                }
            }
            ChunkPiece::Gap { size: _ } => {}
        }
    }

    assert!(found_start);
    assert!(found_middle);
    assert!(found_end);
}

#[test]
fn hello_world_scenario() {
    let tree = ChunkTree::new(2);
    let tree = tree.insert(0, b"Hello");
    let tree = tree.insert(5, b" World!");
    assert_eq!(tree.collect_bytes(0), b"Hello World!");
    let tree = tree.remove(5..11);
    assert_eq!(tree.collect_bytes(0), b"Hello!");
}

#[test]
fn far_away_scenario() {
    let tree = ChunkTree::new(2);
    let tree = tree.insert(10, b"far away");
    assert_eq!(tree.collect_bytes(b'_'), b"__________far away");
    assert_eq!(tree.len(), 18);
}

#[test]
fn insert_leaves_the_old_tree_as_it_was() {
    let tree = ChunkTree::from_slice(b"Hello World!", 3);
    let edited = tree.insert(5, b",");
    let cut = tree.remove(0..6);
    assert_eq!(tree.collect_bytes(0), b"Hello World!");
    assert_eq!(edited.collect_bytes(0), b"Hello, World!");
    assert_eq!(cut.collect_bytes(0), b"World!");
    assert_eq!(tree.len(), 12);
}

#[test]
fn remove_past_the_end_changes_nothing() {
    let tree = ChunkTree::from_slice(b"Hello", 2).insert(8, b"!");
    for (start, end) in [(9usize, 12usize), (9, 9), (20, 30), (100, 5)] {
        let after = tree.remove(start..end);
        assert_eq!(after.len(), tree.len());
        assert_eq!(after.collect_bytes(b'.'), tree.collect_bytes(b'.'));
    }
}

#[test]
fn remove_of_a_backward_range_changes_nothing() {
    let tree = ChunkTree::from_slice(b"Hello", 2);
    let after = tree.remove(4..1);
    assert_eq!(after.collect_bytes(0), b"Hello");
}

#[test]
fn sparse_insert_has_the_length_of_index_and_data() {
    let tree = ChunkTree::from_slice(b"Hello", 15);
    let tree = tree.insert(6, b" World!");
    assert_eq!(tree.len(), 13);
    assert_eq!(tree.collect_bytes(b'X'), b"HelloX World!");
    let tree = tree.remove(4..7);
    assert_eq!(tree.len(), 10);
    assert_eq!(tree.collect_bytes(b'X'), b"HellWorld!");
}

#[test]
fn collect_into_appends() {
    let tree = ChunkTree::new(4).insert(2, b"ab");
    let mut out = b">".to_vec();
    tree.collect_bytes_into(b'-', &mut out);
    assert_eq!(out, b">--ab");
}

#[test]
fn iterator_yields_gaps_and_data_in_order() {
    let tree = ChunkTree::new(10).insert(3, b"abc").insert(8, b"z");
    let mut pieces = Vec::new();
    let mut walk = tree.iter();
    while let Some(piece) = walk.next() {
        pieces.push(piece);
    }
    assert_eq!(
        pieces,
        vec![
            ChunkPiece::Gap { size: 3 },
            ChunkPiece::Data { data: b"abc" },
            ChunkPiece::Gap { size: 2 },
            ChunkPiece::Data { data: b"z" },
        ]
    );
    assert_eq!(walk.next(), None);
}

#[test]
fn node_remove_is_clamped() {
    let node = ChunkTreeNode::from_slice(b"abcdef", 2);
    let cut = node.remove(4..100, 2);
    assert_eq!(cut.len(), 4);
    let mut out = Vec::new();
    cut.collect_bytes_into(0, &mut out);
    assert_eq!(out, b"abcd");
    assert!(!cut.is_empty());
    assert!(ChunkTreeNode::empty().is_empty());
}

#[test]
fn insert_splices_into_the_collected_bytes_for_every_gap_byte() {
    let t = ChunkTree::from_slice(b"Hello", 2).insert(8, b"World").remove(1..3);
    for g in [0u8, b'_', 0xFF] {
        let c = t.collect_bytes(g);
        let l0 = t.len();
        assert_eq!(c.len(), l0);
        for index in 0..=l0 {
            let t2 = t.insert(index, b"+-");
            let mut expected = c[..index].to_vec();
            expected.extend_from_slice(b"+-");
            expected.extend_from_slice(&c[index..]);
            assert_eq!(t2.collect_bytes(g), expected);
            assert_eq!(t2.len(), c.len() + 2);
            // The tree inserted into is as it was.
            assert_eq!(t.collect_bytes(g), c);
            assert_eq!(t.len(), l0);
        }
        for index in (l0 + 1)..(l0 + 4) {
            let t2 = t.insert(index, b"+-");
            let mut expected = c.clone();
            expected.extend(std::iter::repeat(g).take(index - c.len()));
            expected.extend_from_slice(b"+-");
            assert_eq!(t2.collect_bytes(g), expected);
            assert_eq!(t2.len(), index + 2);
        }
    }
}
