use scribe::domain::document::{DocumentError, PieceTree, TextBuffer, TextOffset, TextRange};

fn range(start: usize, end: usize) -> TextRange {
    TextRange::new(TextOffset::new(start), TextOffset::new(end)).unwrap()
}

#[test]
fn piece_tree_edits_slices_and_boundaries() {
    let mut tree = PieceTree::new("ab🙂cd");
    tree.insert(TextOffset::new(2), "XY").unwrap();
    tree.delete(range(0, 1)).unwrap();
    tree.replace(range(7, 8), "!").unwrap();

    assert_eq!(tree.snapshot().as_str(), "bXY🙂!d");
    assert_eq!(tree.len_bytes(), 9);
    assert_eq!(tree.slice_string(range(1, 7)).unwrap(), "XY🙂");
    assert!(tree.is_char_boundary(TextOffset::new(3)));
    assert!(!tree.is_char_boundary(TextOffset::new(4)));
    assert!(!tree.is_char_boundary(TextOffset::new(10)));
    assert_eq!(
        tree.insert(TextOffset::new(5), "?").unwrap_err(),
        DocumentError::InvalidUtf8Boundary { offset: TextOffset::new(5) }
    );
    assert_eq!(
        tree.slice_string(range(2, 12)).unwrap_err(),
        DocumentError::RangeOutOfBounds { len: 9, start: TextOffset::new(2), end: TextOffset::new(12) }
    );
    assert_eq!(
        tree.delete(range(4, 6)).unwrap_err(),
        DocumentError::InvalidUtf8Boundary { offset: TextOffset::new(4) }
    );
    assert_eq!(tree.snapshot().as_str(), "bXY🙂!d");
}

#[test]
fn piece_tree_counts_line_feeds_across_many_edits() {
    let mut tree = PieceTree::new("one\ntwo\n");
    assert_eq!(tree.subtree_newlines(), 2);
    let mut expected = String::from("one\ntwo\n");
    for i in 0..200usize {
        let at = (i * 7) % (expected.len() + 1);
        tree.insert(TextOffset::new(at), "x\n").unwrap();
        expected.insert_str(at, "x\n");
    }
    assert_eq!(tree.snapshot().as_str(), expected);
    assert_eq!(tree.subtree_newlines(), 202);
    tree.delete(range(0, expected.len())).unwrap();
    assert_eq!(tree.snapshot().as_str(), "");
    assert_eq!(tree.len_bytes(), 0);
    assert_eq!(tree.subtree_newlines(), 0);
}

#[test]
fn piece_tree_slices_across_pieces() {
    let mut tree = PieceTree::new("hello world");
    tree.insert(TextOffset::new(5), ",").unwrap();
    tree.insert(TextOffset::new(12), "!").unwrap();
    tree.replace(range(0, 1), "H").unwrap();
    assert_eq!(tree.snapshot().as_str(), "Hello, world!");
    assert_eq!(tree.slice_string(range(3, 9)).unwrap(), "lo, wo");
    assert_eq!(tree.slice_string(range(13, 13)).unwrap(), "");
    assert!(tree.is_char_boundary(TextOffset::new(13)));
    assert!(!tree.is_char_boundary(TextOffset::new(14)));
}

#[test]
fn empty_piece_tree_is_empty() {
    let mut tree = PieceTree::new("");
    assert_eq!(tree.len_bytes(), 0);
    assert_eq!(tree.snapshot().as_str(), "");
    assert!(tree.is_char_boundary(TextOffset::new(0)));
    tree.insert(TextOffset::new(0), "").unwrap();
    assert_eq!(tree.len_bytes(), 0);
    tree.insert(TextOffset::new(0), "é\n").unwrap();
    assert_eq!(tree.snapshot().as_str(), "é\n");
    assert_eq!(tree.subtree_newlines(), 1);
}

#[test]
fn cloned_piece_trees_hold_the_same_text() {
    let mut tree = PieceTree::new("one two");
    tree.insert(TextOffset::new(3), ",").unwrap();
    let copy = tree.clone();
    assert_eq!(copy, tree);
    assert_eq!(copy.snapshot().as_str(), "one, two");
    tree.delete(range(0, 4)).unwrap();
    assert_eq!(copy.snapshot().as_str(), "one, two");
    assert_eq!(tree.snapshot().as_str(), " two");
    assert_ne!(copy, tree);
}
