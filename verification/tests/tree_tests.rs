use text_buffer::{Color, Piece, RBNode, RBTree};

#[test]
fn test_empty_tree() {
    let tree = RBTree::new();
    assert!(tree.is_empty());
    assert_eq!(tree.len(), 0);
    assert_eq!(tree.total_length(), 0);
    assert_eq!(tree.total_line_breaks(), 0);
}

#[test]
fn test_single_piece_tree() {
    let piece = Piece::original(0, 0, 10, 2);
    let tree = RBTree::from_piece(piece.clone());

    assert!(!tree.is_empty());
    assert_eq!(tree.len(), 1);
    assert_eq!(tree.total_length(), 10);
    assert_eq!(tree.total_line_breaks(), 2);
}

#[test]
fn test_insert_and_find() {
    let mut tree = RBTree::new();
    let piece1 = Piece::original(0, 0, 10, 1);
    let piece2 = Piece::original(0, 10, 15, 2);

    tree.insert(piece1.clone());
    tree.insert(piece2.clone());

    assert_eq!(tree.len(), 2);
    assert_eq!(tree.total_length(), 25);
    assert_eq!(tree.total_line_breaks(), 3);

    // Find piece at offset 5 (should be piece1)
    let found = tree.find_piece_at_offset(5);
    assert!(found.is_some());
    assert_eq!(found.unwrap().start, 0);

    // Find piece at offset 15 (should be piece2)
    let found = tree.find_piece_at_offset(15);
    assert!(found.is_some());
    assert_eq!(found.unwrap().start, 10);
}

#[test]
fn test_collect_pieces() {
    let mut tree = RBTree::new();
    let piece1 = Piece::original(0, 0, 10, 1);
    let piece2 = Piece::original(0, 10, 15, 2);
    let piece3 = Piece::added(0, 0, 5, 0);

    tree.insert(piece1.clone());
    tree.insert(piece2.clone());
    tree.insert(piece3.clone());

    let pieces = tree.collect_pieces();
    assert_eq!(pieces.len(), 3);
}

#[test]
fn test_node_metadata() {
    let piece = Piece::original(0, 0, 10, 2);
    let mut node = RBNode::new(piece);

    assert_eq!(node.left_subtree_length, 0);
    assert_eq!(node.left_subtree_line_breaks, 0);
    assert_eq!(node.total_length(), 10);
    assert_eq!(node.total_line_breaks(), 2);

    node.update_metadata();
    assert_eq!(node.left_subtree_length, 0);
    assert_eq!(node.left_subtree_line_breaks, 0);
}

// What follows checks the shape of the tree from outside.

fn black_height(node: &Option<Box<RBNode>>) -> Option<usize> {
    match node {
        None => Some(0),
        Some(node) => {
            let left = black_height(&node.left)?;
            let right = black_height(&node.right)?;
            if left != right {
                return None;
            }
            if node.is_red() {
                if is_red(&node.left) || is_red(&node.right) {
                    return None;
                }
                Some(left)
            } else {
                Some(left + 1)
            }
        }
    }
}

fn is_red(node: &Option<Box<RBNode>>) -> bool {
    match node {
        None => false,
        Some(node) => node.is_red(),
    }
}

fn totals(node: &Option<Box<RBNode>>) -> Option<(usize, usize, usize)> {
    match node {
        None => Some((0, 0, 0)),
        Some(node) => {
            let (left_length, left_breaks, left_count) = totals(&node.left)?;
            let (right_length, right_breaks, right_count) = totals(&node.right)?;
            if node.left_subtree_length != left_length
                || node.left_subtree_line_breaks != left_breaks
            {
                return None;
            }
            Some((
                left_length + node.piece.length + right_length,
                left_breaks + node.piece.line_break_count + right_breaks,
                left_count + 1 + right_count,
            ))
        }
    }
}

fn assert_red_black(tree: &RBTree) {
    assert!(!is_red(&tree.root), "the root is red");
    assert!(black_height(&tree.root).is_some(), "the coloring is broken");
    let found = totals(&tree.root);
    assert!(found.is_some(), "a cached total is wrong");
    let (length, breaks, count) = found.unwrap();
    assert_eq!(length, tree.total_length());
    assert_eq!(breaks, tree.total_line_breaks());
    assert_eq!(count, tree.len());
}

fn starts(tree: &RBTree) -> Vec<usize> {
    tree.collect_pieces().iter().map(|piece| piece.start).collect()
}

#[test]
fn node_colors() {
    let red = RBNode::new(Piece::original(0, 0, 1, 0));
    assert!(red.is_red());
    assert!(!red.is_black());
    assert_eq!(red.color, Color::Red);
    let black = RBNode::new_black(Piece::original(0, 0, 1, 0));
    assert!(black.is_black());
    assert!(!black.is_red());
    assert_eq!(black.right_subtree_length(), 0);
    assert_eq!(black.right_subtree_line_breaks(), 0);
}

#[test]
fn node_metadata_follows_the_left_subtree() {
    let mut left = RBNode::new(Piece::original(0, 0, 4, 1));
    left.right = Some(Box::new(RBNode::new(Piece::original(0, 4, 3, 2))));
    let mut node = RBNode::new_black(Piece::original(0, 7, 5, 0));
    node.left = Some(Box::new(left));
    node.right = Some(Box::new(RBNode::new(Piece::original(0, 12, 6, 4))));
    node.update_metadata();
    assert_eq!(node.left_subtree_length, 7);
    assert_eq!(node.left_subtree_line_breaks, 3);
    assert_eq!(node.right_subtree_length(), 6);
    assert_eq!(node.right_subtree_line_breaks(), 4);
    assert_eq!(node.total_length(), 18);
    assert_eq!(node.total_line_breaks(), 7);
    let copy = node.clone();
    assert_eq!(copy.total_length(), 18);
    assert_eq!(copy.left.as_ref().unwrap().piece.start, 0);
}

#[test]
fn appended_pieces_stay_in_order_and_balanced() {
    let mut tree = RBTree::new();
    for i in 0..200usize {
        tree.insert(Piece::original(0, i * 3, 3, i % 2));
        assert_red_black(&tree);
    }
    assert_eq!(tree.len(), 200);
    assert_eq!(tree.total_length(), 600);
    assert_eq!(tree.total_line_breaks(), 100);
    let expected: Vec<usize> = (0..200usize).map(|i| i * 3).collect();
    assert_eq!(starts(&tree), expected);
    let height = black_height(&tree.root).unwrap();
    assert!(height >= 4 && height <= 8, "black height {height}");
}

#[test]
fn find_piece_by_offset() {
    let mut tree = RBTree::new();
    for i in 0..10usize {
        tree.insert(Piece::original(0, i * 10, 10, 1));
    }
    assert_eq!(tree.find_piece_at_offset(0).unwrap().start, 0);
    assert_eq!(tree.find_piece_at_offset(9).unwrap().start, 0);
    assert_eq!(tree.find_piece_at_offset(10).unwrap().start, 10);
    assert_eq!(tree.find_piece_at_offset(55).unwrap().start, 50);
    assert_eq!(tree.find_piece_at_offset(99).unwrap().start, 90);
    assert!(tree.find_piece_at_offset(100).is_none());
    assert!(RBTree::new().find_piece_at_offset(0).is_none());

    let location = tree.locate_offset(55).unwrap();
    assert_eq!(location.piece.start, 50);
    assert_eq!(location.start, 50);
    assert_eq!(location.line_breaks_before, 5);
    assert!(tree.locate_offset(100).is_none());
}

#[test]
fn find_pieces_by_line() {
    let mut tree = RBTree::new();
    tree.insert(Piece::original(0, 0, 10, 2));
    tree.insert(Piece::original(0, 10, 5, 0));
    tree.insert(Piece::original(0, 15, 7, 1));
    let found = tree.find_pieces_at_line(0);
    assert_eq!(found.len(), 1);
    assert_eq!(found[0].start, 0);
    let found = tree.find_pieces_at_line(1);
    assert_eq!(found.len(), 1);
    assert_eq!(found[0].start, 0);
    let found = tree.find_pieces_at_line(2);
    assert_eq!(found.len(), 1);
    assert_eq!(found[0].start, 15);
    assert!(tree.find_pieces_at_line(3).is_empty());

    let location = tree.locate_line_break(2).unwrap();
    assert_eq!(location.piece.start, 15);
    assert_eq!(location.start, 15);
    assert_eq!(location.line_breaks_before, 2);
    assert!(tree.locate_line_break(3).is_none());
}

#[test]
fn insert_at_an_offset() {
    let mut tree = RBTree::new();
    tree.insert_at(0, Piece::original(0, 100, 10, 0));
    tree.insert_at(0, Piece::original(0, 200, 10, 0));
    tree.insert_at(20, Piece::original(0, 300, 10, 0));
    tree.insert_at(10, Piece::original(0, 400, 10, 0));
    tree.insert_at(1000, Piece::original(0, 500, 10, 0));
    assert_eq!(starts(&tree), vec![200, 400, 100, 300, 500]);
    assert_red_black(&tree);
    // an offset inside a piece: behind that piece
    tree.insert_at(15, Piece::original(0, 600, 10, 0));
    assert_eq!(starts(&tree), vec![200, 400, 600, 100, 300, 500]);
    assert_red_black(&tree);
}

#[test]
fn insert_at_many_offsets_keeps_the_tree_balanced() {
    let mut tree = RBTree::new();
    let mut expected: Vec<usize> = Vec::new();
    let mut seed: usize = 12345;
    for i in 0..300usize {
        seed = seed.wrapping_mul(1103515245).wrapping_add(12345) % 2147483648;
        let index = seed % (expected.len() + 1);
        tree.insert_at(index * 2, Piece::added(0, i, 2, 1));
        expected.insert(index, i);
        assert_red_black(&tree);
    }
    assert_eq!(starts(&tree), expected);
    assert_eq!(tree.total_length(), 600);
    assert_eq!(tree.total_line_breaks(), 300);
}

#[test]
fn replace_a_piece() {
    let mut tree = RBTree::new();
    for i in 0..5usize {
        tree.insert(Piece::original(0, i * 10, 10, 1));
    }
    let replaced = tree.replace_at(25, Piece::added(1, 7, 3, 0));
    assert_eq!(replaced.start, 20);
    assert_eq!(starts(&tree), vec![0, 10, 7, 30, 40]);
    assert_eq!(tree.total_length(), 43);
    assert_eq!(tree.total_line_breaks(), 4);
    assert_eq!(tree.len(), 5);
    assert_red_black(&tree);
    assert_eq!(tree.find_piece_at_offset(23).unwrap().start, 30);
}

#[test]
fn remove_pieces() {
    let mut tree = RBTree::new();
    for i in 0..64usize {
        tree.insert(Piece::original(0, i * 10, 10, 1));
    }
    let mut expected: Vec<usize> = (0..64usize).map(|i| i * 10).collect();
    assert!(tree.remove_at(640).is_none());
    assert_eq!(tree.len(), 64);
    let mut seed: usize = 99;
    while !expected.is_empty() {
        seed = seed.wrapping_mul(1103515245).wrapping_add(12345) % 2147483648;
        let index = seed % expected.len();
        let removed = tree.remove_at(index * 10 + 3);
        assert_eq!(removed.unwrap().start, expected[index]);
        expected.remove(index);
        assert_eq!(starts(&tree), expected);
        assert_eq!(tree.total_length(), expected.len() * 10);
        assert_eq!(tree.total_line_breaks(), expected.len());
        assert_red_black(&tree);
    }
    assert!(tree.is_empty());
    assert!(tree.remove_at(0).is_none());
}

#[test]
fn tree_copies() {
    let mut tree = RBTree::default();
    tree.insert(Piece::original(0, 0, 10, 1));
    tree.insert(Piece::original(0, 10, 10, 1));
    let copy = tree.clone();
    tree.insert(Piece::original(0, 20, 10, 1));
    assert_eq!(copy.len(), 2);
    assert_eq!(starts(&copy), vec![0, 10]);
    assert_eq!(tree.len(), 3);
}
