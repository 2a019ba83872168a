use text_buffer::utils;
use text_buffer::{Buffer, Piece, PiecePosition, PieceType};

#[test]
fn test_piece_creation() {
    let piece = Piece::original(0, 10, 20, 2);
    assert_eq!(piece.piece_type, PieceType::Original);
    assert_eq!(piece.buffer_index, 0);
    assert_eq!(piece.start, 10);
    assert_eq!(piece.length, 20);
    assert_eq!(piece.line_break_count, 2);
    assert_eq!(piece.end(), 30);
}

#[test]
fn test_piece_split() {
    let piece = Piece::original(0, 10, 20, 3);
    let (left, right) = piece.split_at(8, 1);

    assert_eq!(left.start, 10);
    assert_eq!(left.length, 8);
    assert_eq!(left.line_break_count, 1);

    assert_eq!(right.start, 18);
    assert_eq!(right.length, 12);
    assert_eq!(right.line_break_count, 2);
}

#[test]
fn test_piece_sub_piece() {
    let piece = Piece::original(0, 10, 20, 3);
    let sub = piece.sub_piece(5, 10, 2);

    assert_eq!(sub.start, 15);
    assert_eq!(sub.length, 10);
    assert_eq!(sub.line_break_count, 2);
}

#[test]
fn test_count_line_breaks() {
    assert_eq!(utils::count_line_breaks("hello"), 0);
    assert_eq!(utils::count_line_breaks("hello\n"), 1);
    assert_eq!(utils::count_line_breaks("hello\nworld\n"), 2);
    assert_eq!(utils::count_line_breaks("\n\n\n"), 3);
}

#[test]
fn test_get_piece_content() {
    let buffer = Buffer::from_text("Hello\nWorld\nTest");
    let piece = Piece::original(0, 6, 5, 0); // "World"
    let buffers = vec![buffer];

    let content = utils::get_piece_content(&piece, &buffers, &[]);
    assert_eq!(content, Some("World"));
}

#[test]
fn test_position_in_piece() {
    let buffer = Buffer::from_text("Hello\nWorld\nTest");
    let piece = Piece::original(0, 0, 16, 2); // Entire buffer
    let buffers = vec![buffer];

    // Test position at start
    assert_eq!(
        utils::position_in_piece(&piece, 0, &buffers, &[]),
        Some((0, 0))
    );

    // Test position at end of first line
    assert_eq!(
        utils::position_in_piece(&piece, 5, &buffers, &[]),
        Some((0, 5))
    );

    // Test position at start of second line
    assert_eq!(
        utils::position_in_piece(&piece, 6, &buffers, &[]),
        Some((1, 0))
    );
}

#[test]
fn piece_kinds_and_emptiness() {
    let added = Piece::added(2, 4, 0, 0);
    assert_eq!(added.piece_type, PieceType::Added);
    assert_eq!(added.buffer_index, 2);
    assert!(added.is_empty());
    assert_eq!(added.end(), 4);
    let made = Piece::new(PieceType::Original, 1, 2, 3, 1);
    assert!(!made.is_empty());
    assert_eq!(made.end(), 5);
}

#[test]
fn piece_equality_ignores_line_breaks() {
    let a = Piece::original(0, 10, 20, 3);
    let b = Piece::original(0, 10, 20, 0);
    let c = Piece::added(0, 10, 20, 3);
    let d = Piece::original(0, 11, 20, 3);
    assert!(a == b);
    assert!(a != c);
    assert!(a != d);
    assert!(a.clone() == a);
}

#[test]
fn piece_split_at_the_ends() {
    let piece = Piece::added(1, 10, 20, 3);
    let (left, right) = piece.split_at(0, 0);
    assert!(left.is_empty());
    assert_eq!(right.start, 10);
    assert_eq!(right.length, 20);
    assert_eq!(right.line_break_count, 3);
    assert_eq!(right.piece_type, PieceType::Added);
    assert_eq!(right.buffer_index, 1);
    let (left, right) = piece.split_at(20, 3);
    assert_eq!(left.length, 20);
    assert_eq!(left.line_break_count, 3);
    assert!(right.is_empty());
    assert_eq!(right.start, 30);
}

#[test]
fn piece_position_creation() {
    let position = PiecePosition::new(3, 7);
    assert_eq!(position.line, 3);
    assert_eq!(position.offset, 7);
    assert_eq!(position, PiecePosition::new(3, 7));
}

#[test]
fn piece_content_that_does_not_resolve() {
    let buffers = vec![Buffer::from_text("caf\u{e9}\nab")];
    // no such store
    assert_eq!(utils::get_piece_content(&Piece::original(1, 0, 1, 0), &buffers, &[]), None);
    assert_eq!(utils::get_piece_content(&Piece::added(0, 0, 1, 0), &buffers, &[]), None);
    // behind the end of the store
    assert_eq!(utils::get_piece_content(&Piece::original(0, 6, 3, 0), &buffers, &[]), None);
    assert_eq!(utils::get_piece_content(&Piece::original(0, 9, 0, 0), &buffers, &[]), None);
    assert_eq!(
        utils::get_piece_content(&Piece::original(0, usize::MAX, 2, 0), &buffers, &[]),
        None
    );
    // inside a scalar value
    assert_eq!(utils::get_piece_content(&Piece::original(0, 4, 2, 0), &buffers, &[]), None);
    assert_eq!(utils::get_piece_content(&Piece::original(0, 0, 4, 0), &buffers, &[]), None);
    // in order
    assert_eq!(
        utils::get_piece_content(&Piece::original(0, 3, 3, 1), &buffers, &[]),
        Some("\u{e9}\n")
    );
    assert_eq!(utils::get_piece_content(&Piece::original(0, 8, 0, 0), &buffers, &[]), Some(""));
    assert_eq!(utils::get_piece_content(&Piece::added(0, 6, 2, 0), &[], &buffers), Some("ab"));
}

#[test]
fn positions_inside_a_piece() {
    let buffers = vec![Buffer::from_text("xx\u{e9}a\nb\u{1f600}\n")];
    let piece = Piece::original(0, 2, 10, 2); // "\u{e9}a\nb\u{1f600}\n"
    assert_eq!(utils::position_in_piece(&piece, 2, &buffers, &[]), Some((0, 1)));
    assert_eq!(utils::position_in_piece(&piece, 3, &buffers, &[]), Some((0, 2)));
    assert_eq!(utils::position_in_piece(&piece, 4, &buffers, &[]), Some((1, 0)));
    assert_eq!(utils::position_in_piece(&piece, 9, &buffers, &[]), Some((1, 2)));
    assert_eq!(utils::position_in_piece(&piece, 10, &buffers, &[]), Some((2, 0)));
    assert_eq!(utils::position_in_piece(&piece, 11, &buffers, &[]), None);
    assert_eq!(utils::position_in_piece(&piece, 0, &[], &[]), None);

    assert_eq!(utils::offset_in_piece(&piece, 0, 0, &buffers, &[]), Some(0));
    assert_eq!(utils::offset_in_piece(&piece, 0, 1, &buffers, &[]), Some(2));
    assert_eq!(utils::offset_in_piece(&piece, 0, 2, &buffers, &[]), Some(3));
    assert_eq!(utils::offset_in_piece(&piece, 0, 3, &buffers, &[]), None);
    assert_eq!(utils::offset_in_piece(&piece, 1, 0, &buffers, &[]), Some(4));
    assert_eq!(utils::offset_in_piece(&piece, 1, 1, &buffers, &[]), Some(5));
    assert_eq!(utils::offset_in_piece(&piece, 1, 2, &buffers, &[]), Some(9));
    assert_eq!(utils::offset_in_piece(&piece, 2, 0, &buffers, &[]), Some(10));
    assert_eq!(utils::offset_in_piece(&piece, 2, 1, &buffers, &[]), None);
    assert_eq!(utils::offset_in_piece(&piece, 3, 0, &buffers, &[]), None);
    assert_eq!(utils::offset_in_piece(&piece, 0, 0, &[], &[]), None);
}
