//! Squares, pieces and moves.

use bschess::types::{
    bb, bitboard_string, bits, file_of, parse_square, piece_char, piece_color, piece_index,
    piece_type_of, rank_of, sq, square_list, square_name, Color, Move, PieceType, ALL_PIECE_TYPES,
};

#[test]
fn squares_are_named_and_read_back() {
    assert_eq!(square_name(0), "a1");
    assert_eq!(square_name(63), "h8");
    assert_eq!(parse_square("e4"), Some(28));
    assert_eq!(parse_square("E4"), Some(28));
    assert_eq!(parse_square("i1"), None);
    assert_eq!(parse_square("a9"), None);
    assert_eq!(parse_square("a"), None);
    assert_eq!(parse_square("a1a"), None);
    for s in 0..64 {
        assert_eq!(parse_square(&square_name(s)), Some(s));
        assert_eq!(sq(rank_of(s), file_of(s)), s);
    }
}

#[test]
fn moves_are_text_and_back() {
    let m = Move::parse("e2e4").unwrap();
    assert_eq!((m.from(), m.to()), (12, 28));
    assert_eq!(m.to_text(), "e2e4");
    assert_eq!(m, Move::new(12, 28));
    assert_eq!(m.index(), 12 + 28 * 64);
    assert_eq!(Move::parse("e2e9"), None);
    assert_eq!(Move::parse("e2"), None);
    assert_eq!(Move::parse("e2e4q"), None);
    assert!(Move::none().is_none());
    assert!(!m.is_none());
}

#[test]
fn pieces_are_numbered_by_colour_and_kind() {
    for c in [Color::White, Color::Black] {
        for pt in ALL_PIECE_TYPES {
            let p = piece_index(c, pt);
            assert_eq!(piece_color(p), c);
            assert_eq!(piece_type_of(p), pt);
            assert_eq!(PieceType::from_char(pt.to_char()), Some(pt));
            assert_eq!(PieceType::from_index(pt.index()), pt);
        }
        assert_eq!(Color::from_index(c.index()), c);
        assert_eq!(c.flip().flip(), c);
    }
    assert_eq!(piece_char(piece_index(Color::White, PieceType::Knight)), 'N');
    assert_eq!(piece_char(piece_index(Color::Black, PieceType::Queen)), 'q');
    assert_eq!(PieceType::from_char('x'), None);
    assert_eq!(Color::White.name(), "white");
}

#[test]
fn bitboards_are_walked_in_order() {
    let mut it = bits(bb(3) | bb(40) | bb(63));
    assert_eq!(it.next(), Some(3));
    assert_eq!(it.next(), Some(40));
    assert_eq!(it.next(), Some(63));
    assert_eq!(it.next(), None);
    assert_eq!(square_list(bb(3) | bb(40)), "a6 d1");
    assert_eq!(square_list(0), "");
    let picture = bitboard_string(bb(0));
    assert_eq!(picture.lines().count(), 8);
}
