//! Positions, their text form, and training records.

use bschess::data::Sample;
use bschess::movegen::{generate_vec, GenMode};
use bschess::position::{GameResult, Position};
use bschess::tables::SplitMix64;
use bschess::types::{Color, Move};

#[test]
fn startpos_roundtrips() {
    let p = Position::startpos();
    assert_eq!(p.to_fen(), "rnbqkbnr/pppppppp/8/8/8/8/PPPPPPPP/RNBQKBNR w - - 0 1");
    assert_eq!(p.occ.count_ones(), 32);
    assert!(p.validate().is_ok());
    assert_eq!(p.result(), None);
}

#[test]
fn fen_roundtrip_arbitrary() {
    for fen in [
        "8/8/4k3/8/8/3K4/8/8 b - - 41 21",
        "r3k3/8/8/8/8/8/8/4K2R w - - 0 1",
    ] {
        let p = Position::from_fen(fen).unwrap();
        assert_eq!(p.to_fen(), fen);
    }
}

#[test]
fn key_matches_after_moves() {
    let mut p = Position::startpos();
    p.make_move(Move::parse("b1c3").unwrap());
    p.make_move(Move::parse("g8f6").unwrap());
    let mut q = p;
    q.recompute_key();
    assert_eq!(p.key, q.key);
}

#[test]
fn broken_fens_are_refused() {
    for (fen, complaint) in [
        ("", "empty FEN"),
        ("8/7/8/8/8/8/8/8 w - - 0 1", "rank 7 has 7 files, expected 8"),
        ("8/8/8/8/8/8/8 w - - 0 1", "FEN board section is not 8x8"),
        ("8/8/8/8/8/8/8/8/8 w - - 0 1", "too many ranks in FEN"),
        ("x7/8/8/8/8/8/8/8 w - - 0 1", "bad piece char 'x' in FEN"),
        ("ppppppppp/8/8/8/8/8/8/8 w - - 0 1", "rank overflow in FEN"),
        ("8/8/8/8/8/8/8/8 x - - 0 1", "bad side-to-move 'x'"),
    ] {
        assert_eq!(Position::from_fen(fen).err().unwrap(), complaint, "{fen}");
    }
}

#[test]
fn inconsistent_positions_are_reported() {
    let mut p = Position::startpos();
    p.occ ^= 1;
    assert_eq!(p.validate().err().unwrap(), "occupancy disagrees with piece boards");
    let mut p = Position::startpos();
    p.pieces[0] |= 1;
    assert_eq!(p.validate().err().unwrap(), "two pieces on a1");
    let mut p = Position::startpos();
    p.occ_color[0] ^= 1;
    assert_eq!(p.validate().err().unwrap(), "colour occupancy disagrees with piece boards");
    let mut p = Position::startpos();
    p.put_piece(5, 20);
    assert_eq!(p.validate().err().unwrap(), "more than one king of a colour");
}

#[test]
fn material_decides_at_the_cap() {
    let p = Position::startpos();
    assert_eq!(p.material_cp(Color::White), 8 * 25 + 2 * 900 + 2 * 400 + 2 * 450 + 1000);
    assert_eq!(p.adjudicate(), GameResult::Draw);
    assert_eq!(GameResult::Win(Color::White).describe(), "white wins");
    assert_eq!(GameResult::Draw.describe(), "draw");
}

#[test]
fn the_board_is_drawn() {
    let text = Position::startpos().board_string();
    assert!(text.contains("r n b q k b n r"));
    assert!(text.contains("a b c d e f g h"));
}

#[test]
fn record_is_32_bytes() {
    assert_eq!(Sample::from_position(&Position::startpos(), 0, true).encode().len(), 32);
}

#[test]
fn roundtrips_through_random_play() {
    let mut rng = SplitMix64::new(2024);
    for _ in 0..200 {
        let mut pos = Position::startpos();
        for _ in 0..rng.below(60) {
            if pos.result().is_some() {
                break;
            }
            let moves = generate_vec(&pos, GenMode::All);
            pos.make_move(moves[rng.below(moves.len())]);
        }
        let mut s = Sample::from_position(&pos, -123, true);
        s.set_result(GameResult::Win(Color::Black));
        let back = Sample::decode(&s.encode()).unwrap();
        assert_eq!(back, s);
        let rebuilt = back.to_position();
        assert_eq!(rebuilt.pieces, pos.pieces, "{}", pos.to_fen());
        assert_eq!(rebuilt.side, pos.side);
        assert_eq!(rebuilt.key, pos.key);
        assert_eq!(back.score, -123);
        assert_eq!(back.result, -1);
    }
}

#[test]
fn a_record_of_the_start_has_this_layout() {
    let b = Sample::from_position(&Position::startpos(), 258, true).encode();
    assert_eq!(&b[0..8], &[0xff, 0xff, 0, 0, 0, 0, 0xff, 0xff]);
    // Rook and knight on a1 and b1, the low half first.
    assert_eq!(b[8], 0x13);
    assert_eq!(&b[24..32], &[0, 0, 2, 1, 0, 1, 0, 0]);
    assert!(Sample::decode(&b[..31]).is_none());
    let far = Sample::from_position(&Position::startpos(), 40_000, false);
    assert_eq!(far.score, 30_000);
    assert!(!far.is_quiet());
}
