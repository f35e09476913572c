//! Move generation and node counts.

use bschess::movegen::{
    capture_effects, generate, generate_vec, is_capture, slider_reach, teleport_targets, GenMode,
    MoveList, MAX_MOVES,
};
use bschess::perft::{checked_perft, perft, perft_divide, perft_parallel};
use bschess::position::Position;
use bschess::tables::SplitMix64;
use bschess::types::{file_of, parse_square, piece_type_of, square_name, Color, Move, PieceType};

#[test]
fn startpos_teleport_count_is_pawns_times_empties() {
    let pos = Position::startpos();
    let moves = generate_vec(&pos, GenMode::All);
    let pawn_moves = moves
        .iter()
        .filter(|m| pos.piece_at(m.from()).map(piece_type_of) == Some(PieceType::Pawn))
        .count();
    let expected = pos.bb_of(Color::White, PieceType::Pawn).count_ones() as usize * (64 - 32);
    assert_eq!(pawn_moves, expected);
}

#[test]
fn queen_ray_enumeration_matches_spec_example() {
    // A ray with pieces at distance 3 and 6 yields destinations
    // {1,2,3,4,5,6} and nothing beyond.
    // Queen on b1, blockers on b4 (distance 3) and b7 (distance 6).
    let pos = Position::from_fen("8/1p6/8/8/1p6/8/8/1Q2k2K w - - 0 1").unwrap();
    let moves = generate_vec(&pos, GenMode::All);
    let b1 = parse_square("b1").unwrap();
    let north: Vec<String> = moves
        .iter()
        .filter(|m| m.from() == b1 && file_of(m.to()) == 1 && m.to() > b1)
        .map(|m| square_name(m.to()))
        .collect();
    let mut got = north.clone();
    got.sort();
    assert_eq!(got, vec!["b2", "b3", "b4", "b5", "b6", "b7"]);
    assert!(!got.contains(&"b8".to_string()));
}

#[test]
fn capture_effects_agrees_with_make_move() {
    // Property check across a random walk: the ordering-time capture mask must
    // equal what make_move actually destroys, or move ordering lies.
    let mut rng = SplitMix64::new(12345);
    for _ in 0..300 {
        let mut pos = Position::startpos();
        for _ in 0..40 {
            if pos.result().is_some() {
                break;
            }
            let moves = generate_vec(&pos, GenMode::All);
            for &m in moves.iter() {
                let (cap, died) = capture_effects(&pos, m);
                let (_, info) = pos.after(m);
                assert_eq!(
                    cap,
                    info.captured,
                    "capture mask mismatch for {} in {}",
                    m.to_text(),
                    pos.to_fen()
                );
                assert_eq!(died, info.mover_died, "mover_died mismatch for {}", m.to_text());
            }
            let m = moves[rng.below(moves.len())];
            pos.make_move(m);
            pos.validate().unwrap();
        }
    }
}

#[test]
fn restricted_generation_is_a_subset_of_full() {
    let mut rng = SplitMix64::new(777);
    let mut pos = Position::startpos();
    for _ in 0..60 {
        if pos.result().is_some() {
            break;
        }
        let all = generate_vec(&pos, GenMode::All);
        for m in generate_vec(&pos, GenMode::Search) {
            assert!(all.contains(&m), "{} not in full generation", m.to_text());
        }
        for m in generate_vec(&pos, GenMode::Captures) {
            assert!(all.contains(&m), "capture {} not in full generation", m.to_text());
            assert!(is_capture(&pos, m), "{} generated as capture but isn't one", m.to_text());
        }
        let m = all[rng.below(all.len())];
        pos.make_move(m);
    }
}

#[test]
fn move_list_capacity_has_real_headroom() {
    // `push` drops silently past MAX_MOVES, so the bound needs to be genuinely
    // unreachable, not merely usually enough. The theoretical worst case is a full
    // 16-piece side against a bare king: 8 pawns x 47 empty squares + ~105 piece
    // moves = 481.
    let worst = Position::from_fen("7k/8/8/8/8/8/PPPPPPPP/RNBQKBNR w - - 0 1").unwrap();
    let n = generate_vec(&worst, GenMode::All).len();
    assert!(n < MAX_MOVES, "{n} moves against a capacity of {MAX_MOVES}");

    let mut peak = n;
    let mut rng = SplitMix64::new(0xB0A7);
    for _ in 0..400 {
        let mut pos = Position::startpos();
        for _ in 0..60 {
            if pos.result().is_some() {
                break;
            }
            let moves = generate_vec(&pos, GenMode::All);
            peak = peak.max(moves.len());
            pos.make_move(moves[rng.below(moves.len())]);
        }
    }
    assert!(peak < MAX_MOVES, "observed {peak} moves against a capacity of {MAX_MOVES}");
}

#[test]
fn every_position_has_a_move() {
    // The king always has somewhere to go.
    let mut rng = SplitMix64::new(31337);
    for _ in 0..200 {
        let mut pos = Position::startpos();
        for _ in 0..80 {
            if pos.result().is_some() {
                break;
            }
            let moves = generate_vec(&pos, GenMode::All);
            assert!(!moves.is_empty(), "no moves in {}", pos.to_fen());
            assert!(
                !generate_vec(&pos, GenMode::Search).is_empty(),
                "no search moves in {}",
                pos.to_fen()
            );
            pos.make_move(moves[rng.below(moves.len())]);
        }
    }
}

#[test]
fn lists_hold_what_is_pushed() {
    let mut list = MoveList::new();
    assert!(list.is_empty());
    let m = Move::parse("a1a2").unwrap();
    list.push(m);
    assert_eq!(list.len(), 1);
    assert!(list.contains(m));
    assert!(!list.contains(Move::parse("a1a3").unwrap()));
    assert_eq!(list.as_slice(), &[m]);
    assert_eq!(list.to_vec(), vec![m]);
    list.clear();
    assert!(list.is_empty());
}

#[test]
fn reach_and_teleport_masks() {
    let p = Position::from_fen("4k3/8/8/8/8/8/8/R3K3 w - - 0 1").unwrap();
    // Up the a-file, and along the rank to the king.
    assert_eq!(slider_reach(&p, Color::White).count_ones(), 7 + 4);
    assert_eq!(slider_reach(&p, Color::Black), 0);
    assert_eq!(teleport_targets(&p, Color::White) & p.occ, 0);
}

#[test]
fn depth_one_equals_the_move_count() {
    let pos = Position::startpos();
    let mut list = MoveList::new();
    generate(&pos, GenMode::All, &mut list);
    assert_eq!(perft(&pos, 1), list.len() as u64);
}

#[test]
fn parallel_matches_serial() {
    let pos = Position::startpos();
    for d in 1..=3 {
        assert_eq!(perft(&pos, d), perft_parallel(&pos, d), "depth {d}");
    }
}

#[test]
fn divide_sums_to_perft() {
    let pos = Position::startpos();
    for d in 1..=3 {
        let total: u64 = perft_divide(&pos, d).iter().map(|(_, n)| n).sum();
        assert_eq!(total, perft(&pos, d), "depth {d}");
    }
}

#[test]
fn counts_are_checked() {
    let pos = Position::from_fen("k7/8/8/8/8/8/8/K1Q5 w - - 0 1").unwrap();
    assert_eq!(checked_perft(&pos, 4), Some(10_248));
    let over = Position::from_fen("4k3/8/8/8/8/8/8/4K3 w - - 0 1").unwrap();
    assert_eq!(checked_perft(&over, 9), Some(0));
}

#[test]
fn divided_counts_are_in_the_order_of_the_moves() {
    let pos = Position::from_fen("k7/8/8/8/8/8/8/K6R w - - 0 1").unwrap();
    let parts = perft_divide(&pos, 2);
    let names: Vec<String> = parts.iter().map(|(m, _)| m.to_text()).collect();
    let mut sorted = names.clone();
    sorted.sort();
    assert_eq!(names, sorted);
    assert_eq!(parts[0].1, 3);
}

#[test]
fn captures_are_limited() {
    // A full blast: nine pieces around d4, the one that is taken among them.
    let p = Position::from_fen("4k3/8/8/2ppp3/2ppp3/2ppp3/8/B3K3 w - - 0 1").unwrap();
    let (cap, died) = capture_effects(&p, Move::parse("a1c3").unwrap());
    assert!(died);
    assert_eq!(cap.count_ones(), 4);
    let p = Position::from_fen("4k3/8/8/2ppp3/2ppp3/2p1p3/8/3RK3 w - - 0 1").unwrap();
    let (cap, _) = capture_effects(&p, Move::parse("d1d4").unwrap());
    assert_eq!(cap.count_ones(), 8);
}

#[test]
fn an_empty_ring_is_king_safety() {
    // Nothing stands next to the black king, so only a rook that lands on it can blow it
    // up.
    let p = Position::from_fen("4k3/8/2p3p1/8/8/8/8/R3K2R w - - 0 1").unwrap();
    let king = p.king_sq(Color::Black).unwrap();
    for m in generate_vec(&p, GenMode::All) {
        let (after, info) = p.after(m);
        if info.mover_died && m.to() != king {
            assert_eq!(after.king_sq(Color::Black), Some(king), "{}", m.to_text());
        }
    }
    // A piece next to it is a detonator.
    let p = Position::from_fen("4k3/4p3/8/8/8/8/8/K3R3 w - - 0 1").unwrap();
    let (after, _) = p.after(Move::parse("e1e7").unwrap());
    assert_eq!(after.king_sq(Color::Black), None);
}

#[test]
fn material_never_grows() {
    let mut rng = SplitMix64::new(2718);
    for _ in 0..50 {
        let mut pos = Position::startpos();
        let mut men = pos.occ.count_ones();
        assert_eq!(men, 32);
        while pos.result().is_none() {
            let moves = generate_vec(&pos, GenMode::All);
            pos.make_move(moves[rng.below(moves.len())]);
            assert!(pos.occ.count_ones() <= men);
            men = pos.occ.count_ones();
            assert!(pos.bb_of(Color::White, PieceType::Queen).count_ones() <= 1);
        }
    }
}
