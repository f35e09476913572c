//! The hand evaluation and the symmetries it respects.

use bschess::eval::{
    endgame_scale, eval_feature_counts, eval_feature_name, evaluate, evaluate_white,
    evaluate_white_with, evaluate_with, king_safety_counts, move_delta, orbit, Evaluator, HandWeights, KING_ORDER_VALUE,
    NUM_EVAL_FEATURES, SPEC_WEIGHTS, TUNED_V2_WEIGHTS, TUNED_WEIGHTS,
};
use bschess::movegen::{generate_vec, GenMode};
use bschess::position::Position;
use bschess::symmetry::{
    build, swap_colors, transform_bb, transform_move, transform_position, transform_square,
    NUM_SYMMETRIES, SYMMETRY_NAMES,
};
use bschess::tables::SplitMix64;
use bschess::types::{Color, Move, PieceType};
use std::collections::HashSet;

#[test]
fn startpos_is_balanced() {
    let pos = Position::startpos();
    assert_eq!(evaluate_white(&pos), 0);
}

#[test]
fn evaluation_is_colour_symmetric() {
    // Same position with colours swapped must evaluate to the negation.
    let pos = Position::from_fen("4k3/8/8/3n4/8/8/4R3/4K3 w - - 0 1").unwrap();
    let mirrored = swap_colors(&pos);
    assert_eq!(evaluate_white(&pos), -evaluate_white(&mirrored));
}

#[test]
fn a_reachable_detonation_square_next_to_the_king_is_punished() {
    // What matters is whether an enemy slider can actually *land* on an occupied
    // square of the king's 3x3.
    //
    // Black king on e8 with a pawn on e7. The white rook on e1 has a clear
    // file to e7, so landing there detonates and takes the king with it.
    let exposed = Position::from_fen("4k3/4p3/8/p7/8/8/8/K3R3 w - - 0 1").unwrap();
    let (_, live, _) = king_safety_counts(&exposed, Color::Black);
    assert!(live > 0, "e7 is a reachable detonation square");

    // The same material, but the spare black pawn now blocks the file on e4.
    // Moving the blocker rather than adding one keeps material identical, so
    // the evaluation difference below is the threat and nothing else.
    let shielded = Position::from_fen("4k3/4p3/8/8/4p3/8/8/K3R3 w - - 0 1").unwrap();
    let (_, live_blocked, _) = king_safety_counts(&shielded, Color::Black);
    assert_eq!(live_blocked, 0, "the blocked rook cannot reach e7");
    assert_eq!(
        exposed.material_cp(Color::Black),
        shielded.material_cp(Color::Black),
        "the two positions must differ only in the threat"
    );

    assert!(
        evaluate_white(&exposed) > evaluate_white(&shielded),
        "a live detonation threat against the black king must favour white"
    );
}

#[test]
fn tuned_weights_are_what_the_engine_plays() {
    // Make sure a later edit cannot quietly revert the default to the guesses.
    let pos = Position::from_fen("4k3/8/8/3n4/8/8/8/R3K3 w - - 0 1").unwrap();
    assert_eq!(evaluate(&pos), evaluate_with(&pos, &TUNED_WEIGHTS));
    assert_ne!(SPEC_WEIGHTS, TUNED_WEIGHTS);
}

#[test]
fn detonation_delta_counts_the_mover() {
    // White rook a1 takes on a2 where a black knight stands; blast clears
    // a1..b3 region. Rook dies with it.
    let pos = Position::from_fen("4k3/8/8/8/8/8/n7/R3K3 w - - 0 1").unwrap();
    let mv = Move::parse("a1a2").unwrap();
    // +knight (900) - rook (450) = 450.
    assert_eq!(move_delta(&pos, mv), 900 - 450);
}

#[test]
fn king_capture_dominates_ordering() {
    let pos = Position::from_fen("8/8/8/8/8/8/4k3/4K3 w - - 0 1").unwrap();
    let mv = Move::parse("e1e2").unwrap();
    assert_eq!(move_delta(&pos, mv), KING_ORDER_VALUE);
}

/// The features as a fit wants them: the five material counts scaled.
fn features(pos: &Position, w: &HandWeights) -> Vec<f32> {
    let scale = endgame_scale(pos, w) as f32 / 100.0;
    eval_feature_counts(pos, w)
        .iter()
        .enumerate()
        .map(|(i, &n)| if i < 5 { n as f32 * scale } else { n as f32 })
        .collect()
}

#[test]
fn feature_model_reproduces_the_evaluation() {
    // Tolerance is a few centipawns: the real evaluation truncates to integers
    // in two places (the endgame scale, and the scaled material total) where
    // the feature model stays in floating point.
    let w: Vec<f32> = TUNED_WEIGHTS.iter().map(|&w| w as f32).collect();
    let mut rng = SplitMix64::new(20260802);
    let mut checked = 0;
    for _ in 0..400 {
        let mut pos = Position::startpos();
        for _ in 0..rng.below(70) {
            if pos.result().is_some() {
                break;
            }
            let moves = generate_vec(&pos, GenMode::All);
            pos.make_move(moves[rng.below(moves.len())]);
        }
        if pos.result().is_some() {
            continue;
        }
        let modelled: f32 = features(&pos, &TUNED_WEIGHTS)
            .iter()
            .zip(w.iter())
            .map(|(f, w)| f * w)
            .sum();
        // `evaluate_white` excludes tempo; the feature model includes it.
        let tempo = TUNED_WEIGHTS[9] as f32;
        let actual = evaluate_white(&pos) as f32
            + if pos.side == Color::White { tempo } else { -tempo };
        assert!(
            (modelled - actual).abs() <= 3.0,
            "feature model {modelled} vs evaluation {actual} on {}",
            pos.to_fen()
        );
        checked += 1;
    }
    assert!(checked > 100, "not enough positions exercised");
}

#[test]
fn evaluators_differ_in_their_weights() {
    let pos = Position::from_fen("4k3/8/8/3n4/8/8/8/R3K3 w - - 0 1").unwrap();
    assert_eq!(Evaluator::Hand.eval(&pos), evaluate_with(&pos, &TUNED_WEIGHTS));
    assert_eq!(Evaluator::HandV2.eval(&pos), evaluate_with(&pos, &TUNED_V2_WEIGHTS));
    assert_eq!(Evaluator::HandSpec.eval(&pos), evaluate_with(&pos, &SPEC_WEIGHTS));
    assert_eq!(Evaluator::Hand.name(), "hand-tuned");
}

#[test]
fn the_endgame_scale_is_a_percentage() {
    let start = Position::startpos();
    let knights = Position::from_fen("1n2k3/8/8/8/8/8/8/1N2K3 w - - 0 1").unwrap();
    let bare = Position::from_fen("4k3/pppppppp/8/8/8/8/PPPPPPPP/4K3 w - - 0 1").unwrap();
    let rich = Position::from_fen("qqqqkq2/8/8/8/8/8/8/QQQQKQ2 w - - 0 1").unwrap();
    for w in [&SPEC_WEIGHTS, &TUNED_WEIGHTS, &TUNED_V2_WEIGHTS] {
        assert_eq!(endgame_scale(&start, w), 100);
        assert_eq!(endgame_scale(&bare, w), 35);
        assert_eq!(endgame_scale(&rich, w), 100);
    }
    // Knights count against their side here, but the scale stops at its lower end.
    assert_eq!(endgame_scale(&knights, &TUNED_V2_WEIGHTS), 35);
    // Two of 944 out of 2 * (2 * 944 + 2 * 318 + 2 * 456 + 1696) = 10264.
    assert_eq!(endgame_scale(&knights, &TUNED_WEIGHTS), 35 + 65 * 1888 / 10264);
    // Without anything to start from there is nothing left.
    assert_eq!(endgame_scale(&start, &[0; NUM_EVAL_FEATURES]), 35);
    assert_eq!(endgame_scale(&start, &[-5; NUM_EVAL_FEATURES]), 35);
}

#[test]
fn the_turn_is_worth_a_tempo() {
    for pos in random_positions(20, 77) {
        let mut other = pos;
        other.side = pos.side.flip();
        for w in [&SPEC_WEIGHTS, &TUNED_WEIGHTS, &TUNED_V2_WEIGHTS] {
            assert_eq!(evaluate_with(&pos, w) + evaluate_with(&other, w), 2 * w[9]);
            assert_eq!(evaluate_white_with(&pos, w), evaluate_white_with(&other, w));
        }
    }
}

#[test]
fn the_start_is_balanced_under_all_weights() {
    for w in [&SPEC_WEIGHTS, &TUNED_WEIGHTS, &TUNED_V2_WEIGHTS] {
        assert_eq!(evaluate_white_with(&Position::startpos(), w), 0);
    }
}

#[test]
fn swings_are_what_the_lead_gains() {
    fn stake(pos: &Position, c: Color) -> i32 {
        pos.material_cp(c) + if pos.bb_of(c, PieceType::King) != 0 { 20_000 } else { 0 }
    }
    for pos in random_positions(20, 4242) {
        let us = pos.side;
        let lead = |p: &Position| stake(p, us) - stake(p, us.flip());
        for mv in generate_vec(&pos, GenMode::All) {
            let child = pos.after(mv).0;
            assert_eq!(move_delta(&pos, mv), lead(&child) - lead(&pos));
        }
    }
}

#[test]
fn feature_names_are_distinct() {
    let names: HashSet<String> = (0..NUM_EVAL_FEATURES).map(eval_feature_name).collect();
    assert_eq!(names.len(), NUM_EVAL_FEATURES);
    for (i, name) in [
        (0, "pawn"),
        (9, "tempo"),
        (10, "pst_p_orbit0"),
        (69, "pst_k_orbit9"),
        (70, "knight_span"),
        (72, "pawn_endgame"),
    ] {
        assert_eq!(eval_feature_name(i), name);
    }
}

#[test]
fn features_have_names_and_squares_have_orbits() {
    for i in 0..NUM_EVAL_FEATURES {
        assert!(!eval_feature_name(i).is_empty());
    }
    // Corners are alike, and the middle is one class.
    assert_eq!(orbit(0), orbit(63));
    assert_eq!(orbit(27), orbit(36));
    assert_ne!(orbit(0), orbit(27));
}

fn random_positions(n: usize, seed: u64) -> Vec<Position> {
    let mut rng = SplitMix64::new(seed);
    let mut out = Vec::new();
    while out.len() < n {
        let mut pos = Position::startpos();
        let depth = 1 + rng.below(50);
        for _ in 0..depth {
            if pos.result().is_some() {
                break;
            }
            let moves = generate_vec(&pos, GenMode::All);
            pos.make_move(moves[rng.below(moves.len())]);
        }
        if pos.result().is_none() {
            out.push(pos);
        }
    }
    out
}

#[test]
fn permutations_are_bijections_and_form_a_group() {
    let sym = build();
    for (i, name) in SYMMETRY_NAMES.iter().enumerate() {
        let seen: HashSet<u8> = sym.perm[i].iter().copied().collect();
        assert_eq!(seen.len(), 64, "{name} is not a bijection");
    }
    // Closure: composing any two elements yields another element.
    for (i, a) in SYMMETRY_NAMES.iter().enumerate() {
        for (j, b) in SYMMETRY_NAMES.iter().enumerate() {
            let composed: Vec<u8> =
                (0..64).map(|s| sym.perm[j][sym.perm[i][s] as usize]).collect();
            assert!(
                sym.perm.iter().any(|p| p.as_slice() == composed.as_slice()),
                "{b} o {a} left the group"
            );
        }
    }
    // Inverses round-trip.
    for i in 0..NUM_SYMMETRIES {
        for s in 0..64 {
            assert_eq!(transform_square(sym.inverse[i], transform_square(i, s)), s);
        }
    }
}

#[test]
fn movegen_commutes_with_symmetry() {
    for pos in random_positions(40, 4242) {
        let base: HashSet<Move> = generate_vec(&pos, GenMode::All).into_iter().collect();
        for (i, name) in SYMMETRY_NAMES.iter().enumerate() {
            let tpos = transform_position(i, &pos);
            assert!(tpos.validate().is_ok());
            let got: HashSet<Move> = generate_vec(&tpos, GenMode::All).into_iter().collect();
            let want: HashSet<Move> = base.iter().map(|&m| transform_move(i, m)).collect();
            assert_eq!(got, want, "{name} broke movegen on {}", pos.to_fen());
        }
    }
}

#[test]
fn make_move_commutes_with_symmetry() {
    let mut rng = SplitMix64::new(99);
    for pos in random_positions(30, 8181) {
        let moves = generate_vec(&pos, GenMode::All);
        for _ in 0..8 {
            let m = moves[rng.below(moves.len())];
            let (child, _) = pos.after(m);
            for (i, name) in SYMMETRY_NAMES.iter().enumerate() {
                let (tchild, _) = transform_position(i, &pos).after(transform_move(i, m));
                let expect = transform_position(i, &child);
                assert_eq!(
                    tchild.pieces,
                    expect.pieces,
                    "{name} broke make_move for {} on {}",
                    m.to_text(),
                    pos.to_fen()
                );
            }
        }
    }
}

#[test]
fn evaluation_is_symmetry_invariant() {
    for pos in random_positions(40, 1234) {
        let base = evaluate_white(&pos);
        for (i, name) in SYMMETRY_NAMES.iter().enumerate() {
            assert_eq!(
                evaluate_white(&transform_position(i, &pos)),
                base,
                "{name} changed the evaluation of {}",
                pos.to_fen()
            );
        }
    }
}

#[test]
fn colour_swap_negates_and_is_an_involution() {
    for pos in random_positions(40, 5150) {
        let swapped = swap_colors(&pos);
        assert!(swapped.validate().is_ok());
        assert_eq!(evaluate_white(&swapped), -evaluate_white(&pos));
        let back = swap_colors(&swapped);
        assert_eq!(back.pieces, pos.pieces);
        assert_eq!(back.side, pos.side);
        assert_eq!(back.key, pos.key);
    }
}

#[test]
fn colour_swap_maps_moves_one_to_one() {
    for pos in random_positions(25, 606) {
        let ours: HashSet<Move> = generate_vec(&pos, GenMode::All).into_iter().collect();
        let theirs: HashSet<Move> =
            generate_vec(&swap_colors(&pos), GenMode::All).into_iter().collect();
        assert_eq!(ours, theirs, "colour swap changed the move set");
    }
}

#[test]
fn boards_turn_square_by_square() {
    for i in 0..NUM_SYMMETRIES {
        assert_eq!(transform_bb(i, 1 << 12), 1 << transform_square(i, 12));
        assert_eq!(transform_bb(i, !0), !0);
    }
}
