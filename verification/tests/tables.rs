//! Lookup tables and the random number generator.

use bschess::tables::{
    bishop_attacks, blast_mask, build, ray_attacks, rook_attacks, slider_attacks, SplitMix64, DIR_N,
};
use bschess::types::{bb, parse_square, PieceType};

#[test]
fn blast_corner_is_2x2() {
    let t = build();
    assert_eq!(t.blast[parse_square("a1").unwrap()].count_ones(), 4);
    assert_eq!(t.blast[parse_square("h8").unwrap()].count_ones(), 4);
    assert_eq!(t.blast[parse_square("a4").unwrap()].count_ones(), 6);
    assert_eq!(t.blast[parse_square("d4").unwrap()].count_ones(), 9);
}

#[test]
fn knight_paths_match_spec_table() {
    let t = build();
    // From d4 the (+2,+1) move goes d4 -> d5 -> d6 -> e6.
    let d4 = parse_square("d4").unwrap();
    let k = 0; // (2, 1)
    assert_eq!(t.knight_dest[d4][k] as usize, parse_square("e6").unwrap());
    let expect = bb(parse_square("d5").unwrap())
        | bb(parse_square("d6").unwrap())
        | bb(parse_square("e6").unwrap());
    assert_eq!(t.knight_path[d4][k], expect);
    // Every legal knight move has a 3-square path.
    for s in 0..64 {
        for kk in 0..8 {
            if t.knight_dest[s][kk] != 64 {
                assert_eq!(t.knight_path[s][kk].count_ones(), 3);
            }
        }
    }
}

#[test]
fn ray_stops_on_first_blocker_inclusive() {
    let a1 = parse_square("a1").unwrap();
    let a4 = parse_square("a4").unwrap();
    let occ = bb(a4);
    let att = ray_attacks(DIR_N, a1, occ);
    let expect = bb(parse_square("a2").unwrap()) | bb(parse_square("a3").unwrap()) | bb(a4);
    assert_eq!(att, expect);
}

#[test]
fn between_is_exclusive() {
    let t = build();
    let a1 = parse_square("a1").unwrap();
    let a4 = parse_square("a4").unwrap();
    assert_eq!(
        t.between[a1][a4],
        bb(parse_square("a2").unwrap()) | bb(parse_square("a3").unwrap())
    );
    assert_eq!(t.between[a1][parse_square("a2").unwrap()], 0);
    assert_eq!(t.dir_between[a1][parse_square("b3").unwrap()], 8);
}

#[test]
fn sliders_combine_their_rays() {
    let d4 = parse_square("d4").unwrap();
    assert_eq!(rook_attacks(d4, 0).count_ones(), 14);
    assert_eq!(bishop_attacks(d4, 0).count_ones(), 13);
    assert_eq!(slider_attacks(PieceType::Rook, d4, 0), rook_attacks(d4, 0));
    assert_eq!(slider_attacks(PieceType::Bishop, d4, 0), bishop_attacks(d4, 0));
    // The queen has a reach of her own.
    assert_eq!(slider_attacks(PieceType::Queen, d4, 0), 0);
    assert_eq!(blast_mask(d4).count_ones(), 9);
}

#[test]
fn the_generator_is_splitmix() {
    // The published first outputs for seed 1234567.
    let mut rng = SplitMix64::new(1234567);
    assert_eq!(rng.next(), 6457827717110365317);
    assert_eq!(rng.next(), 3203168211198807973);
    assert_eq!(SplitMix64::new(5).below(0), 0);
    for _ in 0..100 {
        assert!(rng.below(7) < 7);
    }
}

#[test]
fn hash_keys_are_distinct() {
    let t = build();
    let mut keys: Vec<u64> = Vec::new();
    for p in 0..12 {
        for s in 0..64 {
            keys.push(t.zobrist_piece[p][s]);
        }
    }
    keys.push(t.zobrist_side);
    keys.extend_from_slice(&t.zobrist_ply);
    keys.sort();
    keys.dedup();
    assert_eq!(keys.len(), 12 * 64 + 1 + 256);
    assert!(!keys.contains(&0));
}
