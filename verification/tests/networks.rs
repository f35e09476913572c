//! Network inputs and files.

use bschess::nnue::{
    active_features, feature_index, Network, L1, L2, MAGIC, NUM_FEATURES, VERSION,
};
use bschess::position::Position;
use bschess::types::{Color, PieceType, ALL_PIECE_TYPES, NUM_PIECE_TYPES};
use std::collections::HashSet;

#[test]
fn parameter_count_is_about_200k() {
    let n = Network::zeroed();
    assert_eq!(n.parameter_count(), 768 * 256 + 256 + 32 * 512 + 32 + 32 * 32 + 32 + 32 + 1);
    assert!((190_000..230_000).contains(&n.parameter_count()));
}

#[test]
fn feature_indices_are_distinct_and_in_range() {
    let mut seen = HashSet::new();
    for c in [Color::White, Color::Black] {
        for pt in ALL_PIECE_TYPES {
            for s in 0..64 {
                let f = feature_index(Color::White, c, pt, s);
                assert!(f < NUM_FEATURES);
                assert!(seen.insert(f), "duplicate feature index {f}");
            }
        }
    }
    assert_eq!(seen.len(), NUM_FEATURES);
}

#[test]
fn perspectives_mirror_each_other() {
    // The same piece is "theirs" from one perspective and "ours" from the
    // other; the relative colour bit is the whole difference.
    const OURS: usize = 0;
    const THEIRS: usize = 1;
    let rook = PieceType::Rook.index();
    let square = 12;

    let f_white = feature_index(Color::White, Color::Black, PieceType::Rook, square);
    let f_black = feature_index(Color::Black, Color::Black, PieceType::Rook, square);

    assert_eq!(f_white, (THEIRS * NUM_PIECE_TYPES + rook) * 64 + square);
    assert_eq!(f_black, (OURS * NUM_PIECE_TYPES + rook) * 64 + square);
    assert_eq!(f_white - f_black, NUM_PIECE_TYPES * 64);
}

#[test]
fn save_load_roundtrip() {
    let mut net = Network::zeroed();
    for (i, w) in net.ft_weight.iter_mut().enumerate() {
        *w = ((i % 97) as f32 / 97.0).to_bits();
    }
    net.b3[0] = 1.5f32.to_bits();
    let back = Network::from_bytes(&net.to_bytes()).unwrap();
    assert_eq!(back.ft_weight, net.ft_weight);
    assert_eq!(back.b3, net.b3);
}

#[test]
fn broken_network_files_are_refused() {
    let bytes = Network::zeroed_with(8).to_bytes();
    assert_eq!(&bytes[0..4], &MAGIC.to_le_bytes());
    assert_eq!(&bytes[4..8], &VERSION.to_le_bytes());
    assert_eq!((L1, L2), (32, 32));
    assert_eq!(Network::from_bytes(&bytes).unwrap().hl, 8);
    // What follows the parameters is left alone.
    let mut longer = bytes.clone();
    longer.push(0);
    assert_eq!(Network::from_bytes(&longer).unwrap().hl, 8);

    let refused = |at: usize, b: u8| -> String {
        let mut bad = bytes.clone();
        bad[at] = b;
        Network::from_bytes(&bad).err().unwrap()
    };
    assert_eq!(refused(0, 0), "not a bschess network file");
    assert_eq!(refused(4, 9), "unsupported network version");
    assert_eq!(refused(16, 31), "network shape 768x8x31x32 does not match the compiled 768x*x32x32");
    assert_eq!(refused(12, 9), "hidden layer 9 must be a non-zero multiple of 8, at most 256");
    assert_eq!(refused(12, 16), "network file truncated");
    let short = Network::from_bytes(&bytes[..23]).err().unwrap();
    assert_eq!(short, "network file too short");
    let cut = Network::from_bytes(&bytes[..bytes.len() - 1]).err().unwrap();
    assert_eq!(cut, "network file truncated");
}

#[test]
fn every_piece_is_two_features() {
    let v = active_features(&Position::startpos());
    assert_eq!(v.len(), 32);
    let ours: HashSet<usize> = v.iter().map(|f| f.0).collect();
    let theirs: HashSet<usize> = v.iter().map(|f| f.1).collect();
    assert_eq!((ours.len(), theirs.len()), (32, 32));
}
