//! An engine for a chess variant in which pawns teleport, knights sweep, rooks and
//! bishops detonate, and every pseudo-legal move is legal.

pub mod bits;
pub mod bytes;
pub mod data;
pub mod eval;
pub mod fen;
pub mod gauntlet;
pub mod geom;
pub mod laws;
pub mod minimax;
pub mod movegen;
pub mod nnue;
pub mod operator;
pub mod perft;
pub mod plan;
pub mod position;
pub mod rules;
pub mod search;
pub mod selfplay;
pub mod symmetry;
pub mod tables;
pub mod terms;
pub mod text;
pub mod tuning;
pub mod types;

use vstd::prelude::*;

pub use eval::Evaluator;
pub use movegen::{GenMode, MoveList, generate, generate_vec};
pub use position::{GameResult, Position};
pub use search::{SearchLimits, SearchOptions, SearchResult, Searcher, best_move};
pub use types::{Color, Move, PieceType};

verus! {

/// Builds the lookup tables.
pub fn init() -> (t: tables::Tables)
    ensures
        t.wf(),
{
    tables::init()
}

} // verus!
