//! The search.

use bschess::eval::{Evaluator, MATE, MATE_THRESHOLD};
use bschess::movegen::{generate_vec, GenMode};
use bschess::position::{GameResult, Position};
use bschess::search::{
    best_move, from_tt_score, plies_left, terminal_score, time_is_short, time_is_up, to_tt_score,
    tt_key, SearchLimits, SearchOptions, SearchResult, Searcher, TranspositionTable,
};
use bschess::types::{Color, Move};
use std::sync::atomic::Ordering;

#[test]
fn finds_a_king_capture_in_one() {
    // White knight on b1 sweeps b2/b3 -> c3; black king on b3 is on the path.
    let pos = Position::from_fen("8/8/8/8/8/1k6/8/1N2K3 w - - 0 1").unwrap();
    let r = best_move(&pos, &SearchLimits::depth(3), Evaluator::Hand);
    assert!(
        r.score >= MATE_THRESHOLD,
        "expected a forced win, got {} via {}",
        r.score_string(),
        r.best.to_text()
    );
}

#[test]
fn avoids_walking_into_a_one_move_loss() {
    // Black to move. Kb6 would put the king next to the white rook's reach.
    let pos = Position::from_fen("8/8/1k6/8/8/8/8/R3K3 b - - 0 1").unwrap();
    let r = best_move(&pos, &SearchLimits::depth(4), Evaluator::Hand);
    assert!(r.score > -MATE_THRESHOLD, "black should not be lost here");
}

#[test]
fn search_returns_a_legal_move() {
    let mut pos = Position::startpos();
    for _ in 0..12 {
        if pos.result().is_some() {
            break;
        }
        let r = best_move(&pos, &SearchLimits::depth(4), Evaluator::Hand);
        let legal = generate_vec(&pos, GenMode::All);
        assert!(
            legal.contains(&r.best),
            "illegal move {} in {}",
            r.best.to_text(),
            pos.to_fen()
        );
        pos.make_move(r.best);
        pos.validate().unwrap();
    }
}

#[test]
fn respects_the_ply_cap() {
    // One ply from the cap, with white a queen up: the cap adjudicates a win.
    let pos = Position::from_fen("4k3/8/8/8/8/8/8/3QK3 w - - 199 100").unwrap();
    let r = best_move(&pos, &SearchLimits::depth(4), Evaluator::Hand);
    assert!(r.score >= MATE_THRESHOLD, "material adjudication should win");
}

#[test]
fn transposition_key_separates_plies_only_near_the_cap() {
    let early_a = Position::from_fen("4k3/8/8/8/8/8/8/3QK3 w - - 20 11").unwrap();
    let early_b = Position::from_fen("4k3/8/8/8/8/8/8/3QK3 w - - 24 13").unwrap();
    assert_eq!(
        tt_key(&early_a),
        tt_key(&early_b),
        "far from the cap the table should be shared across plies"
    );

    // Inside the window the ply changes what the position is worth, because
    // material adjudication is about to fire.
    let late_a = Position::from_fen("4k3/8/8/8/8/8/8/3QK3 w - - 190 96").unwrap();
    let late_b = Position::from_fen("4k3/8/8/8/8/8/8/3QK3 w - - 196 99").unwrap();
    assert_ne!(tt_key(&late_a), tt_key(&late_b));
    assert_ne!(tt_key(&late_a), late_a.key);
}

#[test]
fn deeper_search_is_not_slower_than_linear() {
    let pos = Position::startpos();
    let r = best_move(&pos, &SearchLimits::depth(5), Evaluator::Hand);
    assert!(r.depth >= 5);
    assert!(!r.best.is_none());
}

#[test]
fn finished_games_score_by_distance() {
    let win = GameResult::Win(Color::White);
    assert_eq!(terminal_score(win, Color::White, 3), MATE - 3);
    assert_eq!(terminal_score(win, Color::Black, 3), 3 - MATE);
    assert_eq!(terminal_score(GameResult::Draw, Color::White, 3), 0);
    assert_eq!(to_tt_score(MATE - 7, 4), MATE - 3);
    assert_eq!(to_tt_score(7 - MATE, 4), 3 - MATE);
    assert_eq!(to_tt_score(120, 4), 120);
    for x in [MATE - 7, 7 - MATE, 120, -120] {
        assert_eq!(from_tt_score(to_tt_score(x, 5), 5), x);
    }
}

#[test]
fn a_node_limit_stops_the_search() {
    let pos = Position::startpos();
    let mut s = Searcher::with_evaluator(Evaluator::Hand);
    let r = s.search(&pos, &SearchLimits::nodes(5_000));
    assert!(generate_vec(&pos, GenMode::All).contains(&r.best));
    assert!(r.nodes >= 5_000);
    assert!(r.nodes < 500_000);
}

#[test]
fn the_time_limit_is_reached_on_the_dot() {
    assert!(!time_is_up(Some(50), 49));
    assert!(time_is_up(Some(50), 50));
    assert!(time_is_up(Some(0), 0));
    assert!(!time_is_up(None, u128::MAX));
}

#[test]
fn two_thirds_of_the_time_leave_too_little() {
    assert!(!time_is_short(Some(300), 200));
    assert!(time_is_short(Some(300), 201));
    assert!(!time_is_short(Some(0), 0));
    assert!(time_is_short(Some(0), 1));
    assert!(time_is_short(Some(u128::MAX), u128::MAX));
    assert!(!time_is_short(None, u128::MAX));
}

#[test]
fn no_time_at_all_leaves_one_iteration() {
    let pos = Position::startpos();
    let mut s = Searcher::with_evaluator(Evaluator::Hand);
    let r = s.search(&pos, &SearchLimits::movetime_ms(0));
    assert_eq!(r.depth, 1);
    assert!(!r.best.is_none());
}

#[test]
fn a_time_limit_stops_the_search() {
    let pos = Position::startpos();
    let mut s = Searcher::with_evaluator(Evaluator::Hand);
    let r = s.search(&pos, &SearchLimits::movetime_ms(50));
    assert!(generate_vec(&pos, GenMode::All).contains(&r.best));
    assert!(r.elapsed > 0);
    assert!(r.elapsed < 10_000_000_000);
}

#[test]
fn a_search_is_repeatable_after_a_reset() {
    let pos = Position::from_fen("4k3/8/8/3n4/8/8/8/R3K3 w - - 0 1").unwrap();
    let mut s = Searcher::new(SearchOptions { tt_megabytes: 1, ..SearchOptions::default() });
    let a = s.search(&pos, &SearchLimits::depth(4));
    s.reset();
    let b = s.search(&pos, &SearchLimits::depth(4));
    assert_eq!((a.best, a.score, a.nodes), (b.best, b.score, b.nodes));
    assert_eq!(a.pv, b.pv);
    assert_eq!(a.pv[0], a.best);
}

#[test]
fn null_moves_and_full_depth_are_options() {
    let pos = Position::from_fen("4k3/8/8/3n4/8/8/8/R3K3 w - - 0 1").unwrap();
    let options = SearchOptions {
        tt_megabytes: 1,
        use_null_move: true,
        use_lmr: false,
        ..SearchOptions::default()
    };
    let r = Searcher::new(options).search(&pos, &SearchLimits::depth(5));
    assert_eq!(r.depth, 5);
    assert!(generate_vec(&pos, GenMode::All).contains(&r.best));
}

#[test]
fn steps_add_up_to_a_search() {
    let pos = Position::from_fen("4k3/8/8/3n4/8/8/8/R3K3 w - - 0 1").unwrap();
    let limits = SearchLimits::depth(4);
    let mut s = Searcher::with_evaluator(Evaluator::Hand);
    let mut p = s.begin(&pos, &limits);
    let mut steps = 0;
    while !p.done && p.depth <= p.max_depth {
        s.step(&pos, &mut p);
        steps += 1;
    }
    assert!(steps >= 4);
    let r = s.finish(p);
    let whole = best_move(&pos, &limits, Evaluator::Hand);
    assert_eq!((r.best, r.score, r.depth, r.nodes), (whole.best, whole.score, whole.depth, whole.nodes));
}

#[test]
fn results_are_read_as_text() {
    let mut r = SearchResult::default();
    assert_eq!(r.score_string(), "+0.00");
    assert_eq!(r.pv_string(), "");
    r.score = 1234;
    assert_eq!(r.score_string(), "+12.34");
    r.score = -7;
    assert_eq!(r.score_string(), "-0.07");
    r.score = MATE - 3;
    assert_eq!(r.score_string(), "win in 3 ply");
    r.score = 4 - MATE;
    assert_eq!(r.score_string(), "-win in 4 ply");
    r.pv = vec![Move::parse("a1a2").unwrap(), Move::parse("e8e7").unwrap()];
    assert_eq!(r.pv_string(), "a1a2 e8e7");
    r.depth = 2;
    r.seldepth = 5;
    r.nodes = 77;
    assert_eq!(r.nps(), 0);
    r.elapsed = 2_000_000_000;
    assert_eq!(r.nps(), 38);
    assert_eq!(
        r.info_line(),
        "info depth 2 seldepth 5 score -win in 4 ply nodes 77 nps 38 pv a1a2 e8e7"
    );
}

#[test]
fn plies_are_left_until_the_cap() {
    assert_eq!(plies_left(&Position::startpos()), 200);
}

#[test]
fn a_fixed_depth_is_reached() {
    let pos = Position::startpos();
    for depth in 1..5 {
        let r = best_move(&pos, &SearchLimits::depth(depth), Evaluator::Hand);
        assert_eq!(r.depth, depth);
        let again = best_move(&pos, &SearchLimits::depth(depth), Evaluator::Hand);
        assert_eq!((r.best, r.score, r.nodes, r.pv), (again.best, again.score, again.nodes, again.pv));
    }
}

#[test]
fn a_score_beyond_the_full_window_is_searched_until_a_limit() {
    // Forty queens are worth more than the widest window holds.
    let fen = "QQQQQQQQ/QQQQQQQQ/QQQQQQQQ/QQQQQQQQ/QQQQQQQQ/8/K7/7k b - - 0 1";
    let pos = Position::from_fen(fen).unwrap();
    let mut s = Searcher::with_evaluator(Evaluator::Hand);
    let r = s.search(&pos, &SearchLimits::nodes(5_000));
    assert_eq!(r.depth, 0);
    assert!(3 * 2048 <= r.nodes && r.nodes < 4 * 2048);
    assert!(generate_vec(&pos, GenMode::All).contains(&r.best));
    // Where nothing can stop it, one look is enough.
    let r = best_move(&pos, &SearchLimits::depth(3), Evaluator::Hand);
    assert_eq!(r.depth, 0);
    assert!(r.nodes < 2048);
}

#[test]
fn an_early_handle_on_the_flag_still_stops_the_search() {
    let pos = Position::startpos();
    let limits = SearchLimits { depth: None, movetime: None, nodes: None };
    let mut s = Searcher::with_evaluator(Evaluator::Hand);
    let flag = s.stop_flag();
    s.reset();
    s.search(&pos, &SearchLimits::depth(1));
    let mut p = s.begin(&pos, &limits);
    flag.store(true, Ordering::Relaxed);
    s.step(&pos, &mut p);
    assert!(p.done);
    assert_eq!(p.result.depth, 1);
}

#[test]
fn a_raised_flag_stops_the_search() {
    let pos = Position::startpos();
    let limits = SearchLimits { depth: None, movetime: None, nodes: None };
    let mut s = Searcher::with_evaluator(Evaluator::Hand);
    let mut p = s.begin(&pos, &limits);
    s.stop_flag().store(true, Ordering::Relaxed);
    let mut steps = 0;
    while !p.done && p.depth <= p.max_depth {
        s.step(&pos, &mut p);
        steps += 1;
    }
    assert_eq!((steps, p.result.depth), (1, 1));
    let r = s.finish(p);
    assert!(generate_vec(&pos, GenMode::All).contains(&r.best));
    // The next search lowers the flag.
    assert_eq!(s.search(&pos, &SearchLimits::depth(2)).depth, 2);
}

#[test]
fn defaults_are_cautious() {
    let o = SearchOptions::default();
    assert_eq!(o.tt_megabytes, 64);
    assert!(!o.use_null_move && o.use_lmr && !o.verbose);
    assert_eq!(SearchLimits::default().movetime, Some(1000));
    let mut t = TranspositionTable::with_megabytes(1);
    t.new_generation();
    t.clear();
}
