//! Self-play, matches and operator mode.

use bschess::data::Sample;
use bschess::eval::Evaluator;
use bschess::gauntlet::{
    add_pairing, match_openings, pairing_seed, play_game, play_match, play_pair, round_robin,
    score_game, MatchScore, Participant,
};
use bschess::operator::{
    move_report, moves_report, read_command, search_report, state_report, Answer, Command,
    Entered, Session,
};
use bschess::position::{GameResult, Position};
use bschess::search::{SearchLimits, SearchOptions, SearchResult, Searcher};
use bschess::selfplay::{
    play_game as play_self, play_numbered, random_opening, random_walk, SelfPlayConfig,
    SelfPlayStats,
};
use bschess::tables::SplitMix64;
use bschess::tuning::{examples, held_out};
use bschess::types::{Color, Move};

#[test]
fn a_short_game_terminates_and_labels_samples() {
    let cfg = SelfPlayConfig {
        games: 2,
        limits: SearchLimits::depth(2),
        ..Default::default()
    };
    let mut rng = SplitMix64::new(7);
    let mut s = Searcher::new(SearchOptions { tt_megabytes: 1, ..Default::default() });
    let (samples, result, stats) = play_self(&cfg, &mut rng, &mut s);
    assert_eq!(stats.games, 1);
    assert!(stats.plies > 0);
    let expect = match result {
        GameResult::Draw => 0,
        GameResult::Win(Color::White) => 1,
        GameResult::Win(Color::Black) => -1,
    };
    for x in &samples {
        assert_eq!(x.result, expect);
        assert!(x.is_quiet());
    }
}

#[test]
fn numbered_games_are_repeatable() {
    let cfg = SelfPlayConfig {
        limits: SearchLimits::depth(1),
        quiet_only: false,
        tt_megabytes: 1,
        ..Default::default()
    };
    let (a, ra, sa) = play_numbered(&cfg, 3);
    let (b, rb, sb) = play_numbered(&cfg, 3);
    assert_eq!((a, ra, sa), (b, rb, sb));
    let (_, _, other) = play_numbered(&cfg, 4);
    assert_ne!(other.nodes, sb.nodes);
}

#[test]
fn counts_add_up() {
    let one = SelfPlayStats { games: 1, draws: 1, nodes: 10, ..Default::default() };
    let mut sum = SelfPlayStats { games: 2, white_wins: 2, plies: 7, ..Default::default() };
    sum.merge(&one);
    assert_eq!((sum.games, sum.white_wins, sum.draws, sum.nodes, sum.plies), (3, 2, 1, 10, 7));
    assert_eq!(one.checked_merge(one).unwrap().nodes, 20);
    let full = SelfPlayStats { nodes: u64::MAX, ..Default::default() };
    assert!(full.checked_merge(one).is_none());
}

#[test]
fn openings_are_walks_from_the_start() {
    let mut rng = SplitMix64::new(5);
    let mut finished = 0;
    for _ in 0..20 {
        if let Some(p) = random_walk(6, &mut rng) {
            assert_eq!(p.ply, 6);
            p.validate().unwrap();
            finished += 1;
        }
    }
    assert!(finished > 0);
    assert_eq!(random_walk(0, &mut rng).unwrap(), Position::startpos());

    let cfg = SelfPlayConfig::<Evaluator>::default();
    let a = random_opening(&cfg, &mut SplitMix64::new(11));
    let b = random_opening(&cfg, &mut SplitMix64::new(11));
    assert_eq!(a, b);
    assert!(a.ply == 0 || (4..=8).contains(&a.ply));

    // Nothing is balanced enough.
    let strict = SelfPlayConfig { opening_reject_cp: -1, ..Default::default() };
    let c = random_opening::<Evaluator>(&strict, &mut SplitMix64::new(11));
    assert_eq!(c, Position::startpos());
}

#[test]
fn a_deeper_engine_does_not_lose_to_a_shallower_one() {
    let deep = Participant::new("d4".to_string(), Evaluator::Hand, SearchLimits::depth(4));
    let shallow = Participant::new("d1".to_string(), Evaluator::Hand, SearchLimits::depth(1));
    let s = play_match(&deep, &shallow, 3, 11);
    assert_eq!(s.games(), 6);
    let rate = (s.wins as f64 + 0.5 * s.draws as f64) / s.games() as f64;
    assert!(rate >= 0.5, "depth 4 scored {:.2} against depth 1", rate);
}

#[test]
fn matches_are_pairs_of_games() {
    let a = Participant::new("a".to_string(), Evaluator::Hand, SearchLimits::depth(1));
    let b = Participant::new("b".to_string(), Evaluator::HandSpec, SearchLimits::depth(1));
    let opening = match_openings(Evaluator::Hand, 2, 9)[1];
    let first = play_game(&a, &b, &opening);
    let second = play_game(&b, &a, &opening);
    let mut s = score_game(first, Color::White);
    s.merge(&score_game(second, Color::Black));
    assert_eq!(play_pair(&a, &b, &opening), s);
    assert_eq!(s.games(), 2);
    // In parallel, in order: the match is the sum of its pairs.
    let mut sum = MatchScore::default();
    for o in match_openings(Evaluator::Hand, 3, 9).iter() {
        sum.merge(&play_pair(&a, &b, o));
    }
    assert_eq!(play_match(&a, &b, 3, 9), sum);
}

#[test]
fn matches_at_a_fixed_depth_are_repeatable() {
    let a = Participant::new("a".to_string(), Evaluator::Hand, SearchLimits::depth(2));
    let b = Participant::new("b".to_string(), Evaluator::HandSpec, SearchLimits::nodes(3_000));
    assert_eq!(play_match(&a, &b, 2, 11), play_match(&a, &b, 2, 11));
    let (x, y) = (match_openings(Evaluator::Hand, 3, 5), match_openings(Evaluator::Hand, 3, 5));
    for (p, q) in x.iter().zip(&y) {
        assert_eq!(p.to_fen(), q.to_fen());
    }
}

#[test]
fn scores_are_counted_for_both_sides() {
    let s = score_game(GameResult::Win(Color::White), Color::White);
    assert_eq!(s, MatchScore { wins: 1, losses: 0, draws: 0 });
    assert_eq!(score_game(GameResult::Win(Color::White), Color::Black), s.reversed());
    let d = score_game(GameResult::Draw, Color::Black);
    assert_eq!(d, MatchScore { wins: 0, losses: 0, draws: 1 });
    let mut totals = vec![MatchScore::default(); 3];
    add_pairing(&mut totals, 0, 2, &MatchScore { wins: 3, losses: 1, draws: 2 });
    assert_eq!(totals[0], MatchScore { wins: 3, losses: 1, draws: 2 });
    assert_eq!(totals[1], MatchScore::default());
    assert_eq!(totals[2], MatchScore { wins: 1, losses: 3, draws: 2 });
    assert_eq!(pairing_seed(0, 1, 2), 33);
}

#[test]
fn everyone_meets_everyone() {
    let player = |name: &str, ev: Evaluator| {
        Participant::new(name.to_string(), ev, SearchLimits::depth(1))
    };
    let pool = vec![
        player("a", Evaluator::Hand),
        player("b", Evaluator::HandSpec),
        player("c", Evaluator::HandV2),
    ];
    let table = round_robin(&pool, 1, 4);
    assert_eq!(table.len(), 3);
    assert_eq!(table[1].0, "b");
    for (_, s) in &table {
        assert_eq!(s.games(), 4);
    }
    let wins: u32 = table.iter().map(|r| r.1.wins).sum();
    let losses: u32 = table.iter().map(|r| r.1.losses).sum();
    assert_eq!(wins, losses);
    let ab = play_match(&pool[0], &pool[1], 1, pairing_seed(4, 0, 1));
    let ac = play_match(&pool[0], &pool[2], 1, pairing_seed(4, 0, 2));
    assert_eq!(table[0].1.wins, ab.wins + ac.wins);
}

// ---------------------------------------------------------------------------
// Operator mode
// ---------------------------------------------------------------------------

fn report(fen: &str, mv: &str) -> String {
    let p = Position::from_fen(fen).unwrap();
    let m = Move::parse(mv).unwrap();
    let (_, info) = p.after(m);
    move_report(&p, m, &info, p.side.name())
}

#[test]
fn a_blast_is_reported_in_full() {
    assert_eq!(
        report("4k2r/8/8/8/2Qp4/8/8/3RK3 w - - 12 7", "d1d4"),
        "\nwhite plays d1d4   [DETONATION]\n  destroyed: Qc4 Rd1 (mover) pd4\n  emptied:   c4 d1 d4\n"
    );
    let p = Position::from_fen("4k2r/8/8/8/8/8/8/4K3 b - - 13 7").unwrap();
    let state = state_report(&p);
    assert!(state.contains(
        "  ply 13   black to move\n  fen 4k2r/8/8/8/8/8/8/4K3 b - - 13 7\n"
    ));
}

#[test]
fn every_kind_of_move_has_its_name() {
    for (fen, mv, kind) in [
        ("4k3/8/8/8/8/8/4P3/R3K3 w - - 0 1", "e2a8", "teleport"),
        ("4k3/8/8/8/8/8/8/1N2K3 w - - 0 1", "b1c3", "knight sweep"),
        ("4k3/8/8/8/8/1p6/8/1N2K3 w - - 0 1", "b1c3", "knight sweep, 1 taken"),
        ("4k3/8/8/8/8/8/8/R3K3 w - - 0 1", "a1a5", "quiet slide"),
        ("4k3/8/8/8/p7/8/8/R3K3 w - - 0 1", "a1a4", "DETONATION"),
        ("4k3/8/8/8/8/8/8/Q3K3 w - - 0 1", "a1a5", "queen slide"),
        ("4k3/8/8/p7/p7/8/8/Q3K3 w - - 0 1", "a1a5", "queen sweep, 2 taken"),
        ("4k3/8/8/8/8/8/8/R3K3 w - - 0 1", "e1e2", "king step"),
        ("4k3/8/8/8/8/8/4p3/R3K3 w - - 0 1", "e1e2", "king capture"),
    ] {
        let text = report(fen, mv);
        assert!(text.contains(&format!("[{kind}]")), "{text}");
    }
    let quiet = report("4k3/8/8/8/8/8/8/R3K3 w - - 0 1", "a1a5");
    assert!(quiet.ends_with("  destroyed: -\n  emptied:   a1\n"));
}

#[test]
fn the_end_of_the_game_is_announced() {
    let over = Position::from_fen("4k3/8/8/8/8/8/8/4K3 w - - 0 1").unwrap();
    assert!(state_report(&over).ends_with("\n  *** GAME OVER — draw ***\n"));
    let won = Position::from_fen("8/8/8/8/8/8/8/R3K3 w - - 0 1").unwrap();
    assert!(state_report(&won).contains("white wins"));
}

#[test]
fn legal_moves_are_listed_in_order() {
    let p = Position::from_fen("k7/8/8/8/8/8/8/K6R w - - 0 1").unwrap();
    let text = moves_report(&p);
    let lines: Vec<&str> = text.lines().collect();
    assert_eq!(lines[0], "  17 legal moves:");
    assert_eq!(
        lines[1],
        "    a1a2 a1b1 a1b2 h1a1 h1b1 h1c1 h1d1 h1e1 h1f1 h1g1 h1h2 h1h3 h1h4 h1h5 h1h6 h1h7"
    );
    assert_eq!(lines.len(), 4);
    assert_eq!(lines[2], "    h1h8");
}

#[test]
fn searches_are_described() {
    let r = SearchResult {
        best: Move::parse("a1a2").unwrap(),
        score: -150,
        depth: 3,
        seldepth: 9,
        nodes: 3000,
        pv: vec![Move::parse("a1a2").unwrap()],
        elapsed: 1_500_000_000,
    };
    assert_eq!(
        search_report(&r),
        "  eval -1.50  depth 3/9  nodes 3000  nps 2000  time 1500ms\n  pv a1a2\n"
    );
}

#[test]
fn commands_are_read() {
    assert!(matches!(read_command("  "), Command::Blank));
    assert!(matches!(read_command("\u{feff}quit"), Command::Quit));
    assert!(matches!(read_command("exit"), Command::Quit));
    assert!(matches!(read_command("q"), Command::Quit));
    assert!(matches!(read_command("?"), Command::Help));
    assert!(matches!(read_command("new"), Command::New(None)));
    assert!(matches!(read_command("new White"), Command::New(Some(Color::White))));
    assert!(matches!(read_command("new b"), Command::New(Some(Color::Black))));
    assert!(matches!(read_command("new Red"), Command::NoColor(c) if c == "red"));
    assert!(matches!(read_command("board"), Command::Board));
    assert!(matches!(read_command("fen"), Command::Fen));
    assert!(matches!(read_command("setfen"), Command::NoFen));
    assert!(matches!(read_command("setfen  a   b c "), Command::SetFen(f) if f == "a b c"));
    assert!(matches!(read_command("undo"), Command::Undo));
    assert!(matches!(read_command("moves"), Command::Moves));
    assert!(matches!(read_command("time 5000"), Command::Time(Some(5000))));
    assert!(matches!(
        read_command("time 18446744073709551615"),
        Command::Time(Some(u64::MAX))
    ));
    assert!(matches!(read_command("time 18446744073709551616"), Command::Time(None)));
    assert!(matches!(read_command("time soon"), Command::Time(None)));
    assert!(matches!(read_command("depth -3"), Command::Depth(Some(-3))));
    assert!(matches!(read_command("depth +3"), Command::Depth(Some(3))));
    assert!(matches!(read_command("depth"), Command::Depth(None)));
    assert!(matches!(read_command("eval"), Command::Eval));
    assert!(matches!(read_command("net"), Command::NetName));
    assert!(matches!(read_command("net off"), Command::NetOff));
    assert!(matches!(read_command("net nets/a.bin"), Command::Net(p) if p == "nets/a.bin"));
    assert!(matches!(read_command("perft 3"), Command::Perft(Some(3))));
    assert!(matches!(read_command("perft -3"), Command::Perft(None)));
    assert!(matches!(read_command("go"), Command::Go));
    assert!(matches!(read_command("e2e4"), Command::Play(m) if m.to_text() == "e2e4"));
    assert!(matches!(read_command("castle"), Command::Unknown(w) if w == "castle"));
}

#[test]
fn undo_is_exact() {
    let mut s = Session::new(Evaluator::Hand);
    assert!(!s.undo());
    assert!(matches!(s.enter(Move::parse("e2e2").unwrap()), Entered::Illegal));
    let before = s.pos;
    assert!(matches!(s.enter(Move::parse("e2e4").unwrap()), Entered::Made(_)));
    assert_ne!(s.pos, before);
    assert_eq!(s.played.len(), 1);
    assert!(s.undo());
    assert_eq!(s.pos, before);
    assert!(s.played.is_empty() && s.history.is_empty());
}

#[test]
fn the_engine_replies_on_its_turn() {
    let mut s = Session::new(Evaluator::Hand);
    s.limits = SearchLimits::depth(2);
    s.reset(Some(Color::Black));
    assert!(!s.reply_due());
    let Entered::Made(text) = s.enter(Move::parse("b1c3").unwrap()) else {
        panic!("a legal move")
    };
    assert!(text.starts_with("\nwhite plays b1c3   [knight sweep, 1 taken]\n"));
    assert!(s.reply_due());
    let Answer::Moved(text, found) = s.engine_move() else {
        panic!("the game is on")
    };
    assert!(text.starts_with(&format!("\nengine (black) plays {}", found.best.to_text())));
    assert_eq!(s.played.len(), 2);
    assert!(!s.reply_due());

    s.load(Position::from_fen("4k3/8/8/8/8/8/8/4K3 w - - 0 1").unwrap());
    assert!(s.played.is_empty());
    assert!(matches!(s.engine_move(), Answer::Over));
    assert!(matches!(s.enter(Move::parse("e1e2").unwrap()), Entered::Over));
}

// ---------------------------------------------------------------------------
// Tuning
// ---------------------------------------------------------------------------

fn file_of_records() -> Vec<u8> {
    let mut bytes = Vec::new();
    let start = Position::startpos();
    let mut first = Sample::from_position(&start, 70, true);
    first.set_result(GameResult::Win(Color::White));
    bytes.extend_from_slice(&first.encode());
    // A finished game takes no part.
    let over = Position::from_fen("4k3/8/8/8/8/8/8/4K3 w - - 0 1").unwrap();
    bytes.extend_from_slice(&Sample::from_position(&over, 0, true).encode());
    let (reply, _) = start.after(Move::parse("e2e4").unwrap());
    bytes.extend_from_slice(&Sample::from_position(&reply, 70, true).encode());
    // Not a whole record.
    bytes.extend_from_slice(&[1, 2, 3]);
    bytes
}

#[test]
fn examples_are_seen_from_white() {
    let bytes = file_of_records();
    let v = examples(&bytes, 0, &mut SplitMix64::new(1)).unwrap();
    assert_eq!(v.len(), 2);
    assert_eq!((v[0].score, v[0].result), (70, 1));
    assert_eq!((v[1].score, v[1].result), (-70, 0));
    assert_eq!(v[0].scale, 100);
    assert_eq!(v[0].counts[9], 1);
    assert_eq!(v[1].counts[9], -1);
}

#[test]
fn records_can_be_sampled() {
    let bytes = file_of_records();
    let all = examples(&bytes, 3, &mut SplitMix64::new(1)).unwrap();
    assert_eq!(all.len(), 2);
    let mut counts = 0;
    for seed in 0..40 {
        counts += examples(&bytes, 1, &mut SplitMix64::new(seed)).unwrap().len();
    }
    assert!(counts > 0 && counts < 80);
}

#[test]
fn broken_records_are_noticed() {
    let mut bytes = file_of_records();
    bytes[8] = 0xff;
    assert!(examples(&bytes, 0, &mut SplitMix64::new(1)).is_none());
    assert_eq!(held_out(10), 1);
    assert_eq!(held_out(1000), 50);
    assert_eq!(held_out(40_000_000), 200_000);
}
