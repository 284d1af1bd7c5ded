use ataxx::bitboard::BitBoard;
use ataxx::mcts::Tree;
use ataxx::moves::Move;
use ataxx::position::{Outcome, Position, Side};

#[test]
fn empty_squares() {
    let fen = "x5o/7/7/7/7/7/o5x x 0 1";
    let p = Position::from_fen(fen).unwrap();
    assert_eq!(p.empty_squares(), BitBoard(0xfbffffffffbe));

    let fen = "7/7/7/7/7/7/7 x 0 1";
    let p = Position::from_fen(fen).unwrap();
    assert_eq!(p.empty_squares(), BitBoard(0x1ffffffffffff));

    let fen = "-5o/7/7/7/7/7/-5x o 0 1";
    let p = Position::from_fen(fen).unwrap();
    assert_eq!(p.empty_squares(), BitBoard(0xfbffffffffbe));
}

#[test]
fn colored_squares() {
    let fen = "x5o/7/7/7/7/7/o5x x 0 1";
    let mut p = Position::from_fen(fen).unwrap();
    let black = p.colored_squares(Side::Black);
    assert_eq!(black, BitBoard(0x40000000040));

    let mut white = p.colored_squares_mut(Side::White);
    white.0 = white.0 & BitBoard(0);
    assert_eq!(white.0, BitBoard(0));
    p.set_colored_squares(Side::White, white.0, white.1);
    assert_eq!(p.colored_squares(Side::White), BitBoard(0));
}

#[test]
fn default() {
    let fen = "x5o/7/7/7/7/7/o5x x 0 1";
    let p = Position::from_fen(fen).unwrap();
    let d = Position::default();
    assert_eq!(d, p);

    assert_eq!(d.perft(1), 16);
    assert_eq!(d.perft(2), 256);
    assert_eq!(d.perft(3), 6460);
}

#[test]
fn gameover_true() {
    let tests: [&str; 10] = [
        "7/7/7/7/7/7/7 x 0 1",
        "7/7/7/7/7/7/7 o 0 1",
        "7/7/7/7/7/7/x6 x 0 1",
        "7/7/7/7/7/7/x6 o 0 1",
        "7/7/7/7/7/7/o6 x 0 1",
        "7/7/7/7/7/7/o6 o 0 1",
        "x5o/7/7/7/7/7/o5x x 100 1",
        "x5o/7/7/7/7/7/o5x o 100 1",
        "7/7/7/7/-------/-------/ooooxxx x 0 1",
        "7/7/7/7/-------/-------/ooooxxx o 0 1",
    ];

    for fen in tests {
        let pos = Position::from_fen(fen).unwrap();
        assert!(pos.game_over());
    }
}

#[test]
fn gameover_false() {
    let tests: [&str; 10] = [
        "x5o/7/7/7/7/7/o5x x 0 1",
        "x5o/7/7/7/7/7/o5x o 0 1",
        "x5o/7/2-1-2/7/2-1-2/7/o5x x 0 1",
        "x5o/7/2-1-2/7/2-1-2/7/o5x o 0 1",
        "x5o/7/2-1-2/7/2-1-2/7/o5x x 20 40",
        "x5o/7/2-1-2/7/2-1-2/7/o5x o 20 40",
        "7/7/7/7/ooooooo/ooooooo/xxxxxxx x 0 1",
        "7/7/7/7/ooooooo/ooooooo/xxxxxxx o 0 1",
        "7/7/7/7/xxxxxxx/xxxxxxx/ooooooo x 0 1",
        "7/7/7/7/xxxxxxx/xxxxxxx/ooooooo o 0 1",
    ];

    for fen in tests {
        let pos = Position::from_fen(fen).unwrap();
        assert!(!pos.game_over());
    }
}

#[test]
fn moves_generate_moves() {
    let pos = Position::from_fen("x5o/7/7/7/7/7/o5x x 0 1").unwrap();
    let moves = pos.generate_moves();
    assert_eq!(moves.len(), 16);
}

#[test]
fn make_move() {
    let mut pos = Position::from_fen("x5o/7/7/7/7/7/o5x x 0 1").unwrap();
    let mv = Move::new(43, 43);
    pos.make_move(mv);
    assert_eq!(pos.black, BitBoard(0xc0000000040));

    let mv = Move::new(0, 14);
    pos.make_move(mv);
    assert_eq!(pos.white, BitBoard(0x1000000004000));

    let mv = Move::new(42, 28);
    pos.make_move(mv);
    assert_eq!(pos.black, BitBoard(0x80010000040));

    let mv = Move::new(21, 21);
    pos.make_move(mv);
    assert_eq!(pos.white, BitBoard(0x1000010204000));
}

#[test]
fn perft_perft_test() {
    let fens: [(&str, Vec<u64>); 9] = [
        (
            "x5o/7/7/7/7/7/o5x x 0 1",
            vec![1, 16, 256, 6460, 155888, 4752668],
        ),
        (
            "x5o/7/7/7/7/7/o5x o 0 1",
            vec![1, 16, 256, 6460, 155888, 4752668],
        ),
        (
            "x5o/7/2-1-2/7/2-1-2/7/o5x x 0 1",
            vec![1, 14, 196, 4184, 86528, 2266352],
        ),
        (
            "x5o/7/2-1-2/7/2-1-2/7/o5x o 0 1",
            vec![1, 14, 196, 4184, 86528, 2266352],
        ),
        (
            "x5o/7/2-1-2/3-3/2-1-2/7/o5x x 0 1",
            vec![1, 14, 196, 4100, 83104, 2114588],
        ),
        (
            "x5o/7/2-1-2/3-3/2-1-2/7/o5x o 0 1",
            vec![1, 14, 196, 4100, 83104, 2114588],
        ),
        ("7/7/7/7/7/7/7 x 0 1", vec![1, 0, 0, 0, 0, 0]),
        (
            "xxxxxxx/-------/-------/o6/7/7/7 x 0 1",
            vec![1, 1, 8, 8, 127, 127, 2626, 2626],
        ),
        (
            "xxxxxxx/ooooooo/ooooooo/7/7/7/7 x 0 1",
            vec![1, 1, 75, 249, 14270, 452980],
        ),
    ];

    for (fen, perfts) in fens.iter() {
        let pos = Position::from_fen(fen).unwrap();
        for (depth, nodes) in perfts.iter().enumerate() {
            assert_eq!(pos.perft(depth as i16), *nodes, "{}", fen);
        }
    }
}

// A side with stones but no reach must pass, and only pass.
#[test]
fn forced_pass_is_the_only_move() {
    let pos = Position::from_fen("xxxxxxx/-------/-------/o6/7/7/7 x 0 1").unwrap();
    let moves = pos.generate_moves();
    assert_eq!(moves, vec![Move::pass()]);
}

#[test]
fn winner_rules() {
    let p = Position::from_fen("7/7/7/7/7/7/x6 x 0 1").unwrap();
    assert_eq!(p.winner(), Some(Outcome::BlackWin));
    let p = Position::from_fen("7/7/7/7/7/7/o6 x 0 1").unwrap();
    assert_eq!(p.winner(), Some(Outcome::WhiteWin));
    let p = Position::from_fen("x5o/7/7/7/7/7/o5x x 100 1").unwrap();
    assert_eq!(p.winner(), Some(Outcome::Draw));
    let p = Position::from_fen("xx4o/7/7/7/7/7/o5x o 100 1").unwrap();
    assert_eq!(p.winner(), Some(Outcome::BlackWin));
    let p = Position::from_fen("x5o/7/7/7/7/7/o5x x 0 1").unwrap();
    assert_eq!(p.winner(), None);
}

// With a single legal move the search returns it at once, even with no
// time budget at all.
#[test]
fn uct_single_move_without_clock() {
    let pos = Position::from_fen("xxxxxxx/-------/-------/o6/7/7/7 x 0 1").unwrap();
    let mut tree = Tree::new();
    let mv = tree.uct(pos, 0);
    assert_eq!(mv, Move::pass());
}

// The search returns a generated move and leaves a tree whose visit
// counters balance: each non-terminal node holds one visit plus the sum of
// its children's.
#[test]
fn uct_returns_legal_move_and_balanced_tree() {
    let pos = Position::from_fen("x5o/7/7/7/7/7/o5x x 0 1").unwrap();
    let mut tree = Tree::new();
    let mv = tree.uct(pos, 50);
    let moves = pos.generate_moves();
    assert!(moves.contains(&mv));
    assert!(tree.confirm_logic());
    assert!(!tree.nodes.is_empty());
}

// A search from a nearly finished game still answers with a legal move.
#[test]
fn uct_near_end() {
    let pos = Position::from_fen("x5o/7/7/7/7/7/o5x x 98 1").unwrap();
    let mut tree = Tree::new();
    let mv = tree.uct(pos, 20);
    let moves = pos.generate_moves();
    assert!(moves.contains(&mv));
    assert!(tree.confirm_logic());
}

// The move text format: square letters and digits, passes as 0000.
#[test]
fn move_text_format() {
    assert_eq!(Move::new(0, 0).to_text(), "a1");
    assert_eq!(Move::new(43, 43).to_text(), "b7");
    assert_eq!(Move::new(0, 14).to_text(), "a1a3");
    assert_eq!(Move::new(42, 28).to_text(), "a7a5");
    assert_eq!(Move::pass().to_text(), "0000");
    assert_eq!(Move::null().to_text(), "0000");
}

#[test]
fn sanity() {
    let mut tree = Tree::new();
    tree.uct(Position::default(), 5000);
    assert!(!tree.nodes.is_empty());
}
