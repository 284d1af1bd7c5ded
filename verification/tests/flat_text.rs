use ataxx::bitboard::BitBoard;
use ataxx::flat::Position;
use ataxx::position::Side;

#[test]
fn position_success_fen() {
    let fen = "x5o/7/7/7/7/7/o5x x 0 1";
    let p = Position::from_fen(fen).unwrap();
    assert_eq!(p.turn, Side::Black);
    assert_eq!(p.occupied, BitBoard(0x1040000000041));
    assert_eq!(p.black, BitBoard(0x1000000000001));
    assert_eq!(p.white, BitBoard(0x40000000040));
    assert_eq!(p.gaps, BitBoard(0));
    assert_eq!(p.half_moves, 0);
    assert_eq!(p.full_moves, 1);
    assert_eq!(p.get_fen(), fen);
}

#[test]
fn position_get_fen() {
    let fens = [
        "x5o/7/7/7/7/7/o5x x 0 1",
        "x5o/7/2-1-2/7/2-1-2/7/o5x x 0 1",
        "x5o/7/3-3/2-1-2/3-3/7/o5x x 0 1",
        "7/7/7/7/7/7/7 x 0 1",
        "7/7/7/7/7/7/7 o 0 1",
        "7/7/7/7/7/7/7 x 100 1",
        "7/7/7/7/7/7/7 o 100 1",
        "7/7/7/7/7/7/7 x 0 100",
        "7/7/7/7/7/7/7 o 0 100",
        "7/7/7/7/7/7/7 x 100 200",
        "7/7/7/7/7/7/7 o 100 200",
    ];

    for fen in fens.iter() {
        let p = Position::from_fen(fen).unwrap();
        assert_eq!(p.get_fen(), *fen);
    }
}

#[test]
fn position_fen_error() {
    let fens = [
        "x5o/7/7/7/7/7/o5x",
        "x5o/7/7/7/7/7/o5x x",
        "x5o/7/7/7/7/7/o5x x 0",
        "x5o/7/2-1-2/7/2-1-2/7/o5x",
        "x5o/7/2-1-2/7/2-1-2/7/o5x x",
        "x5o/7/2-1-2/7/2-1-2/7/o5x x 0",
    ];

    for fen in fens.iter() {
        assert!(Position::from_fen(fen).is_err());
    }
}

#[test]
fn empty() {
    let fen = "x5o/7/7/7/7/7/o5x x 0 1";
    let p = Position::from_fen(fen).unwrap();
    assert_eq!(p.empty(), BitBoard(0xfbffffffffbe));

    let fen = "7/7/7/7/7/7/7 x 0 1";
    let p = Position::from_fen(fen).unwrap();
    assert_eq!(p.empty(), BitBoard(0x1ffffffffffff));

    let fen = "-5o/7/7/7/7/7/-5x o 0 1";
    let p = Position::from_fen(fen).unwrap();
    assert_eq!(p.empty(), BitBoard(0xfbffffffffbe));
}

// An asymmetric board distinguishes the index-ordered reading from the
// rank-ordered one: the first character lands on square 0.
#[test]
fn index_order_reading() {
    let p = Position::from_fen("x6/7/7/7/7/7/6o x 0 1").unwrap();
    assert_eq!(p.black, BitBoard(1));
    assert_eq!(p.white, BitBoard(1u64 << 48));
}
