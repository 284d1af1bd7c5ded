use ataxx::bitboard::BitBoard;
use ataxx::fen::FenError;
use ataxx::position::{Position, Side};

#[test]
fn fen_success_fen() {
    let fen = "x5o/7/7/7/7/7/o5x x 0 1";
    let p = Position::from_fen(fen).unwrap();
    assert_eq!(p.turn, Side::Black);
    assert_eq!(p.black | p.white, BitBoard(0x1040000000041));
    assert_eq!(p.white, BitBoard(0x1000000000001));
    assert_eq!(p.black, BitBoard(0x40000000040));
    assert_eq!(p.gaps, BitBoard(0));
    assert_eq!(p.half_moves, 0);
    assert_eq!(p.full_moves, 1);
    assert_eq!(p.get_fen(), fen);
}

#[test]
fn fen_get_fen() {
    let fens = [
        "x5o/7/7/7/7/7/o5x x 0 1",
        "x5o/7/2-1-2/7/2-1-2/7/o5x x 0 1",
        "x5o/7/3-3/2-1-2/3-3/7/o5x x 0 1",
        "7/7/7/7/7/7/7 x 0 1",
        "7/7/7/7/7/7/7 o 0 1",
        "7/7/7/7/7/7/7 x 100 1",
        "7/7/7/7/7/7/7 o 100 1",
        "7/7/7/7/7/7/7 x 0 100",
        "7/7/7/7/7/7/7 o 0 100",
        "7/7/7/7/7/7/7 x 100 200",
        "7/7/7/7/7/7/7 o 100 200",
    ];

    for fen in fens.iter() {
        let p = Position::from_fen(fen).unwrap();
        assert_eq!(p.get_fen(), *fen);
    }
}

#[test]
fn fen_fen_error() {
    let fens = [
        "x5o/7/7/7/7/7/o5x",
        "x5o/7/7/7/7/7/o5x x",
        "x5o/7/7/7/7/7/o5x x 0",
        "x5o/7/2-1-2/7/2-1-2/7/o5x",
        "x5o/7/2-1-2/7/2-1-2/7/o5x x",
        "x5o/7/2-1-2/7/2-1-2/7/o5x x 0",
    ];

    for fen in fens.iter() {
        assert!(Position::from_fen(fen).is_err());
    }
}

// A round trip through emit and parse on an asymmetric position.
#[test]
fn fen_round_trip_asymmetric() {
    let fen = "x6/1x5/2o4/7/-6/3x3/o5x o 13 42";
    let p = Position::from_fen(fen).unwrap();
    assert_eq!(p.get_fen(), fen);
    let q = Position::from_fen(&p.get_fen()).unwrap();
    assert_eq!(p, q);
}

// Each failing field reports its own error.
#[test]
fn fen_error_kinds() {
    assert_eq!(
        Position::from_fen("x5o/7/7/7/7/7/o5x q 0 1"),
        Err(FenError::Turn)
    );
    assert_eq!(
        Position::from_fen("x5o/7/7/7/7/7/o5x x 101 1"),
        Err(FenError::HalfMoves)
    );
    assert_eq!(
        Position::from_fen("x5o/7/7/7/7/7/o5x x abc 1"),
        Err(FenError::HalfMoves)
    );
    assert_eq!(
        Position::from_fen("x5o/7/7/7/7/7/o5x x 0 999"),
        Err(FenError::FullMoves)
    );
    assert_eq!(
        Position::from_fen("x5o/7/7/7/7/7/o5x x 0 x"),
        Err(FenError::FullMoves)
    );
    // board-field shape errors
    assert_eq!(
        Position::from_fen("x5o/7/7/7/7/7/o5x/7 x 0 1"),
        Err(FenError::Illegal)
    );
    assert_eq!(
        Position::from_fen("x6o/7/7/7/7/7/o5x x 0 1"),
        Err(FenError::Illegal)
    );
    assert_eq!(
        Position::from_fen("x5o/7/7/7/7/7/o4x x 0 1"),
        Err(FenError::Illegal)
    );
    assert_eq!(
        Position::from_fen("x5o/7/7/7/7/7/o5* x 0 1"),
        Err(FenError::Illegal)
    );
}

// A parsed position satisfies the board invariants the printer needs.
#[test]
fn fen_parse_gives_disjoint_boards() {
    let p = Position::from_fen("x5o/7/2-1-2/7/2-1-2/7/o5x x 3 9").unwrap();
    assert_eq!(p.black.0 & p.white.0, 0);
    assert_eq!(p.black.0 & p.gaps.0, 0);
    assert_eq!(p.white.0 & p.gaps.0, 0);
    assert_eq!(p.black.0 & !0x1ffffffffffffu64, 0);
}
