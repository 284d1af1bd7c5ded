use ataxx::bitboard::BitBoard;

#[test]
fn bitxor() {
    assert!(BitBoard(0) ^ BitBoard(0) == BitBoard(0));
    assert!(BitBoard(1) ^ BitBoard(2) == BitBoard(3));
}

#[test]
fn bitor() {
    assert!(BitBoard(1) | BitBoard(2) == BitBoard(3));
}

#[test]
fn bitand() {
    assert!(BitBoard(1) & BitBoard(2) == BitBoard(0));
}

#[test]
fn bitnot() {
    assert_eq!(!BitBoard(0), BitBoard(0x1ffffffffffff));
    assert_eq!(!BitBoard(0x1ffffffffffff), BitBoard(0));
    assert_eq!(
        !BitBoard(0x40810204081),
        BitBoard(0x1ffffffffffff) ^ BitBoard(0x40810204081)
    );
}

#[test]
fn north() {
    assert_eq!(BitBoard(0x20000000).north(), BitBoard(0x1000000000));
    assert_eq!(BitBoard(0x10000000000).north(), BitBoard(0x800000000000));
    assert_eq!(BitBoard(0x800000000000).north(), BitBoard(0));
    assert_eq!(BitBoard(0x0).north(), BitBoard(0x0));
    assert_eq!(BitBoard(0x1).north(), BitBoard(0x80));
    assert_eq!(BitBoard(0x7f).north(), BitBoard(0x3f80));
    assert_eq!(BitBoard(0x3f800000000).north(), BitBoard(0x1fc0000000000));
    assert_eq!(BitBoard(0x1fc0000000000).north(), BitBoard(0x0));
}

#[test]
fn south() {
    assert_eq!(BitBoard(1).south(), BitBoard(0));
    assert_eq!(BitBoard(0x200).south(), BitBoard(4));
    assert_eq!(BitBoard(0x2000000).south(), BitBoard(0x40000));
    assert_eq!(BitBoard(0x0).south(), BitBoard(0x0));
    assert_eq!(BitBoard(0x80).south(), BitBoard(0x1));
    assert_eq!(BitBoard(0x1fc000).south(), BitBoard(0x3f80));
    assert_eq!(BitBoard(0x3f80).south(), BitBoard(0x7f));
    assert_eq!(BitBoard(0x7f).south(), BitBoard(0x0));
}

#[test]
fn east() {
    assert_eq!(BitBoard(1).east(), BitBoard(2));
    assert_eq!(BitBoard(0x8000).east(), BitBoard(0x10000));
    assert_eq!(BitBoard(0x40).east(), BitBoard(0));
    assert_eq!(BitBoard(0x0).east(), BitBoard(0x0));
    assert_eq!(BitBoard(0x1).east(), BitBoard(0x2));
}

#[test]
fn west() {
    assert_eq!(BitBoard(1).west(), BitBoard(0));
    assert_eq!(BitBoard(0x400000).west(), BitBoard(0x200000));
    assert_eq!(BitBoard(0x1000000).west(), BitBoard(0x800000));
    assert_eq!(BitBoard(0x0).west(), BitBoard(0x0));
    assert_eq!(BitBoard(0x1).west(), BitBoard(0x0));
}

#[test]
fn singles() {
    assert_eq!(BitBoard(0x200).singles(), BitBoard(0x3850e));
    assert_eq!(BitBoard(0x0).singles(), BitBoard(0x0));
    assert_eq!(BitBoard(0x1).singles(), BitBoard(0x182));
    assert_eq!(BitBoard(0x100).singles(), BitBoard(0x1c287));
    assert_eq!(BitBoard(0x1000000000000).singles(), BitBoard(0x830000000000));
    assert_eq!(BitBoard(1).singles(), BitBoard(0x182));
}

#[test]
fn doubles() {
    assert_eq!(BitBoard(0x0).doubles(), BitBoard(0x0));
    assert_eq!(BitBoard(0x1).doubles(), BitBoard(0x1c204));
    assert_eq!(BitBoard(0x100).doubles(), BitBoard(0x1e20408));
    assert_eq!(BitBoard(0x400000000000).doubles(), BitBoard(0x11227c0000000));
}

#[test]
fn from_index() {
    assert_eq!(BitBoard::from_index(0), BitBoard(1));
    assert_eq!(BitBoard::from_index(25), BitBoard(0x2000000));
    assert_eq!(BitBoard::from_index(47), BitBoard(0x800000000000));
}

#[test]
fn from_square() {
    assert_eq!(BitBoard::from_square(0, 0), BitBoard(1));
    assert_eq!(BitBoard::from_square(3, 3), BitBoard(0x1000000));
}

// Every spread result stays inside the 49-bit board mask.
#[test]
fn spreads_stay_on_board() {
    for s in 0..49u8 {
        let b = BitBoard::from_index(s);
        assert_eq!(b.singles().0 & !0x1ffffffffffffu64, 0);
        assert_eq!(b.doubles().0 & !0x1ffffffffffffu64, 0);
        assert_eq!(b.north().0 & !0x1ffffffffffffu64, 0);
        assert_eq!(b.south().0 & !0x1ffffffffffffu64, 0);
        assert_eq!(b.east().0 & !0x1ffffffffffffu64, 0);
        assert_eq!(b.west().0 & !0x1ffffffffffffu64, 0);
    }
}

// Ring sizes: 3 singles at a corner, 5 on an edge, 8 inside; doubles give
// the matching Chebyshev-2 ring counts.
#[test]
fn ring_cardinalities() {
    for s in 0..49u8 {
        let file = (s % 7) as i32;
        let rank = (s / 7) as i32;
        let b = BitBoard::from_index(s);
        let mut ring1 = 0;
        let mut ring2 = 0;
        for f in 0..7i32 {
            for r in 0..7i32 {
                let d = (f - file).abs().max((r - rank).abs());
                if d == 1 {
                    ring1 += 1;
                }
                if d == 2 {
                    ring2 += 1;
                }
            }
        }
        assert_eq!(b.singles().popcnt(), ring1);
        assert_eq!(b.doubles().popcnt(), ring2);
        let corner = (file == 0 || file == 6) && (rank == 0 || rank == 6);
        let edge = file == 0 || file == 6 || rank == 0 || rank == 6;
        let expected1 = if corner { 3 } else if edge { 5 } else { 8 };
        assert_eq!(ring1, expected1);
    }
}

// Iteration yields set bits lowest first and the count matches popcnt.
#[test]
fn iteration_order() {
    let b = BitBoard(0b101101);
    let mut it = b.iter();
    let mut seen = Vec::new();
    while let Some(i) = it.next() {
        seen.push(i);
    }
    assert_eq!(seen, vec![0, 2, 3, 5]);
    assert_eq!(seen.len() as u32, b.popcnt());
}
