use ataxx::board::Board;
use ataxx::distance::{ChebyshevDistance, ChebyshevDistanceSelf};
use ataxx::game::Game;
use ataxx::moving::Move;
use ataxx::stone::Stone;
use ataxx::tile::Tile;

#[test]
fn tile_basics() {
    let mut t = Tile::new((2, 3));
    assert_eq!(t.get_grid_pos(), (2, 3));
    assert_eq!(t.get_stone(), None);
    assert!(!t.is_blocked());
    t.set_stone(Stone::Dark);
    assert_eq!(t.get_stone(), Some(Stone::Dark));
    assert_eq!(t.pop_stone(), Some(Stone::Dark));
    assert_eq!(t.get_stone(), None);
    t.set_blocked(true);
    assert!(t.is_blocked());
}

#[test]
fn stone_conversions() {
    assert_eq!(Stone::from_player(0), Stone::Dark);
    assert_eq!(Stone::from_player(1), Stone::Light);
    assert_eq!(Stone::from_player(2), Stone::Dark);
    assert_eq!(!Stone::Dark, Stone::Light);
    assert_eq!(Stone::Dark.player(), 0);
    assert_eq!(Stone::from_char('x'), Some(Stone::Dark));
    assert_eq!(Stone::from_char('o'), Some(Stone::Light));
    assert_eq!(Stone::from_char('q'), None);
}

#[test]
fn chebyshev_distances() {
    assert_eq!((0u8, 0u8).chebyshev_distance((2, 1)), 2);
    assert_eq!((3u8, 3u8).chebyshev_distance((3, 3)), 0);
    assert_eq!((6u8, 0u8).chebyshev_distance((0, 6)), 6);
    let m = Move { from: (1, 1), to: (3, 2) };
    assert_eq!(m.chebyshev_distance(), 2);
}

#[test]
fn board_text_round_trip() {
    let b = Board::from_fen("x5o/7/2-1-2/7/2-1-2/7/o5x").unwrap();
    assert_eq!(b.to_fen(), "x5o/7/2-1-2/7/2-1-2/7/o5x");
    let (dark, light) = b.count_stones();
    assert_eq!((dark, light), (2, 2));
    assert_eq!(b.count_empty(), 49 - 2 - 2 - 4);
    assert!(!b.game_over());
}

#[test]
fn board_rejects_bad_character() {
    assert!(Board::from_fen("x5o/7/7/7/7/7/o5*").is_err());
}

#[test]
fn board_counts_and_game_over() {
    let b = Board::from_fen("xxxxxxx/ooooooo/7/7/7/7/7").unwrap();
    let (dark, light) = b.count_stones();
    assert_eq!((dark, light), (7, 7));
    assert!(!b.game_over());
    let b = Board::from_fen("7/7/7/7/7/7/7").unwrap();
    assert!(b.game_over());
}

#[test]
fn board_play_move_grows_and_converts() {
    // dark on column 0 row 0; light next to the landing square
    let mut b = Board::from_fen("xo5/7/7/7/7/7/7").unwrap();
    // a growth next to the light stone converts it
    let mv = Move { from: (2, 0), to: (2, 0) };
    assert!(b.play_move(mv, 0).is_ok());
    let (dark, light) = b.count_stones();
    assert_eq!((dark, light), (3, 0));
    // moving onto a taken square fails
    let mv = Move { from: (0, 0), to: (1, 0) };
    assert!(b.play_move(mv, 1).is_err());
}

#[test]
fn board_can_tile_move() {
    let b = Board::from_fen("x-5/-6/7/7/7/7/7").unwrap();
    // the corner stone is walled in only at distance 1; distance 2 is open
    assert!(b.can_tile_move((0, 0)));
    assert!(!b.cant_move(0));
}

#[test]
fn game_from_fen_and_play() {
    let mut g = Game::from_fen("x5o/7/7/7/7/7/o5x x 0 1").unwrap();
    assert_eq!(g.current_player, 0);
    assert_eq!(g.half_moves, 0);
    assert_eq!(g.full_moves, 1);
    let mv = Move { from: (1, 0), to: (1, 0) };
    assert!(g.play_move(mv).is_ok());
    assert_eq!(g.current_player, 1);
    assert_eq!(g.half_moves, 1);
    assert_eq!(g.moves.len(), 1);
    assert!(Game::from_fen("x5o/7/7/7/7/7/o5x x 0").is_err());
    assert!(Game::from_fen("x5o/7/7/7/7/7/o5x x zz 1").is_err());
}

#[test]
fn board_surrounding_tiles() {
    let b = Board::new();
    let corner = b.get_surrounding_tiles((0, 0));
    assert_eq!(corner.len(), 3);
    assert!(corner.contains(&(0, 1)));
    assert!(corner.contains(&(1, 0)));
    assert!(corner.contains(&(1, 1)));
    let inner = b.get_surrounding_tiles((3, 3));
    assert_eq!(inner.len(), 8);
    assert!(!inner.contains(&(3, 3)));
}

#[test]
fn board_mutable_access() {
    let mut b = Board::new();
    b.get_tile_mut((2, 2)).set_stone(Stone::Dark);
    assert_eq!(b.get_tile((2, 2)).get_stone(), Some(Stone::Dark));
    assert_eq!(b.get_tiles().len(), 49);
    b.get_tiles_mut()[0].set_blocked(true);
    assert!(b.get_tile((0, 0)).is_blocked());
}
