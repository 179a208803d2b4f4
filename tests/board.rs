use rustversi::board::{Board, Move, ParsingError, Player, PlayerParseError, Square};
use rustversi::bitmap::Bitmap;

#[test]
fn score() {
    assert_eq!(Board::new(8).score(), (2, 2));
    assert_eq!(Board::new(8).set(0, 0, Square::Disc(Player::Black)).score(), (3, 2));
}

#[test]
fn compute_moves() {
    let moves = Board::new(8).moves();
    assert_eq!(moves, vec![Move { x: 3, y: 2 }, Move { x: 2, y: 3 }, Move { x: 5, y: 4 }, Move { x: 4, y: 5 }]);
}

#[test]
fn opening_moves_and_score_on_eight() {
    let b = Board::new(8);
    assert_eq!(b.player, Some(Player::Black));
    assert_eq!(b.score(), (2, 2));
    let moves = b.moves();
    assert_eq!(moves.len(), 4);
    for m in [Move { x: 3, y: 2 }, Move { x: 2, y: 3 }, Move { x: 5, y: 4 }, Move { x: 4, y: 5 }] {
        assert!(moves.contains(&m));
        assert!(b.is_valid_move(&m));
    }
    assert!(!b.is_valid_move(&Move { x: 0, y: 0 }));
    assert!(!b.is_valid_move(&Move { x: 3, y: 3 }));
    assert!(!b.is_valid_move(&Move { x: 12, y: 1 }));
}

#[test]
fn smallest_board_has_ended() {
    let b = Board::new(2);
    assert_eq!(b.player, None);
    assert_eq!(b.score(), (2, 2));
    assert!(b.moves().is_empty());
}

#[test]
fn move_generation_from_bitmaps() {
    let black = Bitmap::new(4).set(2, 1).set(1, 2);
    let white = Bitmap::new(4).set(1, 1).set(2, 2);
    let moves = rustversi::board::compute_moves(&black, &white);
    assert_eq!(moves.cells(), vec![(1, 0), (0, 1), (3, 2), (2, 3)]);
    let moves = rustversi::board::compute_moves(&white, &black);
    assert_eq!(moves.cells(), vec![(2, 0), (3, 1), (0, 2), (1, 3)]);
}

#[test]
fn play_flips_and_passes_turn() {
    let b = Board::new(8);
    let after = b.play(&Move { x: 3, y: 2 }).expect("legal opening move");
    assert_eq!(after.player, Some(Player::White));
    assert_eq!(after.score(), (4, 1));
    assert_eq!(after.get(3, 2), Square::Disc(Player::Black));
    assert_eq!(after.get(3, 3), Square::Disc(Player::Black));
    assert_eq!(after.get(4, 4), Square::Disc(Player::White));
    assert_eq!(after.moves(), vec![Move { x: 2, y: 2 }, Move { x: 4, y: 2 }, Move { x: 2, y: 4 }]);
}

#[test]
fn play_rejects_illegal_moves() {
    let b = Board::new(8);
    assert_eq!(b.play(&Move { x: 0, y: 0 }), None);
    assert_eq!(b.play(&Move { x: 3, y: 3 }), None);
    assert_eq!(Board::new(2).play(&Move { x: 0, y: 0 }), None);
}

#[test]
fn play_flips_several_directions() {
    // Three white discs around (2, 2), each closed off by a black disc beyond it.
    let b = Board::new(6)
        .set(2, 2, Square::Empty)
        .set(3, 3, Square::Empty)
        .set(3, 2, Square::Empty)
        .set(2, 3, Square::Empty)
        .set(1, 1, Square::Disc(Player::White))
        .set(2, 1, Square::Disc(Player::White))
        .set(1, 2, Square::Disc(Player::White))
        .set(0, 0, Square::Disc(Player::Black))
        .set(2, 0, Square::Disc(Player::Black))
        .set(0, 2, Square::Disc(Player::Black));
    assert!(b.is_valid_move(&Move { x: 2, y: 2 }));
    let after = b.play(&Move { x: 2, y: 2 }).expect("legal");
    assert_eq!(after.get(1, 1), Square::Disc(Player::Black));
    assert_eq!(after.get(2, 1), Square::Disc(Player::Black));
    assert_eq!(after.get(1, 2), Square::Disc(Player::Black));
    assert_eq!(after.score(), (7, 0));
    assert_eq!(after.player, None);
}

#[test]
fn disc_count_grows_by_one_each_move() {
    let mut b = Board::new(6);
    let mut total = 4;
    while b.player.is_some() {
        let m = b.moves()[0];
        b = b.play(&m).expect("listed moves are legal");
        let (x, o) = b.score();
        assert_eq!((x + o) as u32, total + 1);
        total += 1;
        assert!(total <= 36);
    }
}

#[test]
fn turn_goes_to_a_player_who_can_move() {
    // After every move the player to move, if any, has a move.
    let b = Board::new(4)
        .set(1, 1, Square::Disc(Player::Black))
        .set(2, 2, Square::Disc(Player::Black))
        .set(2, 1, Square::Disc(Player::White))
        .set(1, 2, Square::Disc(Player::White))
        .set(0, 0, Square::Disc(Player::White));
    let moves = b.moves();
    assert!(!moves.is_empty());
    for m in moves {
        let after = b.play(&m).expect("legal");
        match after.player {
            Some(p) => assert!(!after.moves().is_empty(), "{:?} must have a move", p),
            None => assert!(after.moves().is_empty()),
        }
    }
}

#[test]
fn same_position_same_board() {
    let a = Board::new(6).play(&Move { x: 2, y: 1 }).unwrap();
    let b = Board::new(6)
        .set(2, 1, Square::Disc(Player::Black))
        .set(2, 2, Square::Disc(Player::Black));
    let mut b = b;
    b.player = Some(Player::White);
    let b = b.set(0, 0, Square::Empty);
    assert_eq!(a.score(), b.score());
    assert_eq!(a.moves(), b.moves());
    assert_eq!(a, b);
    assert_eq!(a.play(&Move { x: 1, y: 1 }), b.play(&Move { x: 1, y: 1 }));
}

#[test]
fn player_other_and_names() {
    assert_eq!(Player::Black.other(), Player::White);
    assert_eq!(Player::White.other(), Player::Black);
    assert_eq!(Player::Black.to_char(), 'X');
    assert_eq!(Player::White.to_char(), 'O');
    assert_eq!(Square::Empty.to_char(), '_');
    assert_eq!(Player::Black.name(), "black");
    assert_eq!(Player::White.name(), "white");
}

#[test]
fn characters_and_conversions() {
    assert_eq!(Player::from_char('X'), Ok(Player::Black));
    assert_eq!(Player::from_char('O'), Ok(Player::White));
    assert_eq!(Player::from_char('_'), Err(PlayerParseError { c: '_' }));
    assert_eq!(Square::from_char('_'), Some(Square::Empty));
    assert_eq!(Square::from_char('O'), Some(Square::Disc(Player::White)));
    assert_eq!(Square::from_char('x'), None);
    assert_eq!(Option::<Player>::from(Square::Disc(Player::Black)), Some(Player::Black));
    assert_eq!(Option::<Player>::from(Square::Empty), None);
    assert_eq!(Square::from(Some(Player::White)), Square::Disc(Player::White));
    assert_eq!(Square::from(None::<Player>), Square::Empty);
    assert_eq!(ParsingError::from(PlayerParseError { c: 'q' }), ParsingError::PlayerParseError('q'));
}

#[test]
fn winner_of_finished_games() {
    let b = Board::new(6)
        .set(2, 2, Square::Empty)
        .set(3, 3, Square::Empty)
        .set(3, 2, Square::Empty)
        .set(2, 3, Square::Empty)
        .set(1, 1, Square::Disc(Player::White))
        .set(2, 1, Square::Disc(Player::White))
        .set(1, 2, Square::Disc(Player::White))
        .set(0, 0, Square::Disc(Player::Black))
        .set(2, 0, Square::Disc(Player::Black))
        .set(0, 2, Square::Disc(Player::Black));
    assert_eq!(b.winner(), None);
    let after = b.play(&Move { x: 2, y: 2 }).unwrap();
    assert_eq!(after.winner(), Some(Player::Black));
    assert_eq!(Board::new(2).winner(), None);
    let mut w = Board::new(4).set(0, 0, Square::Disc(Player::White));
    w.player = None;
    let w = w.set(3, 3, Square::Empty);
    assert_eq!(w.winner(), Some(Player::White));
}
