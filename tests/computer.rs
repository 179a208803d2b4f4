use std::time::Duration;
use rustversi::board::{Board, Move, Player, Square};
use rustversi::computer::{ab_helper, ab_minmax, ab_root, helper, minmax, minmax_root};

fn positions() -> Vec<Board> {
    let mut out = vec![Board::new(4), Board::new(6), Board::new(8)];
    let mut b = Board::new(6);
    for _ in 0..5 {
        let m = b.moves()[b.moves().len() / 2];
        b = b.play(&m).unwrap();
        out.push(b);
    }
    out
}

#[test]
fn pruning_keeps_the_minimax_value() {
    for b in positions() {
        let p = b.player.unwrap();
        for depth in 1..=3 {
            let (plain, done) = helper(&b, p, depth, &None);
            assert!(done);
            let (pruned, done) = ab_helper(&b, p, depth, i16::MIN, i16::MAX, &None);
            assert!(done);
            assert_eq!(plain, pruned);
        }
    }
}

#[test]
fn chosen_moves_have_the_root_value() {
    for b in positions() {
        let p = b.player.unwrap();
        let moves = b.moves();
        for depth in 1..=3 {
            let (root, _) = helper(&b, p, depth, &None);
            let (m1, done1) = minmax_root(&b, &moves, depth, &None);
            let (m2, done2) = ab_root(&b, &moves, depth, &None);
            assert!(done1 && done2);
            let v1 = helper(&b.play(&m1.unwrap()).unwrap(), p, depth - 1, &None).0;
            let v2 = helper(&b.play(&m2.unwrap()).unwrap(), p, depth - 1, &None).0;
            assert_eq!(v1, root);
            assert_eq!(v2, root);
        }
    }
}

#[test]
fn heuristic_at_the_leaves() {
    let b = Board::new(8).play(&Move { x: 3, y: 2 }).unwrap();
    assert_eq!(helper(&b, Player::Black, 0, &None), (3, true));
    assert_eq!(helper(&b, Player::White, 0, &None), (-3, true));
    let mut ended = Board::new(2);
    ended.player = None;
    assert_eq!(helper(&ended, Player::Black, 3, &None), (0, true));
}

#[test]
fn finished_games_score_as_outright_wins() {
    // Black takes the last white disc: the game ends with Black ahead.
    let b = Board::new(6)
        .set(2, 2, Square::Empty)
        .set(3, 3, Square::Empty)
        .set(3, 2, Square::Empty)
        .set(2, 3, Square::Empty)
        .set(1, 1, Square::Disc(Player::White))
        .set(0, 0, Square::Disc(Player::Black));
    let after = b.play(&Move { x: 2, y: 2 }).unwrap();
    assert_eq!(after.player, None);
    assert_eq!(helper(&after, Player::Black, 4, &None), (i16::MAX, true));
    assert_eq!(helper(&after, Player::White, 4, &None), (i16::MIN, true));
    let (m, done) = ab_root(&b, &b.moves(), 2, &None);
    assert!(done);
    assert_eq!(m, Some(Move { x: 2, y: 2 }));
}

#[test]
fn one_move_lookahead_takes_the_most_discs() {
    // Depth 1: the best move is the one that leaves Black furthest ahead.
    let b = Board::new(6)
        .play(&Move { x: 2, y: 1 }).unwrap()
        .play(&Move { x: 1, y: 1 }).unwrap();
    let p = b.player.unwrap();
    let moves = b.moves();
    let (m, _) = ab_root(&b, &moves, 1, &None);
    let best = moves
        .iter()
        .map(|mv| helper(&b.play(mv).unwrap(), p, 0, &None).0)
        .max()
        .unwrap();
    assert_eq!(helper(&b.play(&m.unwrap()).unwrap(), p, 0, &None).0, best);
}

#[test]
fn searches_return_legal_moves() {
    let b = Board::new(6);
    let m = ab_minmax(&b, Duration::from_millis(200)).expect("black can move");
    assert!(b.is_valid_move(&m));
    let m = minmax(&b, Duration::from_millis(200)).expect("black can move");
    assert!(b.is_valid_move(&m));
    let m = ab_minmax(&b, Duration::from_secs(0)).expect("a move even with no time");
    assert!(b.is_valid_move(&m));
}

#[test]
fn searches_return_nothing_when_the_game_has_ended() {
    let b = Board::new(2);
    assert_eq!(ab_minmax(&b, Duration::from_millis(10)), None);
    assert_eq!(minmax(&b, Duration::from_millis(10)), None);
}

#[test]
fn ties_go_to_the_first_or_the_last_move() {
    // The four opening moves are symmetric, so all have the same value.
    let b = Board::new(8);
    let moves = b.moves();
    for depth in 1..=3 {
        assert_eq!(ab_root(&b, &moves, depth, &None), (Some(moves[0]), true));
        assert_eq!(minmax_root(&b, &moves, depth, &None), (Some(moves[3]), true));
        let reversed: Vec<Move> = moves.iter().rev().copied().collect();
        assert_eq!(ab_root(&b, &reversed, depth, &None), (Some(moves[3]), true));
    }
}
