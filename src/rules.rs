//! The rules of the game as mathematics: which cells a player may play on,
//! which discs a move turns over, and who moves next.

use vstd::prelude::*;
use crate::bitmap::{in_grid, grid, lemma_grid_len};

verus! {

/// `i` steps of size `d`, where `d` is -1, 0 or 1.
pub open spec fn scale(d: int, i: int) -> int {
    if d > 0 {
        i
    } else if d < 0 {
        -i
    } else {
        0
    }
}

/// The cell `i` steps from `c` in direction `(dx, dy)`.
pub open spec fn along(c: (int, int), dx: int, dy: int, i: int) -> (int, int) {
    (c.0 + scale(dx, i), c.1 + scale(dy, i))
}

/// One of the eight compass directions.
pub open spec fn is_direction(dx: int, dy: int) -> bool {
    -1 <= dx <= 1 && -1 <= dy <= 1 && !(dx == 0 && dy == 0)
}

/// Seen from `c` in direction `(dx, dy)`, the next `k` cells hold opponent
/// discs and the one after them a disc of the mover.
pub open spec fn flanks(
    mover: Set<(int, int)>,
    opp: Set<(int, int)>,
    c: (int, int),
    dx: int,
    dy: int,
    k: int,
) -> bool {
    &&& 1 <= k
    &&& forall|i: int| 1 <= i <= k ==> #[trigger] opp.contains(along(c, dx, dy, i))
    &&& mover.contains(along(c, dx, dy, k + 1))
}

/// A disc on `c` would close a run of opponent discs in direction `(dx, dy)`.
pub open spec fn captures_along(
    mover: Set<(int, int)>,
    opp: Set<(int, int)>,
    c: (int, int),
    dx: int,
    dy: int,
) -> bool {
    exists|k: int| flanks(mover, opp, c, dx, dy, k)
}

/// The cells the mover may play on: empty cells of the grid from which, in
/// some direction, a run of opponent discs ends on a disc of the mover.
pub open spec fn legal_moves(mover: Set<(int, int)>, opp: Set<(int, int)>, size: int) -> Set<
    (int, int),
> {
    Set::new(
        |c: (int, int)|
            in_grid(size, c.0, c.1) && !mover.contains(c) && !opp.contains(c) && exists|
                dx: int,
                dy: int,
            | is_direction(dx, dy) && captures_along(mover, opp, c, dx, dy),
    )
}

/// The opponent discs that a disc of the mover on `c` turns over: every run
/// of opponent discs that it closes with a disc of the mover.
pub open spec fn flips(mover: Set<(int, int)>, opp: Set<(int, int)>, c: (int, int)) -> Set<
    (int, int),
> {
    Set::new(
        |f: (int, int)|
            exists|dx: int, dy: int, k: int, i: int|
                is_direction(dx, dy) && flanks(mover, opp, c, dx, dy, k) && 1 <= i <= k && f
                    == along(c, dx, dy, i),
    )
}

/// One of the two players.
#[derive(Debug, Clone, Copy, PartialEq, Eq, Structural)]
pub enum Player {
    Black,
    White,
}

pub open spec fn opponent(p: Player) -> Player {
    match p {
        Player::Black => Player::White,
        Player::White => Player::Black,
    }
}

/// A game state as mathematics: the side of the board, the discs of each
/// player and the player to move (none once the game has ended).
pub struct Position {
    pub size: int,
    pub black: Set<(int, int)>,
    pub white: Set<(int, int)>,
    pub player: Option<Player>,
}

/// The discs of `p`.
pub open spec fn discs(pos: Position, p: Player) -> Set<(int, int)> {
    match p {
        Player::Black => pos.black,
        Player::White => pos.white,
    }
}

/// What the rules ask of any position: an even side from 2 to 10, discs on
/// the grid only, and no cell holding two discs.
pub open spec fn valid(pos: Position) -> bool {
    &&& 2 <= pos.size <= 10
    &&& pos.size % 2 == 0
    &&& pos.black.subset_of(grid(pos.size))
    &&& pos.white.subset_of(grid(pos.size))
    &&& pos.black.disjoint(pos.white)
}

/// The cells the player to move may play on; none once the game has ended.
pub open spec fn legal(pos: Position) -> Set<(int, int)> {
    match pos.player {
        Some(p) => legal_moves(discs(pos, p), discs(pos, opponent(p)), pos.size),
        None => Set::empty(),
    }
}

/// The player to move once `p` has moved and the discs are `mine` and
/// `theirs`: the opponent if they can play, else `p` again if they can,
/// else nobody.
pub open spec fn next_player(p: Player, mine: Set<(int, int)>, theirs: Set<(int, int)>, size: int) -> Option<
    Player,
> {
    if legal_moves(theirs, mine, size) != Set::<(int, int)>::empty() {
        Some(opponent(p))
    } else if legal_moves(mine, theirs, size) != Set::<(int, int)>::empty() {
        Some(p)
    } else {
        None
    }
}

/// The position after the player to move puts a disc on `c`: the disc is
/// placed, every run it closes changes colour, and the turn passes on.
pub open spec fn after_move(pos: Position, c: (int, int)) -> Position
    recommends
        pos.player is Some,
{
    let p = pos.player->0;
    let mine = discs(pos, p);
    let theirs = discs(pos, opponent(p));
    let turned = flips(mine, theirs, c);
    let mine2 = mine.insert(c).union(turned);
    let theirs2 = theirs.difference(turned);
    let next = next_player(p, mine2, theirs2, pos.size);
    match p {
        Player::Black => Position { size: pos.size, black: mine2, white: theirs2, player: next },
        Player::White => Position { size: pos.size, black: theirs2, white: mine2, player: next },
    }
}

/// Who moves in a position with the discs `black` and `white` where `p` is
/// to move: `p` if they can, else their opponent if they can, else nobody.
pub open spec fn first_able(p: Player, black: Set<(int, int)>, white: Set<(int, int)>, size: int) -> Option<Player> {
    let pos = Position { size, black, white, player: Some(p) };
    let mine = discs(pos, p);
    let theirs = discs(pos, opponent(p));
    if legal_moves(mine, theirs, size) != Set::<(int, int)>::empty() {
        Some(p)
    } else if legal_moves(theirs, mine, size) != Set::<(int, int)>::empty() {
        Some(opponent(p))
    } else {
        None
    }
}

/// The opening position: two discs of each player crossed in the centre,
/// Black to move (on the smallest board nobody can move).
pub open spec fn start(size: int) -> Position {
    let h = size / 2;
    Position {
        size,
        black: set![(h, h - 1), (h - 1, h)],
        white: set![(h - 1, h - 1), (h, h)],
        player: if size != 2 {
            Some(Player::Black)
        } else {
            None
        },
    }
}

/// The discs a move turns over are opponent discs.
pub proof fn lemma_flips_are_opponent(mover: Set<(int, int)>, opp: Set<(int, int)>, c: (int, int))
    ensures
        flips(mover, opp, c).subset_of(opp),
{
    assert forall|f: (int, int)| flips(mover, opp, c).contains(f) implies opp.contains(f) by {
        let (dx, dy, k, i) = choose|dx: int, dy: int, k: int, i: int|
            is_direction(dx, dy) && flanks(mover, opp, c, dx, dy, k) && 1 <= i <= k && f == along(c, dx, dy, i);
    }
}

/// A valid position holds at most one disc per cell of the grid.
pub proof fn lemma_disc_total_bounded(pos: Position)
    requires
        valid(pos),
    ensures
        pos.black.finite(),
        pos.white.finite(),
        pos.black.len() + pos.white.len() == pos.black.union(pos.white).len(),
        pos.black.len() + pos.white.len() <= pos.size * pos.size,
{
    lemma_grid_len(pos.size);
    vstd::set_lib::lemma_len_subset(pos.black, grid(pos.size));
    vstd::set_lib::lemma_len_subset(pos.white, grid(pos.size));
    vstd::set_lib::lemma_set_disjoint_lens(pos.black, pos.white);
    vstd::set_lib::lemma_len_subset(pos.black.union(pos.white), grid(pos.size));
}

/// Every legal move is an empty cell of the grid.
pub proof fn lemma_legal_on_empty_cells(pos: Position)
    ensures
        legal(pos).subset_of(grid(pos.size).difference(pos.black.union(pos.white))),
{
}

/// A legal move keeps the position valid: discs stay on the grid and no
/// cell ends up with two discs.
pub proof fn lemma_after_move_valid(pos: Position, c: (int, int))
    requires
        valid(pos),
        legal(pos).contains(c),
    ensures
        valid(after_move(pos, c)),
        after_move(pos, c).size == pos.size,
{
    let p = pos.player->0;
    lemma_flips_are_opponent(discs(pos, p), discs(pos, opponent(p)), c);
}

/// A legal move adds exactly one disc to the board, so the number of discs
/// never falls, and it never exceeds the number of cells.
pub proof fn lemma_disc_count_grows(pos: Position, c: (int, int))
    requires
        valid(pos),
        legal(pos).contains(c),
    ensures
        after_move(pos, c).black.len() + after_move(pos, c).white.len() == pos.black.len() + pos.white.len() + 1,
        pos.black.len() + pos.white.len() < after_move(pos, c).black.len() + after_move(pos, c).white.len()
            <= pos.size * pos.size,
{
    let p = pos.player->0;
    let q = after_move(pos, c);
    lemma_flips_are_opponent(discs(pos, p), discs(pos, opponent(p)), c);
    lemma_after_move_valid(pos, c);
    lemma_disc_total_bounded(pos);
    lemma_disc_total_bounded(q);
    assert(q.black.union(q.white) =~= pos.black.union(pos.white).insert(c));
}

} // verus!
