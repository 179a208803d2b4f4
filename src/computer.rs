//! Choosing a move for the computer: minimax search, with or without
//! alpha-beta pruning, to a fixed depth or until a deadline passes.

use vstd::prelude::*;
use std::time::{Duration, Instant};
use rand::seq::SliceRandom;
use crate::bitmap::{row_major, lemma_row_major_members, lemma_row_major_complete};
use crate::rules::{Player, Position, opponent, discs, valid, legal, after_move, lemma_after_move_valid, lemma_disc_total_bounded};
use crate::board::{Board, Move, move_cell, move_cells};

verus! {

/// How deep the search looks, in moves.
pub const DEPTH: u8 = 10;

/// An ordered type with a least and a greatest value.
pub trait BoundedOrd: Ord {
    const MIN: Self;
    const MAX: Self;
}

impl BoundedOrd for i16 {
    const MIN: i16 = i16::MIN;
    const MAX: i16 = i16::MAX;
}

pub open spec fn low() -> int {
    i16::MIN as int
}

pub open spec fn high() -> int {
    i16::MAX as int
}

/// The score of `pos` for `root`: their discs less their opponent's, or,
/// once the game has ended, the least or greatest score for a loss or a win.
pub open spec fn heuristic_value(pos: Position, root: Player) -> int {
    let rel = discs(pos, root).len() as int - discs(pos, opponent(root)).len() as int;
    if pos.player is None {
        if rel < 0 {
            low()
        } else if rel > 0 {
            high()
        } else {
            0
        }
    } else {
        rel
    }
}

/// The moves searched from `pos`, in reading order.
pub open spec fn children(pos: Position) -> Seq<(int, int)> {
    row_major(legal(pos), pos.size)
}

/// `root` is the player to move, so the search maximises here.
pub open spec fn maximizing(pos: Position, root: Player) -> bool {
    pos.player == Some(root)
}

/// The minimax value of `pos` for `root`, looking `depth` moves ahead.
pub open spec fn minimax(pos: Position, root: Player, depth: nat) -> int
    decreases depth, 1nat, 0nat,
{
    if depth == 0 || pos.player is None || children(pos).len() == 0 {
        heuristic_value(pos, root)
    } else {
        best(pos, root, (depth - 1) as nat, children(pos).len())
    }
}

/// The best of the values of the first `n` moves from `pos`, each searched
/// `depth` deep, for the player to move; starts from the worst bound.
pub open spec fn best(pos: Position, root: Player, depth: nat, n: nat) -> int
    decreases depth + 1, 0nat, n,
{
    if n == 0 {
        if maximizing(pos, root) {
            low()
        } else {
            high()
        }
    } else {
        let v = minimax(after_move(pos, children(pos)[n - 1]), root, depth);
        let b = best(pos, root, depth, (n - 1) as nat);
        if maximizing(pos, root) {
            if v > b {
                v
            } else {
                b
            }
        } else {
            if v < b {
                v
            } else {
                b
            }
        }
    }
}

/// The value of playing `c` from `pos`: the minimax value of the result
/// searched one move less deep.
pub open spec fn move_value(pos: Position, root: Player, depth: nat, c: (int, int)) -> int {
    minimax(after_move(pos, c), root, (depth - 1) as nat)
}

/// The moves searched from a valid position are legal.
proof fn lemma_children_legal(pos: Position)
    ensures
        forall|k: int| 0 <= k < children(pos).len() ==> legal(pos).contains(#[trigger] children(pos)[k]),
{
    lemma_row_major_members(legal(pos), pos.size);
}

/// Search values lie in the range of an `i16`.
proof fn lemma_minimax_range(pos: Position, root: Player, depth: nat)
    requires
        valid(pos),
    ensures
        low() <= minimax(pos, root, depth) <= high(),
    decreases depth, 1nat, 0nat,
{
    lemma_disc_total_bounded(pos);
    if !(depth == 0 || pos.player is None || children(pos).len() == 0) {
        lemma_best_range(pos, root, (depth - 1) as nat, children(pos).len());
    } else {
        assert(pos.black.len() + pos.white.len() <= 100) by (nonlinear_arith)
            requires pos.black.len() + pos.white.len() <= pos.size * pos.size, 0 <= pos.size <= 10;
        assert(low() <= heuristic_value(pos, root) <= high());
    }
}

proof fn lemma_best_range(pos: Position, root: Player, depth: nat, n: nat)
    requires
        valid(pos),
        n <= children(pos).len(),
    ensures
        low() <= best(pos, root, depth, n) <= high(),
    decreases depth + 1, 0nat, n,
{
    if n > 0 {
        lemma_children_legal(pos);
        lemma_after_move_valid(pos, children(pos)[n - 1]);
        lemma_minimax_range(after_move(pos, children(pos)[n - 1]), root, depth);
        lemma_best_range(pos, root, depth, (n - 1) as nat);
    }
}

/// The best value so far only improves as more moves are looked at.
proof fn lemma_best_monotone(pos: Position, root: Player, depth: nat, i: nat, n: nat)
    requires
        i <= n,
    ensures
        maximizing(pos, root) ==> best(pos, root, depth, i) <= best(pos, root, depth, n),
        !maximizing(pos, root) ==> best(pos, root, depth, i) >= best(pos, root, depth, n),
    decreases n - i,
{
    if i < n {
        lemma_best_monotone(pos, root, depth, i, (n - 1) as nat);
    }
}

/// The value of the position for `root` as `heuristic_value` gives it.
fn heuristic(board: &Board, player: Player) -> (r: i16)
    requires
        board.wf(),
    ensures
        r == heuristic_value(board@, player),
{
    proof {
        board.lemma_invariant();
        lemma_disc_total_bounded(board@);
    }
    let (b, w) = board.score();
    let rel: i16 = match player {
        Player::Black => b as i16 - w as i16,
        Player::White => w as i16 - b as i16,
    };
    if board.player().is_none() {
        if rel < 0 {
            i16::MIN
        } else if rel > 0 {
            i16::MAX
        } else {
            0
        }
    } else {
        rel
    }
}

/// `std::time::Instant`, a point in time, held opaque.
#[verifier::external_type_specification]
#[verifier::external_body]
pub struct ExInstant(Instant);

/// Relies on `std::time::Instant::now`: the current time; nothing is promised of it.
#[verifier::external_body]
fn now() -> Instant {
    Instant::now()
}

/// Relies on `std::time::Instant::checked_add`: `start` plus `d`, or none
/// when that time cannot be represented.
#[verifier::external_body]
fn later(start: &Instant, d: Duration) -> Option<Instant> {
    start.checked_add(d)
}

/// Relies on `Instant`'s `>=`: whether `a` is not earlier than `b`.
#[verifier::external_body]
fn not_before(a: &Instant, b: &Instant) -> bool {
    *a >= *b
}

/// Whether the deadline `end` has passed; a deadline of none never passes.
fn expired(end: &Option<Instant>) -> (r: bool)
    ensures
        end is None ==> !r,
{
    match end {
        Some(e) => not_before(&now(), e),
        None => false,
    }
}

/// Relies on `rand::seq::SliceRandom::shuffle` with the thread-local
/// generator: the moves are put in a random order, none added or lost.
#[verifier::external_body]
fn shuffle_moves(moves: &mut Vec<Move>)
    ensures
        final(moves)@.to_multiset() == old(moves)@.to_multiset(),
{
    moves.shuffle(&mut rand::rng());
}

/// The minimax value of `board` for `player`, `depth` moves deep. The
/// second result says that no deadline cut the search short; when it holds
/// the value is exact.
pub fn helper(board: &Board, player: Player, depth: u8, end: &Option<Instant>) -> (r: (i16, bool))
    requires
        board.wf(),
    ensures
        r.1 ==> r.0 == minimax(board@, player, depth as nat),
        end is None ==> r.1,
    decreases depth,
{
    if depth == 0 || board.player().is_none() {
        return (heuristic(board, player), true);
    }
    if expired(end) {
        return (heuristic(board, player), false);
    }
    let moves = board.moves();
    let ghost pos = board@;
    proof {
        lemma_children_legal(pos);
        board.lemma_invariant();
    }
    if moves.len() == 0 {
        return (heuristic(board, player), true);
    }
    let maximize = board.player() == Some(player);
    let mut optimal: i16 = if maximize {
        <i16 as BoundedOrd>::MIN
    } else {
        <i16 as BoundedOrd>::MAX
    };
    let mut complete = true;
    let mut i: usize = 0;
    while i < moves.len()
        invariant
            board.wf(),
            pos == board@,
            depth >= 1,
            pos.player is Some,
            maximize == maximizing(pos, player),
            move_cells(moves@) == children(pos),
            i <= moves@.len(),
            complete ==> optimal == best(pos, player, (depth - 1) as nat, i as nat),
            end is None ==> complete,
            forall|k: int| 0 <= k < children(pos).len() ==> legal(pos).contains(#[trigger] children(pos)[k]),
            valid(pos),
        decreases moves@.len() - i,
    {
        let m = moves[i];
        assert(move_cell(m) == children(pos)[i as int]);
        assert(legal(pos).contains(move_cell(m)));
        match board.play(&m) {
            Some(child) => {
                let (v, c) = helper(&child, player, depth - 1, end);
                complete = complete && c;
                if maximize {
                    if v > optimal {
                        optimal = v;
                    }
                } else {
                    if v < optimal {
                        optimal = v;
                    }
                }
            },
            None => {},
        }
        i += 1;
    }
    (optimal, complete)
}

/// The value of `board` for `player`, `depth` moves deep, with alpha-beta
/// pruning in the window `(alpha, beta)`. When no deadline cut the search
/// short, the value relates to the minimax value as pruning promises: equal
/// inside the window, and a bound on the same side outside it.
pub fn ab_helper(board: &Board, player: Player, depth: u8, alpha: i16, beta: i16, end: &Option<Instant>) -> (r: (i16, bool))
    requires
        board.wf(),
        alpha < beta,
    ensures
        r.1 ==> fail_soft(r.0 as int, alpha as int, beta as int, minimax(board@, player, depth as nat)),
        end is None ==> r.1,
    decreases depth,
{
    if depth == 0 || board.player().is_none() {
        return (heuristic(board, player), true);
    }
    if expired(end) {
        return (heuristic(board, player), false);
    }
    let moves = board.moves();
    let ghost pos = board@;
    let ghost d = (depth - 1) as nat;
    proof {
        lemma_children_legal(pos);
        board.lemma_invariant();
    }
    if moves.len() == 0 {
        return (heuristic(board, player), true);
    }
    let maximize = board.player() == Some(player);
    let mut alpha = alpha;
    let mut beta = beta;
    let ghost alpha0 = alpha as int;
    let ghost beta0 = beta as int;
    let mut optimal: i16 = if maximize {
        <i16 as BoundedOrd>::MIN
    } else {
        <i16 as BoundedOrd>::MAX
    };
    let mut complete = true;
    let mut i: usize = 0;
    let mut cut = false;
    while i < moves.len() && !cut
        invariant
            board.wf(),
            pos == board@,
            depth >= 1,
            d == depth - 1,
            pos.player is Some,
            maximize == maximizing(pos, player),
            move_cells(moves@) == children(pos),
            i <= moves@.len(),
            forall|k: int| 0 <= k < children(pos).len() ==> legal(pos).contains(#[trigger] children(pos)[k]),
            valid(pos),
            alpha0 < beta0,
            !cut ==> alpha < beta,
            maximize ==> beta == beta0 && alpha == if optimal > alpha0 { optimal as int } else { alpha0 },
            !maximize ==> alpha == alpha0 && beta == if optimal < beta0 { optimal as int } else { beta0 },
            complete && !cut && maximize ==> best(pos, player, d, i as nat) <= optimal && (optimal > alpha0
                ==> best(pos, player, d, i as nat) == optimal),
            complete && !cut && !maximize ==> best(pos, player, d, i as nat) >= optimal && (optimal < beta0
                ==> best(pos, player, d, i as nat) == optimal),
            complete && cut && maximize ==> optimal >= beta0 && best(pos, player, d, i as nat) >= optimal,
            complete && cut && !maximize ==> optimal <= alpha0 && best(pos, player, d, i as nat) <= optimal,
            end is None ==> complete,
        decreases moves@.len() - i,
    {
        let m = moves[i];
        assert(move_cell(m) == children(pos)[i as int]);
        assert(legal(pos).contains(move_cell(m)));
        match board.play(&m) {
            Some(child) => {
                let (v, c) = ab_helper(&child, player, depth - 1, alpha, beta, end);
                complete = complete && c;
                if v != optimal {
                    if maximize {
                        if v > optimal {
                            optimal = v;
                        }
                        if optimal > alpha {
                            alpha = optimal;
                        }
                    } else {
                        if v < optimal {
                            optimal = v;
                        }
                        if optimal < beta {
                            beta = optimal;
                        }
                    }
                    if alpha >= beta {
                        cut = true;
                    }
                }
            },
            None => {},
        }
        i += 1;
    }
    proof {
        if complete {
            if cut {
                lemma_best_monotone(pos, player, d, i as nat, children(pos).len());
            }
        }
    }
    (optimal, complete)
}

/// Where the player to move is `root` and `m` is a legal move worth at
/// least as much as any other, its value is the minimax value of the position.
pub proof fn lemma_root_value(pos: Position, root: Player, depth: nat, m: (int, int))
    requires
        valid(pos),
        pos.player == Some(root),
        depth >= 1,
        legal(pos).contains(m),
        forall|c: (int, int)| legal(pos).contains(c) ==> move_value(pos, root, depth, c) <= move_value(pos, root, depth, m),
    ensures
        move_value(pos, root, depth, m) == minimax(pos, root, depth),
{
    let d = (depth - 1) as nat;
    let n = children(pos).len();
    let v = move_value(pos, root, depth, m);
    lemma_children_legal(pos);
    lemma_after_move_valid(pos, m);
    lemma_minimax_range(after_move(pos, m), root, d);
    lemma_row_major_complete(legal(pos), pos.size, m);
    let k = choose|k: int| 0 <= k < children(pos).len() && children(pos)[k] == m;
    lemma_best_bounded(pos, root, d, n, v);
    lemma_best_monotone(pos, root, d, (k + 1) as nat, n);
}

/// At a maximising position, the best value over the first `n` moves lies
/// below any bound `v` of their values that is not below the least value.
proof fn lemma_best_bounded(pos: Position, root: Player, d: nat, n: nat, v: int)
    requires
        maximizing(pos, root),
        n <= children(pos).len(),
        low() <= v,
        forall|k: int| 0 <= k < n ==> minimax(after_move(pos, #[trigger] children(pos)[k]), root, d) <= v,
    ensures
        best(pos, root, d, n) <= v,
    decreases n,
{
    if n > 0 {
        lemma_best_bounded(pos, root, d, (n - 1) as nat, v);
    }
}

proof fn lemma_some_member(s: Set<(int, int)>)
    requires
        s != Set::<(int, int)>::empty(),
    ensures
        exists|c: (int, int)| s.contains(c),
{
    if !(exists|c: (int, int)| s.contains(c)) {
        assert(s =~= Set::<(int, int)>::empty());
    }
}

/// Each move of `moves` is legal in `pos`, and each legal move is in `moves`.
pub open spec fn lists_legal(pos: Position, moves: Seq<Move>) -> bool {
    &&& forall|k: int| 0 <= k < moves.len() ==> legal(pos).contains(move_cell(#[trigger] moves[k]))
    &&& forall|c: (int, int)| #[trigger] legal(pos).contains(c) ==> exists|k: int| 0 <= k < moves.len() && move_cell(moves[k]) == c
}

/// The legal moves of `board` in a random order.
fn shuffled_moves(board: &Board) -> (r: Vec<Move>)
    requires
        board.wf(),
    ensures
        lists_legal(board@, r@),
{
    let mut shuffled = board.moves();
    let ghost moves = shuffled@;
    let ghost pos = board@;
    proof {
        lemma_children_legal(pos);
    }
    shuffle_moves(&mut shuffled);
    proof {
        shuffled@.to_multiset_ensures();
        moves.to_multiset_ensures();
        assert forall|k: int| 0 <= k < shuffled@.len() implies legal(pos).contains(move_cell(#[trigger] shuffled@[k])) by {
            assert(shuffled@.contains(shuffled@[k]));
            assert(shuffled@.to_multiset().count(shuffled@[k]) > 0);
            assert(moves.to_multiset().count(shuffled@[k]) > 0);
            assert(moves.contains(shuffled@[k]));
            let j = choose|j: int| 0 <= j < moves.len() && moves[j] == shuffled@[k];
            assert(move_cells(moves)[j] == move_cell(moves[j]));
            assert(move_cells(moves) == children(pos));
            assert(legal(pos).contains(children(pos)[j]));
        }
        assert forall|c: (int, int)| #[trigger] legal(pos).contains(c) implies exists|k: int|
            0 <= k < shuffled@.len() && move_cell(shuffled@[k]) == c by {
            lemma_row_major_complete(legal(pos), pos.size, c);
            let j = choose|j: int| 0 <= j < children(pos).len() && children(pos)[j] == c;
            assert(move_cells(moves)[j] == move_cell(moves[j]));
            assert(moves.contains(moves[j]));
            assert(moves.to_multiset().count(moves[j]) > 0);
            assert(shuffled@.to_multiset().count(moves[j]) > 0);
            assert(shuffled@.contains(moves[j]));
        }
    }
    shuffled
}

/// The root of a plain minimax search over `moves`, looking `depth` moves
/// ahead: a move of greatest value, the last such one, or none when there
/// is nothing to play. The second result says that no deadline cut the
/// search short; when it holds, the move's value is the minimax value of
/// the position.
pub fn minmax_root(board: &Board, moves: &Vec<Move>, depth: u8, end: &Option<Instant>) -> (r: (Option<Move>, bool))
    requires
        board.wf(),
        depth >= 1,
        lists_legal(board@, moves@),
    ensures
        r.0 is Some <==> board@.player is Some && legal(board@) != Set::<(int, int)>::empty(),
        r.0 matches Some(m) ==> legal(board@).contains(move_cell(m)),
        r.1 ==> (r.0 matches Some(m) ==> move_value(board@, board@.player->0, depth as nat, move_cell(m)) == minimax(
            board@,
            board@.player->0,
            depth as nat,
        )),
        r.1 ==> (r.0 matches Some(m) ==> exists|k: int|
            0 <= k < moves@.len() && moves@[k] == m && forall|j: int|
                k < j < moves@.len() ==> move_value(board@, board@.player->0, depth as nat, move_cell(#[trigger] moves@[j]))
                    < move_value(board@, board@.player->0, depth as nat, move_cell(m))),
        end is None ==> r.1,
{
    let ghost pos = board@;
    let player = match board.player() {
        Some(p) => p,
        None => return (None, true),
    };
    proof {
        board.lemma_invariant();
    }
    let ghost mut best_k: int = 0;
    let mut best_move: Option<Move> = None;
    let mut best_value: i16 = i16::MIN;
    let mut complete = true;
    let mut i: usize = 0;
    while i < moves.len()
        invariant
            board.wf(),
            pos == board@,
            valid(pos),
            pos.player == Some(player),
            depth >= 1,
            lists_legal(pos, moves@),
            i <= moves@.len(),
            best_move is Some <==> i > 0,
            best_move matches Some(m) ==> legal(pos).contains(move_cell(m)),
            complete ==> forall|j: int| 0 <= j < i ==> move_value(pos, player, depth as nat, move_cell(#[trigger] moves@[j]))
                <= best_value,
            complete && best_move is Some ==> move_value(pos, player, depth as nat, move_cell(best_move->0)) == best_value,
            best_move is Some ==> 0 <= best_k < i && moves@[best_k] == best_move->0,
            complete ==> forall|j: int| best_k < j < i ==> move_value(pos, player, depth as nat, move_cell(#[trigger] moves@[j]))
                < best_value,
            end is None ==> complete,
        decreases moves@.len() - i,
    {
        let m = moves[i];
        assert(legal(pos).contains(move_cell(moves@[i as int])));
        match board.play(&m) {
            Some(child) => {
                let (v, c) = helper(&child, player, depth - 1, end);
                complete = complete && c;
                if best_move.is_none() || v >= best_value {
                    best_move = Some(m);
                    best_value = v;
                    proof {
                        best_k = i as int;
                    }
                }
            },
            None => {},
        }
        i += 1;
    }
    proof {
        if best_move is None && legal(pos) != Set::<(int, int)>::empty() {
            lemma_some_member(legal(pos));
            let c = choose|c: (int, int)| legal(pos).contains(c);
            let k = choose|k: int| 0 <= k < moves@.len() && move_cell(moves@[k]) == c;
        }
        if let Some(m) = best_move {
            if complete {
                assert forall|c: (int, int)| legal(pos).contains(c) implies move_value(pos, player, depth as nat, c)
                    <= move_value(pos, player, depth as nat, move_cell(m)) by {
                    let k = choose|k: int| 0 <= k < moves@.len() && move_cell(moves@[k]) == c;
                }
                lemma_root_value(pos, player, depth as nat, move_cell(m));
                assert(moves@[best_k] == m);
            }
        }
    }
    (best_move, complete)
}

/// The root of an alpha-beta search over `moves`, looking `depth` moves
/// ahead: the first move of greatest value in the order given, or none when
/// there is nothing to play. The second result says that no deadline cut
/// the search short; when it holds, the move's value is the minimax value
/// of the position, as without pruning.
pub fn ab_root(board: &Board, moves: &Vec<Move>, depth: u8, end: &Option<Instant>) -> (r: (Option<Move>, bool))
    requires
        board.wf(),
        depth >= 1,
        lists_legal(board@, moves@),
    ensures
        r.0 is Some <==> board@.player is Some && legal(board@) != Set::<(int, int)>::empty(),
        r.0 matches Some(m) ==> legal(board@).contains(move_cell(m)),
        r.1 ==> (r.0 matches Some(m) ==> move_value(board@, board@.player->0, depth as nat, move_cell(m)) == minimax(
            board@,
            board@.player->0,
            depth as nat,
        )),
        r.1 ==> (r.0 matches Some(m) ==> exists|k: int|
            0 <= k < moves@.len() && moves@[k] == m && forall|j: int|
                0 <= j < k ==> move_value(board@, board@.player->0, depth as nat, move_cell(#[trigger] moves@[j]))
                    < move_value(board@, board@.player->0, depth as nat, move_cell(m))),
        end is None ==> r.1,
{
    let ghost pos = board@;
    let player = match board.player() {
        Some(p) => p,
        None => return (None, true),
    };
    proof {
        board.lemma_invariant();
    }
    if moves.len() == 0 {
        proof {
            if legal(pos) != Set::<(int, int)>::empty() {
                lemma_some_member(legal(pos));
                let c = choose|c: (int, int)| legal(pos).contains(c);
                let k = choose|k: int| 0 <= k < moves@.len() && move_cell(moves@[k]) == c;
            }
        }
        return (None, true);
    }
    let ghost d = (depth - 1) as nat;
    let mut alpha: i16 = <i16 as BoundedOrd>::MIN;
    let beta: i16 = <i16 as BoundedOrd>::MAX;
    let mut optimal_move = moves[0];
    let mut optimal_eval: i16 = <i16 as BoundedOrd>::MIN;
    let mut complete = true;
    let mut cut = false;
    let mut i: usize = 0;
    let ghost mut best_k: int = 0;
    assert(legal(pos).contains(move_cell(moves@[0])));
    while i < moves.len() && !cut
        invariant
            board.wf(),
            pos == board@,
            valid(pos),
            pos.player == Some(player),
            depth >= 1,
            d == depth - 1,
            lists_legal(pos, moves@),
            1 <= moves@.len(),
            i <= moves@.len(),
            beta == i16::MAX,
            alpha == optimal_eval,
            !cut ==> alpha < beta,
            cut ==> optimal_eval == i16::MAX && i > 0,
            i == 0 ==> optimal_eval == i16::MIN,
            legal(pos).contains(move_cell(optimal_move)),
            i == 0 ==> optimal_move == moves@[0],
            complete ==> forall|j: int| 0 <= j < i ==> move_value(pos, player, depth as nat, move_cell(#[trigger] moves@[j]))
                <= optimal_eval,
            complete && i > 0 ==> move_value(pos, player, depth as nat, move_cell(optimal_move)) == optimal_eval,
            0 <= best_k < moves@.len(),
            moves@[best_k] == optimal_move,
            best_k <= i,
            i > 0 ==> best_k < i,
            complete ==> forall|j: int| 0 <= j < best_k ==> move_value(pos, player, depth as nat, move_cell(#[trigger] moves@[j]))
                < optimal_eval,
            end is None ==> complete,
        decreases moves@.len() - i,
    {
        let m = moves[i];
        assert(legal(pos).contains(move_cell(moves@[i as int])));
        match board.play(&m) {
            Some(child) => {
                proof {
                    lemma_after_move_valid(pos, move_cell(m));
                    lemma_minimax_range(child@, player, d);
                }
                let ghost old_opt = optimal_eval;
                let (eval, c) = ab_helper(&child, player, depth - 1, alpha, beta, end);
                proof {
                    assert(move_value(pos, player, depth as nat, move_cell(m)) == minimax(child@, player, d));
                }
                complete = complete && c;
                if eval != optimal_eval {
                    if eval > optimal_eval {
                        optimal_eval = eval;
                    }
                    if optimal_eval > alpha {
                        alpha = optimal_eval;
                    }
                    if eval == optimal_eval {
                        optimal_move = m;
                        proof {
                            best_k = i as int;
                        }
                    }
                    if alpha >= beta {
                        cut = true;
                    }
                }
                proof {
                    // a value above the best so far is exact: the window is (best, MAX)
                    if complete && eval as int > old_opt as int {
                        assert(minimax(child@, player, d) == eval as int);
                    }
                }
            },
            None => {},
        }
        i += 1;
    }
    proof {
        if complete {
            assert forall|c: (int, int)| legal(pos).contains(c) implies move_value(pos, player, depth as nat, c)
                <= move_value(pos, player, depth as nat, move_cell(optimal_move)) by {
                let k = choose|k: int| 0 <= k < moves@.len() && move_cell(moves@[k]) == c;
                if cut {
                    lemma_after_move_valid(pos, c);
                    lemma_minimax_range(after_move(pos, c), player, d);
                }
            }
            lemma_root_value(pos, player, depth as nat, move_cell(optimal_move));
            assert(moves@[best_k] == optimal_move);
        }
    }
    (Some(optimal_move), complete)
}

/// A move for the player to move chosen by plain minimax search, `DEPTH`
/// moves deep or until `timeout` has passed, among equal moves at random;
/// none when nobody can move.
pub fn minmax(board: &Board, timeout: Duration) -> (r: Option<Move>)
    requires
        board.wf(),
    ensures
        r is Some <==> board@.player is Some && legal(board@) != Set::<(int, int)>::empty(),
        r matches Some(m) ==> legal(board@).contains(move_cell(m)),
{
    let end = later(&now(), timeout);
    let moves = shuffled_moves(board);
    minmax_root(board, &moves, DEPTH, &end).0
}

/// A move for the player to move chosen by alpha-beta search, `DEPTH` moves
/// deep or until `timeout` has passed, among equal moves at random; none
/// when nobody can move.
pub fn ab_minmax(board: &Board, timeout: Duration) -> (r: Option<Move>)
    requires
        board.wf(),
    ensures
        r is Some <==> board@.player is Some && legal(board@) != Set::<(int, int)>::empty(),
        r matches Some(m) ==> legal(board@).contains(move_cell(m)),
{
    let end = later(&now(), timeout);
    let moves = shuffled_moves(board);
    ab_root(board, &moves, DEPTH, &end).0
}

/// What alpha-beta pruning promises of a value `v` searched in the window
/// `(alpha, beta)`, against the true value `m`.
pub open spec fn fail_soft(v: int, alpha: int, beta: int, m: int) -> bool {
    &&& alpha < v < beta ==> v == m
    &&& v <= alpha ==> m <= v
    &&& v >= beta ==> m >= v
}

} // verus!
