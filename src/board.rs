//! The game state: two disjoint sets of discs, the player to move and the
//! cached set of cells that player may play on.

use vstd::prelude::*;
use crate::bitmap::{Bitmap, grid, in_grid, shifted, dir_dx, dir_dy};
use crate::bitmap::row_major;
use crate::rules::{along, flanks, captures_along, is_direction, legal_moves, flips};
pub use crate::rules::Player;
use crate::rules::{Position, opponent, discs, valid, legal, next_player, after_move, start, first_able};

verus! {

/// Cells from which the next `j - 1` cells (counting the cell itself as the
/// first) hold opponent discs and the `j`-th cell after it a disc of the mover.
spec fn chain(mover: Set<(int, int)>, opp: Set<(int, int)>, ex: int, ey: int, j: int) -> Set<(int, int)> {
    Set::new(
        |c: (int, int)|
            (forall|i: int| 0 <= i < j ==> #[trigger] opp.contains(along(c, ex, ey, i)))
                && mover.contains(along(c, ex, ey, j)),
    )
}

/// The empty cells from which a run shorter than `j` is closed in direction `(ex, ey)`.
spec fn found(mover: Set<(int, int)>, opp: Set<(int, int)>, size: int, ex: int, ey: int, j: int) -> Set<(int, int)> {
    Set::new(
        |e: (int, int)|
            in_grid(size, e.0, e.1) && !mover.contains(e) && !opp.contains(e) && exists|k: int|
                1 <= k < j && #[trigger] flanks(mover, opp, e, ex, ey, k),
    )
}

/// The empty cells that capture along one of the first `d` directions, looking back.
spec fn found_dirs(mover: Set<(int, int)>, opp: Set<(int, int)>, size: int, d: int) -> Set<(int, int)> {
    Set::new(
        |e: (int, int)|
            in_grid(size, e.0, e.1) && !mover.contains(e) && !opp.contains(e) && exists|i: int|
                0 <= i < d && #[trigger] captures_along(mover, opp, e, -dir_dx(i), -dir_dy(i)),
    )
}

proof fn lemma_along_step(c: (int, int), ex: int, ey: int, i: int)
    requires
        -1 <= ex <= 1,
        -1 <= ey <= 1,
    ensures
        along(along(c, ex, ey, 1), ex, ey, i) == along(c, ex, ey, i + 1),
        along(c, ex, ey, 0) == c,
{
}

proof fn lemma_chain_start(mover: Set<(int, int)>, opp: Set<(int, int)>, size: int, d: int)
    requires
        0 <= d < 8,
        opp.subset_of(grid(size)),
    ensures
        shifted(mover, dir_dx(d), dir_dy(d), size).intersect(opp) == chain(mover, opp, -dir_dx(d), -dir_dy(d), 1),
{
    let ex = -dir_dx(d);
    let ey = -dir_dy(d);
    assert forall|c: (int, int)|
        shifted(mover, dir_dx(d), dir_dy(d), size).intersect(opp).contains(c) == chain(mover, opp, ex, ey, 1).contains(c) by {
        lemma_along_step(c, ex, ey, 0);
        if chain(mover, opp, ex, ey, 1).contains(c) {
            assert(opp.contains(along(c, ex, ey, 0)));
        }
    }
    assert(shifted(mover, dir_dx(d), dir_dy(d), size).intersect(opp) =~= chain(mover, opp, ex, ey, 1));
}

proof fn lemma_chain_step(mover: Set<(int, int)>, opp: Set<(int, int)>, size: int, d: int, j: int)
    requires
        0 <= d < 8,
        1 <= j,
        opp.subset_of(grid(size)),
    ensures
        shifted(chain(mover, opp, -dir_dx(d), -dir_dy(d), j), dir_dx(d), dir_dy(d), size).intersect(opp)
            == chain(mover, opp, -dir_dx(d), -dir_dy(d), j + 1),
{
    let ex = -dir_dx(d);
    let ey = -dir_dy(d);
    let cj = chain(mover, opp, ex, ey, j);
    let lhs = shifted(cj, dir_dx(d), dir_dy(d), size).intersect(opp);
    let rhs = chain(mover, opp, ex, ey, j + 1);
    assert forall|c: (int, int)| lhs.contains(c) == rhs.contains(c) by {
        let c1 = along(c, ex, ey, 1);
        assert(c1 == (c.0 - dir_dx(d), c.1 - dir_dy(d)));
        lemma_along_step(c, ex, ey, j);
        if lhs.contains(c) {
            assert forall|i: int| 0 <= i < j + 1 implies #[trigger] opp.contains(along(c, ex, ey, i)) by {
                if i == 0 {
                    lemma_along_step(c, ex, ey, 0);
                } else {
                    lemma_along_step(c, ex, ey, i - 1);
                    assert(opp.contains(along(c1, ex, ey, i - 1)));
                }
            }
        }
        if rhs.contains(c) {
            lemma_along_step(c, ex, ey, 0);
            assert(opp.contains(along(c, ex, ey, 0)));
            assert forall|i: int| 0 <= i < j implies #[trigger] opp.contains(along(c1, ex, ey, i)) by {
                lemma_along_step(c, ex, ey, i);
                assert(opp.contains(along(c, ex, ey, i + 1)));
            }
        }
    }
    assert(lhs =~= rhs);
}

proof fn lemma_found_step(mover: Set<(int, int)>, opp: Set<(int, int)>, size: int, d: int, j: int)
    requires
        0 <= d < 8,
        1 <= j,
    ensures
        shifted(chain(mover, opp, -dir_dx(d), -dir_dy(d), j), dir_dx(d), dir_dy(d), size).intersect(
            grid(size).difference(mover.union(opp)),
        ).union(found(mover, opp, size, -dir_dx(d), -dir_dy(d), j))
            == found(mover, opp, size, -dir_dx(d), -dir_dy(d), j + 1),
{
    let ex = -dir_dx(d);
    let ey = -dir_dy(d);
    let cj = chain(mover, opp, ex, ey, j);
    let fresh = shifted(cj, dir_dx(d), dir_dy(d), size).intersect(grid(size).difference(mover.union(opp)));
    let lhs = fresh.union(found(mover, opp, size, ex, ey, j));
    let rhs = found(mover, opp, size, ex, ey, j + 1);
    assert forall|e: (int, int)| fresh.contains(e) == (in_grid(size, e.0, e.1) && !mover.contains(e) && !opp.contains(e) && flanks(mover, opp, e, ex, ey, j)) by {
        let e1 = along(e, ex, ey, 1);
        assert(e1 == (e.0 - dir_dx(d), e.1 - dir_dy(d)));
        lemma_along_step(e, ex, ey, j);
        if fresh.contains(e) {
            assert forall|i: int| 1 <= i <= j implies #[trigger] opp.contains(along(e, ex, ey, i)) by {
                lemma_along_step(e, ex, ey, i - 1);
                assert(opp.contains(along(e1, ex, ey, i - 1)));
            }
        }
        if flanks(mover, opp, e, ex, ey, j) {
            assert forall|i: int| 0 <= i < j implies #[trigger] opp.contains(along(e1, ex, ey, i)) by {
                lemma_along_step(e, ex, ey, i);
                assert(opp.contains(along(e, ex, ey, i + 1)));
            }
        }
    }
    assert forall|e: (int, int)| lhs.contains(e) == rhs.contains(e) by {
        if rhs.contains(e) {
            let k = choose|k: int| 1 <= k < j + 1 && #[trigger] flanks(mover, opp, e, ex, ey, k);
            if k < j {
                assert(found(mover, opp, size, ex, ey, j).contains(e));
            }
        }
    }
    assert(lhs =~= rhs);
}

/// A run of opponent discs fits on the grid, so it is shorter than the side.
proof fn lemma_chain_bound(mover: Set<(int, int)>, opp: Set<(int, int)>, size: int, d: int, j: int)
    requires
        0 <= d < 8,
        1 <= j,
        opp.subset_of(grid(size)),
        mover.subset_of(grid(size)),
        chain(mover, opp, -dir_dx(d), -dir_dy(d), j) != Set::<(int, int)>::empty(),
    ensures
        j < size,
{
    let ex = -dir_dx(d);
    let ey = -dir_dy(d);
    let cj = chain(mover, opp, ex, ey, j);
    assert(exists|c: (int, int)| cj.contains(c)) by {
        if !(exists|c: (int, int)| cj.contains(c)) {
            assert(cj =~= Set::<(int, int)>::empty());
        }
    }
    let c = choose|c: (int, int)| cj.contains(c);
    lemma_along_step(c, ex, ey, 0);
    assert(opp.contains(along(c, ex, ey, 0)));
    assert(grid(size).contains(c));
    assert(grid(size).contains(along(c, ex, ey, j)));
}

/// Once no run is left, every run in that direction has been found.
proof fn lemma_found_done(mover: Set<(int, int)>, opp: Set<(int, int)>, size: int, d: int, j: int)
    requires
        0 <= d < 8,
        1 <= j,
        chain(mover, opp, -dir_dx(d), -dir_dy(d), j) == Set::<(int, int)>::empty(),
    ensures
        forall|e: (int, int)|
            #![trigger found(mover, opp, size, -dir_dx(d), -dir_dy(d), j).contains(e)]
            found(mover, opp, size, -dir_dx(d), -dir_dy(d), j).contains(e) == (in_grid(size, e.0, e.1)
                && !mover.contains(e) && !opp.contains(e) && captures_along(mover, opp, e, -dir_dx(d), -dir_dy(d))),
{
    let ex = -dir_dx(d);
    let ey = -dir_dy(d);
    assert forall|e: (int, int)|
        #![trigger found(mover, opp, size, ex, ey, j).contains(e)]
        captures_along(mover, opp, e, ex, ey) implies exists|k: int|
            1 <= k < j && #[trigger] flanks(mover, opp, e, ex, ey, k) by {
        let k = choose|k: int| flanks(mover, opp, e, ex, ey, k);
        if k >= j {
            // the run from step k - j + 1 on is a chain of length j
            let c = along(e, ex, ey, k - j + 1);
            assert forall|i: int| 0 <= i < j implies #[trigger] opp.contains(along(c, ex, ey, i)) by {
                assert(along(c, ex, ey, i) == along(e, ex, ey, k - j + 1 + i));
            }
            assert(along(c, ex, ey, j) == along(e, ex, ey, k + 1));
            assert(chain(mover, opp, ex, ey, j).contains(c));
        }
    }
}

proof fn lemma_found_dirs_done(mover: Set<(int, int)>, opp: Set<(int, int)>, size: int)
    ensures
        found_dirs(mover, opp, size, 8) == legal_moves(mover, opp, size),
{
    let lhs = found_dirs(mover, opp, size, 8);
    let rhs = legal_moves(mover, opp, size);
    assert forall|e: (int, int)| lhs.contains(e) == rhs.contains(e) by {
        if lhs.contains(e) {
            let i = choose|i: int| 0 <= i < 8 && #[trigger] captures_along(mover, opp, e, -dir_dx(i), -dir_dy(i));
            assert(is_direction(-dir_dx(i), -dir_dy(i)));
        }
        if rhs.contains(e) {
            let (dx, dy) = choose|dx: int, dy: int| is_direction(dx, dy) && captures_along(mover, opp, e, dx, dy);
            let i: int = if dx == 0 && dy == 1 {
                0
            } else if dx == 0 && dy == -1 {
                1
            } else if dx == -1 && dy == 0 {
                2
            } else if dx == 1 && dy == 0 {
                3
            } else if dx == -1 && dy == 1 {
                4
            } else if dx == -1 && dy == -1 {
                5
            } else if dx == 1 && dy == -1 {
                6
            } else {
                7
            };
            assert(-dir_dx(i) == dx && -dir_dy(i) == dy);
            assert(captures_along(mover, opp, e, -dir_dx(i), -dir_dy(i)));
        }
    }
    assert(lhs =~= rhs);
}

/// The cells on which `player` may play against `opponent`. For each of the
/// eight directions the runs of opponent discs that start next to a disc of
/// the player are grown one step at a time; an empty cell just past a run is
/// a legal move.
pub fn compute_moves(player: &Bitmap, opponent: &Bitmap) -> (r: Bitmap)
    requires
        player.wf(),
        opponent.wf(),
        player.side() == opponent.side(),
        player.side() % 2 == 0,
    ensures
        r.wf(),
        r.side() == player.side(),
        r@ == legal_moves(player@, opponent@, player.side()),
{
    let ghost mover = player@;
    let ghost opp = opponent@;
    let ghost n = player.side();
    proof {
        player.lemma_wf_in_grid();
        opponent.lemma_wf_in_grid();
    }
    let empty = player.union(opponent).not();
    let mut moves = Bitmap::new(player.size());
    assert(moves@ =~= found_dirs(mover, opp, n, 0));
    let mut d: u8 = 0;
    while d < 8
        invariant
            d <= 8,
            player.wf(),
            opponent.wf(),
            mover == player@,
            opp == opponent@,
            n == player.side(),
            n == opponent.side(),
            mover.subset_of(grid(n)),
            opp.subset_of(grid(n)),
            empty.wf(),
            empty.side() == n,
            empty@ == grid(n).difference(mover.union(opp)),
            moves.wf(),
            moves.side() == n,
            moves@ == found_dirs(mover, opp, n, d as int),
        decreases 8 - d,
    {
        let ghost ex = -dir_dx(d as int);
        let ghost ey = -dir_dy(d as int);
        let ghost before = moves@;
        let mut candidates = player.shift(d).intersection(opponent);
        let ghost mut j: int = 1;
        proof {
            lemma_chain_start(mover, opp, n, d as int);
            assert(found(mover, opp, n, ex, ey, 1) =~= Set::<(int, int)>::empty());
            assert(moves@ =~= before.union(found(mover, opp, n, ex, ey, 1)));
        }
        while !candidates.is_empty()
            invariant
                d < 8,
                1 <= j <= n + 1,
                ex == -dir_dx(d as int),
                ey == -dir_dy(d as int),
                player.wf(),
                opponent.wf(),
                mover == player@,
                opp == opponent@,
                n == player.side(),
                n == opponent.side(),
                mover.subset_of(grid(n)),
                opp.subset_of(grid(n)),
                empty.wf(),
                empty.side() == n,
                empty@ == grid(n).difference(mover.union(opp)),
                candidates.wf(),
                candidates.side() == n,
                candidates@ == chain(mover, opp, ex, ey, j),
                moves.wf(),
                moves.side() == n,
                moves@ == before.union(found(mover, opp, n, ex, ey, j)),
            decreases n + 1 - j,
        {
            proof {
                lemma_chain_bound(mover, opp, n, d as int, j);
                lemma_chain_step(mover, opp, n, d as int, j);
                lemma_found_step(mover, opp, n, d as int, j);
            }
            let next = candidates.shift(d);
            moves = next.intersection(&empty).union(&moves);
            candidates = next.intersection(opponent);
            proof {
                assert(moves@ =~= before.union(found(mover, opp, n, ex, ey, j + 1)));
                j = j + 1;
            }
        }
        proof {
            lemma_found_done(mover, opp, n, d as int, j);
            assert forall|e: (int, int)| moves@.contains(e) == found_dirs(mover, opp, n, d as int + 1).contains(e) by {
                if found_dirs(mover, opp, n, d as int + 1).contains(e) {
                    let i = choose|i: int| 0 <= i < d as int + 1 && #[trigger] captures_along(mover, opp, e, -dir_dx(i), -dir_dy(i));
                    if i < d {
                        assert(found_dirs(mover, opp, n, d as int).contains(e));
                    } else {
                        assert(found(mover, opp, n, ex, ey, j).contains(e));
                    }
                }
                if found(mover, opp, n, ex, ey, j).contains(e) {
                    assert(captures_along(mover, opp, e, -dir_dx(d as int), -dir_dy(d as int)));
                }
            }
            assert(moves@ =~= found_dirs(mover, opp, n, d as int + 1));
        }
        d += 1;
    }
    proof {
        lemma_found_dirs_done(mover, opp, n);
    }
    moves
}

/// The cells 1 to `t` steps from `c` in direction `(dx, dy)` that lie on the grid.
spec fn segment(c: (int, int), dx: int, dy: int, t: int, size: int) -> Set<(int, int)> {
    Set::new(
        |f: (int, int)|
            in_grid(size, f.0, f.1) && exists|i: int| 1 <= i <= t && f == #[trigger] along(c, dx, dy, i),
    )
}

/// The discs that a disc on `c` turns over in direction `(dx, dy)`.
spec fn run_flips(mover: Set<(int, int)>, opp: Set<(int, int)>, c: (int, int), dx: int, dy: int) -> Set<(int, int)> {
    Set::new(
        |f: (int, int)|
            exists|k: int, i: int|
                #![trigger flanks(mover, opp, c, dx, dy, k), along(c, dx, dy, i)]
                flanks(mover, opp, c, dx, dy, k) && 1 <= i <= k && f == along(c, dx, dy, i),
    )
}

/// The discs turned over along the first `d` directions.
spec fn flips_upto(mover: Set<(int, int)>, opp: Set<(int, int)>, c: (int, int), d: int) -> Set<(int, int)> {
    Set::new(
        |f: (int, int)|
            exists|i: int| 0 <= i < d && #[trigger] run_flips(mover, opp, c, dir_dx(i), dir_dy(i)).contains(f),
    )
}

/// Steps along a direction reach distinct cells.
proof fn lemma_along_injective(c: (int, int), dx: int, dy: int, i: int, j: int)
    requires
        is_direction(dx, dy),
        along(c, dx, dy, i) == along(c, dx, dy, j),
    ensures
        i == j,
{
}

/// Once a ray has left the grid it stays off it.
proof fn lemma_along_leaves(c: (int, int), dx: int, dy: int, t: int, size: int)
    requires
        -1 <= dx <= 1,
        -1 <= dy <= 1,
        0 <= t,
        in_grid(size, c.0, c.1),
        !in_grid(size, along(c, dx, dy, t).0, along(c, dx, dy, t).1),
    ensures
        !in_grid(size, along(c, dx, dy, t + 1).0, along(c, dx, dy, t + 1).1),
{
}

proof fn lemma_segment_step(c: (int, int), d: int, t: int, size: int)
    requires
        0 <= d < 8,
        1 <= t,
        in_grid(size, c.0, c.1),
    ensures
        segment(c, dir_dx(d), dir_dy(d), t, size).union(
            shifted(segment(c, dir_dx(d), dir_dy(d), t, size), dir_dx(d), dir_dy(d), size).intersect(grid(size)),
        ) == segment(c, dir_dx(d), dir_dy(d), t + 1, size),
        shifted(Set::<(int, int)>::empty().insert(c), dir_dx(d), dir_dy(d), size).intersect(grid(size))
            == segment(c, dir_dx(d), dir_dy(d), 1, size),
{
    let dx = dir_dx(d);
    let dy = dir_dy(d);
    let seg = segment(c, dx, dy, t, size);
    let lhs = seg.union(shifted(seg, dx, dy, size).intersect(grid(size)));
    let rhs = segment(c, dx, dy, t + 1, size);
    assert forall|f: (int, int)| lhs.contains(f) == rhs.contains(f) by {
        if seg.contains(f) {
            let i = choose|i: int| 1 <= i <= t && f == #[trigger] along(c, dx, dy, i);
            assert(rhs.contains(f));
        }
        if shifted(seg, dx, dy, size).intersect(grid(size)).contains(f) {
            let g = (f.0 - dx, f.1 - dy);
            let i = choose|i: int| 1 <= i <= t && g == #[trigger] along(c, dx, dy, i);
            assert(f == along(c, dx, dy, i + 1));
        }
        if rhs.contains(f) {
            let i = choose|i: int| 1 <= i <= t + 1 && f == #[trigger] along(c, dx, dy, i);
            if i == t + 1 && t >= 1 {
                let g = along(c, dx, dy, t);
                assert(g == (f.0 - dx, f.1 - dy));
                if !in_grid(size, g.0, g.1) {
                    lemma_along_leaves(c, dx, dy, t, size);
                }
                assert(seg.contains(g));
            } else if i <= t {
                assert(seg.contains(f));
            }
        }
    }
    assert(lhs =~= rhs);
    let one = shifted(Set::<(int, int)>::empty().insert(c), dx, dy, size).intersect(grid(size));
    assert forall|f: (int, int)| one.contains(f) == segment(c, dx, dy, 1, size).contains(f) by {
        if one.contains(f) {
            assert(f == along(c, dx, dy, 1));
        }
    }
    assert(one =~= segment(c, dx, dy, 1, size));
}

/// What the scan in one direction leaves: cells 1 to `t - 1` hold opponent
/// discs and cell `t` does not; the discs turned over are those cells if
/// cell `t` holds a disc of the mover, else none.
proof fn lemma_run_end(mover: Set<(int, int)>, opp: Set<(int, int)>, c: (int, int), d: int, t: int, size: int)
    requires
        0 <= d < 8,
        1 <= t,
        mover.disjoint(opp),
        opp.subset_of(grid(size)),
        forall|i: int| 1 <= i < t ==> #[trigger] opp.contains(along(c, dir_dx(d), dir_dy(d), i)),
        !opp.contains(along(c, dir_dx(d), dir_dy(d), t)),
    ensures
        run_flips(mover, opp, c, dir_dx(d), dir_dy(d)) == (if mover.contains(along(c, dir_dx(d), dir_dy(d), t)) {
            segment(c, dir_dx(d), dir_dy(d), t - 1, size)
        } else {
            Set::<(int, int)>::empty()
        }),
        segment(c, dir_dx(d), dir_dy(d), t - 1, size) == Set::new(
            |f: (int, int)| exists|i: int| 1 <= i <= t - 1 && f == #[trigger] along(c, dir_dx(d), dir_dy(d), i),
        ),
{
    let dx = dir_dx(d);
    let dy = dir_dy(d);
    // a run closed in this direction has length t - 1
    assert forall|k: int| #[trigger] flanks(mover, opp, c, dx, dy, k) implies k == t - 1 by {
        if k < t - 1 {
            assert(opp.contains(along(c, dx, dy, k + 1)));
        } else if k > t - 1 {
            assert(opp.contains(along(c, dx, dy, t)));
        }
    }
    let rf = run_flips(mover, opp, c, dx, dy);
    if mover.contains(along(c, dx, dy, t)) {
        let seg = segment(c, dx, dy, t - 1, size);
        assert forall|f: (int, int)| rf.contains(f) == seg.contains(f) by {
            if seg.contains(f) {
                let i = choose|i: int| 1 <= i <= t - 1 && f == #[trigger] along(c, dx, dy, i);
                assert(flanks(mover, opp, c, dx, dy, t - 1));
            }
            if rf.contains(f) {
                let (k, i) = choose|k: int, i: int|
                    #![trigger flanks(mover, opp, c, dx, dy, k), along(c, dx, dy, i)]
                    flanks(mover, opp, c, dx, dy, k) && 1 <= i <= k && f == along(c, dx, dy, i);
                assert(opp.contains(along(c, dx, dy, i)));
                assert(k == t - 1);
                assert(seg.contains(f));
            }
        }
        assert(rf =~= seg);
    } else {
        assert forall|f: (int, int)| !rf.contains(f) by {
            if rf.contains(f) {
                let (k, i) = choose|k: int, i: int|
                    #![trigger flanks(mover, opp, c, dx, dy, k), along(c, dx, dy, i)]
                    flanks(mover, opp, c, dx, dy, k) && 1 <= i <= k && f == along(c, dx, dy, i);
            }
        }
        assert(rf =~= Set::<(int, int)>::empty());
    }
    {
        let s2 = Set::new(|f: (int, int)| exists|i: int| 1 <= i <= t - 1 && f == #[trigger] along(c, dx, dy, i));
        assert forall|f: (int, int)| segment(c, dx, dy, t - 1, size).contains(f) == s2.contains(f) by {
            if s2.contains(f) {
                let i = choose|i: int| 1 <= i <= t - 1 && f == #[trigger] along(c, dx, dy, i);
                assert(opp.contains(along(c, dx, dy, i)));
            }
        }
        assert(segment(c, dx, dy, t - 1, size) =~= s2);
    }
}

proof fn lemma_segment_last(c: (int, int), dx: int, dy: int, t: int, size: int)
    requires
        is_direction(dx, dy),
        1 <= t,
    ensures
        forall|f: (int, int)|
            #[trigger] segment(c, dx, dy, t, size).contains(f) == (segment(c, dx, dy, t - 1, size).contains(f) || (f
                == along(c, dx, dy, t) && in_grid(size, f.0, f.1))),
        !segment(c, dx, dy, t - 1, size).contains(along(c, dx, dy, t)),
{
    assert forall|f: (int, int)|
        #[trigger] segment(c, dx, dy, t, size).contains(f) == (segment(c, dx, dy, t - 1, size).contains(f) || (f
            == along(c, dx, dy, t) && in_grid(size, f.0, f.1))) by {
        if segment(c, dx, dy, t, size).contains(f) {
            let i = choose|i: int| 1 <= i <= t && f == #[trigger] along(c, dx, dy, i);
            if i < t {
                assert(segment(c, dx, dy, t - 1, size).contains(f));
            }
        }
        if segment(c, dx, dy, t - 1, size).contains(f) {
            let i = choose|i: int| 1 <= i <= t - 1 && f == #[trigger] along(c, dx, dy, i);
        }
    }
    if segment(c, dx, dy, t - 1, size).contains(along(c, dx, dy, t)) {
        let i = choose|i: int| 1 <= i <= t - 1 && along(c, dx, dy, t) == #[trigger] along(c, dx, dy, i);
        lemma_along_injective(c, dx, dy, i, t);
    }
}

proof fn lemma_flips_upto_done(mover: Set<(int, int)>, opp: Set<(int, int)>, c: (int, int))
    ensures
        flips_upto(mover, opp, c, 8) == flips(mover, opp, c),
{
    let lhs = flips_upto(mover, opp, c, 8);
    let rhs = flips(mover, opp, c);
    assert forall|f: (int, int)| lhs.contains(f) == rhs.contains(f) by {
        if lhs.contains(f) {
            let d = choose|i: int| 0 <= i < 8 && #[trigger] run_flips(mover, opp, c, dir_dx(i), dir_dy(i)).contains(f);
            let (k, i) = choose|k: int, i: int|
                #![trigger flanks(mover, opp, c, dir_dx(d), dir_dy(d), k), along(c, dir_dx(d), dir_dy(d), i)]
                flanks(mover, opp, c, dir_dx(d), dir_dy(d), k) && 1 <= i <= k && f == along(c, dir_dx(d), dir_dy(d), i);
            assert(is_direction(dir_dx(d), dir_dy(d)));
        }
        if rhs.contains(f) {
            let (dx, dy, k, i) = choose|dx: int, dy: int, k: int, i: int|
                is_direction(dx, dy) && flanks(mover, opp, c, dx, dy, k) && 1 <= i <= k && f == along(c, dx, dy, i);
            let d: int = if dx == 0 && dy == -1 {
                0
            } else if dx == 0 && dy == 1 {
                1
            } else if dx == 1 && dy == 0 {
                2
            } else if dx == -1 && dy == 0 {
                3
            } else if dx == 1 && dy == -1 {
                4
            } else if dx == 1 && dy == 1 {
                5
            } else if dx == -1 && dy == 1 {
                6
            } else {
                7
            };
            assert(dir_dx(d) == dx && dir_dy(d) == dy);
            assert(run_flips(mover, opp, c, dx, dy).contains(f));
        }
    }
    assert(lhs =~= rhs);
}

impl Player {
    /// The other player.
    pub fn other(&self) -> (r: Self)
        ensures
            r == opponent(*self),
    {
        match self {
            Player::Black => Player::White,
            Player::White => Player::Black,
        }
    }

    /// The player whose discs `c` stands for: `X` for Black, `O` for White.
    pub fn from_char(c: char) -> (r: Result<Player, PlayerParseError>)
        ensures
            r == (if c == 'X' {
                Ok(Player::Black)
            } else if c == 'O' {
                Ok(Player::White)
            } else {
                Err(PlayerParseError { c })
            }),
    {
        match c {
            'X' => Ok(Player::Black),
            'O' => Ok(Player::White),
            _ => Err(PlayerParseError { c }),
        }
    }

    /// The character that stands for the player's discs: `X` for Black, `O` for White.
    pub fn to_char(&self) -> (r: char)
        ensures
            r == player_char(*self),
    {
        match self {
            Player::Black => 'X',
            Player::White => 'O',
        }
    }

    /// The player's name in lower case.
    pub fn name(&self) -> (r: &'static str)
        ensures
            r@ == (match *self {
                Player::Black => "black"@,
                Player::White => "white"@,
            }),
    {
        match self {
            Player::Black => {
                proof {
                    reveal_strlit("black");
                }
                "black"
            },
            Player::White => {
                proof {
                    reveal_strlit("white");
                }
                "white"
            },
        }
    }
}

pub open spec fn player_char(p: Player) -> char {
    match p {
        Player::Black => 'X',
        Player::White => 'O',
    }
}

/// What a cell holds.
#[derive(Debug, Clone, Copy, PartialEq, Eq, Structural)]
pub enum Square {
    Disc(Player),
    Empty,
}

pub open spec fn occupant(s: Square) -> Option<Player> {
    match s {
        Square::Disc(p) => Some(p),
        Square::Empty => None,
    }
}

pub open spec fn square_of(p: Option<Player>) -> Square {
    match p {
        Some(p) => Square::Disc(p),
        None => Square::Empty,
    }
}

impl From<Square> for Option<Player> {
    fn from(val: Square) -> (r: Option<Player>) {
        match val {
            Square::Disc(p) => Some(p),
            Square::Empty => None,
        }
    }
}

impl vstd::std_specs::convert::FromSpecImpl<Square> for Option<Player> {
    open spec fn obeys_from_spec() -> bool {
        true
    }

    open spec fn from_spec(v: Square) -> Option<Player> {
        occupant(v)
    }
}

impl From<Option<Player>> for Square {
    fn from(val: Option<Player>) -> (r: Square) {
        match val {
            Some(p) => Square::Disc(p),
            None => Square::Empty,
        }
    }
}

impl vstd::std_specs::convert::FromSpecImpl<Option<Player>> for Square {
    open spec fn obeys_from_spec() -> bool {
        true
    }

    open spec fn from_spec(v: Option<Player>) -> Square {
        square_of(v)
    }
}

impl From<PlayerParseError> for ParsingError {
    fn from(val: PlayerParseError) -> (r: ParsingError) {
        ParsingError::PlayerParseError(val.c)
    }
}

impl vstd::std_specs::convert::FromSpecImpl<PlayerParseError> for ParsingError {
    open spec fn obeys_from_spec() -> bool {
        true
    }

    open spec fn from_spec(v: PlayerParseError) -> ParsingError {
        ParsingError::PlayerParseError(v.c)
    }
}

pub open spec fn square_char(s: Square) -> char {
    match s {
        Square::Disc(p) => player_char(p),
        Square::Empty => '_',
    }
}

impl Square {
    /// What the character `c` stands for: `X`, `O` or `_`.
    pub fn from_char(c: char) -> (r: Option<Square>)
        ensures
            r == (if c == 'X' {
                Some(Square::Disc(Player::Black))
            } else if c == 'O' {
                Some(Square::Disc(Player::White))
            } else if c == '_' {
                Some(Square::Empty)
            } else {
                None
            }),
    {
        match c {
            'X' => Some(Square::Disc(Player::Black)),
            'O' => Some(Square::Disc(Player::White)),
            '_' => Some(Square::Empty),
            _ => None,
        }
    }

    /// `X`, `O` or `_`.
    pub fn to_char(&self) -> (r: char)
        ensures
            r == square_char(*self),
    {
        match self {
            Square::Disc(p) => p.to_char(),
            Square::Empty => '_',
        }
    }
}

/// A cell to play on: column `x` and row `y`, from 0.
#[derive(Debug, Clone, Copy, PartialEq, Eq, Structural)]
pub struct Move {
    pub x: u8,
    pub y: u8,
}

pub open spec fn move_cell(m: Move) -> (int, int) {
    (m.x as int, m.y as int)
}

pub open spec fn move_cells(v: Seq<Move>) -> Seq<(int, int)> {
    v.map_values(|m: Move| move_cell(m))
}

/// Why a text does not describe a board.
#[derive(Debug, Clone, Copy, PartialEq, Eq, Structural)]
pub enum ParsingError {
    IOError,
    Generic,
    EmptyFile,
    InvalidCharacter(char),
    PlayerParseError(char),
    BadSize,
    InconsistentSize,
}

/// A character that stands for no player.
#[derive(Debug, Clone, Copy, PartialEq, Eq, Structural)]
pub struct PlayerParseError {
    pub c: char,
}

/// A game state. The legal moves of the player to move are kept with it and
/// recomputed on every change.
#[derive(Debug, Clone, Copy, PartialEq, Eq, Structural)]
pub struct Board {
    size: u8,
    black: Bitmap,
    white: Bitmap,
    moves: Bitmap,
    pub player: Option<Player>,
}

impl View for Board {
    type V = Position;

    closed spec fn view(&self) -> Position {
        Position {
            size: self.size as int,
            black: self.black@,
            white: self.white@,
            player: self.player,
        }
    }
}

/// The legal moves of `player` (none for nobody) with the discs `black` and `white`.
fn moves_for(black: &Bitmap, white: &Bitmap, player: Option<Player>) -> (r: Bitmap)
    requires
        black.wf(),
        white.wf(),
        black.side() == white.side(),
        black.side() % 2 == 0,
    ensures
        r.wf(),
        r.side() == black.side(),
        r@ == legal(Position { size: black.side(), black: black@, white: white@, player }),
{
    match player {
        Some(Player::Black) => compute_moves(black, white),
        Some(Player::White) => compute_moves(white, black),
        None => Bitmap::empty(black.size()),
    }
}

impl Board {
    /// The discs are valid and the cached moves are those of the player to move.
    pub closed spec fn wf(&self) -> bool {
        &&& valid(self@)
        &&& self.black.wf()
        &&& self.white.wf()
        &&& self.moves.wf()
        &&& self.black.side() == self.size
        &&& self.white.side() == self.size
        &&& self.moves.side() == self.size
        &&& self.moves@ == legal(self@)
    }

    /// The opening position on a board of side `size`.
    pub fn new(size: u8) -> (r: Self)
        requires
            size % 2 == 0,
            2 <= size <= 10,
        ensures
            r.wf(),
            r@ == start(size as int),
    {
        let h = size / 2;
        let black = Bitmap::new(size).set(h, h - 1).set(h - 1, h);
        let white = Bitmap::new(size).set(h - 1, h - 1).set(h, h);
        let player = if size != 2 {
            Some(Player::Black)
        } else {
            None
        };
        let moves = moves_for(&black, &white, player);
        let r = Self { size, black, white, moves, player };
        proof {
            black.lemma_wf_in_grid();
            white.lemma_wf_in_grid();
            assert(black@ =~= start(size as int).black);
            assert(white@ =~= start(size as int).white);
        }
        r
    }

    /// The board with the discs `black` and `white` where `p` is to move if
    /// they can, else their opponent if they can, else nobody.
    pub(crate) fn from_discs(black: Bitmap, white: Bitmap, p: Player) -> (r: Self)
        requires
            black.wf(),
            white.wf(),
            black.side() == white.side(),
            black.side() % 2 == 0,
            2 <= black.side() <= 10,
            black@.disjoint(white@),
        ensures
            r.wf(),
            r@ == (Position {
                size: black.side(),
                black: black@,
                white: white@,
                player: first_able(p, black@, white@, black.side()),
            }),
    {
        proof {
            black.lemma_wf_in_grid();
            white.lemma_wf_in_grid();
        }
        let (first, second) = match p {
            Player::Black => (&black, &white),
            Player::White => (&white, &black),
        };
        let moves = compute_moves(first, second);
        let (moves, player) = if !moves.is_empty() {
            (moves, Some(p))
        } else {
            let moves = compute_moves(second, first);
            if !moves.is_empty() {
                (moves, Some(p.other()))
            } else {
                (moves, None)
            }
        };
        let r = Self { size: black.size(), black, white, moves, player };
        proof {
            if player is None {
                assert(moves@ =~= legal(r@));
            }
        }
        r
    }

    /// The side of the board.
    pub fn size(&self) -> (r: u8)
        requires
            self.wf(),
        ensures
            r == self@.size,
    {
        self.size
    }

    /// The player to move, or none once the game has ended.
    pub fn player(&self) -> (r: Option<Player>)
        ensures
            r == self@.player,
    {
        self.player
    }

    /// What the cell `(x, y)` holds.
    pub fn get(&self, x: u8, y: u8) -> (r: Square)
        requires
            self.wf(),
            x < self@.size,
            y < self@.size,
        ensures
            r == square_at(self@, x as int, y as int),
    {
        if self.black.get(x, y) {
            Square::Disc(Player::Black)
        } else if self.white.get(x, y) {
            Square::Disc(Player::White)
        } else {
            Square::Empty
        }
    }

    /// The same position with the cell `(x, y)` holding `squ`; the player to
    /// move stays, and their legal moves are recomputed.
    pub fn set(&self, x: u8, y: u8, squ: Square) -> (r: Self)
        requires
            self.wf(),
            x < self@.size,
            y < self@.size,
        ensures
            r.wf(),
            r@ == with_square(self@, x as int, y as int, squ),
    {
        let (black, white) = match squ {
            Square::Disc(Player::Black) => (self.black.set(x, y), self.white.unset(x, y)),
            Square::Disc(Player::White) => (self.black.unset(x, y), self.white.set(x, y)),
            Square::Empty => (self.black.unset(x, y), self.white.unset(x, y)),
        };
        let moves = moves_for(&black, &white, self.player);
        let r = Self { size: self.size, black, white, moves, player: self.player };
        proof {
            black.lemma_wf_in_grid();
            white.lemma_wf_in_grid();
            let target = with_square(self@, x as int, y as int, squ);
            assert(r@.black =~= target.black);
            assert(r@.white =~= target.white);
        }
        r
    }

    /// The number of discs of Black and of White.
    pub fn score(&self) -> (r: (u8, u8))
        requires
            self.wf(),
        ensures
            r.0 == self@.black.len(),
            r.1 == self@.white.len(),
    {
        let b = self.black.popcount();
        let w = self.white.popcount();
        proof {
            assert(self.size * self.size <= 100) by (nonlinear_arith)
                requires self.size <= 10;
        }
        (b as u8, w as u8)
    }

    /// The legal moves of the player to move, in reading order.
    pub fn moves(&self) -> (r: Vec<Move>)
        requires
            self.wf(),
        ensures
            move_cells(r@) == row_major(legal(self@), self@.size),
    {
        let cells = self.moves.cells();
        let mut out: Vec<Move> = Vec::new();
        let mut i: usize = 0;
        while i < cells.len()
            invariant
                i <= cells.len(),
                out@.len() == i,
                forall|k: int| 0 <= k < i ==> move_cell(#[trigger] out@[k]) == crate::bitmap::as_cells(cells@)[k],
            decreases cells.len() - i,
        {
            let (x, y) = cells[i];
            out.push(Move { x, y });
            i += 1;
        }
        assert(move_cells(out@) =~= crate::bitmap::as_cells(cells@));
        out
    }

    /// The position after the player to move puts a disc on `m`, or none when
    /// `m` is not one of their legal moves.
    pub fn play(&self, m: &Move) -> (r: Option<Self>)
        requires
            self.wf(),
            (m.x as int) < self@.size,
            (m.y as int) < self@.size,
        ensures
            r is Some <==> legal(self@).contains(move_cell(*m)),
            r matches Some(b) ==> b.wf() && b@ == after_move(self@, move_cell(*m)),
    {
        let x = m.x;
        let y = m.y;
        if !self.moves.get(x, y) {
            return None;
        }
        let current = match self.player {
            Some(p) => p,
            None => return None,
        };
        let (player, opponent) = match current {
            Player::Black => (&self.black, &self.white),
            Player::White => (&self.white, &self.black),
        };
        let ghost c = (x as int, y as int);
        let ghost n = self.size as int;
        let ghost mover = player@;
        let ghost opp = opponent@;
        proof {
            player.lemma_wf_in_grid();
            opponent.lemma_wf_in_grid();
            assert(mover == discs(self@, current));
            assert(opp == discs(self@, crate::rules::opponent(current)));
        }
        let move_mask = Bitmap::new(self.size).set(x, y);
        let full = Bitmap::full(self.size);
        let mut flipped = Bitmap::new(self.size);
        assert(flipped@ =~= flips_upto(mover, opp, c, 0));
        let mut d: u8 = 0;
        while d < 8
            invariant
                d <= 8,
                2 <= n <= 10,
                n % 2 == 0,
                n == self.size,
                in_grid(n, c.0, c.1),
                player.wf(),
                opponent.wf(),
                player.side() == n,
                opponent.side() == n,
                mover == player@,
                opp == opponent@,
                mover.disjoint(opp),
                mover.subset_of(grid(n)),
                opp.subset_of(grid(n)),
                move_mask.wf(),
                move_mask.side() == n,
                move_mask@ == Set::<(int, int)>::empty().insert(c),
                full.wf(),
                full.side() == n,
                full@ == grid(n),
                flipped.wf(),
                flipped.side() == n,
                flipped@ == flips_upto(mover, opp, c, d as int),
            decreases 8 - d,
        {
            let ghost dx = dir_dx(d as int);
            let ghost dy = dir_dy(d as int);
            let mut prev_line = Bitmap::new(self.size);
            let mut line = move_mask.shift(d).intersection(&full);
            let ghost mut t: int = 1;
            proof {
                lemma_segment_step(c, d as int, 1, n);
                assert(prev_line@ =~= segment(c, dx, dy, 0, n));
            }
            while line != prev_line && line.subset_of(opponent)
                invariant
                    d < 8,
                    dx == dir_dx(d as int),
                    dy == dir_dy(d as int),
                    1 <= t <= n,
                    n == self.size,
                    in_grid(n, c.0, c.1),
                    opponent.wf(),
                    opponent.side() == n,
                    opp == opponent@,
                    opp.subset_of(grid(n)),
                    full.wf(),
                    full.side() == n,
                    full@ == grid(n),
                    line.wf(),
                    line.side() == n,
                    prev_line.wf(),
                    prev_line.side() == n,
                    line@ == segment(c, dx, dy, t, n),
                    prev_line@ == segment(c, dx, dy, t - 1, n),
                    forall|i: int| 1 <= i < t ==> #[trigger] opp.contains(along(c, dx, dy, i)),
                decreases n - t,
            {
                proof {
                    assert(is_direction(dx, dy));
                    lemma_segment_last(c, dx, dy, t, n);
                    let g = along(c, dx, dy, t);
                    if !in_grid(n, g.0, g.1) {
                        assert(line@ =~= prev_line@);
                        line.lemma_view_eq(&prev_line);
                    }
                    assert(line@.contains(g));
                    assert(opp.contains(g));
                    assert forall|i: int| 1 <= i < t + 1 implies #[trigger] opp.contains(along(c, dx, dy, i)) by {
                    }
                    lemma_segment_step(c, d as int, t, n);
                }
                prev_line = line;
                line = prev_line.union(&prev_line.shift(d).intersection(&full));
                proof {
                    t = t + 1;
                }
            }
            proof {
                assert(is_direction(dx, dy));
                lemma_segment_last(c, dx, dy, t, n);
                let g = along(c, dx, dy, t);
                if line == prev_line {
                    assert(!in_grid(n, g.0, g.1));
                } else {
                    assert(!line@.subset_of(opp));
                    assert forall|f: (int, int)| prev_line@.contains(f) implies opp.contains(f) by {
                        let i = choose|i: int| 1 <= i <= t - 1 && f == #[trigger] along(c, dx, dy, i);
                    }
                }
                assert(!opp.contains(g));
                lemma_run_end(mover, opp, c, d as int, t, n);
                assert(line@.intersect(mover) != Set::<(int, int)>::empty() <==> mover.contains(g)) by {
                    if mover.contains(g) {
                        assert(line@.intersect(mover).contains(g));
                    }
                    if line@.intersect(mover) != Set::<(int, int)>::empty() {
                        let f = line@.intersect(mover).choose();
                        if line@.intersect(mover).contains(f) {
                            if f != g {
                                let i = choose|i: int| 1 <= i <= t - 1 && f == #[trigger] along(c, dx, dy, i);
                            }
                        } else {
                            assert(line@.intersect(mover) =~= Set::<(int, int)>::empty());
                        }
                    }
                }
            }
            if line.intersection(player).not_empty() {
                flipped = flipped.union(&prev_line);
            }
            proof {
                assert(flipped@ =~= flips_upto(mover, opp, c, d as int + 1));
            }
            d += 1;
        }
        proof {
            lemma_flips_upto_done(mover, opp, c);
        }
        let mine = player.union(&move_mask).union(&flipped);
        let theirs = opponent.setminus(&flipped);
        let ghost turned = flips(mover, opp, c);
        proof {
            assert(mine@ =~= mover.insert(c).union(turned));
            assert(theirs@ =~= opp.difference(turned));
            assert forall|f: (int, int)| turned.contains(f) implies opp.contains(f) by {
                let (dx, dy, k, i) = choose|dx: int, dy: int, k: int, i: int|
                    is_direction(dx, dy) && flanks(mover, opp, c, dx, dy, k) && 1 <= i <= k && f == along(c, dx, dy, i);
            }
        }
        let mut moves = compute_moves(&theirs, &mine);
        let next = if moves.not_empty() {
            Some(current.other())
        } else {
            moves = compute_moves(&mine, &theirs);
            if moves.not_empty() {
                Some(current)
            } else {
                moves = Bitmap::empty(self.size);
                None
            }
        };
        let (black, white) = match current {
            Player::Black => (mine, theirs),
            Player::White => (theirs, mine),
        };
        let r = Self { size: self.size, black, white, moves, player: next };
        proof {
            let target = after_move(self@, c);
            assert(next == next_player(current, mine@, theirs@, n));
            assert(r@.black =~= target.black);
            assert(r@.white =~= target.white);
            assert(r@ == target);
            assert(legal(r@) =~= moves@);
        }
        Some(r)
    }

    /// A board is determined by its discs and its player to move: the cached
    /// legal moves carry no history.
    pub proof fn lemma_determined_by_position(&self, other: &Board)
        requires
            self.wf(),
            other.wf(),
            self@ == other@,
        ensures
            *self == *other,
            legal(self@) == legal(other@),
    {
        self.black.lemma_view_eq(&other.black);
        self.white.lemma_view_eq(&other.white);
        self.moves.lemma_view_eq(&other.moves);
    }

    /// Every board built by this library keeps the discs of the two players
    /// apart and offers moves on empty cells only.
    pub proof fn lemma_invariant(&self)
        requires
            self.wf(),
        ensures
            valid(self@),
            self@.black.disjoint(self@.white),
            legal(self@).subset_of(grid(self@.size).difference(self@.black.union(self@.white))),
    {
    }

    /// Who has won a finished game: the player with more discs, none on a
    /// tie or while the game goes on.
    pub fn winner(&self) -> (r: Option<Player>)
        requires
            self.wf(),
        ensures
            r == (if self@.player is Some || self@.black.len() == self@.white.len() {
                None::<Player>
            } else if self@.black.len() > self@.white.len() {
                Some(Player::Black)
            } else {
                Some(Player::White)
            }),
    {
        if self.player.is_some() {
            return None;
        }
        let (black, white) = self.score();
        if black > white {
            Some(Player::Black)
        } else if white > black {
            Some(Player::White)
        } else {
            None
        }
    }

    /// Whether the player to move may play `m`.
    pub fn is_valid_move(&self, m: &Move) -> (r: bool)
        requires
            self.wf(),
        ensures
            r == legal(self@).contains(move_cell(*m)),
    {
        m.x < self.size && m.y < self.size && self.moves.get(m.x, m.y)
    }
}

/// What the cell `(x, y)` of `pos` holds.
pub open spec fn square_at(pos: Position, x: int, y: int) -> Square {
    if pos.black.contains((x, y)) {
        Square::Disc(Player::Black)
    } else if pos.white.contains((x, y)) {
        Square::Disc(Player::White)
    } else {
        Square::Empty
    }
}

/// `pos` with the cell `(x, y)` holding `squ` and nothing else changed.
pub open spec fn with_square(pos: Position, x: int, y: int, squ: Square) -> Position {
    let black = pos.black.remove((x, y));
    let white = pos.white.remove((x, y));
    match squ {
        Square::Disc(Player::Black) => Position { black: black.insert((x, y)), white, ..pos },
        Square::Disc(Player::White) => Position { black, white: white.insert((x, y)), ..pos },
        Square::Empty => Position { black, white, ..pos },
    }
}

} // verus!
