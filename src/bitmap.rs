//! A set of cells of a square grid, held in one `u128`.
//!
//! Cell `(x, y)` of a grid of side `size` lives at bit `x + y * (size + 1)`:
//! each row carries one unused sentinel bit, so that shifting a row sideways
//! never moves a cell into the next row.

use vstd::prelude::*;
use vstd::arithmetic::div_mod::lemma_fundamental_div_mod;
use vstd::arithmetic::div_mod::lemma_fundamental_div_mod_converse;

verus! {

/// Bit `i` of `v`.
pub open spec fn bit(v: u128, i: int) -> bool {
    0 <= i < 128 && (v >> (i as u128)) & 1u128 == 1u128
}

/// Where cell `(x, y)` lives in a grid of side `size`.
pub open spec fn cell_index(size: int, x: int, y: int) -> int {
    x + y * (size + 1)
}

pub open spec fn in_grid(size: int, x: int, y: int) -> bool {
    0 <= x < size && 0 <= y < size
}

/// All cells of a grid of side `size`.
pub open spec fn grid(size: int) -> Set<(int, int)> {
    Set::new(|c: (int, int)| in_grid(size, c.0, c.1))
}

/// Bit `i` stands for a cell of the grid, not for a sentinel or for the
/// unused bits past the last row.
pub open spec fn interior(size: int, i: int) -> bool {
    0 <= i < 128 && i % (size + 1) < size && i / (size + 1) < size
}

proof fn lemma_bv_and(a: u128, b: u128, i: u128)
    requires
        i < 128,
    ensures
        ((a & b) >> i) & 1 == 1 <==> ((a >> i) & 1 == 1 && (b >> i) & 1 == 1),
{
    assert(((a & b) >> i) & 1 == 1 <==> ((a >> i) & 1 == 1 && (b >> i) & 1 == 1)) by (bit_vector)
        requires i < 128;
}

proof fn lemma_bv_or(a: u128, b: u128, i: u128)
    requires
        i < 128,
    ensures
        ((a | b) >> i) & 1 == 1 <==> ((a >> i) & 1 == 1 || (b >> i) & 1 == 1),
{
    assert(((a | b) >> i) & 1 == 1 <==> ((a >> i) & 1 == 1 || (b >> i) & 1 == 1)) by (bit_vector)
        requires i < 128;
}

proof fn lemma_bv_not(a: u128, i: u128)
    requires
        i < 128,
    ensures
        ((!a) >> i) & 1 == 1 <==> !((a >> i) & 1 == 1),
{
    assert(((!a) >> i) & 1 == 1 <==> !((a >> i) & 1 == 1)) by (bit_vector)
        requires i < 128;
}

proof fn lemma_bv_xor(a: u128, b: u128, i: u128)
    requires
        i < 128,
    ensures
        ((a ^ b) >> i) & 1 == 1 <==> ((a >> i) & 1 == 1) != ((b >> i) & 1 == 1),
{
    assert(((a ^ b) >> i) & 1 == 1 <==> ((a >> i) & 1 == 1) != ((b >> i) & 1 == 1))
        by (bit_vector)
        requires i < 128;
}

proof fn lemma_bv_single(k: u128, i: u128)
    requires
        i < 128,
        k < 128,
    ensures
        ((1u128 << k) >> i) & 1 == 1 <==> i == k,
{
    assert(((1u128 << k) >> i) & 1 == 1 <==> i == k) by (bit_vector)
        requires i < 128, k < 128;
}

proof fn lemma_bv_shl(a: u128, k: u128, i: u128)
    requires
        i < 128,
        k < 128,
    ensures
        ((a << k) >> i) & 1 == 1 <==> (i >= k && (a >> (i - k) as u128) & 1 == 1),
{
    assert(((a << k) >> i) & 1 == 1 <==> (i >= k && (a >> (i - k) as u128) & 1 == 1))
        by (bit_vector)
        requires i < 128, k < 128;
}

proof fn lemma_bv_shr(a: u128, k: u128, i: u128)
    requires
        i < 128,
        k < 128,
    ensures
        ((a >> k) >> i) & 1 == 1 <==> (i + k < 128 && (a >> (i + k) as u128) & 1 == 1),
{
    assert(((a >> k) >> i) & 1 == 1 <==> (i + k < 128 && (a >> (i + k) as u128) & 1 == 1))
        by (bit_vector)
        requires i < 128, k < 128;
}

/// Bit by bit, the two words agree on exactly the bits where `&`, `|`, `!`,
/// `^`, a shift or a single bit says so.
proof fn lemma_bit_and(a: u128, b: u128, i: int)
    ensures
        bit(a & b, i) == (bit(a, i) && bit(b, i)),
{
    if 0 <= i < 128 {
        lemma_bv_and(a, b, i as u128);
    }
}

proof fn lemma_bit_or(a: u128, b: u128, i: int)
    ensures
        bit(a | b, i) == (bit(a, i) || bit(b, i)),
{
    if 0 <= i < 128 {
        lemma_bv_or(a, b, i as u128);
    }
}

proof fn lemma_bit_not(a: u128, i: int)
    ensures
        0 <= i < 128 ==> bit(!a, i) == !bit(a, i),
{
    if 0 <= i < 128 {
        lemma_bv_not(a, i as u128);
    }
}

proof fn lemma_bit_single(k: int, i: int)
    requires
        0 <= k < 128,
    ensures
        bit(1u128 << (k as u128), i) == (i == k),
{
    if 0 <= i < 128 {
        lemma_bv_single(k as u128, i as u128);
    }
}

proof fn lemma_bit_shl(a: u128, k: int, i: int)
    requires
        0 <= k < 128,
    ensures
        bit(a << (k as u128), i) == (0 <= i < 128 && bit(a, i - k)),
{
    if 0 <= i < 128 {
        lemma_bv_shl(a, k as u128, i as u128);
    }
}

proof fn lemma_bit_shr(a: u128, k: int, i: int)
    requires
        0 <= k < 128,
    ensures
        bit(a >> (k as u128), i) == (0 <= i && bit(a, i + k)),
{
    if 0 <= i < 128 {
        lemma_bv_shr(a, k as u128, i as u128);
    }
}

/// A word with no bit set is zero.
proof fn lemma_nonzero_has_bit(v: u128)
    requires
        v != 0,
    ensures
        exists|i: int| bit(v, i),
    decreases v,
{
    if v & 1 == 1 {
        assert(bit(v, 0)) by {
            assert((v >> 0u128) & 1 == 1 <==> v & 1 == 1) by (bit_vector);
        }
    } else {
        let w = v >> 1u128;
        assert(w != 0 && w < v && (w >> 127u128) & 1 == 0) by (bit_vector)
            requires v != 0, v & 1 != 1, w == v >> 1u128;
        lemma_nonzero_has_bit(w);
        let i = choose|i: int| bit(w, i);
        lemma_bit_shr(v, 1, i);
        assert(i != 127);
        assert(bit(v, i + 1));
    }
}

/// Two words that agree on every bit are equal.
proof fn lemma_bits_equal(a: u128, b: u128)
    requires
        forall|i: int| 0 <= i < 128 ==> bit(a, i) == bit(b, i),
    ensures
        a == b,
{
    if a != b {
        assert(a ^ b != 0) by (bit_vector)
            requires a != b;
        lemma_nonzero_has_bit(a ^ b);
        let i = choose|i: int| bit(a ^ b, i);
        lemma_bv_xor(a, b, i as u128);
        assert(bit(a, i) != bit(b, i));
    }
}

/// A cell of the grid lies in the word and decodes back to itself.
proof fn lemma_cell_index(size: int, x: int, y: int)
    requires
        0 <= size <= 10,
        0 <= x <= size,
        -1 <= y <= size,
    ensures
        0 <= y ==> 0 <= cell_index(size, x, y),
        y <= size - 1 ==> cell_index(size, x, y) < 128,
        0 <= y ==> cell_index(size, x, y) % (size + 1) == x,
        0 <= y ==> cell_index(size, x, y) / (size + 1) == y,
        y < 0 ==> cell_index(size, x, y) < 0,
{
    assert(y * (size + 1) <= (size - 1) * (size + 1) || y > size - 1) by (nonlinear_arith)
        requires 0 <= size, y <= size;
    assert((size - 1) * (size + 1) <= 99) by (nonlinear_arith)
        requires 0 <= size <= 10;
    assert(0 <= y ==> 0 <= y * (size + 1)) by (nonlinear_arith)
        requires 0 <= size;
    assert(y < 0 ==> y * (size + 1) <= -(size + 1)) by (nonlinear_arith)
        requires 0 <= size, -1 <= y;
    if 0 <= y {
        if x < size + 1 {
            lemma_fundamental_div_mod_converse(cell_index(size, x, y), size + 1, y, x);
        }
    }
    if x == size && 0 <= y {
        // the sentinel of row y
    }
}

/// Any bit decodes to a column (possibly the sentinel) and a row.
proof fn lemma_decode(size: int, i: int)
    requires
        0 <= size,
        0 <= i,
    ensures
        0 <= i % (size + 1) <= size,
        0 <= i / (size + 1),
        i == cell_index(size, i % (size + 1), i / (size + 1)),
{
    lemma_fundamental_div_mod(i, size + 1);
    assert((size + 1) * (i / (size + 1)) == (i / (size + 1)) * (size + 1)) by (nonlinear_arith);
    assert(0 <= i / (size + 1)) by (nonlinear_arith)
        requires 0 <= size, 0 <= i;
}

/// The cells of `s` moved one step by `(dx, dy)`, keeping those that stay on
/// a grid of side `size`.
pub open spec fn shifted(s: Set<(int, int)>, dx: int, dy: int, size: int) -> Set<(int, int)> {
    Set::new(|c: (int, int)| in_grid(size, c.0, c.1) && s.contains((c.0 - dx, c.1 - dy)))
}

/// The cells of row `y` from column `x` on, left to right, that lie in `s`.
pub open spec fn row_from(s: Set<(int, int)>, size: int, y: int, x: int) -> Seq<(int, int)>
    decreases size - x,
{
    if x >= size {
        Seq::empty()
    } else {
        (if s.contains((x, y)) {
            seq![(x, y)]
        } else {
            Seq::empty()
        }) + row_from(s, size, y, x + 1)
    }
}

/// The cells of rows `y` and below, in reading order, that lie in `s`.
pub open spec fn rows_from(s: Set<(int, int)>, size: int, y: int) -> Seq<(int, int)>
    decreases size - y,
{
    if y >= size {
        Seq::empty()
    } else {
        row_from(s, size, y, 0) + rows_from(s, size, y + 1)
    }
}

/// The cells of `s` on a grid of side `size` in reading order: row by row
/// from the top, each row from the left. This is the order of their bits.
pub open spec fn row_major(s: Set<(int, int)>, size: int) -> Seq<(int, int)> {
    rows_from(s, size, 0)
}

pub open spec fn as_cells(v: Seq<(u8, u8)>) -> Seq<(int, int)> {
    v.map_values(|c: (u8, u8)| (c.0 as int, c.1 as int))
}

/// The cells of the first `y` rows and of row `y` left of column `x`.
pub open spec fn cells_before(size: int, x: int, y: int) -> Set<(int, int)> {
    Set::new(|c: (int, int)| in_grid(size, c.0, c.1) && (c.1 < y || (c.1 == y && c.0 < x)))
}

proof fn lemma_row_from_members(s: Set<(int, int)>, size: int, y: int, x: int)
    ensures
        forall|k: int| 0 <= k < row_from(s, size, y, x).len() ==> s.contains(#[trigger] row_from(s, size, y, x)[k]),
    decreases size - x,
{
    if x < size {
        lemma_row_from_members(s, size, y, x + 1);
        let head: Seq<(int, int)> = if s.contains((x, y)) { seq![(x, y)] } else { Seq::empty() };
        let rest = row_from(s, size, y, x + 1);
        assert forall|k: int| 0 <= k < row_from(s, size, y, x).len() implies s.contains(#[trigger] row_from(s, size, y, x)[k]) by {
            assert(row_from(s, size, y, x) == head + rest);
            if k >= head.len() {
                assert(row_from(s, size, y, x)[k] == rest[k - head.len()]);
            }
        }
    }
}

proof fn lemma_rows_from_members(s: Set<(int, int)>, size: int, y: int)
    ensures
        forall|k: int| 0 <= k < rows_from(s, size, y).len() ==> s.contains(#[trigger] rows_from(s, size, y)[k]),
    decreases size - y,
{
    if y < size {
        lemma_rows_from_members(s, size, y + 1);
        lemma_row_from_members(s, size, y, 0);
        let head = row_from(s, size, y, 0);
        let rest = rows_from(s, size, y + 1);
        assert forall|k: int| 0 <= k < rows_from(s, size, y).len() implies s.contains(#[trigger] rows_from(s, size, y)[k]) by {
            if k < head.len() {
                assert(rows_from(s, size, y)[k] == head[k]);
            } else {
                assert(rows_from(s, size, y)[k] == rest[k - head.len()]);
            }
        }
    }
}

proof fn lemma_row_from_has(s: Set<(int, int)>, size: int, y: int, x: int, c: (int, int))
    requires
        s.contains(c),
        c.1 == y,
        x <= c.0 < size,
    ensures
        row_from(s, size, y, x).contains(c),
    decreases size - x,
{
    let head: Seq<(int, int)> = if s.contains((x, y)) { seq![(x, y)] } else { Seq::empty() };
    let rest = row_from(s, size, y, x + 1);
    assert(row_from(s, size, y, x) == head + rest);
    if c.0 == x {
        assert(row_from(s, size, y, x)[0] == c);
    } else {
        lemma_row_from_has(s, size, y, x + 1, c);
        let k = choose|k: int| 0 <= k < rest.len() && rest[k] == c;
        assert((head + rest)[k + head.len()] == c);
    }
}

proof fn lemma_rows_from_has(s: Set<(int, int)>, size: int, y: int, c: (int, int))
    requires
        s.contains(c),
        y <= c.1 < size,
        0 <= c.0 < size,
    ensures
        rows_from(s, size, y).contains(c),
    decreases size - y,
{
    let head = row_from(s, size, y, 0);
    let rest = rows_from(s, size, y + 1);
    assert(rows_from(s, size, y) == head + rest);
    if c.1 == y {
        lemma_row_from_has(s, size, y, 0, c);
        let k = choose|k: int| 0 <= k < head.len() && head[k] == c;
        assert((head + rest)[k] == c);
    } else {
        lemma_rows_from_has(s, size, y + 1, c);
        let k = choose|k: int| 0 <= k < rest.len() && rest[k] == c;
        assert((head + rest)[k + head.len()] == c);
    }
}

/// Every cell of the set on the grid is listed in reading order.
pub proof fn lemma_row_major_complete(s: Set<(int, int)>, size: int, c: (int, int))
    requires
        s.contains(c),
        in_grid(size, c.0, c.1),
    ensures
        row_major(s, size).contains(c),
{
    lemma_rows_from_has(s, size, 0, c);
}

/// Everything listed in reading order is a member of the set.
pub proof fn lemma_row_major_members(s: Set<(int, int)>, size: int)
    ensures
        forall|k: int| 0 <= k < row_major(s, size).len() ==> s.contains(#[trigger] row_major(s, size)[k]),
{
    lemma_rows_from_members(s, size, 0);
}

/// The cells `(x, y)` with `val[y][x]` true.
pub open spec fn true_cells(val: Seq<Vec<bool>>) -> Set<(int, int)> {
    Set::new(|c: (int, int)| 0 <= c.1 < val.len() && 0 <= c.0 < val[c.1]@.len() && val[c.1]@[c.0])
}

/// The cells of the first `k` rows.
spec fn first_rows(size: int, k: int) -> Set<(int, int)> {
    Set::new(|c: (int, int)| 0 <= c.0 < size && 0 <= c.1 < k)
}

proof fn lemma_first_rows(size: int, k: int)
    requires
        0 <= size,
        0 <= k,
    ensures
        first_rows(size, k).finite(),
        first_rows(size, k).len() == size * k,
    decreases k,
{
    if k == 0 {
        assert(first_rows(size, k) =~= Set::empty());
    } else {
        lemma_first_rows(size, k - 1);
        let f = |x: int| (x, k - 1);
        let row = vstd::set_lib::set_int_range(0, size).map(f);
        vstd::set_lib::lemma_int_range(0, size);
        assert(vstd::relations::injective_on(f, vstd::set_lib::set_int_range(0, size)));
        vstd::set_lib::lemma_map_size(vstd::set_lib::set_int_range(0, size), row, f);
        assert forall|c: (int, int)| row.contains(c) <==> 0 <= c.0 < size && c.1 == k - 1 by {
            if 0 <= c.0 < size && c.1 == k - 1 {
                assert(vstd::set_lib::set_int_range(0, size).contains(c.0));
                assert(f(c.0) == c);
            }
        }
        assert(first_rows(size, k) =~= first_rows(size, k - 1).union(row));
        assert(first_rows(size, k - 1).disjoint(row));
        vstd::set_lib::lemma_set_disjoint_lens(first_rows(size, k - 1), row);
        assert(size * (k - 1) + size == size * k) by (nonlinear_arith);
    }
}

/// The grid of side `size` has `size * size` cells.
pub proof fn lemma_grid_len(size: int)
    requires
        0 <= size,
    ensures
        grid(size).finite(),
        grid(size).len() == size * size,
{
    lemma_first_rows(size, size);
    assert(grid(size) =~= first_rows(size, size));
}

/// Column step of the `d`-th direction: north, south, east, west, north-east,
/// south-east, south-west, north-west.
pub open spec fn dir_dx(d: int) -> int {
    if d == 2 || d == 4 || d == 5 {
        1
    } else if d == 3 || d == 6 || d == 7 {
        -1
    } else {
        0
    }
}

/// Row step of the `d`-th direction (rows grow downwards).
pub open spec fn dir_dy(d: int) -> int {
    if d == 1 || d == 5 || d == 6 {
        1
    } else if d == 0 || d == 4 || d == 7 {
        -1
    } else {
        0
    }
}

/// Moving every cell one step by `(dx, dy)` moves its bit by this much.
pub open spec fn shift_delta(size: int, dx: int, dy: int) -> int {
    dx + dy * (size + 1)
}

proof fn lemma_index_shift(size: int, x: int, y: int, dx: int, dy: int)
    ensures
        cell_index(size, x - dx, y - dy) == cell_index(size, x, y) - shift_delta(size, dx, dy),
{
    assert((y - dy) * (size + 1) == y * (size + 1) - dy * (size + 1)) by (nonlinear_arith);
}

/// A position one step off the grid is a sentinel, lies past the last row,
/// or falls outside the word.
proof fn lemma_off_grid(size: int, x: int, y: int)
    requires
        0 <= size <= 10,
        -1 <= x <= size,
        -1 <= y <= size,
        !in_grid(size, x, y),
    ensures
        !interior(size, cell_index(size, x, y)),
{
    if x == -1 {
        if y >= 0 {
            lemma_cell_index(size, size, y - 1);
            assert(cell_index(size, x, y) == cell_index(size, size, y - 1)) by (nonlinear_arith)
                requires x == -1;
        } else {
            assert(cell_index(size, x, y) == -1 - (size + 1)) by (nonlinear_arith)
                requires x == -1, y == -1;
        }
    } else {
        lemma_cell_index(size, x, y);
    }
}

/// A set of cells of a grid of side `size`, with one sentinel bit per row.
#[derive(Debug, Clone, Copy, PartialEq, Eq, Structural)]
pub struct Bitmap {
    pub size: u8,
    bm: u128,
}

impl View for Bitmap {
    type V = Set<(int, int)>;

    closed spec fn view(&self) -> Set<(int, int)> {
        Set::new(|c: (int, int)| in_grid(self.size as int, c.0, c.1) && bit(self.bm, cell_index(self.size as int, c.0, c.1)))
    }
}

impl Bitmap {
    /// The side of the grid.
    pub closed spec fn side(&self) -> int {
        self.size as int
    }

    /// The side fits the word; bits outside the grid may be set.
    pub open spec fn bounded(&self) -> bool {
        0 <= self.side() <= 10
    }

    /// Only cells of the grid are set: no sentinel and nothing past the last row.
    pub open spec fn wf(&self) -> bool {
        self.bounded() && self.no_stray_bits()
    }

    pub closed spec fn no_stray_bits(&self) -> bool {
        forall|i: int| #[trigger] bit(self.bm, i) ==> interior(self.size as int, i)
    }

    proof fn lemma_view_bit(&self, x: int, y: int)
        requires
            self.size <= 10,
            in_grid(self.size as int, x, y),
        ensures
            self@.contains((x, y)) == bit(self.bm, cell_index(self.size as int, x, y)),
            0 <= cell_index(self.size as int, x, y) < 128,
            interior(self.size as int, cell_index(self.size as int, x, y)),
    {
        lemma_cell_index(self.size as int, x, y);
    }

    /// The set bits of a well-formed bitmap are exactly its cells.
    proof fn lemma_bit_cell(&self, i: int)
        requires
            self.wf(),
            0 <= i < 128,
        ensures
            bit(self.bm, i) == (interior(self.size as int, i) && self@.contains(
                (i % (self.size + 1), i / (self.size + 1)),
            )),
    {
        lemma_decode(self.size as int, i);
    }

    /// A well-formed bitmap holds cells of its grid only, so at most
    /// `side * side` of them.
    pub proof fn lemma_wf_in_grid(&self)
        requires
            self.wf(),
        ensures
            self.bounded(),
            self@.subset_of(grid(self.side())),
            self@.finite(),
            self@.len() <= self.side() * self.side(),
    {
        lemma_grid_len(self.side());
        vstd::set_lib::lemma_len_subset(self@, grid(self.side()));
    }

    /// What a shift by `(dx, dy)` does to the cells, from what it does to the bits.
    proof fn lemma_shift_view(&self, r: Bitmap, dx: int, dy: int)
        requires
            self.wf(),
            r.size == self.size,
            -1 <= dx <= 1,
            -1 <= dy <= 1,
            forall|j: int|
                #![trigger bit(r.bm, j)]
                0 <= j < 128 ==> bit(r.bm, j) == bit(
                    self.bm,
                    j - shift_delta(self.size as int, dx, dy),
                ),
        ensures
            r@ == shifted(self@, dx, dy, self.size as int),
    {
        let n = self.size as int;
        assert forall|c: (int, int)| r@.contains(c) == shifted(self@, dx, dy, n).contains(c) by {
            if in_grid(n, c.0, c.1) {
                r.lemma_view_bit(c.0, c.1);
                lemma_index_shift(n, c.0, c.1, dx, dy);
                if in_grid(n, c.0 - dx, c.1 - dy) {
                    self.lemma_view_bit(c.0 - dx, c.1 - dy);
                } else {
                    lemma_off_grid(n, c.0 - dx, c.1 - dy);
                }
            }
        }
        assert(r@ =~= shifted(self@, dx, dy, n));
    }

    /// Two well-formed bitmaps of one size with the same cells are equal.
    pub proof fn lemma_view_eq(&self, other: &Bitmap)
        requires
            self.wf(),
            other.wf(),
            self.side() == other.side(),
            self@ == other@,
        ensures
            self == other,
    {
        assert forall|i: int| 0 <= i < 128 implies bit(self.bm, i) == bit(other.bm, i) by {
            self.lemma_bit_cell(i);
            other.lemma_bit_cell(i);
        }
        lemma_bits_equal(self.bm, other.bm);
    }

    /// The side of the grid.
    pub fn size(&self) -> (r: u8)
        ensures
            r == self.side(),
    {
        self.size
    }

    /// Where the cell `(x, y)` lives in the word.
    fn index(&self, x: u8, y: u8) -> (k: u8)
        requires
            self.size <= 10,
            x < self.size,
            y < self.size,
        ensures
            k as int == cell_index(self.size as int, x as int, y as int),
            interior(self.size as int, k as int),
    {
        proof {
            lemma_cell_index(self.size as int, x as int, y as int);
        }
        x + y * (self.size + 1)
    }

    /// The empty set of cells; same as `empty`.
    pub fn new(size: u8) -> (r: Self)
        requires
            size <= 10,
        ensures
            r.wf(),
            r.side() == size,
            r@ == Set::<(int, int)>::empty(),
    {
        Self::empty(size)
    }

    pub fn empty(size: u8) -> (r: Self)
        requires
            size <= 10,
        ensures
            r.wf(),
            r.side() == size,
            r@ == Set::<(int, int)>::empty(),
    {
        let r = Self { size, bm: 0 };
        assert forall|i: int| !bit(0u128, i) by {
            if 0 <= i < 128 {
                let k = i as u128;
                assert((0u128 >> k) & 1 != 1) by (bit_vector);
            }
        }
        assert(r@ =~= Set::<(int, int)>::empty());
        r
    }

    /// The cell `(x, y)` added.
    pub fn set(&self, x: u8, y: u8) -> (r: Self)
        requires
            self.wf(),
            x < self.side(),
            y < self.side(),
        ensures
            r.wf(),
            r.side() == self.side(),
            r@ == self@.insert((x as int, y as int)),
    {
        let k = self.index(x, y);
        let r = Self { size: self.size, bm: self.bm | (1u128 << k) };
        proof {
            let ki = k as int;
            assert forall|i: int| bit(r.bm, i) == (bit(self.bm, i) || i == ki) by {
                lemma_bit_or(self.bm, 1u128 << (ki as u128), i);
                lemma_bit_single(ki, i);
            }
            assert forall|c: (int, int)| r@.contains(c) == self@.insert((x as int, y as int)).contains(c) by {
                if in_grid(self.size as int, c.0, c.1) {
                    lemma_cell_index(self.size as int, c.0, c.1);
                    if cell_index(self.size as int, c.0, c.1) == ki {
                        lemma_cell_index(self.size as int, x as int, y as int);
                        assert(c == (x as int, y as int));
                    }
                }
            }
            assert(r@ =~= self@.insert((x as int, y as int)));
        }
        r
    }

    /// The cell `(x, y)` removed.
    pub fn unset(&self, x: u8, y: u8) -> (r: Self)
        requires
            self.wf(),
            x < self.side(),
            y < self.side(),
        ensures
            r.wf(),
            r.side() == self.side(),
            r@ == self@.remove((x as int, y as int)),
    {
        let k = self.index(x, y);
        let r = Self { size: self.size, bm: self.bm & !(1u128 << k) };
        proof {
            let ki = k as int;
            assert forall|i: int| bit(r.bm, i) == (bit(self.bm, i) && i != ki) by {
                lemma_bit_and(self.bm, !(1u128 << (ki as u128)), i);
                lemma_bit_not(1u128 << (ki as u128), i);
                lemma_bit_single(ki, i);
            }
            assert forall|c: (int, int)| r@.contains(c) == self@.remove((x as int, y as int)).contains(c) by {
                if in_grid(self.size as int, c.0, c.1) {
                    lemma_cell_index(self.size as int, c.0, c.1);
                    if cell_index(self.size as int, c.0, c.1) == ki {
                        lemma_cell_index(self.size as int, x as int, y as int);
                        assert(c == (x as int, y as int));
                    }
                }
            }
            assert(r@ =~= self@.remove((x as int, y as int)));
        }
        r
    }

    /// Whether the cell `(x, y)` is in the set.
    pub fn get(&self, x: u8, y: u8) -> (r: bool)
        requires
            self.wf(),
            x < self.side(),
            y < self.side(),
        ensures
            r == self@.contains((x as int, y as int)),
    {
        let k = self.index(x, y);
        (self.bm >> k) & 1 == 1
    }

    /// Every cell of the grid. The side must be even.
    pub fn full(size: u8) -> (r: Self)
        requires
            size <= 10,
            size % 2 == 0,
        ensures
            r.wf(),
            r.side() == size,
            r@ == grid(size as int),
    {
        let mut r = Self::empty(size);
        let mut y: u8 = 0;
        while y < size
            invariant
                y <= size <= 10,
                r.wf(),
                r.side() == size,
                r@ == cells_before(size as int, 0, y as int),
            decreases size - y,
        {
            let mut x: u8 = 0;
            while x < size
                invariant
                    x <= size <= 10,
                    y < size,
                    r.wf(),
                    r.side() == size,
                    r@ == cells_before(size as int, x as int, y as int),
                decreases size - x,
            {
                r = r.set(x, y);
                assert(r@ =~= cells_before(size as int, x as int + 1, y as int));
                x += 1;
            }
            assert(cells_before(size as int, size as int, y as int) =~= cells_before(size as int, 0, y as int + 1));
            y += 1;
        }
        assert(r@ =~= grid(size as int));
        r
    }

    /// The cells of the grid that are not in the set. The side must be even.
    pub fn not(&self) -> (r: Self)
        requires
            self.wf(),
            self.side() % 2 == 0,
        ensures
            r.wf(),
            r.side() == self.side(),
            r@ == grid(self.side()).difference(self@),
    {
        let full = Self::full(self.size);
        let r = Self { size: self.size, bm: !self.bm & full.bm };
        proof {
            assert forall|i: int| #[trigger] bit(r.bm, i) == (!bit(self.bm, i) && bit(full.bm, i)) by {
                lemma_bit_and(!self.bm, full.bm, i);
                lemma_bit_not(self.bm, i);
            }
            assert forall|c: (int, int)| r@.contains(c) == grid(self.side()).difference(self@).contains(c) by {
                if in_grid(self.size as int, c.0, c.1) {
                    r.lemma_view_bit(c.0, c.1);
                    self.lemma_view_bit(c.0, c.1);
                    full.lemma_view_bit(c.0, c.1);
                }
            }
            assert(r@ =~= grid(self.side()).difference(self@));
        }
        r
    }

    proof fn lemma_empty(&self)
        requires
            self.wf(),
        ensures
            (self.bm == 0) == (self@ == Set::<(int, int)>::empty()),
    {
        if self.bm == 0 {
            assert forall|c: (int, int)| !self@.contains(c) by {
                if in_grid(self.size as int, c.0, c.1) {
                    let k = cell_index(self.size as int, c.0, c.1) as u128;
                    self.lemma_view_bit(c.0, c.1);
                    assert((0u128 >> k) & 1 != 1) by (bit_vector);
                }
            }
            assert(self@ =~= Set::<(int, int)>::empty());
        } else {
            lemma_nonzero_has_bit(self.bm);
            let i = choose|i: int| bit(self.bm, i);
            self.lemma_bit_cell(i);
            assert(self@.contains((i % (self.size + 1), i / (self.size + 1))));
        }
    }

    /// Whether no cell is set.
    pub fn is_empty(&self) -> (r: bool)
        requires
            self.wf(),
        ensures
            r == (self@ == Set::<(int, int)>::empty()),
    {
        proof {
            self.lemma_empty();
        }
        self.bm == 0
    }

    /// Whether some cell is set.
    pub fn not_empty(&self) -> (r: bool)
        requires
            self.wf(),
        ensures
            r == (self@ != Set::<(int, int)>::empty()),
    {
        proof {
            self.lemma_empty();
        }
        self.bm != 0
    }

    /// The number of cells in the set.
    pub fn popcount(&self) -> (r: u32)
        requires
            self.wf(),
        ensures
            r == self@.len(),
            r <= self.side() * self.side(),
    {
        proof {
            self.lemma_wf_in_grid();
        }
        let n = self.size;
        let mut count: u32 = 0;
        assert(self@.intersect(cells_before(n as int, 0, 0)) =~= Set::<(int, int)>::empty());
        let mut y: u8 = 0;
        while y < n
            invariant
                y <= n <= 10,
                n == self.side(),
                self.wf(),
                self@.finite(),
                self@.len() <= n * n,
                count == self@.intersect(cells_before(n as int, 0, y as int)).len(),
            decreases n - y,
        {
            let mut x: u8 = 0;
            while x < n
                invariant
                    x <= n <= 10,
                    y < n,
                    n == self.side(),
                    self.wf(),
                    self@.finite(),
                    self@.len() <= n * n,
                    count == self@.intersect(cells_before(n as int, x as int, y as int)).len(),
                decreases n - x,
            {
                let ghost before = self@.intersect(cells_before(n as int, x as int, y as int));
                let ghost after = self@.intersect(cells_before(n as int, x as int + 1, y as int));
                proof {
                    vstd::set_lib::lemma_len_subset(before, self@);
                    assert(n * n <= 100) by (nonlinear_arith)
                        requires n <= 10;
                }
                if self.get(x, y) {
                    assert(after =~= before.insert((x as int, y as int)));
                    count += 1;
                } else {
                    assert(after =~= before);
                }
                x += 1;
            }
            assert(cells_before(n as int, n as int, y as int) =~= cells_before(n as int, 0, y as int + 1));
            y += 1;
        }
        assert(self@.intersect(cells_before(n as int, 0, n as int)) =~= self@);
        count
    }

    /// The cells in both sets.
    pub fn intersection(&self, other: &Self) -> (r: Self)
        requires
            self.bounded(),
            other.bounded(),
            self.side() == other.side(),
        ensures
            r.bounded(),
            r.side() == self.side(),
            r@ == self@.intersect(other@),
            self.wf() || other.wf() ==> r.wf(),
    {
        let r = Self { size: self.size, bm: self.bm & other.bm };
        proof {
            assert forall|i: int| #[trigger] bit(r.bm, i) == (bit(self.bm, i) && bit(other.bm, i)) by {
                lemma_bit_and(self.bm, other.bm, i);
            }
            assert(r@ =~= self@.intersect(other@));
        }
        r
    }

    /// The cells in either set.
    pub fn union(&self, other: &Self) -> (r: Self)
        requires
            self.bounded(),
            other.bounded(),
            self.side() == other.side(),
        ensures
            r.bounded(),
            r.side() == self.side(),
            r@ == self@.union(other@),
            self.wf() && other.wf() ==> r.wf(),
    {
        let r = Self { size: self.size, bm: self.bm | other.bm };
        proof {
            assert forall|i: int| #[trigger] bit(r.bm, i) == (bit(self.bm, i) || bit(other.bm, i)) by {
                lemma_bit_or(self.bm, other.bm, i);
            }
            assert(r@ =~= self@.union(other@));
        }
        r
    }

    /// The cells of `self` that are not in `other`. The side must be even.
    pub fn setminus(&self, other: &Self) -> (r: Self)
        requires
            self.wf(),
            other.wf(),
            self.side() == other.side(),
            self.side() % 2 == 0,
        ensures
            r.wf(),
            r.side() == self.side(),
            r@ == self@.difference(other@),
    {
        let r = self.intersection(&other.not());
        proof {
            self.lemma_wf_in_grid();
            assert(r@ =~= self@.difference(other@));
        }
        r
    }

    /// Every bit of a well-formed bitmap's word belongs to one of its cells,
    /// so the words of two of them nest as their cells do.
    proof fn lemma_bits_subset(&self, other: &Bitmap)
        requires
            self.wf(),
            other.wf(),
            self.side() == other.side(),
        ensures
            ((self.bm | other.bm) == other.bm) == self@.subset_of(other@),
            ((self.bm & other.bm) == self.bm) == self@.subset_of(other@),
    {
        let a = self.bm;
        let b = other.bm;
        if self@.subset_of(other@) {
            assert forall|i: int| 0 <= i < 128 implies bit(a | b, i) == bit(b, i) by {
                lemma_bit_or(a, b, i);
                self.lemma_bit_cell(i);
                other.lemma_bit_cell(i);
            }
            lemma_bits_equal(a | b, b);
            assert forall|i: int| 0 <= i < 128 implies bit(a & b, i) == bit(a, i) by {
                lemma_bit_and(a, b, i);
                self.lemma_bit_cell(i);
                other.lemma_bit_cell(i);
            }
            lemma_bits_equal(a & b, a);
        } else {
            let c = choose|c: (int, int)| self@.contains(c) && !other@.contains(c);
            self.lemma_view_bit(c.0, c.1);
            other.lemma_view_bit(c.0, c.1);
            let k = cell_index(self.size as int, c.0, c.1);
            lemma_bit_or(a, b, k);
            lemma_bit_and(a, b, k);
        }
    }

    /// Whether every cell of `self` is in `other`.
    pub fn subset_of(&self, other: &Self) -> (r: bool)
        requires
            self.wf(),
            other.wf(),
            self.side() == other.side(),
        ensures
            r == self@.subset_of(other@),
    {
        proof {
            self.lemma_bits_subset(other);
        }
        (self.bm | other.bm) == other.bm
    }

    /// Whether every cell of `other` is in `self`.
    pub fn superset_of(&self, other: &Self) -> (r: bool)
        requires
            self.wf(),
            other.wf(),
            self.side() == other.side(),
        ensures
            r == other@.subset_of(self@),
    {
        proof {
            other.lemma_bits_subset(self);
        }
        (other.bm & self.bm) == other.bm
    }

    /// The cells of the set in reading order: by row from the top, each row
    /// from the left, which is the order of their bits.
    pub fn cells(&self) -> (r: Vec<(u8, u8)>)
        requires
            self.wf(),
        ensures
            as_cells(r@) == row_major(self@, self.side()),
    {
        let n = self.size;
        let ghost s = self@;
        let mut out: Vec<(u8, u8)> = Vec::new();
        let mut y: u8 = 0;
        assert(as_cells(out@) + rows_from(s, n as int, 0) =~= row_major(s, n as int));
        while y < n
            invariant
                y <= n <= 10,
                n == self.side(),
                s == self@,
                self.wf(),
                as_cells(out@) + rows_from(s, n as int, y as int) == row_major(s, n as int),
            decreases n - y,
        {
            let mut x: u8 = 0;
            assert(as_cells(out@) + row_from(s, n as int, y as int, 0) + rows_from(s, n as int, y as int + 1)
                =~= row_major(s, n as int));
            while x < n
                invariant
                    x <= n <= 10,
                    y < n,
                    n == self.side(),
                    s == self@,
                    self.wf(),
                    as_cells(out@) + row_from(s, n as int, y as int, x as int) + rows_from(s, n as int, y as int + 1)
                        == row_major(s, n as int),
                decreases n - x,
            {
                let ghost old_out = out@;
                let ghost rest = row_from(s, n as int, y as int, x as int + 1);
                if self.get(x, y) {
                    out.push((x, y));
                    assert(as_cells(out@) =~= as_cells(old_out) + seq![(x as int, y as int)]);
                    assert(as_cells(out@) + rest =~= as_cells(old_out) + row_from(s, n as int, y as int, x as int));
                } else {
                    assert(row_from(s, n as int, y as int, x as int) =~= rest);
                }
                x += 1;
            }
            assert(as_cells(out@) + rows_from(s, n as int, y as int + 1) =~= row_major(s, n as int));
            y += 1;
        }
        assert(as_cells(out@) =~= row_major(s, n as int));
        out
    }

    /// The first cell of the set in reading order, if any.
    pub fn lowest(&self) -> (r: Option<(u8, u8)>)
        requires
            self.wf(),
        ensures
            r is None <==> row_major(self@, self.side()).len() == 0,
            r matches Some(c) ==> row_major(self@, self.side())[0] == (c.0 as int, c.1 as int),
    {
        let cells = self.cells();
        if cells.len() == 0 {
            None
        } else {
            Some(cells[0])
        }
    }

    /// Takes the first cell of the set in reading order out of it; none when
    /// the set is empty.
    pub fn next(&mut self) -> (r: Option<(u8, u8)>)
        requires
            old(self).wf(),
        ensures
            final(self).wf(),
            final(self).side() == old(self).side(),
            r is None <==> row_major(old(self)@, old(self).side()).len() == 0,
            r is None ==> final(self)@ == old(self)@,
            r matches Some(c) ==> row_major(old(self)@, old(self).side())[0] == (c.0 as int, c.1 as int)
                && final(self)@ == old(self)@.remove((c.0 as int, c.1 as int)),
    {
        match self.lowest() {
            Some((x, y)) => {
                proof {
                    lemma_row_major_members(self@, self.side());
                    self.lemma_wf_in_grid();
                }
                *self = self.unset(x, y);
                Some((x, y))
            },
            None => None,
        }
    }

    /// The cells `(x, y)` with `val[y][x]` true, on a grid whose side is the
    /// number of rows.
    pub fn from_grid(val: &Vec<Vec<bool>>) -> (r: Self)
        requires
            val@.len() <= 10,
            forall|i: int| 0 <= i < val@.len() ==> (#[trigger] val@[i])@.len() <= val@.len(),
        ensures
            r.wf(),
            r.side() == val@.len(),
            r@ == true_cells(val@),
    {
        let size = val.len() as u8;
        let ghost want = true_cells(val@);
        let mut r = Self::empty(size);
        let mut y: usize = 0;
        assert(r@ =~= want.intersect(cells_before(size as int, 0, 0)));
        while y < val.len()
            invariant
                y <= val@.len() <= 10,
                size == val@.len(),
                forall|i: int| 0 <= i < val@.len() ==> (#[trigger] val@[i])@.len() <= val@.len(),
                r.wf(),
                r.side() == size,
                want == true_cells(val@),
                r@ == want.intersect(cells_before(size as int, 0, y as int)),
            decreases val@.len() - y,
        {
            let row = &val[y];
            let mut x: usize = 0;
            assert(cells_before(size as int, 0, y as int) =~= cells_before(size as int, 0, y as int));
            while x < row.len()
                invariant
                    x <= row@.len() <= size,
                    y < val@.len() <= 10,
                    size == val@.len(),
                    row@ == val@[y as int]@,
                    want == true_cells(val@),
                    r.wf(),
                    r.side() == size,
                    r@ == want.intersect(cells_before(size as int, 0, y as int)).union(
                        Set::new(|c: (int, int)| c.1 == y && 0 <= c.0 < x && row@[c.0]),
                    ),
                decreases row@.len() - x,
            {
                if row[x] {
                    r = r.set(x as u8, y as u8);
                }
                assert(r@ =~= want.intersect(cells_before(size as int, 0, y as int)).union(
                    Set::new(|c: (int, int)| c.1 == y && 0 <= c.0 < x + 1 && row@[c.0]),
                ));
                x += 1;
            }
            assert forall|c: (int, int)| r@.contains(c) == want.intersect(cells_before(size as int, 0, y as int + 1)).contains(c) by {
                if c.1 == y && 0 <= c.0 < row@.len() {
                    assert(val@[c.1] == val@[y as int]);
                }
            }
            assert(r@ =~= want.intersect(cells_before(size as int, 0, y as int + 1)));
            y += 1;
        }
        assert(r@ =~= want);
        r
    }

    /// Each cell moved one step in the `d`-th direction (see `dir_dx`, `dir_dy`).
    pub fn shift(&self, d: u8) -> (r: Self)
        requires
            self.wf(),
            d < 8,
        ensures
            r.bounded(),
            r.side() == self.side(),
            r@ == shifted(self@, dir_dx(d as int), dir_dy(d as int), self.side()),
    {
        match d {
            0 => self.shift_north(),
            1 => self.shift_south(),
            2 => self.shift_east(),
            3 => self.shift_west(),
            4 => self.shift_ne(),
            5 => self.shift_se(),
            6 => self.shift_sw(),
            _ => self.shift_nw(),
        }
    }

    /// Each cell moved one row up; the top row leaves the grid.
    pub fn shift_north(&self) -> (r: Self)
        requires
            self.wf(),
        ensures
            r.bounded(),
            r.side() == self.side(),
            r@ == shifted(self@, 0, -1, self.side()),
    {
        let r = Self { size: self.size, bm: self.bm >> (self.size + 1) };
        proof {
            let k = self.size as int + 1;
            assert forall|j: int| 0 <= j < 128 implies bit(r.bm, j) == bit(self.bm, j - shift_delta(self.size as int, 0, -1)) by {
                lemma_bit_shr(self.bm, k, j);
            }
            self.lemma_shift_view(r, 0, -1);
        }
        r
    }

    /// Each cell moved one row down; the bottom row leaves the grid.
    pub fn shift_south(&self) -> (r: Self)
        requires
            self.wf(),
        ensures
            r.bounded(),
            r.side() == self.side(),
            r@ == shifted(self@, 0, 1, self.side()),
    {
        let r = Self { size: self.size, bm: self.bm << (self.size + 1) };
        proof {
            let k = self.size as int + 1;
            assert forall|j: int| 0 <= j < 128 implies bit(r.bm, j) == bit(self.bm, j - shift_delta(self.size as int, 0, 1)) by {
                lemma_bit_shl(self.bm, k, j);
            }
            self.lemma_shift_view(r, 0, 1);
        }
        r
    }

    /// Each cell moved one column right; the right column leaves the grid.
    pub fn shift_east(&self) -> (r: Self)
        requires
            self.wf(),
        ensures
            r.bounded(),
            r.side() == self.side(),
            r@ == shifted(self@, 1, 0, self.side()),
    {
        let r = Self { size: self.size, bm: self.bm << 1u8 };
        proof {
            assert forall|j: int| 0 <= j < 128 implies bit(r.bm, j) == bit(self.bm, j - shift_delta(self.size as int, 1, 0)) by {
                lemma_bit_shl(self.bm, 1, j);
            }
            self.lemma_shift_view(r, 1, 0);
        }
        r
    }

    /// Each cell moved one column left; the left column leaves the grid.
    pub fn shift_west(&self) -> (r: Self)
        requires
            self.wf(),
        ensures
            r.bounded(),
            r.side() == self.side(),
            r@ == shifted(self@, -1, 0, self.side()),
    {
        let r = Self { size: self.size, bm: self.bm >> 1u8 };
        proof {
            assert forall|j: int| 0 <= j < 128 implies bit(r.bm, j) == bit(self.bm, j - shift_delta(self.size as int, -1, 0)) by {
                lemma_bit_shr(self.bm, 1, j);
            }
            self.lemma_shift_view(r, -1, 0);
        }
        r
    }

    /// Each cell moved one step up and right.
    pub fn shift_ne(&self) -> (r: Self)
        requires
            self.wf(),
        ensures
            r.bounded(),
            r.side() == self.side(),
            r@ == shifted(self@, 1, -1, self.side()),
    {
        let r = Self { size: self.size, bm: self.bm >> self.size };
        proof {
            let k = self.size as int;
            assert forall|j: int| 0 <= j < 128 implies bit(r.bm, j) == bit(self.bm, j - shift_delta(self.size as int, 1, -1)) by {
                lemma_bit_shr(self.bm, k, j);
            }
            self.lemma_shift_view(r, 1, -1);
        }
        r
    }

    /// Each cell moved one step down and right.
    pub fn shift_se(&self) -> (r: Self)
        requires
            self.wf(),
        ensures
            r.bounded(),
            r.side() == self.side(),
            r@ == shifted(self@, 1, 1, self.side()),
    {
        let r = Self { size: self.size, bm: self.bm << (self.size + 2) };
        proof {
            let k = self.size as int + 2;
            assert forall|j: int| 0 <= j < 128 implies bit(r.bm, j) == bit(self.bm, j - shift_delta(self.size as int, 1, 1)) by {
                lemma_bit_shl(self.bm, k, j);
            }
            self.lemma_shift_view(r, 1, 1);
        }
        r
    }

    /// Each cell moved one step down and left.
    pub fn shift_sw(&self) -> (r: Self)
        requires
            self.wf(),
        ensures
            r.bounded(),
            r.side() == self.side(),
            r@ == shifted(self@, -1, 1, self.side()),
    {
        let r = Self { size: self.size, bm: self.bm << self.size };
        proof {
            let k = self.size as int;
            assert forall|j: int| 0 <= j < 128 implies bit(r.bm, j) == bit(self.bm, j - shift_delta(self.size as int, -1, 1)) by {
                lemma_bit_shl(self.bm, k, j);
            }
            self.lemma_shift_view(r, -1, 1);
        }
        r
    }

    /// Each cell moved one step up and left.
    pub fn shift_nw(&self) -> (r: Self)
        requires
            self.wf(),
        ensures
            r.bounded(),
            r.side() == self.side(),
            r@ == shifted(self@, -1, -1, self.side()),
    {
        let r = Self { size: self.size, bm: self.bm >> (self.size + 2) };
        proof {
            let k = self.size as int + 2;
            assert forall|j: int| 0 <= j < 128 implies bit(r.bm, j) == bit(self.bm, j - shift_delta(self.size as int, -1, -1)) by {
                lemma_bit_shr(self.bm, k, j);
            }
            self.lemma_shift_view(r, -1, -1);
        }
        r
    }
}

} // verus!
