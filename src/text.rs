//! The text form of a board.
//!
//! The first token is the player to move (`X` or `O`), then come the rows of
//! the board, one per line, with `X`, `O` and `_` for the cells. Blanks
//! other than newlines are ignored, `#` starts a comment that runs to the end
//! of the line, and empty lines may stand anywhere.

use vstd::prelude::*;
use crate::bitmap::{Bitmap, in_grid, cells_before};
use crate::rules::{Player, Position, first_able};
use crate::board::{Board, Move, ParsingError, Square, square_at, square_char, player_char};

verus! {

pub open spec fn chars_of(text: Seq<u8>) -> Seq<char> {
    text.map_values(|b: u8| b as char)
}

/// ASCII whitespace other than the newline.
pub open spec fn is_blank(c: char) -> bool {
    c == ' ' || c == '\t' || c == '\x0C' || c == '\r'
}

/// A character that stands for a cell.
pub open spec fn is_square_char(c: char) -> bool {
    c == 'X' || c == 'O' || c == '_'
}

/// The tokens of `s`: every character but blanks and comments. A comment
/// runs from `#` to the end of its line and leaves the newline behind.
pub open spec fn lex(s: Seq<char>, in_comment: bool) -> Seq<char>
    decreases s.len(),
{
    if s.len() == 0 {
        Seq::empty()
    } else if in_comment {
        if s[0] == '\n' {
            seq!['\n'] + lex(s.drop_first(), false)
        } else {
            lex(s.drop_first(), true)
        }
    } else if s[0] == '#' {
        lex(s.drop_first(), true)
    } else if is_blank(s[0]) {
        lex(s.drop_first(), false)
    } else {
        seq![s[0]] + lex(s.drop_first(), false)
    }
}

pub open spec fn tokens(text: Seq<u8>) -> Seq<char> {
    lex(chars_of(text), false)
}

/// The first token at or after `k` that is not a newline (the length if none).
pub open spec fn skip_newlines(t: Seq<char>, k: int) -> int
    decreases t.len() - k,
{
    if k >= t.len() {
        t.len() as int
    } else if t[k] == '\n' {
        skip_newlines(t, k + 1)
    } else {
        k
    }
}

pub open spec fn player_of(c: char) -> Option<Player> {
    if c == 'X' {
        Some(Player::Black)
    } else if c == 'O' {
        Some(Player::White)
    } else {
        None
    }
}

/// The first row, read from token `k` on with `row` read so far: the first
/// line that holds cells. Gives the row and where reading goes on.
pub open spec fn first_row(t: Seq<char>, k: int, row: Seq<char>) -> Result<(Seq<char>, int), ParsingError>
    decreases t.len() - k,
{
    if k >= t.len() || k < 0 {
        Ok((row, k))
    } else if t[k] == '\n' {
        if row.len() == 0 {
            first_row(t, k + 1, row)
        } else {
            Ok((row, k + 1))
        }
    } else if is_square_char(t[k]) {
        first_row(t, k + 1, row.push(t[k]))
    } else {
        Err(ParsingError::InvalidCharacter(t[k]))
    }
}

/// The rows `grid` once the text has ended with `row` not yet complete.
pub open spec fn close_rows(size: int, grid: Seq<Seq<char>>, row: Seq<char>) -> Result<Seq<Seq<char>>, ParsingError> {
    let grid = if row.len() == size {
        grid.push(row)
    } else {
        grid
    };
    if (row.len() == size || row.len() == 0) && grid.len() == size {
        Ok(grid)
    } else {
        Err(ParsingError::InconsistentSize)
    }
}

/// The remaining rows, read from token `k` on: every non-empty line must
/// hold exactly `size` cells and there must be `size` rows in all.
pub open spec fn more_rows(t: Seq<char>, k: int, size: int, grid: Seq<Seq<char>>, row: Seq<char>) -> Result<
    Seq<Seq<char>>,
    ParsingError,
>
    decreases t.len() - k,
{
    if k >= t.len() || k < 0 {
        close_rows(size, grid, row)
    } else if t[k] == '\n' {
        if row.len() == size {
            more_rows(t, k + 1, size, grid.push(row), Seq::empty())
        } else if row.len() == 0 {
            more_rows(t, k + 1, size, grid, row)
        } else {
            Err(ParsingError::InconsistentSize)
        }
    } else if is_square_char(t[k]) {
        if row.len() < size && grid.len() < size {
            more_rows(t, k + 1, size, grid, row.push(t[k]))
        } else {
            Err(ParsingError::InconsistentSize)
        }
    } else {
        Err(ParsingError::InvalidCharacter(t[k]))
    }
}

pub open spec fn good_size(n: int) -> bool {
    n % 2 == 0 && 2 <= n <= 10
}

/// The position that rows `g` describe with `p` declared to move: `p` moves
/// if they can, else their opponent if they can, else nobody.
pub open spec fn loaded(p: Player, g: Seq<Seq<char>>) -> Position {
    let n = g.len() as int;
    let black = cells_holding(g, 'X');
    let white = cells_holding(g, 'O');
    Position { size: n, black, white, player: first_able(p, black, white, n) }
}

/// The cells of the square grid `g` that hold `ch`.
pub open spec fn cells_holding(g: Seq<Seq<char>>, ch: char) -> Set<(int, int)> {
    Set::new(|c: (int, int)| in_grid(g.len() as int, c.0, c.1) && g[c.1][c.0] == ch)
}

pub open spec fn rows_view(g: Seq<Vec<char>>) -> Seq<Seq<char>> {
    g.map_values(|r: Vec<char>| r@)
}

/// What the text form `text` describes, or the first fault found reading it
/// from the start.
pub open spec fn parse_text(text: Seq<u8>) -> Result<Position, ParsingError> {
    let t = tokens(text);
    let j = skip_newlines(t, 0);
    if j >= t.len() {
        Err(ParsingError::EmptyFile)
    } else {
        match player_of(t[j]) {
            None => Err(ParsingError::PlayerParseError(t[j])),
            Some(p) => match first_row(t, j + 1, Seq::empty()) {
                Err(e) => Err(e),
                Ok((row, k)) => if !good_size(row.len() as int) {
                    Err(ParsingError::BadSize)
                } else {
                    match more_rows(t, k, row.len() as int, seq![row], Seq::empty()) {
                        Err(e) => Err(e),
                        Ok(g) => Ok(loaded(p, g)),
                    }
                },
            },
        }
    }
}

proof fn lemma_skip_first(text: Seq<u8>, pos: int)
    requires
        0 <= pos < text.len(),
    ensures
        chars_of(text).skip(pos).len() > 0,
        chars_of(text).skip(pos)[0] == (text[pos] as char),
        chars_of(text).skip(pos).drop_first() == chars_of(text).skip(pos + 1),
{
    assert(chars_of(text).skip(pos).drop_first() =~= chars_of(text).skip(pos + 1));
}

/// The next token of `text` from byte `pos` on, and the byte after it.
pub fn next_ignore_chars(text: &[u8], pos: usize) -> (r: (Option<char>, usize))
    requires
        pos <= text@.len(),
    ensures
        pos <= r.1 <= text@.len(),
        lex(chars_of(text@).skip(pos as int), false) == (match r.0 {
            Some(c) => seq![c] + lex(chars_of(text@).skip(r.1 as int), false),
            None => Seq::empty(),
        }),
        r.0 is None ==> r.1 == text@.len(),
{
    let ghost all = lex(chars_of(text@).skip(pos as int), false);
    let mut i = pos;
    while i < text.len()
        invariant
            pos <= i <= text@.len(),
            all == lex(chars_of(text@).skip(pos as int), false),
            all == lex(chars_of(text@).skip(i as int), false),
        decreases text@.len() - i,
    {
        let c = text[i] as char;
        let ghost rest = chars_of(text@).skip(i as int);
        proof {
            lemma_skip_first(text@, i as int);
        }
        if c == '#' {
            assert(lex(rest, false) == lex(rest.drop_first(), true));
            i += 1;
            while i < text.len()
                invariant
                    pos < i <= text@.len(),
                    all == lex(chars_of(text@).skip(pos as int), false),
                    all == lex(chars_of(text@).skip(i as int), true),
                decreases text@.len() - i,
            {
                proof {
                    lemma_skip_first(text@, i as int);
                }
                let ghost rest = chars_of(text@).skip(i as int);
                if text[i] as char == '\n' {
                    assert(lex(rest, true) == seq!['\n'] + lex(rest.drop_first(), false));
                    return (Some('\n'), i + 1);
                }
                assert(lex(rest, true) == lex(rest.drop_first(), true));
                i += 1;
            }
            assert(chars_of(text@).skip(i as int) =~= Seq::<char>::empty());
            assert(lex(Seq::<char>::empty(), true) == Seq::<char>::empty());
            return (None, i);
        } else if c == ' ' || c == '\t' || c == '\x0C' || c == '\r' {
            assert(lex(rest, false) == lex(rest.drop_first(), false));
            i += 1;
        } else {
            assert(lex(rest, false) == seq![c] + lex(rest.drop_first(), false));
            return (Some(c), i + 1);
        }
    }
    assert(chars_of(text@).skip(i as int) =~= Seq::<char>::empty());
    assert(lex(Seq::<char>::empty(), false) == Seq::<char>::empty());
    (None, i)
}

/// Reading one token moves one place on in the token sequence.
proof fn lemma_token_step(t: Seq<char>, k: int, r: (Option<char>, Seq<char>))
    requires
        0 <= k <= t.len(),
        t.skip(k) == (match r.0 {
            Some(c) => seq![c] + r.1,
            None => Seq::empty(),
        }),
    ensures
        r.0 matches Some(c) ==> k < t.len() && t[k] == c && t.skip(k + 1) == r.1,
        r.0 is None ==> k == t.len(),
{
    if let Some(c) = r.0 {
        assert(t.skip(k).len() > 0);
        assert(t[k] == t.skip(k)[0]);
        assert(t.skip(k + 1) =~= t.skip(k).drop_first());
        assert((seq![c] + r.1).drop_first() =~= r.1);
    } else {
        assert(t.skip(k).len() == 0);
    }
}

/// The next token of `text` from byte `pos` on that is not a newline, and
/// the byte after it.
fn next_ignore_chars_and_newlines(text: &[u8], pos: usize, Ghost(t): Ghost<Seq<char>>, Ghost(k): Ghost<int>) -> (r: (
    Option<char>,
    usize,
))
    requires
        pos <= text@.len(),
        0 <= k <= t.len(),
        lex(chars_of(text@).skip(pos as int), false) == t.skip(k),
    ensures
        r.1 <= text@.len(),
        r.0 is None <==> skip_newlines(t, k) >= t.len(),
        r.0 matches Some(c) ==> c == t[skip_newlines(t, k)] && lex(chars_of(text@).skip(r.1 as int), false) == t.skip(
            skip_newlines(t, k) + 1,
        ),
    decreases text@.len() - pos,
{
    let (c, next) = next_ignore_chars(text, pos);
    proof {
        lemma_token_step(t, k, (c, lex(chars_of(text@).skip(next as int), false)));
    }
    match c {
        Some('\n') => next_ignore_chars_and_newlines(text, next, Ghost(t), Ghost(k + 1)),
        _ => (c, next),
    }
}

/// Reads the first row from byte `pos` (token `k`) on, with `row` read so far.
fn read_first_row(text: &[u8], pos: usize, row: Vec<char>, Ghost(t): Ghost<Seq<char>>, Ghost(k): Ghost<int>) -> (r: Result<
    (Vec<char>, usize),
    ParsingError,
>)
    requires
        pos <= text@.len(),
        0 <= k <= t.len(),
        lex(chars_of(text@).skip(pos as int), false) == t.skip(k),
    ensures
        match (r, first_row(t, k, row@)) {
            (Ok((v, p)), Ok((s, j))) => v@ == s && p <= text@.len() && 0 <= j <= t.len() && lex(
                chars_of(text@).skip(p as int),
                false,
            ) == t.skip(j),
            (Err(e), Err(f)) => e == f,
            _ => false,
        },
    decreases text@.len() - pos,
{
    let (c, next) = next_ignore_chars(text, pos);
    proof {
        lemma_token_step(t, k, (c, lex(chars_of(text@).skip(next as int), false)));
    }
    match c {
        None => Ok((row, pos)),
        Some(c) => {
            if c == '\n' {
                if row.len() == 0 {
                    read_first_row(text, next, row, Ghost(t), Ghost(k + 1))
                } else {
                    Ok((row, next))
                }
            } else if c == 'X' || c == 'O' || c == '_' {
                let mut row = row;
                row.push(c);
                read_first_row(text, next, row, Ghost(t), Ghost(k + 1))
            } else {
                Err(ParsingError::InvalidCharacter(c))
            }
        },
    }
}

/// Reads the remaining rows from byte `pos` (token `k`) on, with the rows
/// `grid` and the cells `row` of the current line read so far.
fn read_rows(
    text: &[u8],
    pos: usize,
    size: usize,
    grid: Vec<Vec<char>>,
    row: Vec<char>,
    Ghost(t): Ghost<Seq<char>>,
    Ghost(k): Ghost<int>,
) -> (r: Result<Vec<Vec<char>>, ParsingError>)
    requires
        pos <= text@.len(),
        0 <= k <= t.len(),
        lex(chars_of(text@).skip(pos as int), false) == t.skip(k),
        1 <= size,
        grid@.len() <= size,
        row@.len() <= size,
        row@.len() > 0 ==> grid@.len() < size,
        forall|i: int| 0 <= i < grid@.len() ==> (#[trigger] grid@[i])@.len() == size,
    ensures
        match (r, more_rows(t, k, size as int, rows_view(grid@), row@)) {
            (Ok(g), Ok(s)) => rows_view(g@) == s && g@.len() == size && forall|i: int|
                0 <= i < g@.len() ==> (#[trigger] g@[i])@.len() == size,
            (Err(e), Err(f)) => e == f,
            _ => false,
        },
    decreases text@.len() - pos,
{
    let (c, next) = next_ignore_chars(text, pos);
    proof {
        lemma_token_step(t, k, (c, lex(chars_of(text@).skip(next as int), false)));
    }
    match c {
        None => {
            let ghost g0 = rows_view(grid@);
            let ghost r0 = row@;
            let mut grid = grid;
            let r0_len = row.len();
            let full_row = r0_len == size;
            if full_row {
                grid.push(row);
                assert(rows_view(grid@) =~= g0.push(r0));
            }
            if (full_row || r0_len == 0) && grid.len() == size {
                Ok(grid)
            } else {
                Err(ParsingError::InconsistentSize)
            }
        },
        Some(c) => {
            if c == '\n' {
                if row.len() == size {
                    let mut grid = grid;
                    let ghost g0 = rows_view(grid@);
                    grid.push(row);
                    assert(rows_view(grid@) =~= g0.push(row@));
                    read_rows(text, next, size, grid, Vec::new(), Ghost(t), Ghost(k + 1))
                } else if row.len() == 0 {
                    read_rows(text, next, size, grid, row, Ghost(t), Ghost(k + 1))
                } else {
                    Err(ParsingError::InconsistentSize)
                }
            } else if c == 'X' || c == 'O' || c == '_' {
                if row.len() < size && grid.len() < size {
                    let mut row = row;
                    row.push(c);
                    read_rows(text, next, size, grid, row, Ghost(t), Ghost(k + 1))
                } else {
                    Err(ParsingError::InconsistentSize)
                }
            } else {
                Err(ParsingError::InvalidCharacter(c))
            }
        },
    }
}

/// The cells of the rows `g` (a square of side `size`) that hold `ch`.
fn discs_from_rows(g: &Vec<Vec<char>>, size: u8, ch: char) -> (r: Bitmap)
    requires
        size <= 10,
        g@.len() == size,
        forall|i: int| 0 <= i < g@.len() ==> (#[trigger] g@[i])@.len() == size,
    ensures
        r.wf(),
        r.side() == size,
        r@ == cells_holding(rows_view(g@), ch),
{
    let ghost gv = rows_view(g@);
    let mut r = Bitmap::new(size);
    let mut y: u8 = 0;
    assert(r@ =~= cells_holding(gv, ch).intersect(cells_before(size as int, 0, 0)));
    while y < size
        invariant
            y <= size <= 10,
            g@.len() == size,
            forall|i: int| 0 <= i < g@.len() ==> (#[trigger] g@[i])@.len() == size,
            gv == rows_view(g@),
            r.wf(),
            r.side() == size,
            r@ == cells_holding(gv, ch).intersect(cells_before(size as int, 0, y as int)),
        decreases size - y,
    {
        let mut x: u8 = 0;
        while x < size
            invariant
                x <= size <= 10,
                y < size,
                g@.len() == size,
                forall|i: int| 0 <= i < g@.len() ==> (#[trigger] g@[i])@.len() == size,
                gv == rows_view(g@),
                r.wf(),
                r.side() == size,
                r@ == cells_holding(gv, ch).intersect(cells_before(size as int, x as int, y as int)),
            decreases size - x,
        {
            let row = &g[y as usize];
            assert(row@.len() == size);
            if row[x as usize] == ch {
                r = r.set(x, y);
            }
            assert(r@ =~= cells_holding(gv, ch).intersect(cells_before(size as int, x as int + 1, y as int)));
            x += 1;
        }
        assert(cells_before(size as int, size as int, y as int) =~= cells_before(size as int, 0, y as int + 1));
        y += 1;
    }
    assert(r@ =~= cells_holding(gv, ch));
    r
}

impl Board {
    /// The board that the text form `text` describes, or the first fault
    /// found reading it from the start.
    pub fn parse(text: &[u8]) -> (r: Result<Board, ParsingError>)
        ensures
            match r {
                Ok(b) => b.wf() && parse_text(text@) == Ok::<Position, ParsingError>(b@),
                Err(e) => parse_text(text@) == Err::<Position, ParsingError>(e),
            },
    {
        let ghost t = tokens(text@);
        proof {
            assert(chars_of(text@).skip(0) =~= chars_of(text@));
            assert(t.skip(0) =~= t);
        }
        let (first, pos) = next_ignore_chars_and_newlines(text, 0, Ghost(t), Ghost(0));
        let ghost j = skip_newlines(t, 0);
        let player = match first {
            None => return Err(ParsingError::EmptyFile),
            Some(c) => match Player::from_char(c) {
                Ok(p) => p,
                Err(e) => return Err(ParsingError::from(e)),
            },
        };
        proof {
            assert(0 <= j < t.len()) by {
                lemma_skip_newlines_bound(t, 0);
            }
        }
        let (top_row, pos) = match read_first_row(text, pos, Vec::new(), Ghost(t), Ghost(j + 1)) {
            Ok(found) => found,
            Err(e) => return Err(e),
        };
        let ghost k = match first_row(t, j + 1, Seq::empty()) {
            Ok((_, k)) => k,
            Err(_) => 0,
        };
        let size = top_row.len();
        if !(size % 2 == 0 && 2 <= size && size <= 10) {
            return Err(ParsingError::BadSize);
        }
        let ghost row0 = top_row@;
        let mut grid: Vec<Vec<char>> = Vec::new();
        grid.push(top_row);
        assert(rows_view(grid@) =~= seq![row0]);
        let grid = match read_rows(text, pos, size, grid, Vec::new(), Ghost(t), Ghost(k)) {
            Ok(g) => g,
            Err(e) => return Err(e),
        };
        let n = size as u8;
        let black = discs_from_rows(&grid, n, 'X');
        let white = discs_from_rows(&grid, n, 'O');
        Ok(Board::from_discs(black, white, player))
    }

    /// The text form of the board: the player to move (`_` once the game
    /// has ended) on the first line, then one line per row.
    pub fn to_text(&self) -> (r: Vec<u8>)
        requires
            self.wf(),
        ensures
            chars_of(r@) == text_of(self@),
    {
        let n = self.size();
        let ghost pos = self@;
        let mut out: Vec<u8> = Vec::new();
        out.push(turn_byte(self.player()));
        out.push(10u8);
        assert(chars_of(out@) + grid_text(pos, 0) =~= text_of(pos));
        let mut y: u8 = 0;
        while y < n
            invariant
                y <= n,
                n == pos.size,
                pos == self@,
                self.wf(),
                chars_of(out@) + grid_text(pos, y as int) == text_of(pos),
            decreases n - y,
        {
            let mut x: u8 = 0;
            assert(chars_of(out@) + row_text(pos, y as int, 0) + seq!['\n'] + grid_text(pos, y as int + 1) =~= text_of(pos));
            while x < n
                invariant
                    x <= n,
                    y < n,
                    n == pos.size,
                    pos == self@,
                    self.wf(),
                    chars_of(out@) + row_text(pos, y as int, x as int) + seq!['\n'] + grid_text(pos, y as int + 1) == text_of(pos),
                decreases n - x,
            {
                let ghost before = out@;
                out.push(square_byte(self.get(x, y)));
                assert(chars_of(out@) =~= chars_of(before) + seq![square_char(square_at(pos, x as int, y as int))]);
                assert(chars_of(out@) + row_text(pos, y as int, x as int + 1) =~= chars_of(before) + row_text(pos, y as int, x as int));
                x += 1;
            }
            let ghost before = out@;
            out.push(10u8);
            assert(chars_of(out@) =~= chars_of(before) + seq!['\n']);
            assert(row_text(pos, y as int, n as int) =~= Seq::<char>::empty());
            assert(chars_of(out@) + grid_text(pos, y as int + 1) =~= text_of(pos));
            y += 1;
        }
        assert(grid_text(pos, n as int) =~= Seq::<char>::empty());
        assert(chars_of(out@) =~= text_of(pos));
        out
    }
}

proof fn lemma_skip_newlines_bound(t: Seq<char>, k: int)
    requires
        0 <= k <= t.len(),
    ensures
        k <= skip_newlines(t, k),
        skip_newlines(t, k) < t.len() ==> t[skip_newlines(t, k)] != '\n',
    decreases t.len() - k,
{
    if k < t.len() && t[k] == '\n' {
        lemma_skip_newlines_bound(t, k + 1);
    }
}

/// The byte for what a cell holds.
fn square_byte(s: Square) -> (b: u8)
    ensures
        b as char == square_char(s),
{
    match s {
        Square::Disc(Player::Black) => 88u8,
        Square::Disc(Player::White) => 79u8,
        Square::Empty => 95u8,
    }
}

/// The byte for the player to move, `_` for nobody.
fn turn_byte(p: Option<Player>) -> (b: u8)
    ensures
        b as char == turn_char(p),
{
    match p {
        Some(p) => square_byte(Square::Disc(p)),
        None => square_byte(Square::Empty),
    }
}

pub open spec fn turn_char(p: Option<Player>) -> char {
    match p {
        Some(p) => player_char(p),
        None => '_',
    }
}

/// The cells of row `y` from column `x` on, one character each.
pub open spec fn row_text(pos: Position, y: int, x: int) -> Seq<char>
    decreases pos.size - x,
{
    if x >= pos.size {
        Seq::empty()
    } else {
        seq![square_char(square_at(pos, x, y))] + row_text(pos, y, x + 1)
    }
}

/// Rows `y` and below, each followed by a newline.
pub open spec fn grid_text(pos: Position, y: int) -> Seq<char>
    decreases pos.size - y,
{
    if y >= pos.size {
        Seq::empty()
    } else {
        row_text(pos, y, 0) + seq!['\n'] + grid_text(pos, y + 1)
    }
}

/// The text form of a position.
pub open spec fn text_of(pos: Position) -> Seq<char> {
    seq![turn_char(pos.player), '\n'] + grid_text(pos, 0)
}

/// Lines of text, each followed by a newline.
pub open spec fn joined(lines: Seq<Seq<char>>) -> Seq<char>
    decreases lines.len(),
{
    if lines.len() == 0 {
        Seq::empty()
    } else {
        lines[0] + seq!['\n'] + joined(lines.drop_first())
    }
}

/// `rows` is a square grid of cells of side `n`.
pub open spec fn square_rows(rows: Seq<Seq<char>>, n: int) -> bool {
    &&& rows.len() == n
    &&& forall|i: int| 0 <= i < n ==> (#[trigger] rows[i]).len() == n
    &&& forall|i: int, j: int| 0 <= i < n && 0 <= j < n ==> is_square_char(#[trigger] rows[i][j])
}

/// Text without blanks or comments is its own token sequence.
proof fn lemma_lex_plain(s: Seq<char>)
    requires
        forall|i: int| 0 <= i < s.len() ==> !is_blank(#[trigger] s[i]) && s[i] != '#',
    ensures
        lex(s, false) == s,
    decreases s.len(),
{
    if s.len() > 0 {
        lemma_lex_plain(s.drop_first());
        assert(seq![s[0]] + s.drop_first() =~= s);
    }
}

/// Reading a run of cells up to a newline ends the first row.
proof fn lemma_first_row_line(t: Seq<char>, k: int, row: Seq<char>, m: int)
    requires
        0 <= k,
        0 <= m,
        k + m < t.len(),
        forall|i: int| k <= i < k + m ==> is_square_char(#[trigger] t[i]),
        t[k + m] == '\n',
        row.len() + m > 0,
    ensures
        first_row(t, k, row) == Ok::<(Seq<char>, int), ParsingError>((row + t.subrange(k, k + m), k + m + 1)),
    decreases m,
{
    if m == 0 {
        assert(row + t.subrange(k, k) =~= row);
    } else {
        lemma_first_row_line(t, k + 1, row.push(t[k]), m - 1);
        assert(row.push(t[k]) + t.subrange(k + 1, k + m) =~= row + t.subrange(k, k + m));
    }
}

/// Reading a run of cells that fits the current row adds it to the row.
proof fn lemma_more_rows_cells(t: Seq<char>, k: int, size: int, grid: Seq<Seq<char>>, row: Seq<char>, m: int)
    requires
        0 <= k,
        0 <= m,
        k + m <= t.len(),
        forall|i: int| k <= i < k + m ==> is_square_char(#[trigger] t[i]),
        row.len() + m <= size,
        grid.len() < size,
    ensures
        more_rows(t, k, size, grid, row) == more_rows(t, k + m, size, grid, row + t.subrange(k, k + m)),
    decreases m,
{
    if m == 0 {
        assert(row + t.subrange(k, k) =~= row);
    } else {
        lemma_more_rows_cells(t, k + 1, size, grid, row.push(t[k]), m - 1);
        assert(row.push(t[k]) + t.subrange(k + 1, k + m) =~= row + t.subrange(k, k + m));
    }
}

/// Non-empty lines of cells are taken as rows while each has `size` cells;
/// a line of another length, or a count of rows other than `size`, is
/// refused as inconsistent.
proof fn lemma_more_rows_lines(t: Seq<char>, k: int, size: int, grid: Seq<Seq<char>>, lines: Seq<Seq<char>>)
    requires
        0 <= k <= t.len(),
        1 <= size,
        grid.len() <= size,
        t.skip(k) == joined(lines),
        forall|i: int| 0 <= i < lines.len() ==> (#[trigger] lines[i]).len() >= 1,
        forall|i: int, j: int| 0 <= i < lines.len() && 0 <= j < lines[i].len() ==> is_square_char(#[trigger] lines[i][j]),
    ensures
        more_rows(t, k, size, grid, Seq::empty()) == (if grid.len() + lines.len() == size && forall|i: int|
            0 <= i < lines.len() ==> (#[trigger] lines[i]).len() == size {
            Ok::<Seq<Seq<char>>, ParsingError>(grid + lines)
        } else {
            Err::<Seq<Seq<char>>, ParsingError>(ParsingError::InconsistentSize)
        }),
    decreases lines.len(),
{
    if lines.len() == 0 {
        assert(t.skip(k).len() == 0);
        assert(grid + lines =~= grid);
    } else {
        let line = lines[0];
        let len = line.len() as int;
        let rest = lines.drop_first();
        assert(joined(lines) == line + seq!['\n'] + joined(rest));
        assert forall|i: int| k <= i < k + len implies is_square_char(#[trigger] t[i]) by {
            assert(t[i] == t.skip(k)[i - k]);
            assert(t.skip(k)[i - k] == line[i - k]);
        }
        assert(t[k + len] == t.skip(k)[len]);
        assert(is_square_char(t[k]));
        if grid.len() < size {
            if len <= size {
                lemma_more_rows_cells(t, k, size, grid, Seq::empty(), len);
                assert(Seq::<char>::empty() + t.subrange(k, k + len) =~= line) by {
                    assert forall|i: int| 0 <= i < len implies t.subrange(k, k + len)[i] == line[i] by {
                        assert(t[k + i] == t.skip(k)[i]);
                    }
                }
                if len == size {
                    assert(t.skip(k + size + 1) =~= joined(rest)) by {
                        assert(t.skip(k + size + 1) =~= t.skip(k).skip(size + 1));
                        assert((line + seq!['\n'] + joined(rest)).skip(size + 1) =~= joined(rest));
                    }
                    assert forall|i: int, j: int| 0 <= i < rest.len() && 0 <= j < rest[i].len() implies is_square_char(#[trigger] rest[i][j]) by {
                        assert(rest[i] == lines[i + 1]);
                    }
                    lemma_more_rows_lines(t, k + size + 1, size, grid.push(line), rest);
                    assert(grid.push(line) + rest =~= grid + lines);
                    if forall|i: int| 0 <= i < rest.len() ==> (#[trigger] rest[i]).len() == size {
                        assert forall|i: int| 0 <= i < lines.len() implies (#[trigger] lines[i]).len() == size by {
                            if i > 0 {
                                assert(lines[i] == rest[i - 1]);
                            }
                        }
                    } else {
                        let i = choose|i: int| 0 <= i < rest.len() && (#[trigger] rest[i]).len() != size;
                        assert(lines[i + 1] == rest[i]);
                    }
                } else {
                    assert(lines[0].len() != size);
                }
            } else {
                lemma_more_rows_cells(t, k, size, grid, Seq::empty(), size);
                assert(is_square_char(t[k + size]));
                assert(lines[0].len() != size);
            }
        } else {
            assert(grid.len() + lines.len() > size);
        }
    }
}

/// The tokens of a canonical text: the player's character, a newline, and
/// the rows, each followed by a newline.
proof fn lemma_canonical_parse(text: Seq<u8>, p: Player, rows: Seq<Seq<char>>)
    requires
        chars_of(text) == seq![player_char(p), '\n'] + joined(rows),
        good_size(rows.len() as int),
        square_rows(rows, rows.len() as int),
    ensures
        parse_text(text) == Ok::<Position, ParsingError>(loaded(p, rows)),
{
    let n = rows.len() as int;
    let t = chars_of(text);
    assert forall|i: int| 0 <= i < t.len() implies !is_blank(#[trigger] t[i]) && t[i] != '#' by {
        if i >= 2 {
            lemma_joined_chars(rows, i - 2);
            assert(t[i] == joined(rows)[i - 2]);
        }
    }
    lemma_lex_plain(t);
    assert(tokens(text) == t);
    assert(t[0] == player_char(p));
    assert(skip_newlines(t, 0) == 0);
    assert(joined(rows) == rows[0] + seq!['\n'] + joined(rows.drop_first()));
    let row0 = rows[0];
    assert forall|i: int| 2 <= i < 2 + n implies is_square_char(#[trigger] t[i]) by {
        assert(t[i] == joined(rows)[i - 2]);
        assert(joined(rows)[i - 2] == row0[i - 2]);
    }
    assert(t[2 + n] == joined(rows)[n]);
    assert(t[1] == '\n');
    assert(first_row(t, 1, Seq::empty()) == first_row(t, 2, Seq::empty()));
    lemma_first_row_line(t, 2, Seq::empty(), n);
    assert(Seq::<char>::empty() + t.subrange(2, 2 + n) =~= row0) by {
        assert forall|i: int| 0 <= i < n implies t.subrange(2, 2 + n)[i] == row0[i] by {
            assert(t[2 + i] == joined(rows)[i]);
        }
    }
    assert(t.skip(n + 3) =~= joined(rows.drop_first())) by {
        assert(t.skip(n + 3) =~= joined(rows).skip(n + 1));
        assert((row0 + seq!['\n'] + joined(rows.drop_first())).skip(n + 1) =~= joined(rows.drop_first()));
    }
    let rest = rows.drop_first();
    assert forall|a: int, b: int| 0 <= a < rest.len() && 0 <= b < rest[a].len() implies is_square_char(#[trigger] rest[a][b]) by {
        assert(rest[a] == rows[a + 1]);
    }
    assert forall|a: int| 0 <= a < rest.len() implies (#[trigger] rest[a]).len() == n by {
        assert(rest[a] == rows[a + 1]);
    }
    lemma_more_rows_lines(t, n + 3, n, seq![row0], rest);
    assert(seq![row0] + rest =~= rows);
}

/// Every character of joined rows of cells is a cell or a newline.
proof fn lemma_joined_chars(rows: Seq<Seq<char>>, i: int)
    requires
        forall|a: int, b: int| 0 <= a < rows.len() && 0 <= b < rows[a].len() ==> is_square_char(#[trigger] rows[a][b]),
    ensures
        0 <= i < joined(rows).len() ==> (is_square_char(joined(rows)[i]) || joined(rows)[i] == '\n'),
    decreases rows.len(),
{
    if rows.len() > 0 && 0 <= i < joined(rows).len() {
        let rest = rows.drop_first();
        assert(joined(rows) == rows[0] + seq!['\n'] + joined(rest));
        assert forall|a: int, b: int| 0 <= a < rest.len() && 0 <= b < rest[a].len() implies is_square_char(#[trigger] rest[a][b]) by {
            assert(rest[a] == rows[a + 1]);
        }
        if i > rows[0].len() {
            lemma_joined_chars(rest, i - rows[0].len() - 1);
            assert(joined(rows)[i] == joined(rest)[i - rows[0].len() - 1]);
        } else if i < rows[0].len() {
            assert(joined(rows)[i] == rows[0][i]);
        }
    }
}

proof fn lemma_row_text(p: Player, rows: Seq<Seq<char>>, y: int, x: int)
    requires
        good_size(rows.len() as int),
        square_rows(rows, rows.len() as int),
        0 <= y < rows.len(),
        0 <= x <= rows.len(),
    ensures
        row_text(loaded(p, rows), y, x) == rows[y].subrange(x, rows.len() as int),
    decreases rows.len() - x,
{
    let n = rows.len() as int;
    let pos = loaded(p, rows);
    if x < n {
        lemma_row_text(p, rows, y, x + 1);
        let c = rows[y][x];
        assert(is_square_char(c));
        assert(pos.black.contains((x, y)) == (c == 'X'));
        assert(pos.white.contains((x, y)) == (c == 'O'));
        assert(square_char(square_at(pos, x, y)) == c);
        assert(seq![c] + rows[y].subrange(x + 1, n) =~= rows[y].subrange(x, n));
    } else {
        assert(rows[y].subrange(x, n) =~= Seq::<char>::empty());
    }
}

proof fn lemma_grid_text(p: Player, rows: Seq<Seq<char>>, y: int)
    requires
        good_size(rows.len() as int),
        square_rows(rows, rows.len() as int),
        0 <= y <= rows.len(),
    ensures
        grid_text(loaded(p, rows), y) == joined(rows.subrange(y, rows.len() as int)),
    decreases rows.len() - y,
{
    let n = rows.len() as int;
    if y < n {
        lemma_grid_text(p, rows, y + 1);
        lemma_row_text(p, rows, y, 0);
        assert(rows[y].subrange(0, n) =~= rows[y]);
        let sub = rows.subrange(y, n);
        assert(sub.drop_first() =~= rows.subrange(y + 1, n));
        assert(joined(sub) == sub[0] + seq!['\n'] + joined(sub.drop_first()));
    } else {
        assert(rows.subrange(y, n) =~= Seq::<Seq<char>>::empty());
    }
}

proof fn lemma_only_newlines(t: Seq<char>, k: int)
    requires
        0 <= k <= t.len(),
        forall|i: int| 0 <= i < t.len() ==> t[i] == '\n',
    ensures
        skip_newlines(t, k) == t.len(),
    decreases t.len() - k,
{
    if k < t.len() {
        lemma_only_newlines(t, k + 1);
    }
}

/// A text whose only tokens are newlines is refused as empty.
pub proof fn lemma_empty_text(text: Seq<u8>)
    requires
        forall|i: int| 0 <= i < tokens(text).len() ==> tokens(text)[i] == '\n',
    ensures
        parse_text(text) == Err::<Position, ParsingError>(ParsingError::EmptyFile),
{
    lemma_only_newlines(tokens(text), 0);
}

/// After the player to move, a first row of cells whose length is odd or
/// outside 2 to 10 is refused as a bad size, whatever follows it.
pub proof fn lemma_bad_first_row(text: Seq<u8>, p: Player, row: Seq<char>, rest: Seq<char>)
    requires
        tokens(text) == seq![player_char(p), '\n'] + row + seq!['\n'] + rest,
        row.len() >= 1,
        forall|j: int| 0 <= j < row.len() ==> is_square_char(#[trigger] row[j]),
        !good_size(row.len() as int),
    ensures
        parse_text(text) == Err::<Position, ParsingError>(ParsingError::BadSize),
{
    let t = tokens(text);
    let m = row.len() as int;
    assert(t[0] == player_char(p));
    assert(skip_newlines(t, 0) == 0);
    assert(t[1] == '\n');
    assert forall|i: int| 2 <= i < 2 + m implies is_square_char(#[trigger] t[i]) by {
        assert(t[i] == row[i - 2]);
    }
    assert(t[2 + m] == '\n');
    assert(first_row(t, 1, Seq::empty()) == first_row(t, 2, Seq::empty()));
    lemma_first_row_line(t, 2, Seq::empty(), m);
    assert(Seq::<char>::empty() + t.subrange(2, 2 + m) =~= row);
}

/// After the player to move and a first row of good size, lines of cells
/// are refused as inconsistent when one of them has another length than the
/// first or when their number is not the side.
pub proof fn lemma_inconsistent_rows(text: Seq<u8>, p: Player, rows: Seq<Seq<char>>)
    requires
        tokens(text) == seq![player_char(p), '\n'] + joined(rows),
        rows.len() >= 1,
        good_size(rows[0].len() as int),
        forall|i: int| 0 <= i < rows.len() ==> (#[trigger] rows[i]).len() >= 1,
        forall|i: int, j: int| 0 <= i < rows.len() && 0 <= j < rows[i].len() ==> is_square_char(#[trigger] rows[i][j]),
        rows.len() != rows[0].len() || exists|i: int| 0 <= i < rows.len() && (#[trigger] rows[i]).len() != rows[0].len(),
    ensures
        parse_text(text) == Err::<Position, ParsingError>(ParsingError::InconsistentSize),
{
    let t = tokens(text);
    let row0 = rows[0];
    let n = row0.len() as int;
    let rest = rows.drop_first();
    assert(joined(rows) == row0 + seq!['\n'] + joined(rest));
    assert(t[0] == player_char(p));
    assert(skip_newlines(t, 0) == 0);
    assert(t[1] == '\n');
    assert forall|i: int| 2 <= i < 2 + n implies is_square_char(#[trigger] t[i]) by {
        assert(t[i] == joined(rows)[i - 2]);
        assert(joined(rows)[i - 2] == row0[i - 2]);
    }
    assert(t[2 + n] == joined(rows)[n]);
    assert(first_row(t, 1, Seq::empty()) == first_row(t, 2, Seq::empty()));
    lemma_first_row_line(t, 2, Seq::empty(), n);
    assert(Seq::<char>::empty() + t.subrange(2, 2 + n) =~= row0) by {
        assert forall|i: int| 0 <= i < n implies t.subrange(2, 2 + n)[i] == row0[i] by {
            assert(t[2 + i] == joined(rows)[i]);
        }
    }
    assert(t.skip(n + 3) =~= joined(rest)) by {
        assert(t.skip(n + 3) =~= joined(rows).skip(n + 1));
        assert((row0 + seq!['\n'] + joined(rest)).skip(n + 1) =~= joined(rest));
    }
    assert forall|a: int, b: int| 0 <= a < rest.len() && 0 <= b < rest[a].len() implies is_square_char(#[trigger] rest[a][b]) by {
        assert(rest[a] == rows[a + 1]);
    }
    assert forall|a: int| 0 <= a < rest.len() implies (#[trigger] rest[a]).len() >= 1 by {
        assert(rest[a] == rows[a + 1]);
    }
    lemma_more_rows_lines(t, n + 3, n, seq![row0], rest);
    if rows.len() == n {
        let i = choose|i: int| 0 <= i < rows.len() && (#[trigger] rows[i]).len() != rows[0].len();
        assert(rest[i - 1] == rows[i]);
    }
}

/// Reading a canonical text and writing the board back gives the same text.
/// A canonical text holds the player to move (`X` or `O`), a newline, and
/// the rows of an even-sided square grid of `X`, `O` and `_`, each followed
/// by a newline, with no blanks, comments or empty lines; the player named
/// must have a move, for otherwise reading hands the turn on.
pub proof fn lemma_round_trip(text: Seq<u8>, p: Player, rows: Seq<Seq<char>>)
    requires
        chars_of(text) == seq![player_char(p), '\n'] + joined(rows),
        good_size(rows.len() as int),
        square_rows(rows, rows.len() as int),
        first_able(p, cells_holding(rows, 'X'), cells_holding(rows, 'O'), rows.len() as int) == Some(p),
    ensures
        parse_text(text) == Ok::<Position, ParsingError>(loaded(p, rows)),
        text_of(loaded(p, rows)) == chars_of(text),
        forall|out: Seq<u8>| #[trigger] chars_of(out) == text_of(loaded(p, rows)) ==> out == text,
{
    lemma_canonical_parse(text, p, rows);
    lemma_grid_text(p, rows, 0);
    assert(rows.subrange(0, rows.len() as int) =~= rows);
    assert forall|out: Seq<u8>| #[trigger] chars_of(out) == text_of(loaded(p, rows)) implies out == text by {
        lemma_chars_of_injective(out, text);
    }
}

/// Bytes are told apart by their characters.
proof fn lemma_chars_of_injective(a: Seq<u8>, b: Seq<u8>)
    requires
        chars_of(a) == chars_of(b),
    ensures
        a == b,
{
    assert(a.len() == chars_of(a).len());
    assert forall|i: int| 0 <= i < a.len() implies a[i] == b[i] by {
        assert(chars_of(a)[i] == (a[i] as char));
        assert(chars_of(b)[i] == (b[i] as char));
    }
    assert(a =~= b);
}

pub open spec fn is_digit(b: u8) -> bool {
    48 <= b <= 57
}

/// The number that the decimal digits `s` spell.
pub open spec fn digits_value(s: Seq<u8>) -> int
    decreases s.len(),
{
    if s.len() == 0 {
        0
    } else {
        digits_value(s.drop_last()) * 10 + (s.last() - 48)
    }
}

/// An unsigned byte in decimal: an optional `+` and at least one digit,
/// at most 255.
pub open spec fn byte_number(s: Seq<u8>) -> Option<int> {
    let d = unsigned_digits(s);
    if d.len() == 0 || !all_digits(d) || digits_value(d) > 255 {
        None
    } else {
        Some(digits_value(d))
    }
}

/// `s` without a leading `+`.
pub open spec fn unsigned_digits(s: Seq<u8>) -> Seq<u8> {
    if s.len() > 0 && s[0] == 43 {
        s.drop_first()
    } else {
        s
    }
}

pub open spec fn all_digits(d: Seq<u8>) -> bool {
    forall|i: int| 0 <= i < d.len() ==> is_digit(#[trigger] d[i])
}

/// The move that `s` names: a column letter in either case and a row
/// number from 1, as in `c4` or `C4`. Only ASCII text names a move.
pub open spec fn move_named(s: Seq<u8>) -> Option<Move> {
    if s.len() == 0 || !(forall|i: int| 0 <= i < s.len() ==> #[trigger] s[i] < 128) {
        None
    } else {
        let col = if 97 <= s[0] <= 122 {
            s[0] - 32
        } else {
            s[0] as int
        };
        if !(65 <= col <= 90) {
            None
        } else {
            match byte_number(s.drop_first()) {
                Some(row) => if row >= 1 {
                    Some(Move { x: (col - 65) as u8, y: (row - 1) as u8 })
                } else {
                    None
                },
                None => None,
            }
        }
    }
}

/// The number the decimal text `s` spells if it is an unsigned byte.
fn parse_byte_number(s: &[u8], start: usize) -> (r: Option<u8>)
    requires
        start <= s@.len(),
    ensures
        r matches Some(v) ==> byte_number(s@.skip(start as int)) == Some(v as int),
        r is None ==> byte_number(s@.skip(start as int)) is None,
{
    let ghost t = s@.skip(start as int);
    let mut i = start;
    if i < s.len() && s[i] == 43u8 {
        i += 1;
    }
    let ghost d = s@.skip(i as int);
    assert(d =~= unsigned_digits(t));
    if i == s.len() {
        return None;
    }
    let first = i;
    let mut acc: u32 = 0;
    while i < s.len()
        invariant
            first <= i <= s@.len(),
            d == s@.skip(first as int),
            t == s@.skip(start as int),
            d == unsigned_digits(t),
            forall|j: int| 0 <= j < i - first ==> is_digit(#[trigger] d[j]),
            acc as int == digits_value(d.take(i - first)),
            acc <= 255,
        decreases s@.len() - i,
    {
        let b = s[i];
        if !(48u8 <= b && b <= 57u8) {
            assert(!is_digit(d[i - first]));
            assert(!all_digits(d));
            assert(byte_number(t) is None);
            return None;
        }
        let next = acc * 10 + (b - 48u8) as u32;
        assert(d.take(i - first + 1).drop_last() =~= d.take(i - first));
        if next > 255 {
            proof {
                if all_digits(d) {
                    lemma_digits_grow(d, (i - first + 1) as nat);
                    assert(digits_value(d) > 255);
                }
                assert(byte_number(t) is None);
            }
            return None;
        }
        acc = next;
        i += 1;
    }
    assert(d.take(i - first) =~= d);
    Some(acc as u8)
}

/// Appending digits never makes the number smaller.
proof fn lemma_digits_grow(d: Seq<u8>, k: nat)
    requires
        k <= d.len(),
        forall|j: int| 0 <= j < d.len() ==> is_digit(#[trigger] d[j]),
    ensures
        digits_value(d.take(k as int)) <= digits_value(d),
    decreases d.len() - k,
{
    if k < d.len() {
        lemma_digits_grow(d, k + 1);
        assert(d.take(k as int + 1).drop_last() =~= d.take(k as int));
        assert(d.take(k as int + 1).last() == d[k as int]);
        assert forall|j: int| 0 <= j < d.take(k as int).len() implies is_digit(#[trigger] d.take(k as int)[j]) by {
            assert(d.take(k as int)[j] == d[j]);
        }
        lemma_digits_nonneg(d.take(k as int));
    } else {
        assert(d.take(k as int) =~= d);
    }
}

proof fn lemma_digits_nonneg(d: Seq<u8>)
    requires
        forall|j: int| 0 <= j < d.len() ==> is_digit(#[trigger] d[j]),
    ensures
        digits_value(d) >= 0,
    decreases d.len(),
{
    if d.len() > 0 {
        lemma_digits_nonneg(d.drop_last());
    }
}

impl Move {
    /// The move that the text `s` names, such as `c4` or `C4` for column 2,
    /// row 3; none if `s` names no move.
    pub fn from_text(s: &[u8]) -> (r: Option<Move>)
        ensures
            r == move_named(s@),
    {
        let mut i: usize = 0;
        while i < s.len()
            invariant
                i <= s@.len(),
                forall|j: int| 0 <= j < i ==> #[trigger] s@[j] < 128,
            decreases s@.len() - i,
        {
            if s[i] >= 128u8 {
                return None;
            }
            i += 1;
        }
        if s.len() == 0 {
            return None;
        }
        let c = s[0];
        let col = if 97u8 <= c && c <= 122u8 {
            c - 32u8
        } else {
            c
        };
        if !(65u8 <= col && col <= 90u8) {
            return None;
        }
        assert(s@.skip(1) =~= s@.drop_first());
        match parse_byte_number(s, 1) {
            Some(row) => if row >= 1 {
                Some(Move { x: col - 65u8, y: row - 1 })
            } else {
                None
            },
            None => None,
        }
    }
}

} // verus!
