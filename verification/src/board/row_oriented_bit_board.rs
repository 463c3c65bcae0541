use super::grid_text::{
    canonical_line, is_space, is_space_char, join_lines, lemma_first_invalid_at,
    lemma_first_invalid_none, lemma_join_shape, lemma_render_grid_first, lemma_render_join,
    lemma_split_join_trimmed, lemma_split_lines_terminated, lemma_split_lines_unterminated,
    lemma_trim_back_take, lemma_trim_front_skip, line_error, lines_of, occupied_char, render_grid,
    render_row, scan_error, split_lines, strip_cr, trim, valid_cell_char,
};
use super::Board;
use super::BOARD_WIDTH;
use crate::location::Location;
use vstd::prelude::*;
use vstd::string::{StrSliceExecFns, StringExecFns};

verus! {

/// Row with every playable bit clear and every wall bit set.
pub const EMPTY_ROW: u16 = 0b1110_0000_0000_0111;

/// Row with every bit set: all ten playable cells occupied.
pub const FILLED_ROW: u16 = 0b1111_1111_1111_1111;

/// Width of the left wall margin: the bit for playable column `x` sits at
/// position `x + OFFSET_X`.
pub const OFFSET_X: i8 = 3;

/// The bit of `row` at position `pos`, as a boolean.
pub open spec fn row_bit(row: u16, pos: u16) -> bool {
    (row >> pos) & 1 == 1
}

/// A row keeps its six wall bits (the three lowest and the three highest)
/// permanently set.
pub open spec fn walls_set(row: u16) -> bool {
    row & EMPTY_ROW == EMPTY_ROW
}

/// Fixed-capacity board of `C` rows, each row a 16-bit pattern: ten playable
/// bits flanked by permanently set wall bits. Row index 0 is the bottom row.
#[derive(Debug, Clone, PartialEq, Eq, PartialOrd, Ord)]
pub struct RowOrientedBitBoard<const C: usize> {
    rows: [u16; C],
}

impl<const C: usize> View for RowOrientedBitBoard<C> {
    type V = Seq<u16>;

    closed spec fn view(&self) -> Seq<u16> {
        self.rows@
    }
}

impl<const C: usize> RowOrientedBitBoard<C> {
    /// Every row keeps its wall bits set.
    pub open spec fn wf(self) -> bool {
        forall|i: int| 0 <= i < C ==> walls_set(#[trigger] self@[i])
    }

    /// Occupancy of the cell at `(x, y)`: solid floor below the board, open
    /// space above it, the stored bit otherwise (wall bits included for
    /// out-of-width `x`).
    pub open spec fn cell(self, x: int, y: int) -> bool {
        if y < 0 {
            true
        } else if y >= C {
            false
        } else {
            row_bit(self@[y], (x + OFFSET_X) as u16)
        }
    }

    /// Create a board with every playable cell empty.
    pub fn new() -> (board: Self)
        ensures
            board@ =~= Seq::new(C as nat, |i: int| EMPTY_ROW),
            board.wf(),
            forall|x: int, y: int|
                0 <= x < BOARD_WIDTH && 0 <= y ==> !#[trigger] board.cell(x, y),
    {
        let board = Self { rows: [EMPTY_ROW; C] };
        proof {
            lemma_empty_row_bits();
            assert forall|x: int, y: int|
                0 <= x < BOARD_WIDTH && 0 <= y implies !#[trigger] board.cell(x, y) by {
                if y < C {
                    assert(board@[y] == EMPTY_ROW);
                }
            }
        }
        board
    }
}

/// Why a text grid fails to parse into a board.
#[derive(Debug, PartialEq, Eq, PartialOrd, Ord)]
pub enum RowOrientedBitBoardFromStrError {
    /// A grid character outside the accepted occupied/empty symbol set.
    InvalidChar(char),
    /// More input rows than the board's fixed capacity.
    ExceedBoardCeiling(usize),
    /// A text line whose length does not match the fixed playable width.
    InvalidLineWidth(usize),
}

/// The rows a line clear keeps: every row that is not fully occupied, in
/// their original bottom-to-top order.
pub open spec fn kept_rows(rows: Seq<u16>) -> Seq<u16> {
    rows.filter(|r: u16| r != FILLED_ROW)
}

impl<const C: usize> Board for RowOrientedBitBoard<C> {
    /// false: empty cell, true: filled cell
    type Cell = bool;

    open spec fn capacity(&self) -> nat {
        C as nat
    }

    open spec fn inv(&self) -> bool {
        self.wf()
    }

    open spec fn get_req(&self, location: Location) -> bool {
        -(OFFSET_X as int) <= (location.x as int) < 16 - (OFFSET_X as int)
    }

    open spec fn get_ens(&self, location: Location, cell: bool) -> bool {
        cell == self.cell(location.x as int, location.y as int)
    }

    open spec fn set_req(&self, location: Location, cell: bool) -> bool {
        &&& 0 <= (location.x as int) < (BOARD_WIDTH as int)
        &&& location.y >= 0
    }

    open spec fn set_ens(&self, post: Self, location: Location, cell: bool, prev: bool) -> bool {
        let x = location.x as int;
        let y = location.y as int;
        &&& prev == self.cell(x, y)
        &&& y < C ==> post.cell(x, y) == cell
        &&& y >= C ==> post@ == self@
        &&& forall|i: int, j: int|
            -(OFFSET_X as int) <= i < BOARD_WIDTH as int + OFFSET_X as int && !(i == x && j == y)
                ==> #[trigger] post.cell(i, j) == self.cell(i, j)
    }

    open spec fn erase_ens(&self, post: Self, erased: usize) -> bool {
        &&& post@ == kept_rows(self@) + Seq::new(erased as nat, |i: int| EMPTY_ROW)
        &&& erased as nat == C - kept_rows(self@).len()
    }

    fn ceil(&self) -> (r: usize)
        ensures
            r == C,
    {
        C
    }

    fn get(&self, location: Location) -> (cell: bool) {
        if location.y < 0 {
            return true;
        }
        let y = location.y as usize;
        if y >= C {
            return false;
        }
        let pos = location.x + OFFSET_X;
        get_bit_at(self.rows[y], pos)
    }

    fn set(&mut self, location: Location, cell: bool) -> (prev: bool) {
        let y = location.y as usize;
        if y >= C {
            return false;
        }
        let pos = location.x + OFFSET_X;
        let mut row = self.rows[y];
        let prev = get_bit_at(row, pos);
        if cell {
            set_bit_at(&mut row, pos);
        } else {
            unset_bit_at(&mut row, pos);
        }
        self.rows[y] = row;
        proof {
            let x = location.x as int;
            assert(self@ =~= old(self)@.update(y as int, row));
            assert forall|i: int, j: int|
                -(OFFSET_X as int) <= i < BOARD_WIDTH as int + OFFSET_X as int && !(i == x && j
                    == y as int) implies #[trigger] self.cell(i, j) == old(self).cell(i, j) by {
                if 0 <= j < C {
                    if j == y as int {
                        assert((i + OFFSET_X) as u16 != (x + OFFSET_X) as u16);
                    } else {
                        assert(self@[j] == old(self)@[j]);
                    }
                }
            }
        }
        prev
    }

    fn erase_filled_lines(&mut self) -> (erased: usize) {
        let ghost orig = self@;
        let mut erased: usize = 0;
        let mut y: usize = 0;
        while y + erased < C
            invariant
                y + erased <= C,
                self@.len() == C,
                orig.len() == C,
                kept_rows(orig.subrange(0, (y + erased) as int)) == self@.subrange(0, y as int),
                self@.subrange(y as int, (C - erased) as int) == orig.subrange(
                    (y + erased) as int,
                    C as int,
                ),
                self.wf(),
            decreases C - y - erased,
        {
            if self.rows[y] == FILLED_ROW {
                let ghost pre = self@;
                let mut j = y;
                while j + 1 < C
                    invariant
                        y <= j < C,
                        self@.len() == C,
                        pre.len() == C,
                        forall|i: int| 0 <= i < y ==> self@[i] == pre[i],
                        forall|i: int| y <= i < j ==> self@[i] == pre[i + 1],
                        forall|i: int| j <= i < C ==> self@[i] == pre[i],
                        self.wf(),
                    decreases C - j,
                {
                    let v = self.rows[j + 1];
                    self.rows[j] = v;
                    j += 1;
                }
                proof {
                    let e = erased as int;
                    let yy = y as int;
                    let cc = C as int;
                    assert forall|i: int| yy <= i < cc - e implies pre[i] == orig[i + e] by {
                        assert(pre.subrange(yy, cc - e)[i - yy] == orig.subrange(yy + e, cc)[i
                            - yy]);
                    }
                    lemma_kept_snoc(orig.subrange(0, yy + e + 1));
                    assert(orig.subrange(0, yy + e + 1).drop_last() =~= orig.subrange(0, yy + e));
                    assert(orig.subrange(0, yy + e + 1).last() == orig[yy + e]);
                    assert(self@.subrange(0, yy) =~= pre.subrange(0, yy));
                    assert forall|i: int| yy <= i < cc - e - 1 implies #[trigger] self@[i]
                        == orig[i + e + 1] by {
                        assert(self@[i] == pre[i + 1]);
                        assert(pre[i + 1] == orig[i + 1 + e]);
                    }
                    assert(self@.subrange(yy, cc - e - 1) =~= orig.subrange(yy + e + 1, cc));
                }
                erased += 1;
            } else {
                proof {
                    let e = erased as int;
                    let yy = y as int;
                    let cc = C as int;
                    assert forall|i: int| yy <= i < cc - e implies #[trigger] self@[i] == orig[i
                        + e] by {
                        assert(self@.subrange(yy, cc - e)[i - yy] == orig.subrange(yy + e, cc)[i
                            - yy]);
                    }
                    lemma_kept_snoc(orig.subrange(0, (y + erased + 1) as int));
                    assert(orig.subrange(0, (y + erased + 1) as int).drop_last() =~= orig.subrange(
                        0,
                        (y + erased) as int,
                    ));
                    assert(self@[y as int] == orig[(y + erased) as int]);
                    assert(self@.subrange(0, (y + 1) as int) =~= self@.subrange(
                        0,
                        y as int,
                    ).push(self@[y as int]));
                    assert(self@.subrange((y + 1) as int, (C - erased) as int) =~= orig.subrange(
                        (y + 1 + erased) as int,
                        C as int,
                    ));
                }
                y += 1;
            }
        }
        proof {
            assert(orig.subrange(0, C as int) =~= orig);
        }
        let mut k = y;
        while k < C
            invariant
                y <= k <= C,
                self@.len() == C,
                kept_rows(orig) == self@.subrange(0, y as int),
                forall|i: int| y <= i < k ==> self@[i] == EMPTY_ROW,
                self.wf(),
            decreases C - k,
        {
            proof {
                lemma_empty_row_bits();
            }
            self.rows[k] = EMPTY_ROW;
            k += 1;
        }
        proof {
            assert(self@ =~= kept_rows(orig) + Seq::new(erased as nat, |i: int| EMPTY_ROW));
        }
        erased
    }
}

/// Unfolds one step of `kept_rows`: the last row is kept exactly when it is
/// not the filled row.
proof fn lemma_kept_snoc(s: Seq<u16>)
    requires
        s.len() > 0,
    ensures
        kept_rows(s) == if s.last() == FILLED_ROW {
            kept_rows(s.drop_last())
        } else {
            kept_rows(s.drop_last()).push(s.last())
        },
{
    reveal(Seq::filter);
}

impl<const C: usize> RowOrientedBitBoard<C> {
    /// Reconstruct a board from a text grid: trimmed input, one line per row,
    /// lines top to bottom, the last line filling the bottom row. Fewer lines
    /// than `C` leave the upper rows empty; the exact error for a bad grid is
    /// the one `scan_error` names.
    pub fn from_str(s: &str) -> (r: Result<Self, RowOrientedBitBoardFromStrError>)
        ensures
            ({
                let rls = split_lines(trim(s@)).reverse();
                match r {
                    Ok(board) => {
                        &&& scan_error(rls, C as nat, C) is None
                        &&& board.wf()
                        &&& forall|x: int, y: int|
                            0 <= x < BOARD_WIDTH && 0 <= y < C ==> #[trigger] board.cell(x, y) == (
                            y < rls.len() && occupied_char(rls[y][x]))
                    },
                    Err(e) => scan_error(rls, C as nat, C) == Some(e),
                }
            }),
    {
        let n = s.unicode_len();
        let mut chars: Vec<char> = Vec::new();
        let mut idx: usize = 0;
        while idx < n
            invariant
                n == s@.len(),
                idx <= n,
                chars@ == s@.subrange(0, idx as int),
            decreases n - idx,
        {
            let c = s.get_char(idx);
            chars.push(c);
            proof {
                assert(chars@ =~= s@.subrange(0, idx + 1));
            }
            idx += 1;
        }
        proof {
            assert(chars@ =~= s@);
        }
        let mut lo: usize = 0;
        while lo < n && is_space_char(chars[lo])
            invariant
                lo <= n,
                n == s@.len(),
                chars@ == s@,
                forall|j: int| 0 <= j < lo ==> is_space(#[trigger] s@[j]),
            decreases n - lo,
        {
            lo += 1;
        }
        let mut hi: usize = n;
        while hi > lo && is_space_char(chars[hi - 1])
            invariant
                lo <= hi <= n,
                n == s@.len(),
                chars@ == s@,
                forall|j: int| hi <= j < n ==> is_space(#[trigger] s@[j]),
            decreases hi,
        {
            hi -= 1;
        }
        proof {
            lemma_trim_front_skip(s@, lo as int);
            let u = s@.skip(lo as int);
            assert forall|j: int| (hi - lo) <= j < u.len() implies is_space(#[trigger] u[j]) by {
                assert(u[j] == s@[lo + j]);
            }
            if hi > lo {
                assert(u[hi - lo - 1] == s@[hi - 1]);
            }
            lemma_trim_back_take(u, hi - lo);
            assert(u.take(hi - lo) =~= s@.subrange(lo as int, hi as int));
        }
        let ghost tr = trim(s@);
        let mut bounds: Vec<(usize, usize)> = Vec::new();
        let mut line_start: usize = lo;
        let mut i: usize = lo;
        while i < hi
            invariant
                lo <= line_start <= i <= hi <= n,
                n == s@.len(),
                chars@ == s@,
                tr == s@.subrange(lo as int, hi as int),
                forall|j: int| line_start <= j < i ==> #[trigger] s@[j] != '\n',
                split_lines(tr) == lines_of(bounds@, s@) + split_lines(
                    s@.subrange(line_start as int, hi as int),
                ),
                forall|k: int|
                    0 <= k < bounds@.len() ==> lo <= (#[trigger] bounds@[k]).0
                        <= bounds@[k].1 <= hi,
            decreases hi - i,
        {
            let c = chars[i];
            if c == '\n' {
                let mut e = i;
                if e > line_start && chars[e - 1] == '\r' {
                    e -= 1;
                }
                let ghost bs = bounds@;
                proof {
                    let v = s@.subrange(line_start as int, i as int);
                    let w = s@.subrange(i + 1, hi as int);
                    assert(s@.subrange(line_start as int, hi as int) =~= v + seq!['\n'] + w);
                    assert forall|j: int| 0 <= j < v.len() implies #[trigger] v[j] != '\n' by {
                        assert(v[j] == s@[line_start + j]);
                    }
                    lemma_split_lines_terminated(v, w);
                    assert(strip_cr(v) =~= s@.subrange(line_start as int, e as int));
                }
                bounds.push((line_start, e));
                proof {
                    let v = s@.subrange(line_start as int, i as int);
                    let w = s@.subrange(i + 1, hi as int);
                    assert(lines_of(bounds@, s@) =~= lines_of(bs, s@).push(
                        s@.subrange(line_start as int, e as int),
                    ));
                    assert(split_lines(tr) =~= lines_of(bounds@, s@) + split_lines(w));
                    assert(w =~= s@.subrange(i + 1, hi as int));
                }
                line_start = i + 1;
            }
            i += 1;
        }
        if line_start < hi {
            let ghost bs = bounds@;
            proof {
                let v = s@.subrange(line_start as int, hi as int);
                assert forall|j: int| 0 <= j < v.len() implies #[trigger] v[j] != '\n' by {
                    assert(v[j] == s@[line_start + j]);
                }
                lemma_split_lines_unterminated(v);
            }
            bounds.push((line_start, hi));
            proof {
                assert(lines_of(bounds@, s@) =~= lines_of(bs, s@).push(
                    s@.subrange(line_start as int, hi as int),
                ));
                assert(split_lines(tr) =~= lines_of(bounds@, s@));
            }
        } else {
            proof {
                assert(s@.subrange(line_start as int, hi as int) =~= Seq::<char>::empty());
                assert(split_lines(tr) =~= lines_of(bounds@, s@));
            }
        }
        let nlines = bounds.len();
        let ghost rls = split_lines(tr).reverse();
        proof {
            assert(rls.len() == nlines);
        }
        let mut board = Self::new();
        proof {
            assert(rls.skip(0) =~= rls);
        }
        let mut k: usize = 0;
        while k < C && k < nlines
            invariant
                k <= C,
                k <= nlines,
                n == s@.len(),
                chars@ == s@,
                nlines == bounds@.len(),
                rls == split_lines(trim(s@)).reverse(),
                split_lines(trim(s@)) == lines_of(bounds@, s@),
                rls.len() == nlines,
                forall|kk: int|
                    0 <= kk < bounds@.len() ==> (#[trigger] bounds@[kk]).0 <= bounds@[kk].1 <= n,
                scan_error(rls, C as nat, C) == scan_error(
                    rls.skip(k as int),
                    (C - k) as nat,
                    C,
                ),
                board@.len() == C,
                board.wf(),
                forall|xx: int, yy: int|
                    0 <= xx < BOARD_WIDTH && 0 <= yy < k ==> #[trigger] row_bit(
                        board@[yy],
                        (xx + OFFSET_X as int) as u16,
                    ) == occupied_char(rls[yy][xx]),
                forall|yy: int| k <= yy < C ==> board@[yy] == EMPTY_ROW,
            decreases nlines - k,
        {
            let pair = bounds[nlines - 1 - k];
            let a = pair.0;
            let b = pair.1;
            let ghost line = rls[k as int];
            proof {
                assert(line == lines_of(bounds@, s@)[nlines - 1 - k]);
                assert(line == s@.subrange(a as int, b as int));
                assert(rls.skip(k as int).len() > 0);
                assert(rls.skip(k as int).first() == line);
            }
            let width = b - a;
            if width != BOARD_WIDTH {
                proof {
                    assert(line.len() != BOARD_WIDTH);
                    assert(line_error(line) == Some(
                        RowOrientedBitBoardFromStrError::InvalidLineWidth(width),
                    ));
                }
                return Err(RowOrientedBitBoardFromStrError::InvalidLineWidth(width));
            }
            let mut row: u16 = EMPTY_ROW;
            proof {
                lemma_empty_row_bits();
            }
            let mut x: usize = 0;
            while x < BOARD_WIDTH
                invariant
                    x <= BOARD_WIDTH,
                    k < C,
                    rls == split_lines(trim(s@)).reverse(),
                    scan_error(rls, C as nat, C) == scan_error(
                        rls.skip(k as int),
                        (C - k) as nat,
                        C,
                    ),
                    rls.skip(k as int).len() > 0,
                    rls.skip(k as int).first() == line,
                    a + BOARD_WIDTH == b,
                    b <= n,
                    n == s@.len(),
                    chars@ == s@,
                    line == s@.subrange(a as int, b as int),
                    line.len() == BOARD_WIDTH,
                    forall|j: int| 0 <= j < x ==> valid_cell_char(#[trigger] line[j]),
                    walls_set(row),
                    forall|xx: int|
                        0 <= xx < x ==> #[trigger] row_bit(row, (xx + OFFSET_X as int) as u16)
                            == occupied_char(line[xx]),
                    forall|q: u16|
                        q < 16 && !((OFFSET_X as int) <= (q as int) && (q as int) < x + OFFSET_X as int)
                            ==> #[trigger] row_bit(row, q) == row_bit(EMPTY_ROW, q),
                decreases BOARD_WIDTH - x,
            {
                let c = chars[a + x];
                proof {
                    assert(line[x as int] == s@[a + x]);
                }
                if c == '#' || c == 'X' {
                    set_bit_at(&mut row, x as i8 + OFFSET_X);
                    proof {
                        assert(occupied_char(line[x as int]));
                        assert(row_bit(row, (x as int + OFFSET_X as int) as u16));
                    }
                } else if c == '.' || c == '_' {
                    proof {
                        lemma_empty_row_bits();
                        assert(!occupied_char(line[x as int]));
                        assert(row_bit(row, (x as int + OFFSET_X as int) as u16) == row_bit(
                            EMPTY_ROW,
                            (x as int + OFFSET_X as int) as u16,
                        ));
                    }
                } else {
                    proof {
                        lemma_first_invalid_at(line, x as int);
                        assert(line_error(line) == Some(
                            RowOrientedBitBoardFromStrError::InvalidChar(c),
                        ));
                    }
                    return Err(RowOrientedBitBoardFromStrError::InvalidChar(c));
                }
                x += 1;
            }
            proof {
                lemma_first_invalid_none(line);
                assert(line_error(line) is None);
            }
            let ghost pre = board@;
            board.rows[k] = row;
            proof {
                assert(board@ =~= pre.update(k as int, row));
                lemma_empty_row_bits();
                assert forall|xx: int, yy: int|
                    0 <= xx < BOARD_WIDTH && 0 <= yy < k + 1 implies #[trigger] row_bit(
                    board@[yy],
                    (xx + OFFSET_X as int) as u16,
                ) == occupied_char(rls[yy][xx]) by {
                    if yy == k as int {
                        assert(board@[yy] == row);
                        assert(row_bit(row, (xx + OFFSET_X as int) as u16) == occupied_char(
                            line[xx],
                        ));
                    } else {
                        assert(board@[yy] == pre[yy]);
                        assert(row_bit(pre[yy], (xx + OFFSET_X as int) as u16) == occupied_char(
                            rls[yy][xx],
                        ));
                    }
                }
                assert(scan_error(rls.skip(k as int), (C - k) as nat, C) == scan_error(
                    rls.skip(k as int).drop_first(),
                    (C - k - 1) as nat,
                    C,
                ));
                assert(rls.skip(k as int).drop_first() =~= rls.skip(k + 1));
            }
            k += 1;
        }
        if nlines > C {
            proof {
                assert(rls.skip(C as int).len() > 0);
            }
            return Err(RowOrientedBitBoardFromStrError::ExceedBoardCeiling(C));
        }
        proof {
            assert(k == nlines);
            assert(rls.skip(nlines as int).len() == 0);
            assert(scan_error(rls.skip(nlines as int), (C - nlines) as nat, C) is None);
            lemma_empty_row_bits();
            assert forall|x: int, y: int|
                0 <= x < BOARD_WIDTH && 0 <= y < C implies #[trigger] board.cell(x, y) == (y
                < rls.len() && occupied_char(rls[y][x])) by {
                if y >= nlines {
                    assert(board@[y] == EMPTY_ROW);
                } else {
                    assert(row_bit(board@[y], (x + OFFSET_X as int) as u16) == occupied_char(
                        rls[y][x],
                    ));
                }
            }
        }
        Ok(board)
    }
}

impl<const C: usize> RowOrientedBitBoard<C> {
    /// Render the board as a text grid: rows top to bottom, one character per
    /// playable column, `'#'` for occupied and `'.'` for empty, each row
    /// followed by a newline. Wall bits are never rendered.
    pub fn render(&self) -> (s: String)
        ensures
            s@ == render_grid(self@),
    {
        let mut out = String::new();
        proof {
            assert(self@.skip(C as int) =~= Seq::<u16>::empty());
        }
        let mut y = C;
        while y > 0
            invariant
                y <= C,
                self@.len() == C,
                out@ == render_grid(self@.skip(y as int)),
            decreases y,
        {
            y -= 1;
            let row = self.rows[y];
            let ghost prefix = out@;
            let mut x: usize = 0;
            while x < BOARD_WIDTH
                invariant
                    x <= BOARD_WIDTH,
                    out@ == prefix + render_row(row).take(x as int),
                decreases BOARD_WIDTH - x,
            {
                let b = get_bit_at(row, x as i8 + OFFSET_X);
                if b {
                    out.append("#");
                    proof {
                        reveal_strlit("#");
                        assert(render_row(row)[x as int] == '#');
                        assert(prefix + render_row(row).take(x as int) + "#"@ =~= prefix
                            + render_row(row).take(x as int + 1));
                    }
                } else {
                    out.append(".");
                    proof {
                        reveal_strlit(".");
                        assert(render_row(row)[x as int] == '.');
                        assert(prefix + render_row(row).take(x as int) + "."@ =~= prefix
                            + render_row(row).take(x as int + 1));
                    }
                }
                x += 1;
            }
            out.append("\n");
            proof {
                reveal_strlit("\n");
                assert(render_row(row).take(BOARD_WIDTH as int) =~= render_row(row));
                lemma_render_grid_first(self@.skip(y as int));
                assert(self@.skip(y as int).drop_first() =~= self@.skip(y as int + 1));
                assert(self@.skip(y as int).first() == self@[y as int]);
                assert("\n"@ =~= seq!['\n']);
                assert(out@ =~= render_grid(self@.skip(y as int)));
            }
        }
        proof {
            assert(self@.skip(0) =~= self@);
        }
        out
    }
}

impl<const C: usize> Default for RowOrientedBitBoard<C> {
    fn default() -> (board: Self)
        ensures
            board@ =~= Seq::new(C as nat, |i: int| EMPTY_ROW),
            board.wf(),
    {
        Self::new()
    }
}

/// The bit of `row` at position `x`.
pub fn get_bit_at(row: u16, x: i8) -> (b: bool)
    requires
        0 <= x < 16,
    ensures
        b == row_bit(row, x as u16),
{
    let pos = x as u16;
    proof {
        assert((((row >> pos) & 1 != 0) == row_bit(row, pos))) by (bit_vector);
    }
    (row >> pos) & 1 != 0
}

/// Set the bit of `row` at position `x`, leaving every other bit unchanged.
pub fn set_bit_at(row: &mut u16, x: i8)
    requires
        0 <= x < 16,
    ensures
        forall|q: u16| q < 16 ==> #[trigger] row_bit(*final(row), q) == (q == x || row_bit(
            *old(row),
            q,
        )),
        walls_set(*old(row)) ==> walls_set(*final(row)),
{
    proof {
        lemma_or_bit(*row, x as u16);
    }
    *row |= 1u16 << (x as u16);
}

/// Clear the bit of `row` at position `x`, leaving every other bit unchanged.
pub fn unset_bit_at(row: &mut u16, x: i8)
    requires
        0 <= x < 16,
    ensures
        forall|q: u16| q < 16 ==> #[trigger] row_bit(*final(row), q) == (q != x && row_bit(
            *old(row),
            q,
        )),
        walls_set(*old(row)) && OFFSET_X <= x < OFFSET_X + BOARD_WIDTH ==> walls_set(*final(row)),
{
    proof {
        lemma_and_not_bit(*row, x as u16);
    }
    *row &= !(1u16 << (x as u16));
}

/// Positions 3 to 12 of the empty row are clear; its wall bits are set.
pub proof fn lemma_empty_row_bits()
    by (bit_vector)
    ensures
        forall|q: u16| q < 16 ==> #[trigger] row_bit(EMPTY_ROW, q) == (q < 3 || 13 <= q),
        walls_set(EMPTY_ROW),
{
}

proof fn lemma_or_bit(row: u16, pos: u16)
    by (bit_vector)
    requires
        pos < 16,
    ensures
        forall|q: u16| q < 16 ==> #[trigger] row_bit(row | (1u16 << pos), q) == (q == pos
            || row_bit(row, q)),
        walls_set(row) ==> walls_set(row | (1u16 << pos)),
{
}

proof fn lemma_and_not_bit(row: u16, pos: u16)
    by (bit_vector)
    requires
        pos < 16,
    ensures
        forall|q: u16| q < 16 ==> #[trigger] row_bit(row & !(1u16 << pos), q) == (q != pos
            && row_bit(row, q)),
        walls_set(row) && 3 <= pos < 13 ==> walls_set(row & !(1u16 << pos)),
{
}

/// The ceiling a board answers is the construction capacity `C` for every
/// board value, so no sequence of `set` or `erase_filled_lines` calls can
/// change it.
pub proof fn lemma_ceiling_constant<const C: usize>(board: RowOrientedBitBoard<C>)
    ensures
        board.capacity() == C as nat,
        board@.len() == C,
{
}

/// Every location below the floor reads as occupied, whatever the board
/// holds.
pub proof fn lemma_below_floor_occupied<const C: usize>(
    board: RowOrientedBitBoard<C>,
    x: int,
    y: int,
)
    requires
        y < 0,
    ensures
        board.cell(x, y),
{
}

/// Within the board's rows, the wall columns flanking the playable width
/// always read as occupied, whatever the board holds.
pub proof fn lemma_wall_columns_occupied<const C: usize>(
    board: RowOrientedBitBoard<C>,
    x: int,
    y: int,
)
    requires
        board.wf(),
        0 <= y < C,
        (-(OFFSET_X as int) <= x && x < 0) || (BOARD_WIDTH <= x && x < 16 - OFFSET_X as int),
    ensures
        board.cell(x, y),
{
    lemma_walls_bits(board@[y], (x + OFFSET_X) as u16);
}

proof fn lemma_walls_bits(row: u16, pos: u16)
    by (bit_vector)
    requires
        walls_set(row),
        pos < 3 || (13 <= pos && pos < 16),
    ensures
        row_bit(row, pos),
{
}

/// Every location at or above the ceiling reads as empty, whatever the board
/// holds.
pub proof fn lemma_above_ceiling_empty<const C: usize>(
    board: RowOrientedBitBoard<C>,
    x: int,
    y: int,
)
    requires
        y >= C,
    ensures
        !board.cell(x, y),
{
}

/// A line clear on a board with no fully occupied row erases nothing and
/// leaves the board unchanged; in particular on an all-empty board.
pub proof fn lemma_erase_on_empty_board<const C: usize>(
    pre: RowOrientedBitBoard<C>,
    post: RowOrientedBitBoard<C>,
    erased: usize,
)
    requires
        forall|i: int| 0 <= i < C ==> #[trigger] pre@[i] != FILLED_ROW,
        pre.erase_ens(post, erased),
    ensures
        erased == 0,
        post@ == pre@,
{
    lemma_kept_all(pre@);
    assert(pre@ + Seq::new(0, |i: int| EMPTY_ROW) =~= pre@);
}

/// A line clear on an all-filled board erases all `C` rows and leaves the
/// board entirely empty.
pub proof fn lemma_erase_on_filled_board<const C: usize>(
    pre: RowOrientedBitBoard<C>,
    post: RowOrientedBitBoard<C>,
    erased: usize,
)
    requires
        forall|i: int| 0 <= i < C ==> #[trigger] pre@[i] == FILLED_ROW,
        pre.erase_ens(post, erased),
    ensures
        erased == C,
        forall|i: int| 0 <= i < C ==> #[trigger] post@[i] == EMPTY_ROW,
{
    lemma_kept_none(pre@);
    assert forall|i: int| 0 <= i < C implies #[trigger] post@[i] == EMPTY_ROW by {
        assert(post@[i] == Seq::new(erased as nat, |k: int| EMPTY_ROW)[i]);
    }
}

/// A filter that keeps every row is the identity.
proof fn lemma_kept_all(rows: Seq<u16>)
    requires
        forall|i: int| 0 <= i < rows.len() ==> #[trigger] rows[i] != FILLED_ROW,
    ensures
        kept_rows(rows) == rows,
    decreases rows.len(),
{
    reveal(Seq::filter);
    if rows.len() > 0 {
        let dl = rows.drop_last();
        assert forall|i: int| 0 <= i < dl.len() implies #[trigger] dl[i] != FILLED_ROW by {
            assert(dl[i] == rows[i]);
        }
        lemma_kept_all(dl);
        assert(kept_rows(rows) =~= rows);
    }
}

/// A filter that keeps no row yields the empty sequence.
proof fn lemma_kept_none(rows: Seq<u16>)
    requires
        forall|i: int| 0 <= i < rows.len() ==> #[trigger] rows[i] == FILLED_ROW,
    ensures
        kept_rows(rows) == Seq::<u16>::empty(),
    decreases rows.len(),
{
    reveal(Seq::filter);
    if rows.len() > 0 {
        let dl = rows.drop_last();
        assert forall|i: int| 0 <= i < dl.len() implies #[trigger] dl[i] == FILLED_ROW by {
            assert(dl[i] == rows[i]);
        }
        lemma_kept_none(dl);
    }
}

/// Round trip: a board successfully parsed from a text of exactly `C`
/// newline-terminated grid lines of `'#'` and `'.'` renders back to that
/// exact text, and parsing sees exactly those lines.
pub proof fn lemma_parse_render_round_trip<const C: usize>(
    board: RowOrientedBitBoard<C>,
    ls: Seq<Seq<char>>,
    t: Seq<char>,
)
    requires
        ls.len() == C,
        forall|k: int| 0 <= k < ls.len() ==> canonical_line(#[trigger] ls[k]),
        t == join_lines(ls),
        board.wf(),
        forall|x: int, y: int|
            0 <= x < BOARD_WIDTH && 0 <= y < C ==> #[trigger] board.cell(x, y) == (y
                < split_lines(trim(t)).reverse().len() && occupied_char(
                split_lines(trim(t)).reverse()[y][x],
            )),
    ensures
        split_lines(trim(t)) == ls,
        render_grid(board@) == t,
{
    if C == 0 {
        assert(t =~= Seq::<char>::empty());
        assert(trim(t) == t);
        assert(split_lines(t) =~= Seq::<Seq<char>>::empty());
        assert(board@.len() == 0);
        assert(render_grid(board@) =~= t);
    } else {
        lemma_join_shape(ls);
        assert(canonical_line(ls.first()));
        assert(ls.first()[0] == '#' || ls.first()[0] == '.');
        lemma_trim_front_skip(t, 0);
        assert(t.skip(0) =~= t);
        assert(canonical_line(ls.last()));
        assert(ls.last()[BOARD_WIDTH - 1] == '#' || ls.last()[BOARD_WIDTH - 1] == '.');
        assert forall|j: int| t.len() - 1 <= j < t.len() implies is_space(#[trigger] t[j]) by {
            assert(j == t.len() - 1);
            assert(t[j] == '\n');
        }
        lemma_trim_back_take(t, t.len() - 1);
        assert(t.take(t.len() - 1) =~= t.drop_last());
        lemma_split_join_trimmed(ls);
        assert(split_lines(trim(t)) == ls);
        let rls = ls.reverse();
        assert(rls.len() == C);
        assert forall|y: int| 0 <= y < C implies render_row(#[trigger] board@[y]) == ls[C - 1
            - y] by {
            let l = ls[C - 1 - y];
            assert(canonical_line(l));
            assert(rls[y] == l);
            assert forall|x: int| 0 <= x < BOARD_WIDTH implies render_row(board@[y])[x]
                == l[x] by {
                assert(board.cell(x, y) == occupied_char(rls[y][x]));
                assert(l[x] == '#' || l[x] == '.');
            }
            assert(render_row(board@[y]) =~= l);
        }
        lemma_render_join(board@, ls);
    }
}

} // verus!
