use super::row_oriented_bit_board::{row_bit, RowOrientedBitBoardFromStrError, OFFSET_X};
use super::BOARD_WIDTH;
use vstd::prelude::*;

verus! {

/// Unicode whitespace (the White_Space property): what trimming removes from
/// the ends of a grid text.
pub open spec fn is_space(c: char) -> bool {
    let u = c as u32;
    (0x9 <= u && u <= 0xd) || u == 0x20 || u == 0x85 || u == 0xa0 || u == 0x1680 || (0x2000 <= u
        && u <= 0x200a) || u == 0x2028 || u == 0x2029 || u == 0x202f || u == 0x205f || u == 0x3000
}

/// `t` without its leading whitespace.
pub open spec fn trim_front(t: Seq<char>) -> Seq<char>
    decreases t.len(),
{
    if t.len() > 0 && is_space(t.first()) {
        trim_front(t.drop_first())
    } else {
        t
    }
}

/// `t` without its trailing whitespace.
pub open spec fn trim_back(t: Seq<char>) -> Seq<char>
    decreases t.len(),
{
    if t.len() > 0 && is_space(t.last()) {
        trim_back(t.drop_last())
    } else {
        t
    }
}

/// `t` without leading and trailing whitespace.
pub open spec fn trim(t: Seq<char>) -> Seq<char> {
    trim_back(trim_front(t))
}

/// A line without its single trailing carriage return, if it has one: line
/// splitting treats a carriage return directly before a newline as part of
/// the line ending.
pub open spec fn strip_cr(v: Seq<char>) -> Seq<char> {
    if v.len() > 0 && v.last() == '\r' {
        v.drop_last()
    } else {
        v
    }
}

/// The lines of `t`, split at newlines or at carriage-return-newline pairs,
/// with no final empty line for a trailing line ending.
pub open spec fn split_lines(t: Seq<char>) -> Seq<Seq<char>>
    decreases t.len(),
{
    if t.len() == 0 {
        Seq::empty()
    } else if t.first() == '\n' {
        seq![Seq::<char>::empty()] + split_lines(t.skip(1))
    } else if t.first() == '\r' && t.len() >= 2 && t[1] == '\n' {
        seq![Seq::<char>::empty()] + split_lines(t.skip(2))
    } else {
        let rest = split_lines(t.skip(1));
        if rest.len() == 0 {
            seq![seq![t.first()]]
        } else {
            seq![seq![t.first()] + rest.first()] + rest.drop_first()
        }
    }
}

/// Character of an occupied cell.
pub open spec fn occupied_char(c: char) -> bool {
    c == '#' || c == 'X'
}

/// Character of an empty cell.
pub open spec fn empty_char(c: char) -> bool {
    c == '.' || c == '_'
}

/// Characters a grid line may hold.
pub open spec fn valid_cell_char(c: char) -> bool {
    occupied_char(c) || empty_char(c)
}

/// The first character of `line` that is not a valid cell symbol.
pub open spec fn first_invalid(line: Seq<char>) -> Option<char>
    decreases line.len(),
{
    if line.len() == 0 {
        None
    } else if !valid_cell_char(line.first()) {
        Some(line.first())
    } else {
        first_invalid(line.drop_first())
    }
}

/// The error a single grid line produces: a wrong width, else its first
/// invalid character, else none.
pub open spec fn line_error(line: Seq<char>) -> Option<RowOrientedBitBoardFromStrError> {
    if line.len() != BOARD_WIDTH {
        Some(RowOrientedBitBoardFromStrError::InvalidLineWidth(line.len() as usize))
    } else {
        match first_invalid(line) {
            Some(c) => Some(RowOrientedBitBoardFromStrError::InvalidChar(c)),
            None => None,
        }
    }
}

/// The error parsing reports for the bottom-to-top lines `rls` with `room`
/// board rows still free: the first bad line among those that fit, else too
/// many lines for a board with ceiling `ceiling`.
pub open spec fn scan_error(rls: Seq<Seq<char>>, room: nat, ceiling: usize) -> Option<
    RowOrientedBitBoardFromStrError,
>
    decreases rls.len(),
{
    if rls.len() == 0 {
        None
    } else if room == 0 {
        Some(RowOrientedBitBoardFromStrError::ExceedBoardCeiling(ceiling))
    } else if line_error(rls.first()) is Some {
        line_error(rls.first())
    } else {
        scan_error(rls.drop_first(), (room - 1) as nat, ceiling)
    }
}

/// The text of one row: ten cells left to right, `'#'` for occupied and `'.'`
/// for empty, wall bits never rendered.
pub open spec fn render_row(row: u16) -> Seq<char> {
    Seq::new(
        BOARD_WIDTH as nat,
        |x: int|
            if row_bit(row, (x + OFFSET_X as int) as u16) {
                '#'
            } else {
                '.'
            },
    )
}

/// The text of a whole board: rows top to bottom, each followed by a newline.
pub open spec fn render_grid(rows: Seq<u16>) -> Seq<char>
    decreases rows.len(),
{
    if rows.len() == 0 {
        Seq::empty()
    } else {
        render_row(rows.last()) + seq!['\n'] + render_grid(rows.drop_last())
    }
}

/// Lines top to bottom, each terminated by a newline, as one text.
pub open spec fn join_lines(ls: Seq<Seq<char>>) -> Seq<char>
    decreases ls.len(),
{
    if ls.len() == 0 {
        Seq::empty()
    } else {
        ls.first() + seq!['\n'] + join_lines(ls.drop_first())
    }
}

/// A line of a canonical grid text: exactly ten characters, each `'#'` or
/// `'.'`.
pub open spec fn canonical_line(l: Seq<char>) -> bool {
    l.len() == BOARD_WIDTH && forall|j: int|
        0 <= j < l.len() ==> ((#[trigger] l[j]) == '#' || l[j] == '.')
}

/// The line segments that the index pairs `bounds` cut out of `t`.
pub open spec fn lines_of(bounds: Seq<(usize, usize)>, t: Seq<char>) -> Seq<Seq<char>> {
    Seq::new(bounds.len(), |i: int| t.subrange(bounds[i].0 as int, bounds[i].1 as int))
}

/// Whether `c` is Unicode whitespace.
pub fn is_space_char(c: char) -> (b: bool)
    ensures
        b == is_space(c),
{
    let u = c as u32;
    (0x9 <= u && u <= 0xd) || u == 0x20 || u == 0x85 || u == 0xa0 || u == 0x1680 || (0x2000 <= u
        && u <= 0x200a) || u == 0x2028 || u == 0x2029 || u == 0x202f || u == 0x205f || u == 0x3000
}

/// Trimming the front stops at index `k`, the first non-whitespace position.
pub proof fn lemma_trim_front_skip(t: Seq<char>, k: int)
    requires
        0 <= k <= t.len(),
        forall|j: int| 0 <= j < k ==> is_space(#[trigger] t[j]),
        k < t.len() ==> !is_space(t[k]),
    ensures
        trim_front(t) == t.skip(k),
    decreases k,
{
    if k == 0 {
        assert(t.skip(0) =~= t);
    } else {
        assert(is_space(t.first()));
        let u = t.drop_first();
        assert forall|j: int| 0 <= j < k - 1 implies is_space(#[trigger] u[j]) by {
            assert(u[j] == t[j + 1]);
        }
        lemma_trim_front_skip(u, k - 1);
        assert(u.skip(k - 1) =~= t.skip(k));
    }
}

/// Trimming the back stops at index `k`, one past the last non-whitespace
/// position.
pub proof fn lemma_trim_back_take(t: Seq<char>, k: int)
    requires
        0 <= k <= t.len(),
        forall|j: int| k <= j < t.len() ==> is_space(#[trigger] t[j]),
        k > 0 ==> !is_space(t[k - 1]),
    ensures
        trim_back(t) == t.take(k),
    decreases t.len(),
{
    if k == t.len() {
        assert(t.take(k) =~= t);
    } else {
        assert(is_space(t.last()));
        let u = t.drop_last();
        lemma_trim_back_take(u, k);
        assert(u.take(k) =~= t.take(k));
    }
}

/// Splitting a text that starts with a newline-terminated line yields that
/// line, without a trailing carriage return, followed by the split of the
/// rest.
pub proof fn lemma_split_lines_terminated(v: Seq<char>, w: Seq<char>)
    requires
        forall|j: int| 0 <= j < v.len() ==> #[trigger] v[j] != '\n',
    ensures
        split_lines(v + seq!['\n'] + w) == seq![strip_cr(v)] + split_lines(w),
    decreases v.len(),
{
    let t = v + seq!['\n'] + w;
    if v.len() == 0 {
        assert(t =~= seq!['\n'] + w);
        assert(t.first() == '\n');
        assert(t.skip(1) =~= w);
        assert(split_lines(t) == seq![Seq::<char>::empty()] + split_lines(w));
        assert(strip_cr(v) =~= Seq::<char>::empty());
    } else if v.len() == 1 && v[0] == '\r' {
        assert(t.first() == '\r' && t.len() >= 2 && t[1] == '\n');
        assert(t.skip(2) =~= w);
        assert(split_lines(t) == seq![Seq::<char>::empty()] + split_lines(w));
        assert(strip_cr(v) =~= Seq::<char>::empty());
    } else {
        assert(t.first() == v[0]);
        assert(v[0] != '\n');
        if v.len() >= 2 {
            assert(t[1] == v[1]);
            assert(v[1] != '\n');
        } else {
            assert(v[0] != '\r');
        }
        let vd = v.drop_first();
        assert forall|j: int| 0 <= j < vd.len() implies #[trigger] vd[j] != '\n' by {
            assert(vd[j] == v[j + 1]);
        }
        lemma_split_lines_terminated(vd, w);
        assert(t.skip(1) =~= vd + seq!['\n'] + w);
        let rest = split_lines(t.skip(1));
        assert(rest == seq![strip_cr(vd)] + split_lines(w));
        assert(rest.len() > 0);
        assert(rest.first() == strip_cr(vd));
        assert(rest.drop_first() =~= split_lines(w));
        assert(seq![t.first()] + rest.first() =~= strip_cr(v));
        assert(split_lines(t) =~= seq![strip_cr(v)] + split_lines(w));
    }
}

/// Splitting a nonempty text without newlines yields that one line.
pub proof fn lemma_split_lines_unterminated(v: Seq<char>)
    requires
        v.len() > 0,
        forall|j: int| 0 <= j < v.len() ==> #[trigger] v[j] != '\n',
    ensures
        split_lines(v) == seq![v],
    decreases v.len(),
{
    if v.len() == 1 {
        assert(split_lines(v.skip(1)) == Seq::<Seq<char>>::empty());
        assert(seq![v.first()] =~= v);
    } else {
        let vd = v.drop_first();
        assert forall|j: int| 0 <= j < vd.len() implies #[trigger] vd[j] != '\n' by {
            assert(vd[j] == v[j + 1]);
        }
        assert(v[1] != '\n');
        lemma_split_lines_unterminated(vd);
        assert(v.skip(1) =~= vd);
        assert(seq![v.first()] + vd =~= v);
        assert(split_lines(v) =~= seq![v]);
    }
}

/// Rendering a nonempty row sequence renders the rows above the bottom row
/// first, then the bottom row's line.
pub proof fn lemma_render_grid_first(rows: Seq<u16>)
    requires
        rows.len() > 0,
    ensures
        render_grid(rows) == render_grid(rows.drop_first()) + render_row(rows.first())
            + seq!['\n'],
    decreases rows.len(),
{
    if rows.len() == 1 {
        assert(rows.drop_last() =~= Seq::<u16>::empty());
        assert(rows.drop_first() =~= Seq::<u16>::empty());
        assert(rows.last() == rows.first());
        assert(render_grid(rows) =~= render_grid(rows.drop_first()) + render_row(rows.first())
            + seq!['\n']);
    } else {
        let dl = rows.drop_last();
        lemma_render_grid_first(dl);
        assert(dl.first() == rows.first());
        assert(dl.drop_first() =~= rows.drop_first().drop_last());
        assert(rows.drop_first().last() == rows.last());
        assert(rows.drop_first().len() > 0);
        assert(render_grid(rows) =~= render_grid(rows.drop_first()) + render_row(rows.first())
            + seq!['\n']);
    }
}

/// Shape of a canonical grid text: eleven characters per line, a cell symbol
/// first, a newline last, and the last line's final cell symbol second to
/// last.
pub proof fn lemma_join_shape(ls: Seq<Seq<char>>)
    requires
        ls.len() > 0,
        forall|k: int| 0 <= k < ls.len() ==> canonical_line(#[trigger] ls[k]),
    ensures
        join_lines(ls).len() == 11 * ls.len(),
        join_lines(ls).first() == ls.first()[0],
        join_lines(ls).last() == '\n',
        join_lines(ls)[join_lines(ls).len() - 2] == ls.last()[BOARD_WIDTH - 1],
    decreases ls.len(),
{
    let t = join_lines(ls);
    assert(canonical_line(ls.first()));
    if ls.len() == 1 {
        assert(join_lines(ls.drop_first()).len() == 0);
        assert(t =~= ls.first() + seq!['\n']);
    } else {
        let rest = ls.drop_first();
        assert forall|k: int| 0 <= k < rest.len() implies canonical_line(#[trigger] rest[k]) by {
            assert(rest[k] == ls[k + 1]);
        }
        lemma_join_shape(rest);
        assert(rest.last() == ls.last());
        assert(t.len() == 11 + join_lines(rest).len());
        assert(t[t.len() - 1] == join_lines(rest)[join_lines(rest).len() - 1]);
        assert(t[t.len() - 2] == join_lines(rest)[join_lines(rest).len() - 2]);
    }
}

/// Splitting a canonical grid text whose final newline was trimmed away
/// recovers exactly its lines.
pub proof fn lemma_split_join_trimmed(ls: Seq<Seq<char>>)
    requires
        ls.len() > 0,
        forall|k: int| 0 <= k < ls.len() ==> canonical_line(#[trigger] ls[k]),
    ensures
        split_lines(join_lines(ls).drop_last()) == ls,
    decreases ls.len(),
{
    let l0 = ls.first();
    assert(canonical_line(l0));
    assert forall|j: int| 0 <= j < l0.len() implies (#[trigger] l0[j]) != '\n' by {
        assert(l0[j] == '#' || l0[j] == '.');
    }
    if ls.len() == 1 {
        assert(join_lines(ls.drop_first()).len() == 0);
        assert(join_lines(ls).drop_last() =~= l0);
        lemma_split_lines_unterminated(l0);
        assert(seq![l0] =~= ls);
    } else {
        let rest = ls.drop_first();
        assert forall|k: int| 0 <= k < rest.len() implies canonical_line(#[trigger] rest[k]) by {
            assert(rest[k] == ls[k + 1]);
        }
        lemma_join_shape(rest);
        assert(join_lines(ls).drop_last() =~= l0 + seq!['\n'] + join_lines(rest).drop_last());
        lemma_split_lines_terminated(l0, join_lines(rest).drop_last());
        assert(l0.last() == '#' || l0.last() == '.');
        assert(strip_cr(l0) =~= l0);
        lemma_split_join_trimmed(rest);
        assert(seq![l0] + rest =~= ls);
        assert(split_lines(join_lines(ls).drop_last()) =~= ls);
    }
}

/// A board whose rows render to the lines of a grid, bottom row to the last
/// line, renders as a whole to the joined grid text.
pub proof fn lemma_render_join(rows: Seq<u16>, ls: Seq<Seq<char>>)
    requires
        rows.len() == ls.len(),
        forall|k: int|
            0 <= k < rows.len() ==> render_row(#[trigger] rows[k]) == ls[rows.len() - 1 - k],
    ensures
        render_grid(rows) == join_lines(ls),
    decreases rows.len(),
{
    if rows.len() > 0 {
        let dl = rows.drop_last();
        let rest = ls.drop_first();
        assert(render_row(rows.last()) == ls.first());
        assert forall|k: int|
            0 <= k < dl.len() implies render_row(#[trigger] dl[k]) == rest[dl.len() - 1 - k] by {
            assert(dl[k] == rows[k]);
            assert(rest[dl.len() - 1 - k] == ls[rows.len() - 1 - k]);
        }
        lemma_render_join(dl, rest);
        assert(render_grid(rows) =~= join_lines(ls));
    }
}

/// The first invalid character of a line whose first `k` characters are
/// valid and whose character at `k` is not.
pub proof fn lemma_first_invalid_at(line: Seq<char>, k: int)
    requires
        0 <= k < line.len(),
        forall|j: int| 0 <= j < k ==> valid_cell_char(#[trigger] line[j]),
        !valid_cell_char(line[k]),
    ensures
        first_invalid(line) == Some(line[k]),
    decreases k,
{
    if k > 0 {
        let u = line.drop_first();
        assert forall|j: int| 0 <= j < k - 1 implies valid_cell_char(#[trigger] u[j]) by {
            assert(u[j] == line[j + 1]);
        }
        assert(u[k - 1] == line[k]);
        lemma_first_invalid_at(u, k - 1);
    }
}

/// A line of valid characters has no first invalid character.
pub proof fn lemma_first_invalid_none(line: Seq<char>)
    requires
        forall|j: int| 0 <= j < line.len() ==> valid_cell_char(#[trigger] line[j]),
    ensures
        first_invalid(line) is None,
    decreases line.len(),
{
    if line.len() > 0 {
        let u = line.drop_first();
        assert forall|j: int| 0 <= j < u.len() implies valid_cell_char(#[trigger] u[j]) by {
            assert(u[j] == line[j + 1]);
        }
        lemma_first_invalid_none(u);
    }
}

} // verus!
