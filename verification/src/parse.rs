//! Reading boards: the text of a chase board and the bytes of a gravity
//! puzzle.

use crate::board::{
    find_chars_spec, lemma_find_chars, Board, BoardError, BoardView, EXIT, HUNTER, PLAYER,
};
use vstd::prelude::*;

verus! {

/// Whether `c` is white space, as Unicode has it.
pub open spec fn is_space_spec(c: char) -> bool {
    let u = c as u32;
    ||| 0x09 <= u <= 0x0d
    ||| u == 0x20
    ||| u == 0x85
    ||| u == 0xa0
    ||| u == 0x1680
    ||| 0x2000 <= u <= 0x200a
    ||| u == 0x2028
    ||| u == 0x2029
    ||| u == 0x202f
    ||| u == 0x205f
    ||| u == 0x3000
}

/// A line without the white space at its end.
pub open spec fn trim_end_spec(line: Seq<char>) -> Seq<char>
    decreases line.len(),
{
    if line.len() > 0 && is_space_spec(line.last()) {
        trim_end_spec(line.drop_last())
    } else {
        line
    }
}

/// How many glyphs the line that starts at `from` has before the next line
/// feed or the end of the text.
pub open spec fn line_len(text: Seq<char>, from: int) -> nat
    decreases text.len() - from,
{
    if from < 0 || from >= text.len() || text[from] == '\n' {
        0
    } else {
        1 + line_len(text, from + 1)
    }
}

/// The lines of `text` from the index `from` on, each without the white
/// space at its end. A line feed ends a line; what follows the last line
/// feed is a line unless it is empty.
pub open spec fn lines_from(text: Seq<char>, from: int) -> Seq<Seq<char>>
    decreases text.len() - from,
{
    if from < 0 || from >= text.len() {
        Seq::empty()
    } else {
        let end = from + line_len(text, from);
        seq![trim_end_spec(text.subrange(from, end))] + (if end < text.len() {
            lines_from(text, end + 1)
        } else {
            Seq::empty()
        })
    }
}

/// The first `k` rows, one after the other.
pub open spec fn joined(rows: Seq<Seq<char>>, k: int) -> Seq<char>
    decreases k,
{
    if k <= 0 {
        Seq::empty()
    } else {
        joined(rows, k - 1) + rows[k - 1]
    }
}

/// The length that every row has to have: that of the first, or zero where
/// there is none.
pub open spec fn row_width(rows: Seq<Seq<char>>) -> nat {
    if rows.len() == 0 {
        0
    } else {
        rows[0].len()
    }
}

/// The number of the first of the first `k` rows that is not as long as the
/// first row, counted from one; zero if there is none.
pub open spec fn first_odd_row(rows: Seq<Seq<char>>, k: int) -> int
    decreases k,
{
    if k <= 0 {
        0
    } else if first_odd_row(rows, k - 1) != 0 {
        first_odd_row(rows, k - 1)
    } else if rows[k - 1].len() != row_width(rows) {
        k
    } else {
        0
    }
}

/// The board that the rows make, if they make one: rows of one length, not
/// too many glyphs for a coordinate to count, a player and an exit. Where
/// several glyphs show a player or an exit, the first one counts.
pub open spec fn board_of_rows(rows: Seq<Seq<char>>) -> Result<BoardView, BoardError> {
    let width = row_width(rows);
    let tiles = joined(rows, rows.len() as int);
    let players = find_chars_spec(tiles, PLAYER, width as int);
    let exits = find_chars_spec(tiles, EXIT, width as int);
    if first_odd_row(rows, rows.len() as int) != 0 {
        Err(BoardError::InconsistentRow(first_odd_row(rows, rows.len() as int) as usize))
    } else if tiles.len() > i32::MAX {
        Err(BoardError::TooLarge)
    } else if players.len() == 0 {
        Err(BoardError::MissingPlayer)
    } else if exits.len() == 0 {
        Err(BoardError::MissingExit)
    } else {
        Ok(
            BoardView {
                tiles,
                width,
                player: players[0],
                hunters: find_chars_spec(tiles, HUNTER, width as int),
                exit: exits[0],
            },
        )
    }
}

/// The board that a text describes, if it describes one.
pub open spec fn board_of_text(text: Seq<char>) -> Result<BoardView, BoardError> {
    board_of_rows(lines_from(text, 0))
}

/// The rows of a list of lists, as plain mathematics.
pub open spec fn rows_view(rows: Vec<Vec<char>>) -> Seq<Seq<char>> {
    Seq::new(rows@.len(), |i: int| rows@[i]@)
}

/// Whether `c` is white space, as Unicode has it.
pub fn is_space(c: char) -> (space: bool)
    ensures
        space == is_space_spec(c),
{
    let u = c as u32;
    (0x09 <= u && u <= 0x0d) || u == 0x20 || u == 0x85 || u == 0xa0 || u == 0x1680 || (0x2000 <= u
        && u <= 0x200a) || u == 0x2028 || u == 0x2029 || u == 0x202f || u == 0x205f || u == 0x3000
}

/// The part of `text` from `from` to `end`, without the white space at its
/// end.
pub fn trimmed_line(text: &[char], from: usize, end: usize) -> (line: Vec<char>)
    requires
        from <= end <= text@.len(),
    ensures
        line@ == trim_end_spec(text@.subrange(from as int, end as int)),
{
    let mut stop = end;
    while stop > from && is_space(text[stop - 1])
        invariant
            from <= stop <= end <= text@.len(),
            trim_end_spec(text@.subrange(from as int, end as int)) == trim_end_spec(
                text@.subrange(from as int, stop as int),
            ),
        decreases stop,
    {
        assert(text@.subrange(from as int, stop as int).drop_last() =~= text@.subrange(
            from as int,
            stop - 1,
        ));
        stop -= 1;
    }
    let mut line: Vec<char> = Vec::new();
    let mut i = from;
    while i < stop
        invariant
            from <= i <= stop <= text@.len(),
            line@ =~= text@.subrange(from as int, i as int),
        decreases stop - i,
    {
        line.push(text[i]);
        i += 1;
    }
    line
}

/// The lines of `text`, each without the white space at its end.
pub fn split_rows(text: &[char]) -> (rows: Vec<Vec<char>>)
    ensures
        rows_view(rows) == lines_from(text@, 0),
{
    let mut rows: Vec<Vec<char>> = Vec::new();
    let mut from: usize = 0;
    let n = text.len();
    while from < n
        invariant
            n == text@.len(),
            from <= n,
            rows_view(rows) + lines_from(text@, from as int) =~= lines_from(text@, 0),
        decreases n - from,
    {
        let mut end = from;
        while end < n && text[end] != '\n'
            invariant
                n == text@.len(),
                from <= end <= n,
                end + line_len(text@, end as int) == from + line_len(text@, from as int),
            decreases n - end,
        {
            end += 1;
        }
        let line = trimmed_line(text, from, end);
        let ghost before = rows_view(rows);
        let ghost rest = lines_from(text@, from as int);
        rows.push(line);
        assert(rows_view(rows) =~= before.push(line@));
        if end < n {
            assert(rest == seq![line@] + lines_from(text@, end + 1));
            assert(before + rest =~= before.push(line@) + lines_from(text@, end + 1));
            from = end + 1;
        } else {
            assert(rest == seq![line@] + Seq::<Seq<char>>::empty());
            assert(before + rest =~= before.push(line@) + lines_from(text@, n as int));
            from = n;
        }
    }
    rows
}

/// The rows one after the other, if they all are as long as the first; the
/// number of the first row that is not, else.
pub fn join_rows(rows: &Vec<Vec<char>>) -> (r: Result<Vec<char>, usize>)
    ensures
        match r {
            Ok(tiles) => first_odd_row(rows_view(*rows), rows@.len() as int) == 0 && tiles@
                == joined(rows_view(*rows), rows@.len() as int),
            Err(number) => number == first_odd_row(rows_view(*rows), rows@.len() as int)
                && number != 0,
        },
{
    let mut tiles: Vec<char> = Vec::new();
    if rows.len() == 0 {
        return Ok(tiles);
    }
    let width = rows[0].len();
    let ghost all = rows_view(*rows);
    let mut k: usize = 0;
    while k < rows.len()
        invariant
            all == rows_view(*rows),
            k <= rows@.len(),
            rows@.len() > 0,
            width == row_width(all),
            first_odd_row(all, k as int) == 0,
            tiles@ == joined(all, k as int),
        decreases rows@.len() - k,
    {
        let row = &rows[k];
        if row.len() != width {
            proof {
                lemma_odd_row_stays(all, k + 1, rows@.len() as int);
            }
            return Err(k + 1);
        }
        let mut i: usize = 0;
        let ghost start = tiles@;
        while i < row.len()
            invariant
                i <= row@.len(),
                tiles@ =~= start + row@.take(i as int),
            decreases row@.len() - i,
        {
            tiles.push(row[i]);
            i += 1;
        }
        assert(row@.take(row@.len() as int) =~= row@);
        k += 1;
    }
    Ok(tiles)
}

/// Once a row is odd, the first odd row stays what it is.
pub proof fn lemma_odd_row_stays(rows: Seq<Seq<char>>, k: int, n: int)
    requires
        0 < k <= n,
        first_odd_row(rows, k) != 0,
    ensures
        first_odd_row(rows, n) == first_odd_row(rows, k),
    decreases n - k,
{
    if k < n {
        lemma_odd_row_stays(rows, k, n - 1);
    }
}

impl Board {
    /// The board that the rows make, if they make one.
    pub fn from_rows(rows: &Vec<Vec<char>>) -> (r: Result<Board, BoardError>)
        ensures
            match board_of_rows(rows_view(*rows)) {
                Ok(b) => r matches Ok(board) && board@ == b && board.wf(),
                Err(e) => r matches Err(f) && f == e,
            },
    {
        let width = if rows.len() == 0 {
            0
        } else {
            rows[0].len()
        };
        let tiles = match join_rows(rows) {
            Ok(tiles) => tiles,
            Err(number) => {
                return Err(BoardError::InconsistentRow(number));
            },
        };
        if tiles.len() > 0x7fff_ffff {
            return Err(BoardError::TooLarge);
        }
        if width == 0 {
            proof {
                lemma_joined_empty(rows_view(*rows), rows@.len() as int);
                assert(find_chars_spec(tiles@, PLAYER, 0).len() == 0);
            }
            return Err(BoardError::MissingPlayer);
        }
        proof {
            lemma_find_chars(tiles@, PLAYER, width as int);
            lemma_find_chars(tiles@, EXIT, width as int);
            lemma_find_chars(tiles@, HUNTER, width as int);
        }
        let players = Board::find_chars(tiles.as_slice(), PLAYER, width);
        if players.len() == 0 {
            return Err(BoardError::MissingPlayer);
        }
        let hunters_pos = Board::find_chars(tiles.as_slice(), HUNTER, width);
        let exits = Board::find_chars(tiles.as_slice(), EXIT, width);
        if exits.len() == 0 {
            return Err(BoardError::MissingExit);
        }
        Ok(Board { tiles, width, player_pos: players[0], hunters_pos, exit_pos: exits[0] })
    }

    /// The board that a text describes, if it describes one: one row to a
    /// line, white space at the end of a line left out.
    pub fn from_text(text: &[char]) -> (r: Result<Board, BoardError>)
        ensures
            match board_of_text(text@) {
                Ok(b) => r matches Ok(board) && board@ == b && board.wf(),
                Err(e) => r matches Err(f) && f == e,
            },
    {
        let rows = split_rows(text);
        Board::from_rows(&rows)
    }
}

/// Rows without glyphs make no glyphs.
pub proof fn lemma_joined_empty(rows: Seq<Seq<char>>, k: int)
    requires
        0 <= k <= rows.len(),
        row_width(rows) == 0,
        first_odd_row(rows, k) == 0,
    ensures
        joined(rows, k).len() == 0,
    decreases k,
{
    if k > 0 {
        lemma_joined_empty(rows, k - 1);
    }
}

} // verus!
