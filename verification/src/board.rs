//! The board of the chase: a grid of glyphs with one player, its hunters and
//! one exit.

use crate::pos::Pos;
use vstd::arithmetic::div_mod::lemma_fundamental_div_mod;
use vstd::prelude::*;

verus! {

pub const WALL: char = '#';

pub const PLAYER: char = '@';

pub const HUNTER: char = 'K';

pub const EXIT: char = '$';

pub const FLOOR: char = ' ';

/// Why a board could not be made.
#[derive(Clone, Copy, Debug, PartialEq, Eq, Structural)]
pub enum BoardError {
    /// The row with this number, counted from one, is not as long as the first.
    InconsistentRow(usize),
    /// No cell holds the player.
    MissingPlayer,
    /// No cell holds the exit.
    MissingExit,
    /// The board has more cells than a coordinate can count.
    TooLarge,
    /// The bytes are not those of twelve rows of twelve.
    WrongSize,
    /// More than one cell holds the player.
    SecondPlayer,
}

/// A chase board. `tiles` holds the rows one after the other, each `width`
/// glyphs long.
#[derive(Debug)]
pub struct Board {
    pub tiles: Vec<char>,
    pub width: usize,
    pub player_pos: Pos,
    pub hunters_pos: Vec<Pos>,
    pub exit_pos: Pos,
}

/// What a chase board is, as plain mathematics.
pub struct BoardView {
    pub tiles: Seq<char>,
    pub width: nat,
    pub player: Pos,
    pub hunters: Seq<Pos>,
    pub exit: Pos,
}

/// Whether `pos` is a cell of a board of `len` glyphs in rows `width` long.
pub open spec fn on_grid(len: int, width: int, pos: Pos) -> bool {
    &&& 0 <= pos.x < width
    &&& 0 <= pos.y
    &&& pos.y * width + pos.x < len
}

/// The index of the glyph at `pos` on a board `width` wide.
pub open spec fn index_on_grid(width: int, pos: Pos) -> int {
    pos.y * width + pos.x
}

/// The cell that holds the glyph number `i` of a board `width` wide.
pub open spec fn pos_of_index(i: int, width: int) -> Pos {
    Pos { x: (i % width) as i32, y: (i / width) as i32 }
}

/// The cells of `tiles` that hold `cc`, in reading order.
pub open spec fn find_chars_spec(tiles: Seq<char>, cc: char, width: int) -> Seq<Pos>
    decreases tiles.len(),
{
    if tiles.len() == 0 {
        Seq::empty()
    } else {
        let before = find_chars_spec(tiles.drop_last(), cc, width);
        if tiles.last() == cc {
            before.push(pos_of_index(tiles.len() - 1, width))
        } else {
            before
        }
    }
}

impl BoardView {
    /// Whether `pos` is a cell of the board.
    pub open spec fn holds(self, pos: Pos) -> bool {
        on_grid(self.tiles.len() as int, self.width as int, pos)
    }

    pub open spec fn index_of(self, pos: Pos) -> int {
        index_on_grid(self.width as int, pos)
    }

    /// The glyph at `pos`, if `pos` is a cell of the board.
    pub open spec fn at(self, pos: Pos) -> Option<char> {
        if self.holds(pos) {
            Some(self.tiles[self.index_of(pos)])
        } else {
            None
        }
    }

    /// The board with the glyph `c` at `pos`.
    pub open spec fn with_tile(self, pos: Pos, c: char) -> BoardView {
        BoardView { tiles: self.tiles.update(self.index_of(pos), c), ..self }
    }

    /// A board that the rules can play on: it has a width, fits the range of
    /// the coordinates, and the player, the hunters and the exit stand on it.
    pub open spec fn wf(self) -> bool {
        &&& 0 < self.width
        &&& self.tiles.len() <= i32::MAX
        &&& self.holds(self.player)
        &&& self.holds(self.exit)
        &&& forall|i: int| 0 <= i < self.hunters.len() ==> self.holds(#[trigger] self.hunters[i])
    }
}

impl View for Board {
    type V = BoardView;

    open spec fn view(&self) -> BoardView {
        BoardView {
            tiles: self.tiles@,
            width: self.width as nat,
            player: self.player_pos,
            hunters: self.hunters_pos@,
            exit: self.exit_pos,
        }
    }
}

/// A cell of the board lies within the range of the coordinates, one step
/// in any direction still does, and its index is that of a glyph.
pub proof fn lemma_holds_bounds(b: BoardView, pos: Pos)
    requires
        0 < b.width,
        b.tiles.len() <= i32::MAX,
        b.holds(pos),
    ensures
        0 <= pos.x < i32::MAX,
        0 <= pos.y < i32::MAX,
        0 <= b.index_of(pos) < b.tiles.len(),
        pos.y * b.width <= b.index_of(pos),
{
    assert(0 <= pos.y * b.width) by (nonlinear_arith)
        requires
            0 <= pos.y,
            0 < b.width,
    ;
    assert(pos.y <= pos.y * b.width) by (nonlinear_arith)
        requires
            0 <= pos.y,
            0 < b.width,
    ;
}

/// The glyph number `i` sits in a cell of the board, and that cell has the
/// index `i`.
pub proof fn lemma_pos_of_index(len: int, width: int, i: int)
    requires
        0 < width,
        len <= i32::MAX,
        0 <= i < len,
    ensures
        on_grid(len, width, pos_of_index(i, width)),
        index_on_grid(width, pos_of_index(i, width)) == i,
{
    lemma_fundamental_div_mod(i, width);
    assert(0 <= i / width <= i) by (nonlinear_arith)
        requires
            0 <= i,
            0 < width,
    ;
    assert(width * (i / width) == (i / width) * width) by (nonlinear_arith);
}

/// For a row length `width` and `0 <= a`, row `y` starts at or before the
/// glyph number `a` exactly if `y` is at most `a / width`.
pub proof fn lemma_row_fits(y: int, width: int, a: int)
    requires
        0 < width,
        0 <= a,
        0 <= y,
    ensures
        (y <= a / width) == (y * width <= a),
{
    lemma_fundamental_div_mod(a, width);
    let q = a / width;
    assert(width * q == q * width) by (nonlinear_arith);
    if y <= q {
        assert(y * width <= q * width) by (nonlinear_arith)
            requires
                y <= q,
                0 < width,
        ;
    } else {
        assert(y * width >= q * width + width) by (nonlinear_arith)
            requires
                y >= q + 1,
                0 < width,
        ;
    }
}

/// Every cell that `find_chars_spec` lists lies on the board and holds the
/// glyph looked for, and every glyph looked for is listed.
pub proof fn lemma_find_chars(tiles: Seq<char>, cc: char, width: int)
    requires
        0 < width,
        tiles.len() <= i32::MAX,
    ensures
        find_chars_spec(tiles, cc, width).len() <= tiles.len(),
        forall|k: int|
            #![trigger find_chars_spec(tiles, cc, width)[k]]
            0 <= k < find_chars_spec(tiles, cc, width).len() ==> {
                let pos = find_chars_spec(tiles, cc, width)[k];
                &&& on_grid(tiles.len() as int, width, pos)
                &&& tiles[index_on_grid(width, pos)] == cc
            },
        forall|i: int|
            0 <= i < tiles.len() && #[trigger] tiles[i] == cc ==> find_chars_spec(
                tiles,
                cc,
                width,
            ).contains(pos_of_index(i, width)),
        forall|j: int, k: int|
            0 <= j < k < find_chars_spec(tiles, cc, width).len() ==> index_on_grid(
                width,
                #[trigger] find_chars_spec(tiles, cc, width)[j],
            ) < index_on_grid(width, #[trigger] find_chars_spec(tiles, cc, width)[k]),
    decreases tiles.len(),
{
    if tiles.len() > 0 {
        let front = tiles.drop_last();
        let before = find_chars_spec(front, cc, width);
        let all = find_chars_spec(tiles, cc, width);
        let last = tiles.len() - 1;
        lemma_find_chars(front, cc, width);
        lemma_pos_of_index(tiles.len() as int, width, last);
        assert forall|k: int| 0 <= k < all.len() implies {
            let pos = #[trigger] all[k];
            &&& on_grid(tiles.len() as int, width, pos)
            &&& tiles[index_on_grid(width, pos)] == cc
        } by {
            if k < before.len() {
                assert(all[k] == before[k]);
                assert(on_grid(front.len() as int, width, before[k]));
                assert(front[index_on_grid(width, before[k])] == cc);
            }
        }
        assert forall|j: int, k: int| 0 <= j < k < all.len() implies index_on_grid(
            width,
            #[trigger] all[j],
        ) < index_on_grid(width, #[trigger] all[k]) by {
            assert(all[j] == before[j]);
            assert(on_grid(front.len() as int, width, before[j]));
            if k < before.len() {
                assert(all[k] == before[k]);
            }
        }
        assert forall|i: int| 0 <= i < tiles.len() && #[trigger] tiles[i] == cc implies all.contains(
            pos_of_index(i, width),
        ) by {
            if i < front.len() {
                assert(front[i] == cc);
                let k = choose|k: int|
                    0 <= k < before.len() && before[k] == pos_of_index(i, width);
                assert(all[k] == pos_of_index(i, width));
            } else {
                assert(all[all.len() - 1] == pos_of_index(i, width));
            }
        }
    }
}

impl Clone for Board {
    fn clone(&self) -> (copy: Board)
        ensures
            copy@ == self@,
    {
        let copy = Board {
            tiles: self.tiles.clone(),
            width: self.width,
            player_pos: self.player_pos,
            hunters_pos: self.hunters_pos.clone(),
            exit_pos: self.exit_pos,
        };
        assert(copy.tiles@ =~= self.tiles@);
        assert(copy.hunters_pos@ =~= self.hunters_pos@);
        copy
    }
}

/// The glyphs of the sample board: eight rows of twelve.
pub open spec fn sample_tiles() -> Seq<char> {
    seq![
        '#', '#', '#', '#', '#', '#', '#', '#', '#', '#', '#', '#',
        '#', ' ', ' ', '@', '#', ' ', ' ', ' ', ' ', ' ', 'K', '#',
        '#', ' ', ' ', ' ', '#', '#', ' ', ' ', ' ', ' ', ' ', '#',
        '#', ' ', ' ', ' ', '#', ' ', ' ', ' ', ' ', ' ', ' ', '#',
        '#', ' ', ' ', ' ', '#', '#', ' ', ' ', ' ', ' ', ' ', '#',
        '#', ' ', ' ', ' ', ' ', ' ', ' ', ' ', ' ', 'K', ' ', '#',
        '#', ' ', ' ', ' ', ' ', ' ', ' ', ' ', '$', ' ', ' ', '#',
        '#', '#', '#', '#', '#', '#', '#', '#', '#', '#', '#', '#',
    ]
}

/// Where the sample board has its player, its exit and its hunters.
proof fn lemma_sample_glyphs(i: int)
    requires
        0 <= i < 96,
    ensures
        sample_tiles()[i] == PLAYER ==> i == 15,
        sample_tiles()[i] == EXIT ==> i == 80,
        sample_tiles()[i] == HUNTER ==> i == 22 || i == 69,
{
}

impl Board {
    /// See [`BoardView::wf`].
    pub open spec fn wf(&self) -> bool {
        self@.wf()
    }

    /// The sample board: a walled room with a player, two hunters and an
    /// exit.
    pub fn new_test_01() -> (board: Board)
        ensures
            board.wf(),
            board@.tiles == sample_tiles(),
            board@.width == 12,
            board@.player == (Pos { x: 3, y: 1 }),
            board@.hunters == seq![Pos { x: 10, y: 1 }, Pos { x: 9, y: 5 }],
            board@.exit == (Pos { x: 8, y: 6 }),
    {
        let tiles = vec![
            '#', '#', '#', '#', '#', '#', '#', '#', '#', '#', '#', '#',
            '#', ' ', ' ', '@', '#', ' ', ' ', ' ', ' ', ' ', 'K', '#',
            '#', ' ', ' ', ' ', '#', '#', ' ', ' ', ' ', ' ', ' ', '#',
            '#', ' ', ' ', ' ', '#', ' ', ' ', ' ', ' ', ' ', ' ', '#',
            '#', ' ', ' ', ' ', '#', '#', ' ', ' ', ' ', ' ', ' ', '#',
            '#', ' ', ' ', ' ', ' ', ' ', ' ', ' ', ' ', 'K', ' ', '#',
            '#', ' ', ' ', ' ', ' ', ' ', ' ', ' ', '$', ' ', ' ', '#',
            '#', '#', '#', '#', '#', '#', '#', '#', '#', '#', '#', '#',
        ];
        let width: usize = 12;
        proof {
            assert(tiles@ =~= sample_tiles());
            lemma_find_chars(tiles@, PLAYER, 12);
            lemma_find_chars(tiles@, HUNTER, 12);
            lemma_find_chars(tiles@, EXIT, 12);
            assert(tiles@[15] == PLAYER);
            assert(tiles@[80] == EXIT);
            assert(tiles@[22] == HUNTER);
            assert(tiles@[69] == HUNTER);
            assert forall|i: int| 0 <= i < 96 implies (tiles@[i] == PLAYER ==> i == 15) && (
            tiles@[i] == EXIT ==> i == 80) && (tiles@[i] == HUNTER ==> i == 22 || i == 69) by {
                lemma_sample_glyphs(i);
            }
            let hunters = find_chars_spec(tiles@, HUNTER, 12);
            let first = pos_of_index(22, 12);
            let second = pos_of_index(69, 12);
            let a = choose|k: int| 0 <= k < hunters.len() && hunters[k] == first;
            let b = choose|k: int| 0 <= k < hunters.len() && hunters[k] == second;
            assert(hunters.contains(first) && hunters.contains(second));
            assert(a < b);
            assert forall|k: int| 0 <= k < hunters.len() implies #[trigger] hunters[k] == first
                || hunters[k] == second by {
                let at = index_on_grid(12, hunters[k]);
                assert(tiles@[at] == HUNTER);
            }
            assert(hunters.len() == 2) by {
                if hunters.len() > 2 {
                    let c = if a != 0 && b != 0 {
                        0int
                    } else if a != 1 && b != 1 {
                        1int
                    } else {
                        2int
                    };
                    assert(hunters[c] == first || hunters[c] == second);
                    assert(index_on_grid(12, hunters[c]) != index_on_grid(12, hunters[a]));
                    assert(index_on_grid(12, hunters[c]) != index_on_grid(12, hunters[b]));
                }
            }
            assert(hunters =~= seq![Pos { x: 10, y: 1 }, Pos { x: 9, y: 5 }]);
        }
        let players = Self::find_chars(tiles.as_slice(), PLAYER, width);
        let hunters_pos = Self::find_chars(tiles.as_slice(), HUNTER, width);
        let exits = Self::find_chars(tiles.as_slice(), EXIT, width);
        Board { tiles, width, player_pos: players[0], hunters_pos, exit_pos: exits[0] }
    }

    /// The index in `tiles` of the glyph at `pos`.
    pub fn pos2index(&self, pos: Pos) -> (i: usize)
        requires
            0 < self.width,
            self.tiles.len() <= i32::MAX,
            self@.holds(pos),
        ensures
            i == self@.index_of(pos),
            i < self.tiles.len(),
    {
        proof {
            lemma_holds_bounds(self@, pos);
        }
        (pos.y as usize) * self.width + (pos.x as usize)
    }

    /// The glyph at `pos`, or `None` where `pos` is no cell of the board.
    pub fn at(&self, pos: Pos) -> (glyph: Option<&char>)
        requires
            0 < self.width,
            self.tiles.len() <= i32::MAX,
        ensures
            match glyph {
                Some(c) => self@.at(pos) == Some(*c),
                None => self@.at(pos).is_none(),
            },
    {
        if pos.x < 0 || pos.y < 0 {
            return None;
        }
        let x = pos.x as usize;
        let y = pos.y as usize;
        let n = self.tiles.len();
        if x >= self.width || x >= n {
            return None;
        }
        proof {
            lemma_row_fits(y as int, self.width as int, n - 1 - x);
        }
        if y > (n - 1 - x) / self.width {
            return None;
        }
        let i = self.pos2index(pos);
        Some(&self.tiles[i])
    }

    /// Writes the glyph `c` at `pos`.
    pub fn set_at(&mut self, pos: Pos, c: char)
        requires
            0 < old(self).width,
            old(self).tiles.len() <= i32::MAX,
            old(self)@.holds(pos),
        ensures
            final(self)@ == old(self)@.with_tile(pos, c),
    {
        let i = self.pos2index(pos);
        self.tiles.set(i, c);
    }

    /// The cells of `tiles` that hold `cc`, in reading order, on a board
    /// `width` wide.
    pub fn find_chars(tiles: &[char], cc: char, width: usize) -> (found: Vec<Pos>)
        requires
            0 < width,
            tiles@.len() <= i32::MAX,
        ensures
            found@ == find_chars_spec(tiles@, cc, width as int),
    {
        let mut found: Vec<Pos> = Vec::new();
        let n = tiles.len();
        let mut i: usize = 0;
        assert(tiles@.take(0) =~= Seq::<char>::empty());
        while i < n
            invariant
                0 < width,
                n == tiles@.len(),
                n <= i32::MAX,
                i <= n,
                found@ == find_chars_spec(tiles@.take(i as int), cc, width as int),
            decreases n - i,
        {
            assert(tiles@.take(i + 1).drop_last() =~= tiles@.take(i as int));
            if tiles[i] == cc {
                let y = i / width;
                proof {
                    lemma_fundamental_div_mod(i as int, width as int);
                    assert(width * (i as int / width as int) == (i as int / width as int) * width)
                        by (nonlinear_arith);
                    assert(0 <= i as int / width as int <= i) by (nonlinear_arith)
                        requires
                            0 <= i,
                            0 < width,
                    ;
                }
                let x = i - y * width;
                found.push(Pos::new(x as i32, y as i32));
            }
            i += 1;
        }
        assert(tiles@.take(n as int) =~= tiles@);
        found
    }
}

} // verus!
