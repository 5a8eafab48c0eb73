//! The board of the gravity puzzle: twelve rows of twelve bytes, with one
//! player and the targets it has to collect.

use crate::board::BoardError;
use crate::pos::{Action, Pos};
use vstd::prelude::*;
use vstd::seq_lib::{to_multiset_build, to_multiset_update};

verus! {

/// How many cells a row or a column has.
pub const SIDE: usize = 12;

/// How many cells the board has.
pub const CELLS: usize = 144;

pub const EMPTY: u8 = 0;

pub const AVATAR: u8 = 1;

pub const TARGET: u8 = 2;

pub const BLOCK: u8 = 3;

/// A board of the gravity puzzle. `tiles` holds the rows one after the
/// other.
#[derive(Debug)]
pub struct BoardTensor {
    pub tiles: Vec<u8>,
    pub player_pos: Pos,
    /// How many targets are still to be collected.
    pub amygdala_count: usize,
    /// The action that led to this board, if a search made it.
    pub transitioned_via: Option<Action>,
}

/// What a board of the gravity puzzle is, as plain mathematics: the bytes,
/// the cell of the player and the number of targets that are left.
pub struct TensorView {
    pub tiles: Seq<u8>,
    pub player: Pos,
    pub targets: nat,
}

/// Whether `pos` is a cell of the board.
pub open spec fn inside(pos: Pos) -> bool {
    0 <= pos.x < SIDE && 0 <= pos.y < SIDE
}

/// The index of the byte at `pos`.
pub open spec fn cell(pos: Pos) -> int {
    pos.y * SIDE + pos.x
}

/// The cell of the byte number `i`.
pub open spec fn cell_pos(i: int) -> Pos {
    Pos { x: (i % SIDE as int) as i32, y: (i / SIDE as int) as i32 }
}

/// How many targets a list of bytes holds.
pub open spec fn count_targets(tiles: Seq<u8>) -> nat {
    tiles.to_multiset().count(TARGET)
}

/// Whether the cell with the index `i` lies in the first or last row or
/// column.
pub open spec fn on_rim(i: int) -> bool {
    i % 12 == 0 || i % 12 == 11 || i / 12 == 0 || i / 12 == 11
}

/// The bytes of the sample board: blocks all around, the player in the
/// lower left corner at the index 121, a target next to it, a block at the
/// index 125, and two targets beyond.
pub open spec fn sample_bytes() -> Seq<u8> {
    Seq::new(
        CELLS as nat,
        |i: int|
            if i == 121 {
                AVATAR
            } else if i == 122 || i == 127 || i == 117 {
                TARGET
            } else if on_rim(i) || i == 125 {
                BLOCK
            } else {
                EMPTY
            },
    )
}

impl TensorView {
    /// The byte at `pos`, if `pos` is a cell of the board.
    pub open spec fn at(self, pos: Pos) -> Option<u8> {
        if inside(pos) {
            Some(self.tiles[cell(pos)])
        } else {
            None
        }
    }

    /// The board with the byte `v` at `pos`.
    pub open spec fn with_tile(self, pos: Pos, v: u8) -> TensorView {
        TensorView { tiles: self.tiles.update(cell(pos), v), ..self }
    }

    /// A board that the rules can play on: it has all its cells, the player
    /// stands on the one cell that holds the player's byte, and the count of
    /// targets is that of the target bytes.
    pub open spec fn wf(self) -> bool {
        &&& self.tiles.len() == CELLS
        &&& inside(self.player)
        &&& forall|i: int| 0 <= i < CELLS ==> ((#[trigger] self.tiles[i]) == AVATAR) == (i == cell(self.player))
        &&& self.targets == count_targets(self.tiles)
    }
}

impl View for BoardTensor {
    type V = TensorView;

    open spec fn view(&self) -> TensorView {
        TensorView {
            tiles: self.tiles@,
            player: self.player_pos,
            targets: self.amygdala_count as nat,
        }
    }
}

/// A list of bytes holds no more targets than bytes.
pub proof fn lemma_count_bound(tiles: Seq<u8>)
    ensures
        count_targets(tiles) <= tiles.len(),
{
    tiles.to_multiset_ensures();
    let m = tiles.to_multiset();
    assert(m.count(TARGET) <= m.len()) by {
        if m.count(TARGET) > 0 {
            let rest = m.remove(TARGET);
            assert(m =~= rest.insert(TARGET));
            lemma_count_le_len(m, TARGET);
        }
    }
}

/// No value occurs in a multiset more often than the multiset has members.
pub proof fn lemma_count_le_len(m: vstd::multiset::Multiset<u8>, v: u8)
    ensures
        m.count(v) <= m.len(),
    decreases m.len(),
{
    if m.count(v) > 0 {
        let rest = m.remove(v);
        assert(rest.len() == m.len() - 1);
        lemma_count_le_len(rest, v);
        assert(rest.count(v) == m.count(v) - 1);
    }
}

/// What writing the byte `v` at the index `i` does to the count of targets.
pub proof fn lemma_count_update(tiles: Seq<u8>, i: int, v: u8)
    requires
        0 <= i < tiles.len(),
    ensures
        count_targets(tiles.update(i, v)) == count_targets(tiles) - (if tiles[i] == TARGET {
            1int
        } else {
            0int
        }) + (if v == TARGET {
            1int
        } else {
            0int
        }),
{
    to_multiset_update(tiles, i, v);
    tiles.to_multiset_ensures();
    assert(tiles.contains(tiles[i]));
}

impl Clone for BoardTensor {
    fn clone(&self) -> (copy: BoardTensor)
        ensures
            copy@ == self@,
            copy.transitioned_via == self.transitioned_via,
    {
        let copy = BoardTensor {
            tiles: self.tiles.clone(),
            player_pos: self.player_pos,
            amygdala_count: self.amygdala_count,
            transitioned_via: self.transitioned_via,
        };
        assert(copy.tiles@ =~= self.tiles@);
        copy
    }
}

impl BoardTensor {
    /// See [`TensorView::wf`].
    pub open spec fn wf(&self) -> bool {
        self@.wf()
    }

    /// The byte at `pos`, or `None` where `pos` is no cell of the board.
    pub fn at(&self, pos: Pos) -> (byte: Option<&u8>)
        requires
            self.tiles@.len() == CELLS,
        ensures
            match byte {
                Some(v) => self@.at(pos) == Some(*v),
                None => self@.at(pos).is_none(),
            },
    {
        if pos.x < 0 || pos.y < 0 || pos.x >= SIDE as i32 || pos.y >= SIDE as i32 {
            return None;
        }
        let i = (pos.y as usize) * SIDE + (pos.x as usize);
        Some(&self.tiles[i])
    }

    /// Writes the byte `v` at `pos`.
    pub fn set_at(&mut self, pos: Pos, v: u8)
        requires
            old(self).tiles@.len() == CELLS,
            inside(pos),
        ensures
            final(self)@ == old(self)@.with_tile(pos, v),
            final(self).transitioned_via == old(self).transitioned_via,
    {
        let i = (pos.y as usize) * SIDE + (pos.x as usize);
        self.tiles.set(i, v);
    }

    /// An empty board with the player at `pos`.
    pub fn with_player(pos: Pos) -> (board: BoardTensor)
        requires
            inside(pos),
        ensures
            board.wf(),
            board@.player == pos,
            board@.targets == 0,
            board@.tiles == Seq::new(CELLS as nat, |i: int| EMPTY).update(cell(pos), AVATAR),
            board.transitioned_via.is_none(),
    {
        let mut tiles: Vec<u8> = Vec::new();
        let mut i: usize = 0;
        assert(count_targets(Seq::<u8>::empty()) == 0) by {
            Seq::<u8>::empty().to_multiset_ensures();
        }
        while i < CELLS
            invariant
                i <= CELLS,
                tiles@.len() == i,
                forall|j: int| 0 <= j < i ==> tiles@[j] == EMPTY,
                count_targets(tiles@) == 0,
            decreases CELLS - i,
        {
            proof {
                to_multiset_build(tiles@, EMPTY);
            }
            tiles.push(EMPTY);
            i += 1;
        }
        proof {
            lemma_count_update(tiles@, cell(pos), AVATAR);
        }
        let ghost blank = tiles@;
        assert(blank =~= Seq::new(CELLS as nat, |i: int| EMPTY));
        tiles.set((pos.y as usize) * SIDE + (pos.x as usize), AVATAR);
        BoardTensor { tiles, player_pos: pos, amygdala_count: 0, transitioned_via: None }
    }

    /// The board that 144 bytes describe, row by row, if exactly one of
    /// them is the player's.
    pub fn from_bytes(bytes: &[u8]) -> (r: Result<BoardTensor, BoardError>)
        ensures
            match r {
                Ok(board) => {
                    &&& board.wf()
                    &&& board@.tiles == bytes@
                    &&& board.transitioned_via.is_none()
                },
                Err(BoardError::WrongSize) => bytes@.len() != CELLS,
                Err(BoardError::MissingPlayer) => bytes@.len() == CELLS && !bytes@.contains(AVATAR),
                Err(BoardError::SecondPlayer) => bytes@.len() == CELLS && exists|i: int, j: int|
                    0 <= i < j < CELLS && bytes@[i] == AVATAR && bytes@[j] == AVATAR,
                Err(_) => false,
            },
    {
        if bytes.len() != CELLS {
            return Err(BoardError::WrongSize);
        }
        let mut tiles: Vec<u8> = Vec::new();
        let mut player: Option<usize> = None;
        let mut targets: usize = 0;
        let mut i: usize = 0;
        assert(count_targets(Seq::<u8>::empty()) == 0) by {
            Seq::<u8>::empty().to_multiset_ensures();
        }
        while i < CELLS
            invariant
                bytes@.len() == CELLS,
                i <= CELLS,
                tiles@ =~= bytes@.take(i as int),
                targets == count_targets(tiles@),
                targets <= i,
                match player {
                    Some(p) => p < i && forall|j: int|
                        0 <= j < i ==> (bytes@[j] == AVATAR) == (j == p),
                    None => forall|j: int| 0 <= j < i ==> bytes@[j] != AVATAR,
                },
            decreases CELLS - i,
        {
            let v = bytes[i];
            if v == AVATAR {
                if let Some(p) = player {
                    assert(bytes@[p as int] == AVATAR && bytes@[i as int] == AVATAR);
                    return Err(BoardError::SecondPlayer);
                }
                player = Some(i);
            }
            proof {
                to_multiset_build(tiles@, v);
            }
            if v == TARGET {
                targets += 1;
            }
            tiles.push(v);
            i += 1;
        }
        assert(bytes@.take(CELLS as int) =~= bytes@);
        match player {
            None => Err(BoardError::MissingPlayer),
            Some(p) => {
                let player_pos = Pos::new((p % SIDE) as i32, (p / SIDE) as i32);
                Ok(
                    BoardTensor {
                        tiles,
                        player_pos,
                        amygdala_count: targets,
                        transitioned_via: None,
                    },
                )
            },
        }
    }

    /// The sample board: a walled room with the player in the lower left
    /// corner, a target next to it, a block, and two targets beyond.
    pub fn new_test_01() -> (board: BoardTensor)
        ensures
            board.wf(),
            board@.tiles == sample_bytes(),
            board@.player == (Pos { x: 1, y: 10 }),
            board@.targets == 3,
            board.transitioned_via.is_none(),
    {
        let mut board = BoardTensor::with_player(Pos::new(1, 10));
        let mut i: i32 = 0;
        while i < SIDE as i32
            invariant
                0 <= i <= SIDE,
                board.wf(),
                board@.player == (Pos { x: 1, y: 10 }),
                board@.targets == 0,
                forall|j: int|
                    0 <= j < CELLS ==> #[trigger] board@.tiles[j] == (if j == 121 {
                        AVATAR
                    } else if ((j / 12 == 0 || j / 12 == 11) && j % 12 < i) || ((j % 12 == 0 || j
                        % 12 == 11) && j / 12 < i) {
                        BLOCK
                    } else {
                        EMPTY
                    }),
                board.transitioned_via.is_none(),
            decreases SIDE - i,
        {
            board.place(Pos::new(i, 0), BLOCK);
            board.place(Pos::new(i, 11), BLOCK);
            board.place(Pos::new(0, i), BLOCK);
            board.place(Pos::new(11, i), BLOCK);
            i += 1;
        }
        board.place(Pos::new(5, 10), BLOCK);
        board.place(Pos::new(2, 10), TARGET);
        board.place(Pos::new(7, 10), TARGET);
        board.place(Pos::new(9, 9), TARGET);
        assert(board@.tiles =~= sample_bytes());
        board
    }

    /// Puts the byte `v`, which is not the player's, on a cell where the
    /// player does not stand, and counts the targets anew.
    pub fn place(&mut self, pos: Pos, v: u8)
        requires
            old(self).wf(),
            inside(pos),
            pos != old(self)@.player,
            v != AVATAR,
        ensures
            final(self).wf(),
            final(self)@.tiles == old(self)@.tiles.update(cell(pos), v),
            final(self)@.player == old(self)@.player,
            final(self)@.targets == old(self)@.targets - (if old(self)@.tiles[cell(pos)] == TARGET {
                1int
            } else {
                0int
            }) + (if v == TARGET {
                1int
            } else {
                0int
            }),
            final(self).transitioned_via == old(self).transitioned_via,
    {
        proof {
            lemma_count_update(self@.tiles, cell(pos), v);
            lemma_count_bound(self@.tiles);
            self@.tiles.to_multiset_ensures();
            assert(self@.tiles.contains(self@.tiles[cell(pos)]));
        }
        let was = self.tiles[(pos.y as usize) * SIDE + (pos.x as usize)];
        self.set_at(pos, v);
        if was == TARGET {
            self.amygdala_count = self.amygdala_count - 1;
        }
        if v == TARGET {
            self.amygdala_count = self.amygdala_count + 1;
        }
    }
}

} // verus!
