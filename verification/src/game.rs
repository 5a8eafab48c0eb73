//! The rules of the chase: the player steps, then the hunters close in twice.

use crate::board::{lemma_holds_bounds, Board, BoardView, EXIT, FLOOR, HUNTER, PLAYER, WALL};
use crate::pos::Pos;
use vstd::prelude::*;

verus! {

/// Whether a piece moved, and where to.
#[derive(Clone, Copy, Debug, PartialEq, Eq, Structural)]
pub enum MoveOutcome {
    Moved(Pos),
    NotMoved,
}

/// How one turn of the chase ended.
#[derive(Clone, Copy, Debug, PartialEq, Eq, Structural)]
pub enum TickOutcome {
    Dead,
    Alive(MoveOutcome),
    Victory,
}

/// How a game ended.
#[derive(Clone, Copy, Debug, PartialEq, Eq, Structural)]
pub enum GameOutcome {
    Dead,
    Victory,
    Exit,
}

/// -1, 0 or 1 as `to` lies below, at or above `from`.
pub open spec fn toward(from: i32, to: i32) -> i32 {
    if to < from {
        -1i32
    } else if to == from {
        0i32
    } else {
        1i32
    }
}

/// The distance between two coordinates.
pub open spec fn span(a: i32, b: i32) -> int {
    if a < b {
        b - a
    } else {
        a - b
    }
}

/// The player steps by `offset` unless a wall or the edge of the board is in
/// the way; the cell left behind becomes floor.
pub open spec fn move_player_spec(b: BoardView, offset: (i32, i32)) -> (BoardView, MoveOutcome) {
    let dest = b.player.shifted(offset);
    match b.at(dest) {
        Some(c) => if c != WALL {
            (
                BoardView { player: dest, ..b.with_tile(b.player, FLOOR).with_tile(dest, PLAYER) },
                MoveOutcome::Moved(dest),
            )
        } else {
            (b, MoveOutcome::NotMoved)
        },
        None => (b, MoveOutcome::NotMoved),
    }
}

/// The hunter at `hunter` steps by `offset` unless it stands still, or a
/// wall, another hunter or the edge of the board is in the way. The cell left
/// behind shows the exit again if that is where the hunter stood.
pub open spec fn move_hunter_spec(b: BoardView, offset: (i32, i32), hunter: Pos) -> (
    BoardView,
    MoveOutcome,
) {
    if offset == (0i32, 0i32) {
        (b, MoveOutcome::NotMoved)
    } else {
        let dest = hunter.shifted(offset);
        match b.at(dest) {
            Some(c) => if c != WALL && c != HUNTER {
                (
                    b.with_tile(
                        hunter,
                        if hunter == b.exit {
                            EXIT
                        } else {
                            FLOOR
                        },
                    ).with_tile(dest, HUNTER),
                    MoveOutcome::Moved(dest),
                )
            } else {
                (b, MoveOutcome::NotMoved)
            },
            None => (b, MoveOutcome::NotMoved),
        }
    }
}

/// One hunter closes in on the player: it tries the axis along which it is
/// nearer first where the two distances differ that way, the vertical axis
/// first otherwise, and the other axis if the first step is not to be had.
/// Gives the board, where the hunter now stands, and whether it moved.
pub open spec fn chase_spec(b: BoardView, hunter: Pos) -> (BoardView, Pos, bool) {
    let across = (toward(hunter.x, b.player.x), 0i32);
    let along = (0i32, toward(hunter.y, b.player.y));
    let across_first = span(b.player.x, hunter.x) < span(b.player.y, hunter.y);
    let first = if across_first {
        across
    } else {
        along
    };
    let second = if across_first {
        along
    } else {
        across
    };
    match move_hunter_spec(b, first, hunter) {
        (b1, MoveOutcome::Moved(dest)) => (b1, dest, true),
        (_, MoveOutcome::NotMoved) => match move_hunter_spec(b, second, hunter) {
            (b2, MoveOutcome::Moved(dest)) => (b2, dest, true),
            (_, MoveOutcome::NotMoved) => (b, hunter, false),
        },
    }
}

/// The board after the first `k` hunters of `b` have closed in, one after
/// the other, with the cells they now stand on and whether any of them moved.
/// The list of hunters in the board itself is still that of `b`.
pub open spec fn hunters_round(b: BoardView, k: nat) -> (BoardView, Seq<Pos>, bool)
    decreases k,
{
    if k == 0 {
        (b, Seq::empty(), false)
    } else {
        let (b1, cells, moved) = hunters_round(b, (k - 1) as nat);
        let (b2, cell, this_moved) = chase_spec(b1, b.hunters[k - 1]);
        (b2, cells.push(cell), moved || this_moved)
    }
}

/// All hunters close in, in their order; tells whether any of them moved.
pub open spec fn move_hunters_spec(b: BoardView) -> (BoardView, bool) {
    let (b1, cells, moved) = hunters_round(b, b.hunters.len());
    (BoardView { hunters: cells, ..b1 }, moved)
}

/// A hunter stands where the player stands.
pub open spec fn is_dead_spec(b: BoardView) -> bool {
    exists|i: int| 0 <= i < b.hunters.len() && #[trigger] b.hunters[i] == b.player
}

/// The player stands on the exit.
pub open spec fn is_win_spec(b: BoardView) -> bool {
    b.player == b.exit
}

/// One turn: the player steps by `offset`. A step that is not to be had
/// changes nothing. After a step the player is dead where a hunter stands,
/// has won on the exit, and else the hunters close in twice, which kills the
/// player if one that moved now stands on the player's cell.
pub open spec fn tick_spec(b: BoardView, offset: (i32, i32)) -> (BoardView, TickOutcome) {
    let (b1, stepped) = move_player_spec(b, offset);
    if stepped is Moved {
        if is_dead_spec(b1) {
            (b1, TickOutcome::Dead)
        } else if is_win_spec(b1) {
            (b1, TickOutcome::Victory)
        } else {
            let (b2, moved_once) = move_hunters_spec(b1);
            if moved_once && is_dead_spec(b2) {
                (b2, TickOutcome::Dead)
            } else {
                let (b3, moved_twice) = move_hunters_spec(b2);
                if moved_twice && is_dead_spec(b3) {
                    (b3, TickOutcome::Dead)
                } else {
                    (b3, TickOutcome::Alive(MoveOutcome::Moved(Pos { x: 0, y: 0 })))
                }
            }
        }
    } else {
        (b1, TickOutcome::Alive(MoveOutcome::NotMoved))
    }
}

/// A hunter that closes in on a well-formed board leaves it well-formed and
/// stands on it afterwards.
pub proof fn lemma_chase_keeps_wf(b: BoardView, hunter: Pos)
    requires
        b.wf(),
        b.holds(hunter),
    ensures
        chase_spec(b, hunter).0.wf(),
        chase_spec(b, hunter).0.holds(chase_spec(b, hunter).1),
        chase_spec(b, hunter).0.hunters == b.hunters,
        chase_spec(b, hunter).0.player == b.player,
        chase_spec(b, hunter).0.exit == b.exit,
        chase_spec(b, hunter).0.width == b.width,
        chase_spec(b, hunter).0.tiles.len() == b.tiles.len(),
{
    lemma_holds_bounds(b, hunter);
    lemma_holds_bounds(b, b.player);
}

/// A round of hunters on a well-formed board leaves it well-formed, and
/// every hunter stands on it afterwards.
pub proof fn lemma_round_keeps_wf(b: BoardView, k: nat)
    requires
        b.wf(),
        k <= b.hunters.len(),
    ensures
        hunters_round(b, k).0.wf(),
        hunters_round(b, k).0.hunters == b.hunters,
        hunters_round(b, k).0.player == b.player,
        hunters_round(b, k).0.exit == b.exit,
        hunters_round(b, k).0.width == b.width,
        hunters_round(b, k).0.tiles.len() == b.tiles.len(),
        hunters_round(b, k).1.len() == k,
        forall|i: int|
            0 <= i < k ==> hunters_round(b, k).0.holds(#[trigger] hunters_round(b, k).1[i]),
    decreases k,
{
    if k > 0 {
        lemma_round_keeps_wf(b, (k - 1) as nat);
        let (b1, cells, _) = hunters_round(b, (k - 1) as nat);
        lemma_chase_keeps_wf(b1, b.hunters[k - 1]);
    }
}

/// A turn on a well-formed board leaves it well-formed.
pub proof fn lemma_tick_keeps_wf(b: BoardView, offset: (i32, i32))
    requires
        b.wf(),
    ensures
        tick_spec(b, offset).0.wf(),
{
    let (b1, _) = move_player_spec(b, offset);
    assert(b1.wf());
    lemma_round_keeps_wf(b1, b1.hunters.len());
    let (b2, _) = move_hunters_spec(b1);
    assert(b2.wf());
    lemma_round_keeps_wf(b2, b2.hunters.len());
}

/// A round of hunters leaves the player where it is.
pub proof fn lemma_round_player(b: BoardView, k: nat)
    ensures
        hunters_round(b, k).0.player == b.player,
    decreases k,
{
    if k > 0 {
        lemma_round_player(b, (k - 1) as nat);
    }
}

/// A round of hunters leaves the exit where it is.
pub proof fn lemma_round_exit(b: BoardView, k: nat)
    ensures
        hunters_round(b, k).0.exit == b.exit,
    decreases k,
{
    if k > 0 {
        lemma_round_exit(b, (k - 1) as nat);
    }
}

/// A turn leaves the exit where it is. A turn that wins ends with the
/// player on the exit; one after which the game goes on, with the player
/// off it.
pub proof fn lemma_tick_exit(b: BoardView, offset: (i32, i32))
    ensures
        tick_spec(b, offset).0.exit == b.exit,
        tick_spec(b, offset).1 is Victory ==> tick_spec(b, offset).0.player == b.exit,
        tick_spec(b, offset).1 matches TickOutcome::Alive(MoveOutcome::Moved(_)) ==> tick_spec(
            b,
            offset,
        ).0.player != b.exit,
{
    let (b1, _) = move_player_spec(b, offset);
    lemma_round_exit(b1, b1.hunters.len());
    lemma_round_player(b1, b1.hunters.len());
    let (b2, _) = move_hunters_spec(b1);
    lemma_round_exit(b2, b2.hunters.len());
    lemma_round_player(b2, b2.hunters.len());
}

/// A turn in which the player did not step changes nothing; any other turn
/// takes the player to the cell it stepped to.
pub proof fn lemma_tick_player(b: BoardView, offset: (i32, i32))
    ensures
        tick_spec(b, offset).1 == TickOutcome::Alive(MoveOutcome::NotMoved) ==> tick_spec(
            b,
            offset,
        ).0 == b,
        tick_spec(b, offset).1 != TickOutcome::Alive(MoveOutcome::NotMoved) ==> tick_spec(
            b,
            offset,
        ).0.player == b.player.shifted(offset),
{
    let (b1, _) = move_player_spec(b, offset);
    lemma_round_player(b1, b1.hunters.len());
    let (b2, _) = move_hunters_spec(b1);
    lemma_round_player(b2, b2.hunters.len());
}

pub fn move_player(board: &mut Board, offset: (i32, i32)) -> (outcome: MoveOutcome)
    requires
        old(board).wf(),
        old(board).player_pos.can_shift(offset),
    ensures
        (final(board)@, outcome) == move_player_spec(old(board)@, offset),
        final(board).wf(),
{
    let dest = board.player_pos + offset;
    let at_dest = match board.at(dest) {
        Some(c) => *c,
        None => {
            return MoveOutcome::NotMoved;
        },
    };
    if at_dest != WALL {
        let from = board.player_pos;
        board.set_at(from, FLOOR);
        board.set_at(dest, PLAYER);
        board.player_pos = dest;
        return MoveOutcome::Moved(dest);
    }
    MoveOutcome::NotMoved
}

pub fn move_hunter_internal(board: &mut Board, offset: (i32, i32), hunter_pos: Pos) -> (outcome:
    MoveOutcome)
    requires
        old(board).wf(),
        old(board)@.holds(hunter_pos),
        hunter_pos.can_shift(offset),
    ensures
        (final(board)@, outcome) == move_hunter_spec(old(board)@, offset, hunter_pos),
        final(board).wf(),
{
    if offset.0 == 0 && offset.1 == 0 {
        return MoveOutcome::NotMoved;
    }
    let dest = hunter_pos + offset;
    let at_dest = match board.at(dest) {
        Some(c) => *c,
        None => {
            return MoveOutcome::NotMoved;
        },
    };
    if at_dest != WALL && at_dest != HUNTER {
        let left_behind = if hunter_pos == board.exit_pos {
            EXIT
        } else {
            FLOOR
        };
        board.set_at(hunter_pos, left_behind);
        board.set_at(dest, HUNTER);
        return MoveOutcome::Moved(dest);
    }
    MoveOutcome::NotMoved
}

/// One hunter closes in on the player; gives where it now stands and whether
/// it moved.
fn chase(board: &mut Board, hunter: Pos) -> (r: (Pos, bool))
    requires
        old(board).wf(),
        old(board)@.holds(hunter),
    ensures
        (final(board)@, r.0, r.1) == chase_spec(old(board)@, hunter),
        final(board).wf(),
{
    proof {
        lemma_holds_bounds(board@, hunter);
        lemma_holds_bounds(board@, board@.player);
    }
    let player = board.player_pos;
    let dist_x = if player.x < hunter.x {
        hunter.x - player.x
    } else {
        player.x - hunter.x
    };
    let dist_y = if player.y < hunter.y {
        hunter.y - player.y
    } else {
        player.y - hunter.y
    };
    let horizontal_chase: (i32, i32) = if player.x < hunter.x {
        (-1, 0)
    } else if player.x == hunter.x {
        (0, 0)
    } else {
        (1, 0)
    };
    let vertical_chase: (i32, i32) = if player.y < hunter.y {
        (0, -1)
    } else if player.y == hunter.y {
        (0, 0)
    } else {
        (0, 1)
    };
    let (first, second) = if dist_x < dist_y {
        (horizontal_chase, vertical_chase)
    } else {
        (vertical_chase, horizontal_chase)
    };
    match move_hunter_internal(board, first, hunter) {
        MoveOutcome::Moved(dest) => (dest, true),
        MoveOutcome::NotMoved => match move_hunter_internal(board, second, hunter) {
            MoveOutcome::Moved(dest) => (dest, true),
            MoveOutcome::NotMoved => (hunter, false),
        },
    }
}

pub fn move_hunters(board: &mut Board) -> (moved: bool)
    requires
        old(board).wf(),
    ensures
        (final(board)@, moved) == move_hunters_spec(old(board)@),
        final(board).wf(),
{
    let mut moved = false;
    let mut new_hunter_pos: Vec<Pos> = Vec::new();
    let n = board.hunters_pos.len();
    let ghost start = board@;
    let mut i: usize = 0;
    while i < n
        invariant
            start.wf(),
            n == start.hunters.len(),
            i <= n,
            board.wf(),
            (board@, new_hunter_pos@, moved) == hunters_round(start, i as nat),
        decreases n - i,
    {
        proof {
            lemma_round_keeps_wf(start, i as nat);
        }
        let hunter = board.hunters_pos[i];
        let (cell, this_moved) = chase(board, hunter);
        if this_moved {
            moved = true;
        }
        new_hunter_pos.push(cell);
        i += 1;
    }
    proof {
        lemma_round_keeps_wf(start, n as nat);
    }
    board.hunters_pos = new_hunter_pos;
    moved
}

pub fn is_dead(board: &Board) -> (dead: bool)
    ensures
        dead == is_dead_spec(board@),
{
    let n = board.hunters_pos.len();
    let mut i: usize = 0;
    while i < n
        invariant
            n == board.hunters_pos.len(),
            i <= n,
            forall|j: int| 0 <= j < i ==> board.hunters_pos@[j] != board.player_pos,
        decreases n - i,
    {
        if board.hunters_pos[i] == board.player_pos {
            assert(board@.hunters[i as int] == board@.player);
            return true;
        }
        i += 1;
    }
    false
}

pub fn is_win(board: &Board) -> (won: bool)
    ensures
        won == is_win_spec(board@),
{
    board.player_pos == board.exit_pos
}

/// Plays one turn of the chase on `board`.
pub fn tick(board: &mut Board, offset: (i32, i32)) -> (outcome: TickOutcome)
    requires
        old(board).wf(),
        old(board).player_pos.can_shift(offset),
    ensures
        (final(board)@, outcome) == tick_spec(old(board)@, offset),
        final(board).wf(),
{
    let stepped = move_player(board, offset);
    if let MoveOutcome::Moved(_) = stepped {
        if is_dead(board) {
            return TickOutcome::Dead;
        }
        if is_win(board) {
            return TickOutcome::Victory;
        }
        let moved_once = move_hunters(board);
        if moved_once && is_dead(board) {
            return TickOutcome::Dead;
        }
        let moved_twice = move_hunters(board);
        if moved_twice && is_dead(board) {
            return TickOutcome::Dead;
        }
        return TickOutcome::Alive(MoveOutcome::Moved(Pos::new(0, 0)));
    }
    TickOutcome::Alive(MoveOutcome::NotMoved)
}

} // verus!
