//! The rules of the gravity puzzle: the player shifts sideways or the board
//! turns, and then everything loose falls.

use crate::pos::{Action, Pos};
use crate::tensor::{
    cell, cell_pos, inside, lemma_count_update, BoardTensor, TensorView, AVATAR, CELLS, EMPTY,
    SIDE, TARGET,
};
use vstd::prelude::*;
use vstd::seq_lib::{to_multiset_build, to_multiset_remove};

verus! {

/// How one turn of the gravity puzzle ended.
#[derive(Clone, Copy, Debug, PartialEq, Eq, Structural)]
pub enum TickOutcomeTensor {
    Continue,
    Victory,
}

/// How a game of the gravity puzzle ended.
#[derive(Clone, Copy, Debug, PartialEq, Eq, Structural)]
pub enum GameOutcomeTensor {
    Victory,
    Exit,
}

/// More passes than any board needs to come to rest.
pub const SETTLE_FUEL: usize = 1585;

/// Whether a byte falls where the cell below it is empty: the player and
/// the targets do.
pub open spec fn loose(v: u8) -> bool {
    v == AVATAR || v == TARGET
}

/// The board after the player stepped to the cell `to`.
pub open spec fn stepped(b: TensorView, to: Pos) -> TensorView {
    TensorView {
        tiles: b.tiles.update(cell(b.player), EMPTY).update(cell(to), AVATAR),
        player: to,
        ..b
    }
}

/// The player shifts by `dx` cells along its row: onto an empty cell, or
/// onto a target, which is thereby collected and wins the game if it was
/// the last one. Anything else in the way, and the edge of the board, stop
/// the shift.
pub open spec fn slide_spec(b: TensorView, dx: int) -> (TensorView, TickOutcomeTensor) {
    let to = Pos { x: (b.player.x + dx) as i32, y: b.player.y };
    match b.at(to) {
        Some(v) => if v == EMPTY {
            (stepped(b, to), TickOutcomeTensor::Continue)
        } else if v == TARGET {
            (
                TensorView { targets: (b.targets - 1) as nat, ..stepped(b, to) },
                if b.targets == 1 {
                    TickOutcomeTensor::Victory
                } else {
                    TickOutcomeTensor::Continue
                },
            )
        } else {
            (b, TickOutcomeTensor::Continue)
        },
        None => (b, TickOutcomeTensor::Continue),
    }
}

/// The index from which a turn to the right brings the byte to the index `i`.
pub open spec fn right_source(i: int) -> int {
    SIDE * (SIDE - 1 - i % (SIDE as int)) + i / (SIDE as int)
}

/// The index from which a turn to the left brings the byte to the index `i`.
pub open spec fn left_source(i: int) -> int {
    SIDE * (i % (SIDE as int)) + (SIDE - 1 - i / (SIDE as int))
}

/// The board turned a quarter to the right: what was the top row is the
/// right column.
pub open spec fn rotate_right_spec(b: TensorView) -> TensorView {
    TensorView {
        tiles: Seq::new(CELLS as nat, |i: int| b.tiles[right_source(i)]),
        player: Pos { x: (SIDE - 1 - b.player.y) as i32, y: b.player.x },
        ..b
    }
}

/// The board turned a quarter to the left: what was the top row is the left
/// column.
pub open spec fn rotate_left_spec(b: TensorView) -> TensorView {
    TensorView {
        tiles: Seq::new(CELLS as nat, |i: int| b.tiles[left_source(i)]),
        player: Pos { x: b.player.y, y: (SIDE - 1 - b.player.x) as i32 },
        ..b
    }
}

/// What an action does before anything falls: left and right shift the
/// player, up turns the board to the right, down turns it to the left.
pub open spec fn press_spec(b: TensorView, a: Action) -> (TensorView, TickOutcomeTensor) {
    match a {
        Action::Left => slide_spec(b, -1),
        Action::Right => slide_spec(b, 1),
        Action::Up => (rotate_right_spec(b), TickOutcomeTensor::Continue),
        Action::Down => (rotate_left_spec(b), TickOutcomeTensor::Continue),
    }
}

/// Whether the byte at the index `i` falls: it is loose and the cell below
/// it is empty.
pub open spec fn falls(tiles: Seq<u8>, i: int) -> bool {
    0 <= i && i + SIDE < CELLS && loose(tiles[i]) && tiles[i + SIDE as int] == EMPTY
}

/// The board after the byte at the index `i` fell by one cell, if it falls.
pub open spec fn fall_spec(b: TensorView, i: int) -> TensorView {
    if falls(b.tiles, i) {
        TensorView {
            tiles: b.tiles.update(i, EMPTY).update(i + SIDE as int, b.tiles[i]),
            player: if b.tiles[i] == AVATAR {
                cell_pos(i + SIDE as int)
            } else {
                b.player
            },
            ..b
        }
    } else {
        b
    }
}

/// The board after the first `k` cells of a pass had their turn to fall,
/// and whether any of them fell. A pass goes through the cells from the last
/// one to the first.
pub open spec fn scan_spec(b: TensorView, k: nat) -> (TensorView, bool)
    decreases k,
{
    if k == 0 {
        (b, false)
    } else {
        let (before, moved) = scan_spec(b, (k - 1) as nat);
        (fall_spec(before, CELLS - k), moved || falls(before.tiles, CELLS - k))
    }
}

/// The board after passes were made until one moved nothing, `fuel` of them
/// at most.
pub open spec fn settle_spec(b: TensorView, fuel: nat) -> TensorView
    decreases fuel,
{
    if fuel == 0 {
        b
    } else {
        let (after, moved) = scan_spec(b, CELLS as nat);
        if moved {
            settle_spec(after, (fuel - 1) as nat)
        } else {
            after
        }
    }
}

/// The board after everything loose has fallen as far as it can.
pub open spec fn gravity_spec(b: TensorView) -> TensorView {
    settle_spec(b, SETTLE_FUEL as nat)
}

/// One turn: the action, and then gravity.
pub open spec fn tick_tensor_spec(b: TensorView, a: Action) -> (TensorView, TickOutcomeTensor) {
    (gravity_spec(press_spec(b, a).0), press_spec(b, a).1)
}

/// How far the loose bytes among the first `n` can fall at most, taken
/// together, if nothing is in their way.
pub open spec fn drop_room(tiles: Seq<u8>, n: nat) -> nat
    decreases n,
{
    if n == 0 {
        0
    } else {
        drop_room(tiles, (n - 1) as nat) + room_at(n - 1, tiles[n - 1])
    }
}

/// How far the byte `v` at the index `i` can fall at most.
pub open spec fn room_at(i: int, v: u8) -> nat {
    if loose(v) && 0 <= i < CELLS {
        (SIDE - 1 - i / (SIDE as int)) as nat
    } else {
        0
    }
}

/// What writing a byte does to the room to fall.
pub proof fn lemma_room_update(tiles: Seq<u8>, j: int, v: u8, n: nat)
    requires
        0 <= j < tiles.len(),
        n <= tiles.len(),
    ensures
        drop_room(tiles.update(j, v), n) == drop_room(tiles, n) + (if j < n {
            room_at(j, v) - room_at(j, tiles[j])
        } else {
            0
        }),
    decreases n,
{
    if n > 0 {
        lemma_room_update(tiles, j, v, (n - 1) as nat);
    }
}

/// The room to fall is bounded.
pub proof fn lemma_room_bound(tiles: Seq<u8>, n: nat)
    ensures
        drop_room(tiles, n) <= n * (SIDE - 1),
    decreases n,
{
    if n > 0 {
        lemma_room_bound(tiles, (n - 1) as nat);
        assert(n * (SIDE - 1) == (n - 1) * (SIDE - 1) + (SIDE - 1)) by (nonlinear_arith);
    }
}

/// A byte that falls leaves the board well-formed and takes one from the
/// room to fall.
pub proof fn lemma_fall(b: TensorView, i: int)
    requires
        b.wf(),
    ensures
        fall_spec(b, i).wf(),
        falls(b.tiles, i) ==> drop_room(fall_spec(b, i).tiles, CELLS as nat) + 1 == drop_room(
            b.tiles,
            CELLS as nat,
        ),
{
    if falls(b.tiles, i) {
        let c = b.tiles[i];
        let below = i + SIDE as int;
        let mid = b.tiles.update(i, EMPTY);
        let after = fall_spec(b, i);
        lemma_count_update(b.tiles, i, EMPTY);
        lemma_count_update(mid, below, c);
        lemma_room_update(b.tiles, i, EMPTY, CELLS as nat);
        lemma_room_update(mid, below, c, CELLS as nat);
        assert(below / 12 == i / 12 + 1);
        assert(cell(cell_pos(below)) == below);
        assert(inside(cell_pos(below)));
        assert forall|j: int| 0 <= j < CELLS implies ((#[trigger] after.tiles[j]) == AVATAR) == (j
            == cell(after.player)) by {
            assert((b.tiles[j] == AVATAR) == (j == cell(b.player)));
        }
    }
}

/// A pass leaves the board well-formed, and takes from the room to fall if
/// anything moved.
pub proof fn lemma_scan(b: TensorView, k: nat)
    requires
        b.wf(),
        k <= CELLS,
    ensures
        scan_spec(b, k).0.wf(),
        drop_room(scan_spec(b, k).0.tiles, CELLS as nat) <= drop_room(b.tiles, CELLS as nat),
        scan_spec(b, k).1 ==> drop_room(scan_spec(b, k).0.tiles, CELLS as nat) < drop_room(
            b.tiles,
            CELLS as nat,
        ),
    decreases k,
{
    if k > 0 {
        lemma_scan(b, (k - 1) as nat);
        lemma_fall(scan_spec(b, (k - 1) as nat).0, CELLS - k);
    }
}

/// Settling leaves the board well-formed.
pub proof fn lemma_settle(b: TensorView, fuel: nat)
    requires
        b.wf(),
    ensures
        settle_spec(b, fuel).wf(),
    decreases fuel,
{
    if fuel > 0 {
        lemma_scan(b, CELLS as nat);
        if scan_spec(b, CELLS as nat).1 {
            lemma_settle(scan_spec(b, CELLS as nat).0, (fuel - 1) as nat);
        }
    }
}

/// A pass that moved nothing found every cell at rest and left the board
/// as it was.
pub proof fn lemma_still_scan(b: TensorView, k: nat)
    requires
        k <= CELLS,
        !scan_spec(b, k).1,
    ensures
        scan_spec(b, k).0 == b,
        forall|i: int| CELLS - k <= i < CELLS ==> !falls(b.tiles, i),
    decreases k,
{
    if k > 0 {
        lemma_still_scan(b, (k - 1) as nat);
    }
}

/// Whether nothing on the board can fall.
pub open spec fn at_rest(tiles: Seq<u8>) -> bool {
    forall|i: int| 0 <= i < CELLS ==> !falls(tiles, i)
}

/// With fuel for more passes than the loose bytes have room to fall,
/// settling ends with a board on which nothing can fall.
pub proof fn lemma_settle_rests(b: TensorView, fuel: nat)
    requires
        b.wf(),
        drop_room(b.tiles, CELLS as nat) < fuel,
    ensures
        at_rest(settle_spec(b, fuel).tiles),
    decreases fuel,
{
    lemma_scan(b, CELLS as nat);
    let (after, moved) = scan_spec(b, CELLS as nat);
    if moved {
        lemma_settle_rests(after, (fuel - 1) as nat);
    } else {
        lemma_still_scan(b, CELLS as nat);
    }
}

/// After gravity nothing on a well-formed board can fall.
pub proof fn lemma_gravity_rests(b: TensorView)
    requires
        b.wf(),
    ensures
        at_rest(gravity_spec(b).tiles),
        gravity_spec(b).wf(),
{
    lemma_room_bound(b.tiles, CELLS as nat);
    lemma_settle_rests(b, SETTLE_FUEL as nat);
    lemma_settle(b, SETTLE_FUEL as nat);
}

/// Whether a byte stays where it is whatever is below it: one that is
/// neither empty nor loose.
pub open spec fn blocks(v: u8) -> bool {
    v != EMPTY && !loose(v)
}

/// What the first `n` rows of the column `x` hold, from the top down, the
/// empty cells left out.
pub open spec fn stack(tiles: Seq<u8>, x: int, n: nat) -> Seq<u8>
    decreases n,
{
    if n == 0 {
        Seq::empty()
    } else {
        let above = stack(tiles, x, (n - 1) as nat);
        let v = tiles[(n - 1) * SIDE + x];
        if v == EMPTY {
            above
        } else {
            above.push(v)
        }
    }
}

/// Whether `after` is `before` with everything loose fallen as far as it
/// can: nothing can fall any more, what blocks has stayed where it was, and
/// every column holds what it held, in the same order from the top down.
pub open spec fn fallen(before: Seq<u8>, after: Seq<u8>) -> bool {
    &&& after.len() == before.len()
    &&& at_rest(after)
    &&& forall|i: int|
        0 <= i < CELLS && (blocks(before[i]) || blocks(#[trigger] after[i])) ==> after[i]
            == before[i]
    &&& forall|x: int|
        0 <= x < SIDE ==> #[trigger] stack(after, x, SIDE as nat) == stack(before, x, SIDE as nat)
}

/// Whether `after` holds what `before` holds, column by column, and has
/// what blocks where `before` has it.
pub open spec fn shuffled_down(before: Seq<u8>, after: Seq<u8>) -> bool {
    &&& after.len() == before.len()
    &&& forall|i: int|
        0 <= i < CELLS && (blocks(before[i]) || blocks(#[trigger] after[i])) ==> after[i]
            == before[i]
    &&& forall|x: int|
        0 <= x < SIDE ==> #[trigger] stack(after, x, SIDE as nat) == stack(before, x, SIDE as nat)
}

/// A byte that falls by one cell changes no stack below the cell it falls
/// to, and none above the cell it falls from.
pub proof fn lemma_fall_stack(tiles: Seq<u8>, i: int, x: int, n: nat)
    requires
        tiles.len() == CELLS,
        falls(tiles, i),
        0 <= x < SIDE,
        n <= SIDE,
    ensures
        n <= i / 12 || n >= i / 12 + 2 || x != i % 12 ==> stack(
            tiles.update(i, EMPTY).update(i + SIDE as int, tiles[i]),
            x,
            n,
        ) == stack(tiles, x, n),
        n == i / 12 + 1 && x == i % 12 ==> stack(tiles, x, n) == stack(
            tiles.update(i, EMPTY).update(i + SIDE as int, tiles[i]),
            x,
            n,
        ).push(tiles[i]),
    decreases n,
{
    if n > 0 {
        lemma_fall_stack(tiles, i, x, (n - 1) as nat);
        let at = (n - 1) * 12 + x;
        assert(at == i <==> (n - 1 == i / 12 && x == i % 12));
        assert(at == i + 12 <==> (n - 1 == i / 12 + 1 && x == i % 12));
    }
}

/// A byte that falls by one cell leaves the columns holding what they held
/// and what blocks where it was.
pub proof fn lemma_fall_shuffles(b: TensorView, i: int)
    requires
        b.tiles.len() == CELLS,
    ensures
        shuffled_down(b.tiles, fall_spec(b, i).tiles),
{
    if falls(b.tiles, i) {
        assert forall|x: int| 0 <= x < SIDE implies #[trigger] stack(
            fall_spec(b, i).tiles,
            x,
            SIDE as nat,
        ) == stack(b.tiles, x, SIDE as nat) by {
            lemma_fall_stack(b.tiles, i, x, SIDE as nat);
        }
    }
}

/// Shuffling down twice is shuffling down.
pub proof fn lemma_shuffled_trans(a: Seq<u8>, b: Seq<u8>, c: Seq<u8>)
    requires
        shuffled_down(a, b),
        shuffled_down(b, c),
    ensures
        shuffled_down(a, c),
{
    assert forall|x: int| 0 <= x < SIDE implies #[trigger] stack(c, x, SIDE as nat) == stack(
        a,
        x,
        SIDE as nat,
    ) by {
        assert(stack(b, x, SIDE as nat) == stack(a, x, SIDE as nat));
    }
    assert forall|i: int|
        0 <= i < CELLS && (blocks(a[i]) || blocks(#[trigger] c[i])) implies c[i] == a[i] by {
        assert(blocks(b[i]) ==> b[i] == a[i]);
    }
}

/// A pass leaves the columns holding what they held and what blocks where
/// it was.
pub proof fn lemma_scan_shuffles(b: TensorView, k: nat)
    requires
        b.tiles.len() == CELLS,
        k <= CELLS,
    ensures
        shuffled_down(b.tiles, scan_spec(b, k).0.tiles),
    decreases k,
{
    if k > 0 {
        lemma_scan_shuffles(b, (k - 1) as nat);
        let before = scan_spec(b, (k - 1) as nat).0;
        lemma_fall_shuffles(before, CELLS - k);
        lemma_shuffled_trans(b.tiles, before.tiles, scan_spec(b, k).0.tiles);
    } else {
        assert(shuffled_down(b.tiles, b.tiles));
    }
}

/// Settling leaves the columns holding what they held and what blocks
/// where it was.
pub proof fn lemma_settle_shuffles(b: TensorView, fuel: nat)
    requires
        b.tiles.len() == CELLS,
    ensures
        shuffled_down(b.tiles, settle_spec(b, fuel).tiles),
    decreases fuel,
{
    if fuel > 0 {
        lemma_scan_shuffles(b, CELLS as nat);
        let (after, moved) = scan_spec(b, CELLS as nat);
        if moved {
            lemma_settle_shuffles(after, (fuel - 1) as nat);
            lemma_shuffled_trans(b.tiles, after.tiles, settle_spec(after, (fuel - 1) as nat).tiles);
        }
    } else {
        assert(shuffled_down(b.tiles, b.tiles));
    }
}

/// Gravity lets everything loose on a well-formed board fall as far as it
/// can, and does no more.
pub proof fn lemma_gravity_falls(b: TensorView)
    requires
        b.wf(),
    ensures
        fallen(b.tiles, gravity_spec(b).tiles),
{
    lemma_gravity_rests(b);
    lemma_settle_shuffles(b, SETTLE_FUEL as nat);
}

/// Two lists of which one holds the members of the other in another order
/// hold every value equally often.
pub proof fn lemma_rearranged(s: Seq<u8>, t: Seq<u8>, from: Seq<int>)
    requires
        s.len() == t.len(),
        from.len() == t.len(),
        forall|i: int| 0 <= i < t.len() ==> 0 <= #[trigger] from[i] < s.len(),
        forall|i: int, j: int| 0 <= i < j < t.len() ==> #[trigger] from[i] != #[trigger] from[j],
        forall|i: int| 0 <= i < t.len() ==> #[trigger] t[i] == s[from[i]],
    ensures
        s.to_multiset() == t.to_multiset(),
    decreases t.len(),
{
    if t.len() == 0 {
        assert(s =~= t);
    } else {
        let n = t.len() as int;
        let k = from[n - 1];
        let t1 = t.drop_last();
        let s1 = s.remove(k);
        let from1 = Seq::new(
            (n - 1) as nat,
            |i: int|
                if from[i] < k {
                    from[i]
                } else {
                    from[i] - 1
                },
        );
        assert forall|i: int| 0 <= i < t1.len() implies 0 <= #[trigger] from1[i] < s1.len() by {
            assert(from[i] != from[n - 1]);
        }
        assert forall|i: int, j: int| 0 <= i < j < t1.len() implies #[trigger] from1[i]
            != #[trigger] from1[j] by {
            assert(from[i] != from[j]);
            assert(from[i] != from[n - 1]);
            assert(from[j] != from[n - 1]);
        }
        assert forall|i: int| 0 <= i < t1.len() implies #[trigger] t1[i] == s1[from1[i]] by {
            assert(t[i] == s[from[i]]);
            assert(from[i] != from[n - 1]);
        }
        lemma_rearranged(s1, t1, from1);
        to_multiset_remove(s, k);
        to_multiset_build(t1, t[n - 1]);
        assert(t =~= t1.push(t[n - 1]));
        s.to_multiset_ensures();
        assert(s.contains(s[k]));
        assert(s.to_multiset() =~= s1.to_multiset().insert(s[k]));
    }
}

/// A turn to the right leaves the board well-formed.
pub proof fn lemma_rotate_right_wf(b: TensorView)
    requires
        b.wf(),
    ensures
        rotate_right_spec(b).wf(),
{
    let r = rotate_right_spec(b);
    let from = Seq::new(CELLS as nat, |i: int| right_source(i));
    assert forall|i: int, j: int| 0 <= i < j < r.tiles.len() implies #[trigger] from[i]
        != #[trigger] from[j] by {
        assert(i == 12 * (i / 12) + i % 12);
        assert(j == 12 * (j / 12) + j % 12);
    }
    lemma_rearranged(b.tiles, r.tiles, from);
    assert forall|i: int| 0 <= i < CELLS implies ((#[trigger] r.tiles[i]) == AVATAR) == (i == cell(
        r.player,
    )) by {
        assert((b.tiles[right_source(i)] == AVATAR) == (right_source(i) == cell(b.player)));
        assert(i == 12 * (i / 12) + i % 12);
    }
}

/// A turn to the left leaves the board well-formed.
pub proof fn lemma_rotate_left_wf(b: TensorView)
    requires
        b.wf(),
    ensures
        rotate_left_spec(b).wf(),
{
    let r = rotate_left_spec(b);
    let from = Seq::new(CELLS as nat, |i: int| left_source(i));
    assert forall|i: int, j: int| 0 <= i < j < r.tiles.len() implies #[trigger] from[i]
        != #[trigger] from[j] by {
        assert(i == 12 * (i / 12) + i % 12);
        assert(j == 12 * (j / 12) + j % 12);
    }
    lemma_rearranged(b.tiles, r.tiles, from);
    assert forall|i: int| 0 <= i < CELLS implies ((#[trigger] r.tiles[i]) == AVATAR) == (i == cell(
        r.player,
    )) by {
        assert((b.tiles[left_source(i)] == AVATAR) == (left_source(i) == cell(b.player)));
        assert(i == 12 * (i / 12) + i % 12);
    }
}

/// Three turns to the right are one turn to the left.
pub proof fn lemma_three_rights(b: TensorView)
    requires
        b.wf(),
    ensures
        rotate_right_spec(rotate_right_spec(rotate_right_spec(b))) == rotate_left_spec(b),
{
    let once = rotate_right_spec(b);
    let twice = rotate_right_spec(once);
    let thrice = rotate_right_spec(twice);
    let left = rotate_left_spec(b);
    assert forall|i: int| 0 <= i < CELLS implies thrice.tiles[i] == left.tiles[i] by {
        let a = right_source(i);
        let c = right_source(a);
        assert(0 <= a < CELLS);
        assert(0 <= c < CELLS);
        assert(right_source(c) == left_source(i));
    }
    assert(thrice.tiles =~= left.tiles);
}

/// A shift leaves the board well-formed.
pub proof fn lemma_slide_wf(b: TensorView, dx: int)
    requires
        b.wf(),
        -1 <= dx <= 1,
    ensures
        slide_spec(b, dx).0.wf(),
{
    let to = Pos { x: (b.player.x + dx) as i32, y: b.player.y };
    if let Some(v) = b.at(to) {
        if v == EMPTY || v == TARGET {
            let mid = b.tiles.update(cell(b.player), EMPTY);
            lemma_count_update(b.tiles, cell(b.player), EMPTY);
            lemma_count_update(mid, cell(to), AVATAR);
            let after = slide_spec(b, dx).0;
            assert(b.tiles[cell(b.player)] == AVATAR);
            assert forall|j: int| 0 <= j < CELLS implies ((#[trigger] after.tiles[j]) == AVATAR)
                == (j == cell(after.player)) by {
                assert((b.tiles[j] == AVATAR) == (j == cell(b.player)));
            }
        }
    }
}

/// Passes leave the count of targets as it is.
pub proof fn lemma_settle_targets(b: TensorView, fuel: nat)
    ensures
        settle_spec(b, fuel).targets == b.targets,
    decreases fuel,
{
    if fuel > 0 {
        lemma_scan_targets(b, CELLS as nat);
        if scan_spec(b, CELLS as nat).1 {
            lemma_settle_targets(scan_spec(b, CELLS as nat).0, (fuel - 1) as nat);
        }
    }
}

/// A pass leaves the count of targets as it is.
pub proof fn lemma_scan_targets(b: TensorView, k: nat)
    ensures
        scan_spec(b, k).0.targets == b.targets,
    decreases k,
{
    if k > 0 {
        lemma_scan_targets(b, (k - 1) as nat);
    }
}

/// A turn that wins leaves no target; one that does not win leaves a board
/// that had targets with targets.
pub proof fn lemma_tick_tensor_targets(b: TensorView, a: Action)
    ensures
        tick_tensor_spec(b, a).1 is Victory ==> tick_tensor_spec(b, a).0.targets == 0,
        b.targets > 0 && tick_tensor_spec(b, a).1 is Continue ==> tick_tensor_spec(b, a).0.targets
            > 0,
{
    lemma_settle_targets(press_spec(b, a).0, SETTLE_FUEL as nat);
}

/// A turn of the puzzle leaves the board well-formed.
pub proof fn lemma_tick_tensor_wf(b: TensorView, a: Action)
    requires
        b.wf(),
    ensures
        press_spec(b, a).0.wf(),
        tick_tensor_spec(b, a).0.wf(),
{
    match a {
        Action::Left => lemma_slide_wf(b, -1),
        Action::Right => lemma_slide_wf(b, 1),
        Action::Up => lemma_rotate_right_wf(b),
        Action::Down => lemma_rotate_left_wf(b),
    }
    lemma_settle(press_spec(b, a).0, SETTLE_FUEL as nat);
}

/// Shifts the player by `dx` cells along its row, if the way is free.
fn slide(board: &mut BoardTensor, dx: i32) -> (outcome: TickOutcomeTensor)
    requires
        old(board).wf(),
        -1 <= dx <= 1,
    ensures
        (final(board)@, outcome) == slide_spec(old(board)@, dx as int),
        final(board).wf(),
        final(board).transitioned_via == old(board).transitioned_via,
{
    proof {
        lemma_slide_wf(board@, dx as int);
        board@.tiles.to_multiset_ensures();
    }
    let pos = board.player_pos;
    let new_pos = Pos::new(pos.x + dx, pos.y);
    let ahead = match board.at(new_pos) {
        Some(v) => *v,
        None => {
            return TickOutcomeTensor::Continue;
        },
    };
    if ahead == EMPTY {
        board.set_at(pos, EMPTY);
        board.set_at(new_pos, AVATAR);
        board.player_pos = new_pos;
    } else if ahead == TARGET {
        assert(board@.tiles.contains(board@.tiles[cell(new_pos)]));
        board.set_at(pos, EMPTY);
        board.set_at(new_pos, AVATAR);
        board.player_pos = new_pos;
        board.amygdala_count -= 1;
        if board.amygdala_count == 0 {
            return TickOutcomeTensor::Victory;
        }
    }
    TickOutcomeTensor::Continue
}

/// Does what the action `key` asks for, before anything falls.
pub fn interpret_key(key: Action, board: &mut BoardTensor) -> (outcome: TickOutcomeTensor)
    requires
        old(board).wf(),
    ensures
        (final(board)@, outcome) == press_spec(old(board)@, key),
        final(board).wf(),
        final(board).transitioned_via == old(board).transitioned_via,
{
    match key {
        Action::Left => slide(board, -1),
        Action::Right => slide(board, 1),
        Action::Up => {
            rotate_right(board);
            TickOutcomeTensor::Continue
        },
        Action::Down => {
            rotate_left(board);
            TickOutcomeTensor::Continue
        },
    }
}

/// Turns the board a quarter to the right.
pub fn rotate_right(board: &mut BoardTensor)
    requires
        old(board).wf(),
    ensures
        final(board)@ == rotate_right_spec(old(board)@),
        final(board).wf(),
        final(board).transitioned_via == old(board).transitioned_via,
{
    let mut new_board = board.clone();
    let mut y: usize = 0;
    while y < SIDE
        invariant
            y <= SIDE,
            board.wf(),
            new_board@.tiles.len() == CELLS,
            new_board@.targets == board@.targets,
            new_board.transitioned_via == board.transitioned_via,
            forall|j: int|
                0 <= j < y * SIDE ==> new_board@.tiles[left_source(j)] == #[trigger] board@.tiles[j],
            cell(board@.player) < y * SIDE ==> new_board@.player == rotate_right_spec(
                board@,
            ).player,
        decreases SIDE - y,
    {
        let mut x: usize = 0;
        while x < SIDE
            invariant
                x <= SIDE,
                y < SIDE,
                board.wf(),
                new_board@.tiles.len() == CELLS,
                new_board@.targets == board@.targets,
                new_board.transitioned_via == board.transitioned_via,
                forall|j: int|
                    0 <= j < y * SIDE + x ==> new_board@.tiles[left_source(j)]
                        == #[trigger] board@.tiles[j],
                cell(board@.player) < y * SIDE + x ==> new_board@.player == rotate_right_spec(
                    board@,
                ).player,
            decreases SIDE - x,
        {
            let from = Pos::new(x as i32, y as i32);
            let c = match board.at(from) {
                Some(v) => *v,
                None => EMPTY,
            };
            let new_pos = Pos::new((SIDE - 1 - y) as i32, x as i32);
            if c == AVATAR {
                new_board.player_pos = new_pos;
            }
            let ghost before = new_board@.tiles;
            new_board.set_at(new_pos, c);
            proof {
                let here = y * SIDE + x;
                assert(cell(new_pos) == left_source(here));
                assert forall|j: int| 0 <= j < here + 1 implies new_board@.tiles[left_source(j)]
                    == #[trigger] board@.tiles[j] by {
                    if j < here {
                        assert(before[left_source(j)] == board@.tiles[j]);
                        assert(j == 12 * (j / 12) + j % 12);
                        assert(left_source(j) != left_source(here));
                    }
                }
            }
            x += 1;
        }
        y += 1;
    }
    proof {
        let want = rotate_right_spec(board@);
        assert forall|i: int| 0 <= i < CELLS implies new_board@.tiles[i] == want.tiles[i] by {
            let j = right_source(i);
            assert(0 <= j < CELLS);
            assert(left_source(j) == i);
            assert(new_board@.tiles[left_source(j)] == board@.tiles[j]);
        }
        assert(new_board@.tiles =~= want.tiles);
        lemma_rotate_right_wf(board@);
    }
    *board = new_board;
}

/// Turns the board a quarter to the left.
pub fn rotate_left(board: &mut BoardTensor)
    requires
        old(board).wf(),
    ensures
        final(board)@ == rotate_left_spec(old(board)@),
        final(board).wf(),
        final(board).transitioned_via == old(board).transitioned_via,
{
    proof {
        lemma_three_rights(board@);
        lemma_rotate_left_wf(board@);
    }
    rotate_right(board);
    rotate_right(board);
    rotate_right(board);
}

/// Lets everything loose fall as far as it can.
pub fn gravity(board: &mut BoardTensor)
    requires
        old(board).wf(),
    ensures
        final(board)@ == gravity_spec(old(board)@),
        final(board).wf(),
        fallen(old(board)@.tiles, final(board)@.tiles),
        final(board).transitioned_via == old(board).transitioned_via,
{
    proof {
        lemma_gravity_falls(board@);
    }
    let mut moved = true;
    let ghost mut fuel: nat = SETTLE_FUEL as nat;
    proof {
        lemma_room_bound(board@.tiles, CELLS as nat);
    }
    while moved
        invariant
            board.wf(),
            board.transitioned_via == old(board).transitioned_via,
            drop_room(board@.tiles, CELLS as nat) < fuel,
            moved ==> settle_spec(board@, fuel) == gravity_spec(old(board)@),
            !moved ==> board@ == gravity_spec(old(board)@),
        decreases fuel + (if moved { 1nat } else { 0nat }),
    {
        moved = false;
        let ghost start = board@;
        let mut k: usize = 0;
        while k < CELLS
            invariant
                k <= CELLS,
                start.wf(),
                board.wf(),
                board.transitioned_via == old(board).transitioned_via,
                (board@, moved) == scan_spec(start, k as nat),
            decreases CELLS - k,
        {
            proof {
                lemma_fall(board@, CELLS - 1 - k);
            }
            let i = CELLS - 1 - k;
            let y = i / SIDE;
            let x = i % SIDE;
            let pos = Pos::new(x as i32, y as i32);
            let c = match board.at(pos) {
                Some(v) => *v,
                None => EMPTY,
            };
            if c == AVATAR || c == TARGET {
                let new_pos = Pos::new(pos.x, pos.y + 1);
                let below = match board.at(new_pos) {
                    Some(v) => Some(*v),
                    None => None,
                };
                if let Some(0) = below {
                    moved = true;
                    board.set_at(pos, EMPTY);
                    board.set_at(new_pos, c);
                    if c == AVATAR {
                        board.player_pos = new_pos;
                    }
                }
            }
            k += 1;
        }
        proof {
            lemma_scan(start, CELLS as nat);
            if moved {
                fuel = (fuel - 1) as nat;
            }
        }
    }
}

/// Plays one turn of the gravity puzzle on `board`.
pub fn tick_tensor(board: &mut BoardTensor, key: Action) -> (outcome: TickOutcomeTensor)
    requires
        old(board).wf(),
    ensures
        (final(board)@, outcome) == tick_tensor_spec(old(board)@, key),
        final(board).wf(),
        final(board).transitioned_via == old(board).transitioned_via,
{
    let outcome = interpret_key(key, board);
    gravity(board);
    outcome
}

} // verus!
