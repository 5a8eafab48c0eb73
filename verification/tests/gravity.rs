use tile_solver::gravity::{
    gravity, interpret_key, rotate_left, rotate_right, tick_tensor, TickOutcomeTensor,
};
use tile_solver::pos::{Action, Pos};
use tile_solver::board::BoardError;
use tile_solver::tensor::{BoardTensor, AVATAR, BLOCK, EMPTY, TARGET};

fn cell(b: &BoardTensor, x: usize, y: usize) -> u8 {
    b.tiles[y * 12 + x]
}

fn floor(player: Pos) -> BoardTensor {
    let mut b = BoardTensor::with_player(player);
    for x in 0..12 {
        b.place(Pos::new(x, 11), BLOCK);
    }
    b
}

#[test]
fn with_player_makes_an_empty_board() {
    let b = BoardTensor::with_player(Pos::new(4, 7));
    assert_eq!(b.tiles.len(), 144);
    assert_eq!(b.player_pos, Pos::new(4, 7));
    assert_eq!(b.amygdala_count, 0);
    assert_eq!(b.transitioned_via, None);
    assert_eq!(b.tiles.iter().filter(|v| **v == AVATAR).count(), 1);
    assert_eq!(b.tiles.iter().filter(|v| **v == EMPTY).count(), 143);
    assert_eq!(cell(&b, 4, 7), AVATAR);
}

#[test]
fn place_counts_the_targets() {
    let mut b = BoardTensor::with_player(Pos::new(0, 0));
    b.place(Pos::new(3, 3), TARGET);
    b.place(Pos::new(4, 3), TARGET);
    assert_eq!(b.amygdala_count, 2);
    b.place(Pos::new(3, 3), BLOCK);
    assert_eq!(b.amygdala_count, 1);
    b.place(Pos::new(4, 3), TARGET);
    assert_eq!(b.amygdala_count, 1);
    assert_eq!(cell(&b, 3, 3), BLOCK);
    assert_eq!(cell(&b, 4, 3), TARGET);
}

#[test]
fn at_and_set_at_on_the_grid() {
    let mut b = BoardTensor::with_player(Pos::new(2, 1));
    assert_eq!(b.at(Pos::new(2, 1)), Some(&AVATAR));
    assert_eq!(b.at(Pos::new(0, 0)), Some(&EMPTY));
    assert_eq!(b.at(Pos::new(-1, 0)), None);
    assert_eq!(b.at(Pos::new(12, 0)), None);
    assert_eq!(b.at(Pos::new(0, 12)), None);
    assert_eq!(b.at(Pos::new(0, -1)), None);
    b.set_at(Pos::new(11, 11), 131);
    assert_eq!(b.at(Pos::new(11, 11)), Some(&131));
    assert_eq!(b.tiles[143], 131);
}

#[test]
fn from_bytes_reads_a_board() {
    let mut bytes = vec![0u8; 144];
    bytes[12 * 10 + 4] = 1;
    bytes[12 * 10 + 5] = 2;
    bytes[12 * 3 + 7] = 2;
    bytes[0] = 3;
    bytes[143] = 132;
    let b = BoardTensor::from_bytes(&bytes).unwrap();
    assert_eq!(b.tiles, bytes);
    assert_eq!(b.player_pos, Pos::new(4, 10));
    assert_eq!(b.amygdala_count, 2);
    assert_eq!(b.transitioned_via, None);
}

#[test]
fn from_bytes_rejects_what_is_no_board() {
    assert_eq!(BoardTensor::from_bytes(&[0u8; 143]).err(), Some(BoardError::WrongSize));
    assert_eq!(BoardTensor::from_bytes(&[0u8; 145]).err(), Some(BoardError::WrongSize));
    assert_eq!(BoardTensor::from_bytes(&[0u8; 144]).err(), Some(BoardError::MissingPlayer));
    let mut two = vec![0u8; 144];
    two[5] = 1;
    two[77] = 1;
    assert_eq!(BoardTensor::from_bytes(&two).err(), Some(BoardError::SecondPlayer));
}

#[test]
fn sample_board_has_three_targets() {
    let b = BoardTensor::new_test_01();
    assert_eq!(b.player_pos, Pos::new(1, 10));
    assert_eq!(b.amygdala_count, 3);
    assert_eq!(b.tiles.iter().filter(|v| **v == TARGET).count(), 3);
    assert_eq!(b.tiles.iter().filter(|v| **v == AVATAR).count(), 1);
    assert_eq!(b.tiles.iter().filter(|v| **v == BLOCK).count(), 45);
    assert_eq!(cell(&b, 2, 10), TARGET);
    assert_eq!(cell(&b, 5, 10), BLOCK);
    assert_eq!(cell(&b, 9, 9), TARGET);
}

#[test]
fn rotate_right_takes_the_top_row_to_the_right_column() {
    let mut b = BoardTensor::with_player(Pos::new(2, 3));
    b.place(Pos::new(0, 0), BLOCK);
    b.place(Pos::new(11, 0), TARGET);
    rotate_right(&mut b);
    assert_eq!(b.player_pos, Pos::new(8, 2));
    assert_eq!(cell(&b, 8, 2), AVATAR);
    assert_eq!(cell(&b, 11, 0), BLOCK);
    assert_eq!(cell(&b, 11, 11), TARGET);
    assert_eq!(b.amygdala_count, 1);
    assert_eq!(b.tiles.iter().filter(|v| **v != EMPTY).count(), 3);
}

#[test]
fn rotate_left_takes_the_top_row_to_the_left_column() {
    let mut b = BoardTensor::with_player(Pos::new(2, 3));
    b.place(Pos::new(0, 0), BLOCK);
    b.place(Pos::new(11, 0), TARGET);
    rotate_left(&mut b);
    assert_eq!(b.player_pos, Pos::new(3, 9));
    assert_eq!(cell(&b, 3, 9), AVATAR);
    assert_eq!(cell(&b, 0, 11), BLOCK);
    assert_eq!(cell(&b, 0, 0), TARGET);
    assert_eq!(b.tiles.iter().filter(|v| **v != EMPTY).count(), 3);
}

#[test]
fn rotations_undo_each_other() {
    let start = BoardTensor::new_test_01();
    let mut b = start.clone();
    rotate_right(&mut b);
    assert_ne!(b.tiles, start.tiles);
    rotate_left(&mut b);
    assert_eq!(b.tiles, start.tiles);
    assert_eq!(b.player_pos, start.player_pos);
    for _ in 0..4 {
        rotate_right(&mut b);
    }
    assert_eq!(b.tiles, start.tiles);
    assert_eq!(b.player_pos, start.player_pos);
}

#[test]
fn gravity_drops_the_player_to_the_bottom() {
    let mut b = BoardTensor::with_player(Pos::new(5, 5));
    gravity(&mut b);
    assert_eq!(b.player_pos, Pos::new(5, 11));
    assert_eq!(cell(&b, 5, 11), AVATAR);
    assert_eq!(cell(&b, 5, 5), EMPTY);
}

#[test]
fn gravity_stacks_what_falls_and_leaves_blocks() {
    let mut b = BoardTensor::with_player(Pos::new(0, 11));
    b.place(Pos::new(4, 2), TARGET);
    b.place(Pos::new(4, 5), TARGET);
    b.place(Pos::new(2, 8), BLOCK);
    b.place(Pos::new(2, 3), TARGET);
    b.place(Pos::new(7, 1), 131);
    gravity(&mut b);
    assert_eq!(cell(&b, 4, 11), TARGET);
    assert_eq!(cell(&b, 4, 10), TARGET);
    assert_eq!(cell(&b, 4, 9), EMPTY);
    assert_eq!(cell(&b, 2, 8), BLOCK);
    assert_eq!(cell(&b, 2, 7), TARGET);
    assert_eq!(cell(&b, 2, 3), EMPTY);
    assert_eq!(cell(&b, 7, 1), 131);
    assert_eq!(b.player_pos, Pos::new(0, 11));
    assert_eq!(b.amygdala_count, 3);
}

#[test]
fn gravity_leaves_a_board_at_rest_alone() {
    let mut b = floor(Pos::new(3, 10));
    b.place(Pos::new(4, 10), TARGET);
    let before = b.tiles.clone();
    gravity(&mut b);
    assert_eq!(b.tiles, before);
    assert_eq!(b.player_pos, Pos::new(3, 10));
}

#[test]
fn interpret_key_shifts_the_player() {
    let mut b = floor(Pos::new(3, 10));
    assert_eq!(interpret_key(Action::Left, &mut b), TickOutcomeTensor::Continue);
    assert_eq!(b.player_pos, Pos::new(2, 10));
    assert_eq!(cell(&b, 2, 10), AVATAR);
    assert_eq!(cell(&b, 3, 10), EMPTY);
    assert_eq!(interpret_key(Action::Right, &mut b), TickOutcomeTensor::Continue);
    assert_eq!(b.player_pos, Pos::new(3, 10));
}

#[test]
fn interpret_key_collects_targets_and_wins_with_the_last() {
    let mut b = floor(Pos::new(3, 10));
    b.place(Pos::new(4, 10), TARGET);
    b.place(Pos::new(5, 10), TARGET);
    assert_eq!(interpret_key(Action::Right, &mut b), TickOutcomeTensor::Continue);
    assert_eq!(b.amygdala_count, 1);
    assert_eq!(b.player_pos, Pos::new(4, 10));
    assert_eq!(interpret_key(Action::Right, &mut b), TickOutcomeTensor::Victory);
    assert_eq!(b.amygdala_count, 0);
    assert_eq!(b.player_pos, Pos::new(5, 10));
    assert_eq!(b.tiles.iter().filter(|v| **v == TARGET).count(), 0);
}

#[test]
fn interpret_key_is_stopped_by_blocks_and_edges() {
    let mut b = floor(Pos::new(0, 10));
    b.place(Pos::new(1, 10), 132);
    let before = b.tiles.clone();
    assert_eq!(interpret_key(Action::Left, &mut b), TickOutcomeTensor::Continue);
    assert_eq!(interpret_key(Action::Right, &mut b), TickOutcomeTensor::Continue);
    assert_eq!(b.tiles, before);
    assert_eq!(b.player_pos, Pos::new(0, 10));
}

#[test]
fn interpret_key_turns_the_board() {
    let mut b = BoardTensor::with_player(Pos::new(2, 3));
    assert_eq!(interpret_key(Action::Up, &mut b), TickOutcomeTensor::Continue);
    assert_eq!(b.player_pos, Pos::new(8, 2));
    assert_eq!(interpret_key(Action::Down, &mut b), TickOutcomeTensor::Continue);
    assert_eq!(b.player_pos, Pos::new(2, 3));
}

#[test]
fn tick_tensor_lets_things_fall_after_the_action() {
    let mut b = floor(Pos::new(3, 10));
    b.place(Pos::new(4, 10), BLOCK);
    b.place(Pos::new(4, 9), TARGET);
    b.place(Pos::new(2, 10), TARGET);
    assert_eq!(tick_tensor(&mut b, Action::Left), TickOutcomeTensor::Continue);
    assert_eq!(b.player_pos, Pos::new(2, 10));
    assert_eq!(b.amygdala_count, 1);
    let mut c = BoardTensor::with_player(Pos::new(2, 3));
    assert_eq!(tick_tensor(&mut c, Action::Up), TickOutcomeTensor::Continue);
    assert_eq!(c.player_pos, Pos::new(8, 11));
    assert_eq!(cell(&c, 8, 11), AVATAR);
}

#[test]
fn tick_tensor_drops_the_player_off_a_ledge() {
    let mut b = floor(Pos::new(3, 9));
    b.place(Pos::new(3, 10), BLOCK);
    assert_eq!(tick_tensor(&mut b, Action::Right), TickOutcomeTensor::Continue);
    assert_eq!(b.player_pos, Pos::new(4, 10));
    assert_eq!(cell(&b, 4, 10), AVATAR);
    assert_eq!(cell(&b, 4, 9), EMPTY);
}
