use tile_solver::board::{Board, BoardError};
use tile_solver::game::{
    is_dead, is_win, move_hunter_internal, move_hunters, move_player, tick, MoveOutcome,
    TickOutcome,
};
use tile_solver::parse::{is_space, join_rows, split_rows, trimmed_line};
use tile_solver::pos::{Action, Pos};

fn chars(text: &str) -> Vec<char> {
    text.chars().collect()
}

fn board(text: &str) -> Board {
    Board::from_text(&chars(text)).unwrap()
}

fn row(b: &Board, y: usize) -> String {
    b.tiles[y * b.width..(y + 1) * b.width].iter().collect()
}

#[test]
fn pos_new_and_add() {
    let p = Pos::new(3, -4);
    assert_eq!(p.x, 3);
    assert_eq!(p.y, -4);
    assert_eq!(p + (1, 0), Pos::new(4, -4));
    assert_eq!(p + (-3, 4), Pos::new(0, 0));
}

#[test]
fn actions_have_a_fixed_order_and_steps() {
    assert_eq!(Action::from_index(0), Action::Left);
    assert_eq!(Action::from_index(1), Action::Right);
    assert_eq!(Action::from_index(2), Action::Up);
    assert_eq!(Action::from_index(3), Action::Down);
    assert_eq!(Action::Up.index(), 2);
    assert_eq!(Action::Left.offset(), (-1, 0));
    assert_eq!(Action::Right.offset(), (1, 0));
    assert_eq!(Action::Up.offset(), (0, -1));
    assert_eq!(Action::Down.offset(), (0, 1));
}

#[test]
fn find_chars_lists_cells_in_reading_order() {
    let tiles = chars("#@ K#K");
    let found = Board::find_chars(&tiles, 'K', 3);
    assert_eq!(found, vec![Pos::new(0, 1), Pos::new(2, 1)]);
    assert!(Board::find_chars(&tiles, '$', 3).is_empty());
}

#[test]
fn sample_board_has_its_pieces() {
    let b = Board::new_test_01();
    assert_eq!(b.width, 12);
    assert_eq!(b.tiles.len(), 96);
    assert_eq!(b.player_pos, Pos::new(3, 1));
    assert_eq!(b.hunters_pos, vec![Pos::new(10, 1), Pos::new(9, 5)]);
    assert_eq!(b.exit_pos, Pos::new(8, 6));
    assert_eq!(row(&b, 1), "#  @#     K#");
}

#[test]
fn at_reads_a_cell_and_nothing_off_the_board() {
    let b = Board::new_test_01();
    assert_eq!(b.at(Pos::new(3, 1)), Some(&'@'));
    assert_eq!(b.at(Pos::new(0, 0)), Some(&'#'));
    assert_eq!(b.at(Pos::new(11, 7)), Some(&'#'));
    assert_eq!(b.at(Pos::new(-1, 1)), None);
    assert_eq!(b.at(Pos::new(12, 0)), None);
    assert_eq!(b.at(Pos::new(0, 8)), None);
    assert_eq!(b.at(Pos::new(0, -1)), None);
}

#[test]
fn pos2index_counts_rows() {
    let b = Board::new_test_01();
    assert_eq!(b.pos2index(Pos::new(3, 1)), 15);
    assert_eq!(b.pos2index(Pos::new(0, 0)), 0);
    assert_eq!(b.pos2index(Pos::new(11, 7)), 95);
}

#[test]
fn set_at_writes_one_cell() {
    let mut b = Board::new_test_01();
    b.set_at(Pos::new(1, 1), 'x');
    assert_eq!(row(&b, 1), "#x @#     K#");
    assert_eq!(row(&b, 0), "############");
}

#[test]
fn clone_keeps_the_board() {
    let b = Board::new_test_01();
    let c = b.clone();
    assert_eq!(c.tiles, b.tiles);
    assert_eq!(c.width, b.width);
    assert_eq!(c.player_pos, b.player_pos);
    assert_eq!(c.hunters_pos, b.hunters_pos);
    assert_eq!(c.exit_pos, b.exit_pos);
}

#[test]
fn from_text_reads_rows() {
    let b = board("#####\n#@K$#\n#####\n");
    assert_eq!(b.width, 5);
    assert_eq!(b.tiles.len(), 15);
    assert_eq!(b.player_pos, Pos::new(1, 1));
    assert_eq!(b.hunters_pos, vec![Pos::new(2, 1)]);
    assert_eq!(b.exit_pos, Pos::new(3, 1));
}

#[test]
fn from_text_leaves_out_white_space_at_line_ends() {
    let b = board("#### \r\n#@$#\t\n####");
    assert_eq!(b.width, 4);
    assert_eq!(b.tiles, chars("#####@$#####"));
}

#[test]
fn from_text_takes_the_first_player_and_exit() {
    let b = board("@$\n$@\n");
    assert_eq!(b.player_pos, Pos::new(0, 0));
    assert_eq!(b.exit_pos, Pos::new(1, 0));
}

#[test]
fn from_text_rejects_rows_of_unequal_length() {
    assert_eq!(
        Board::from_text(&chars("####\n#@$\n####\n")).err(),
        Some(BoardError::InconsistentRow(2))
    );
    assert_eq!(
        Board::from_text(&chars("####\n#@$#\n####\n\n")).err(),
        Some(BoardError::InconsistentRow(4))
    );
}

#[test]
fn from_text_rejects_a_board_without_player() {
    assert_eq!(Board::from_text(&chars("###\n# $\n")).err(), Some(BoardError::MissingPlayer));
    assert_eq!(Board::from_text(&chars("###\n#$#\n")).err(), Some(BoardError::MissingPlayer));
    assert_eq!(Board::from_text(&chars("")).err(), Some(BoardError::MissingPlayer));
    assert_eq!(Board::from_text(&chars("\n\n")).err(), Some(BoardError::MissingPlayer));
}

#[test]
fn from_text_rejects_a_board_without_exit() {
    assert_eq!(Board::from_text(&chars("#@#\n")).err(), Some(BoardError::MissingExit));
}

#[test]
fn move_player_steps_onto_floor() {
    let mut b = board("######\n#@  $#\n######\n");
    assert_eq!(move_player(&mut b, (1, 0)), MoveOutcome::Moved(Pos::new(2, 1)));
    assert_eq!(b.player_pos, Pos::new(2, 1));
    assert_eq!(row(&b, 1), "# @ $#");
}

#[test]
fn move_player_stops_at_a_wall_and_at_the_edge() {
    let mut b = board("@ $\n");
    assert_eq!(move_player(&mut b, (-1, 0)), MoveOutcome::NotMoved);
    assert_eq!(move_player(&mut b, (0, 1)), MoveOutcome::NotMoved);
    assert_eq!(b.player_pos, Pos::new(0, 0));
    let mut c = board("######\n#@  $#\n######\n");
    assert_eq!(move_player(&mut c, (-1, 0)), MoveOutcome::NotMoved);
    assert_eq!(move_player(&mut c, (0, -1)), MoveOutcome::NotMoved);
    assert_eq!(row(&c, 1), "#@  $#");
}

#[test]
fn move_hunter_internal_steps_and_leaves_floor() {
    let mut b = board("#######\n#@  K$#\n#######\n");
    let out = move_hunter_internal(&mut b, (-1, 0), Pos::new(4, 1));
    assert_eq!(out, MoveOutcome::Moved(Pos::new(3, 1)));
    assert_eq!(row(&b, 1), "#@ K $#");
    assert_eq!(b.hunters_pos, vec![Pos::new(4, 1)]);
}

#[test]
fn move_hunter_internal_shows_the_exit_again() {
    let mut b = board("#######\n#@  K$#\n#######\n");
    assert_eq!(
        move_hunter_internal(&mut b, (1, 0), Pos::new(4, 1)),
        MoveOutcome::Moved(Pos::new(5, 1))
    );
    assert_eq!(row(&b, 1), "#@   K#");
    assert_eq!(
        move_hunter_internal(&mut b, (-1, 0), Pos::new(5, 1)),
        MoveOutcome::Moved(Pos::new(4, 1))
    );
    assert_eq!(row(&b, 1), "#@  K$#");
}

#[test]
fn move_hunter_internal_is_stopped() {
    let mut b = board("#######\n#@ KK$#\n#######\n");
    assert_eq!(move_hunter_internal(&mut b, (0, 0), Pos::new(3, 1)), MoveOutcome::NotMoved);
    assert_eq!(move_hunter_internal(&mut b, (1, 0), Pos::new(3, 1)), MoveOutcome::NotMoved);
    assert_eq!(move_hunter_internal(&mut b, (0, -1), Pos::new(3, 1)), MoveOutcome::NotMoved);
    assert_eq!(row(&b, 1), "#@ KK$#");
    let mut c = board("K@$\n");
    assert_eq!(move_hunter_internal(&mut c, (-1, 0), Pos::new(0, 0)), MoveOutcome::NotMoved);
}

#[test]
fn move_hunters_takes_the_vertical_step_first() {
    let mut b = board("#######\n#K   $#\n#     #\n#   @ #\n#######\n");
    assert!(move_hunters(&mut b));
    assert_eq!(b.hunters_pos, vec![Pos::new(1, 2)]);
    assert_eq!(row(&b, 1), "#    $#");
    assert_eq!(row(&b, 2), "#K    #");
}

#[test]
fn move_hunters_takes_the_horizontal_step_where_it_is_nearer() {
    let mut b = board("#######\n#K   $#\n#     #\n# @   #\n#######\n");
    assert!(move_hunters(&mut b));
    assert_eq!(b.hunters_pos, vec![Pos::new(2, 1)]);
    assert_eq!(row(&b, 1), "# K  $#");
}

#[test]
fn move_hunters_falls_back_on_the_other_axis() {
    let mut b = board("#######\n#K   $#\n##    #\n#   @ #\n#######\n");
    assert!(move_hunters(&mut b));
    assert_eq!(b.hunters_pos, vec![Pos::new(2, 1)]);
}

#[test]
fn move_hunters_tells_when_nobody_moved() {
    let mut b = board("#######\n#K   $#\n##    #\n#@    #\n#######\n");
    assert!(!move_hunters(&mut b));
    assert_eq!(b.hunters_pos, vec![Pos::new(1, 1)]);
    assert_eq!(row(&b, 1), "#K   $#");
}

#[test]
fn move_hunters_moves_each_in_turn() {
    let mut b = board("########\n#@  KK$#\n########\n");
    assert!(move_hunters(&mut b));
    assert_eq!(b.hunters_pos, vec![Pos::new(3, 1), Pos::new(4, 1)]);
    assert_eq!(row(&b, 1), "#@ KK $#");
}

#[test]
fn is_dead_and_is_win_read_the_positions() {
    let mut b = board("#####\n#@K$#\n#####\n");
    assert!(!is_dead(&b));
    assert!(!is_win(&b));
    b.player_pos = Pos::new(2, 1);
    assert!(is_dead(&b));
    assert!(!is_win(&b));
    b.player_pos = Pos::new(3, 1);
    assert!(!is_dead(&b));
    assert!(is_win(&b));
}

#[test]
fn tick_against_a_wall_changes_nothing() {
    let mut b = board("#########\n#@    $K#\n#########\n");
    let before = b.tiles.clone();
    assert_eq!(tick(&mut b, (-1, 0)), TickOutcome::Alive(MoveOutcome::NotMoved));
    assert_eq!(b.tiles, before);
    assert_eq!(b.hunters_pos, vec![Pos::new(7, 1)]);
}

#[test]
fn tick_lets_the_hunters_close_in_twice() {
    let mut b = board("##########\n#@   $  K#\n##########\n");
    assert_eq!(
        tick(&mut b, (1, 0)),
        TickOutcome::Alive(MoveOutcome::Moved(Pos::new(0, 0)))
    );
    assert_eq!(b.player_pos, Pos::new(2, 1));
    assert_eq!(b.hunters_pos, vec![Pos::new(6, 1)]);
    assert_eq!(row(&b, 1), "# @  $K  #");
}

#[test]
fn tick_wins_on_the_exit() {
    let mut b = board("#######\n#@$  K#\n#######\n");
    assert_eq!(tick(&mut b, (1, 0)), TickOutcome::Victory);
    assert_eq!(b.player_pos, b.exit_pos);
    assert_eq!(b.hunters_pos, vec![Pos::new(5, 1)]);
    assert_eq!(row(&b, 1), "# @  K#");
}

#[test]
fn tick_dies_on_a_hunter() {
    let mut b = board("######\n#@K $#\n######\n");
    assert_eq!(tick(&mut b, (1, 0)), TickOutcome::Dead);
    assert_eq!(b.player_pos, Pos::new(2, 1));
}

#[test]
fn tick_dies_when_a_hunter_arrives() {
    let mut b = board("########\n#@  K $#\n########\n");
    assert_eq!(tick(&mut b, (1, 0)), TickOutcome::Dead);
    assert_eq!(b.hunters_pos, vec![Pos::new(2, 1)]);
    assert_eq!(row(&b, 1), "# K   $#");
}

#[test]
fn is_space_knows_white_space() {
    for c in [' ', '\t', '\n', '\r', '\u{b}', '\u{c}', '\u{85}', '\u{a0}', '\u{1680}'] {
        assert!(is_space(c));
    }
    for c in ['\u{2000}', '\u{200a}', '\u{2028}', '\u{2029}', '\u{202f}', '\u{205f}', '\u{3000}'] {
        assert!(is_space(c));
    }
    for c in ['#', '@', 'K', '$', 'a', '0', '\u{8}', '\u{e}', '\u{200b}', '\u{feff}'] {
        assert!(!is_space(c));
    }
    for code in 0..0x3100u32 {
        if let Some(c) = char::from_u32(code) {
            assert_eq!(is_space(c), c.is_whitespace());
        }
    }
}

#[test]
fn trimmed_line_cuts_the_end_only() {
    let text = chars("ab  cd \t x");
    assert_eq!(trimmed_line(&text, 0, 8), chars("ab  cd"));
    assert_eq!(trimmed_line(&text, 2, 4), chars(""));
    assert_eq!(trimmed_line(&text, 2, 6), chars("  cd"));
    assert_eq!(trimmed_line(&text, 0, 10), chars("ab  cd \t x"));
    assert_eq!(trimmed_line(&text, 5, 5), chars(""));
}

#[test]
fn split_rows_ends_a_row_at_each_line_feed() {
    let rows = |text: &str| -> Vec<String> {
        split_rows(&chars(text)).iter().map(|r| r.iter().collect()).collect()
    };
    assert_eq!(rows("ab\ncd"), vec!["ab", "cd"]);
    assert_eq!(rows("ab\ncd\n"), vec!["ab", "cd"]);
    assert_eq!(rows("ab\n\ncd\n\n"), vec!["ab", "", "cd", ""]);
    assert_eq!(rows("\n"), vec![""]);
    assert_eq!(rows(""), Vec::<String>::new());
    assert_eq!(rows("a \r\n b\t"), vec!["a", " b"]);
    assert_eq!(rows("   "), vec![""]);
}

#[test]
fn join_rows_wants_rows_of_one_length() {
    let rows: Vec<Vec<char>> = vec![chars("ab"), chars("cd"), chars("ef")];
    assert_eq!(join_rows(&rows), Ok(chars("abcdef")));
    let odd: Vec<Vec<char>> = vec![chars("ab"), chars("cd"), chars("e"), chars("")];
    assert_eq!(join_rows(&odd), Err(3));
    assert_eq!(join_rows(&Vec::new()), Ok(Vec::new()));
    let empty: Vec<Vec<char>> = vec![chars(""), chars("")];
    assert_eq!(join_rows(&empty), Ok(Vec::new()));
}

#[test]
fn from_rows_makes_the_board_of_the_text() {
    let rows: Vec<Vec<char>> = vec![chars("#####"), chars("#@K$#"), chars("#####")];
    let b = Board::from_rows(&rows).unwrap();
    let c = board("#####\n#@K$#\n#####\n");
    assert_eq!(b.tiles, c.tiles);
    assert_eq!(b.width, c.width);
    assert_eq!(b.player_pos, c.player_pos);
    assert_eq!(b.hunters_pos, c.hunters_pos);
    assert_eq!(b.exit_pos, c.exit_pos);
    let none: Vec<Vec<char>> = Vec::new();
    assert_eq!(Board::from_rows(&none).err(), Some(BoardError::MissingPlayer));
}
