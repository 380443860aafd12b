use tile_board::line::{merge, pack};
use tile_board::{BoardError, BoardState, Direction, Playable};

fn filled(cells: &[i32]) -> usize {
    cells.iter().filter(|v| **v != 0).count()
}

fn is_tile(v: i32) -> bool {
    v == 0 || (v >= 2 && (v & (v - 1)) == 0)
}

#[test]
fn board_iter_test() {
    let board_state = BoardState::from_tiles(vec![
        0, 0, 0, 0,
        0, 0, 0, 0,
        0, 0, 0, 0,
        0, 0, 0, 0,
    ])
    .unwrap();

    assert_eq!(
        board_state.iterate(),
        vec![
            0, 0, 0, 0,
            0, 0, 0, 0,
            0, 0, 0, 0,
            0, 0, 0, 0,
        ]
    )
}

#[test]
fn board_move_merge_test() {
    let mut board = BoardState::from_tiles(vec![
        0, 0, 2, 2,
        0, 0, 0, 0,
        0, 0, 0, 0,
        0, 0, 0, 0,
    ])
    .unwrap();

    board.move_right();

    assert_eq!(
        board.iterate(),
        vec![
            0, 0, 0, 4,
            0, 0, 0, 0,
            0, 0, 0, 0,
            0, 0, 0, 0,
        ]
    )
}

#[test]
fn board_move_pack_test() {
    let mut board = BoardState::from_tiles(vec![
        0, 2, 4, 0,
        0, 0, 0, 0,
        0, 0, 0, 0,
        0, 0, 0, 0,
    ])
    .unwrap();

    board.move_right();

    assert_eq!(
        board.iterate(),
        vec![
            0, 0, 2, 4,
            0, 0, 0, 0,
            0, 0, 0, 0,
            0, 0, 0, 0,
        ]
    )
}

#[test]
fn board_move_pack_and_merge_test() {
    let mut board = BoardState::from_tiles(vec![
        0, 2, 2, 0,
        0, 0, 0, 0,
        0, 0, 0, 0,
        0, 0, 0, 0,
    ])
    .unwrap();

    board.move_right();

    assert_eq!(
        board.iterate(),
        vec![
            0, 0, 0, 4,
            0, 0, 0, 0,
            0, 0, 0, 0,
            0, 0, 0, 0,
        ]
    )
}

#[test]
fn board_move_merge_precedence_test() {
    let mut board = BoardState::from_tiles(vec![
        0, 2, 2, 2,
        0, 0, 0, 0,
        0, 0, 0, 0,
        0, 0, 0, 0,
    ])
    .unwrap();

    board.move_right();

    assert_eq!(
        board.iterate(),
        vec![
            0, 0, 2, 4,
            0, 0, 0, 0,
            0, 0, 0, 0,
            0, 0, 0, 0,
        ]
    )
}

#[test]
fn round_trip_keeps_values() {
    let values = vec![2, 0, 4, 8, 16, 0, 0, 2, 32, 64, 0, 0, 4, 2, 4, 1024];
    let board = BoardState::from_tiles(values.clone()).unwrap();
    assert_eq!(board.iterate(), values);
}

#[test]
fn round_trip_keeps_garbage_values() {
    let values = vec![3, -7, 0, 5, 1, 1, 1, 1, 0, 0, 0, 0, 9, 9, 9, 9];
    let board = BoardState::from_tiles(values.clone()).unwrap();
    assert_eq!(board.iterate(), values);
}

#[test]
fn from_tiles_refuses_short_sequence() {
    assert!(matches!(
        BoardState::from_tiles(vec![0; 15]),
        Err(BoardError::InvalidLength)
    ));
}

#[test]
fn from_tiles_refuses_long_sequence() {
    assert!(matches!(
        BoardState::from_tiles(vec![0; 17]),
        Err(BoardError::InvalidLength)
    ));
}

#[test]
fn from_tiles_refuses_empty_sequence() {
    assert!(matches!(
        BoardState::from_tiles(Vec::new()),
        Err(BoardError::InvalidLength)
    ));
}

#[test]
fn empty_line_is_left_alone() {
    let mut line = [0, 0, 0, 0];
    assert!(!merge(&mut line));
    assert_eq!(line, [0, 0, 0, 0]);
    assert!(!pack(&mut line));
    assert_eq!(line, [0, 0, 0, 0]);
}

#[test]
fn empty_board_does_not_change() {
    let mut board = BoardState::from_tiles(vec![0; 16]).unwrap();
    assert!(!board.move_right());
    assert!(!board.move_left());
    assert!(!board.move_up());
    assert!(!board.move_down());
    assert_eq!(board.iterate(), vec![0; 16]);
}

#[test]
fn merge_does_not_chain() {
    let mut line = [2, 2, 2, 0];
    assert!(merge(&mut line));
    assert_eq!(line, [2, 4, 0, 0]);
}

#[test]
fn merge_pairs_in_order() {
    let mut line = [2, 2, 2, 2];
    assert!(merge(&mut line));
    assert_eq!(line, [4, 0, 4, 0]);
}

#[test]
fn merge_skips_gaps() {
    let mut line = [4, 0, 0, 4];
    assert!(merge(&mut line));
    assert_eq!(line, [8, 0, 0, 0]);
}

#[test]
fn merge_does_not_join_merged_values() {
    let mut line = [2, 2, 4, 0];
    assert!(merge(&mut line));
    assert_eq!(line, [4, 0, 4, 0]);
}

#[test]
fn merge_leaves_distinct_values() {
    let mut line = [2, 4, 2, 4];
    assert!(!merge(&mut line));
    assert_eq!(line, [2, 4, 2, 4]);
}

#[test]
fn pack_slides_to_far_end() {
    let mut line = [2, 0, 4, 0];
    assert!(pack(&mut line));
    assert_eq!(line, [0, 0, 2, 4]);
}

#[test]
fn pack_leaves_packed_line() {
    let mut line = [0, 8, 2, 4];
    assert!(!pack(&mut line));
    assert_eq!(line, [0, 8, 2, 4]);
}

#[test]
fn move_left_merges_towards_left() {
    let mut board = BoardState::from_tiles(vec![
        0, 2, 2, 2,
        4, 0, 4, 0,
        0, 0, 0, 8,
        2, 4, 8, 16,
    ])
    .unwrap();
    assert!(board.move_left());
    assert_eq!(
        board.iterate(),
        vec![
            4, 2, 0, 0,
            8, 0, 0, 0,
            8, 0, 0, 0,
            2, 4, 8, 16,
        ]
    );
}

#[test]
fn move_down_merges_columns() {
    let mut board = BoardState::from_tiles(vec![
        2, 0, 4, 0,
        2, 0, 0, 0,
        2, 2, 4, 0,
        0, 0, 0, 0,
    ])
    .unwrap();
    assert!(board.move_down());
    assert_eq!(
        board.iterate(),
        vec![
            0, 0, 0, 0,
            0, 0, 0, 0,
            2, 0, 0, 0,
            4, 2, 8, 0,
        ]
    );
}

#[test]
fn move_up_merges_columns() {
    let mut board = BoardState::from_tiles(vec![
        2, 0, 4, 0,
        2, 0, 0, 0,
        2, 2, 4, 0,
        0, 0, 0, 0,
    ])
    .unwrap();
    assert!(board.move_up());
    assert_eq!(
        board.iterate(),
        vec![
            4, 2, 8, 0,
            2, 0, 0, 0,
            0, 0, 0, 0,
            0, 0, 0, 0,
        ]
    );
}

#[test]
fn unchanged_move_repeats_unchanged() {
    let values = vec![
        0, 0, 2, 4,
        0, 0, 0, 8,
        0, 2, 4, 8,
        2, 4, 8, 16,
    ];
    let mut board = BoardState::from_tiles(values.clone()).unwrap();
    assert!(!board.move_right());
    assert_eq!(board.iterate(), values);
    assert!(!board.move_right());
    assert_eq!(board.iterate(), values);
}

#[test]
fn moves_keep_tile_values() {
    let mut board = BoardState::from_tiles(vec![
        2, 2, 4, 8,
        4, 4, 4, 4,
        8, 0, 8, 2,
        16, 16, 0, 2,
    ])
    .unwrap();
    let dirs = [
        Direction::Right,
        Direction::Down,
        Direction::Left,
        Direction::Up,
        Direction::Right,
        Direction::Right,
    ];
    for (k, d) in dirs.iter().enumerate() {
        assert!(board.can_double());
        board.play(*d, k as u32 * 7, k as u32);
        let cells = board.iterate();
        assert_eq!(cells.len(), 16);
        assert!(cells.iter().all(|v| is_tile(*v)));
    }
}

#[test]
fn play_without_change_spawns_nothing() {
    let values = vec![
        0, 0, 0, 2,
        0, 0, 0, 4,
        0, 0, 0, 0,
        0, 0, 0, 0,
    ];
    let mut board = BoardState::from_tiles(values.clone()).unwrap();
    assert!(!board.play(Direction::Right, 3, 1));
    assert_eq!(board.iterate(), values);
}

#[test]
fn play_with_change_spawns_one_tile() {
    let mut board = BoardState::from_tiles(vec![
        0, 2, 0, 0,
        0, 0, 0, 0,
        0, 0, 0, 0,
        0, 0, 0, 0,
    ])
    .unwrap();
    assert!(board.play(Direction::Right, 0, 1));
    // after the move the first empty cell is cell 0; an odd draw gives 4
    assert_eq!(
        board.iterate(),
        vec![
            4, 0, 0, 2,
            0, 0, 0, 0,
            0, 0, 0, 0,
            0, 0, 0, 0,
        ]
    );
}

#[test]
fn play_with_merges_spawns_on_emptied_cell() {
    let mut board = BoardState::from_tiles(vec![
        2, 2, 2, 2,
        4, 8, 4, 8,
        8, 4, 8, 4,
        4, 8, 4, 8,
    ])
    .unwrap();
    assert!(board.play(Direction::Right, 1, 0));
    // the move empties cells 0 and 1 of the first row; the draw 1 picks cell 1
    assert_eq!(
        board.iterate(),
        vec![
            0, 2, 4, 4,
            4, 8, 4, 8,
            8, 4, 8, 4,
            4, 8, 4, 8,
        ]
    );
    assert_eq!(filled(&board.iterate()), 15);
}

#[test]
fn spawn_at_picks_empty_cell_modulo_count() {
    let mut values = vec![2; 16];
    values[3] = 0;
    values[9] = 0;
    values[14] = 0;
    let mut board = BoardState::from_tiles(values.clone()).unwrap();
    board.spawn_at(7, 2);
    // 7 modulo 3 empty cells picks the second one, cell 9; an even draw gives 2
    values[9] = 2;
    assert_eq!(board.iterate(), values);
}

#[test]
fn spawn_at_odd_draw_gives_four() {
    let mut board = BoardState::from_tiles(vec![0; 16]).unwrap();
    board.spawn_at(18, 5);
    let mut expected = vec![0; 16];
    expected[2] = 4;
    assert_eq!(board.iterate(), expected);
}

#[test]
fn spawn_on_full_board_is_no_op() {
    let values: Vec<i32> = (0..16).map(|i| 2 << (i % 5)).collect();
    let mut board = BoardState::from_tiles(values.clone()).unwrap();
    board.spawn_at(5, 1);
    assert_eq!(board.iterate(), values);
    board.generate_tile();
    assert_eq!(board.iterate(), values);
}

#[test]
fn generate_tile_fills_one_empty_cell() {
    let mut board = BoardState::from_tiles(vec![0; 16]).unwrap();
    board.generate_tile();
    let cells = board.iterate();
    assert_eq!(filled(&cells), 1);
    assert!(cells.iter().all(|v| *v == 0 || *v == 2 || *v == 4));
}

#[test]
fn from_draws_places_three_tiles() {
    let board = BoardState::from_draws([0, 0, 0], [0, 1, 0]);
    assert_eq!(
        board.iterate(),
        vec![
            2, 4, 2, 0,
            0, 0, 0, 0,
            0, 0, 0, 0,
            0, 0, 0, 0,
        ]
    );
}

#[test]
fn from_draws_picks_among_remaining_cells() {
    let board = BoardState::from_draws([15, 15, 31], [1, 1, 0]);
    // 15 takes cell 15; then 15 of the 15 remaining wraps to cell 0;
    // then 31 modulo 14 is 3, the fourth remaining cell, cell 4
    let mut expected = vec![0; 16];
    expected[15] = 4;
    expected[0] = 4;
    expected[4] = 2;
    assert_eq!(board.iterate(), expected);
}

#[test]
fn new_board_has_three_small_tiles() {
    for _ in 0..20 {
        let board = BoardState::new();
        let cells = board.iterate();
        assert_eq!(cells.len(), 16);
        assert_eq!(filled(&cells), 3);
        assert!(cells.iter().all(|v| *v == 0 || *v == 2 || *v == 4));
    }
}

#[test]
fn reset_seeds_a_fresh_board() {
    let mut board = BoardState::from_tiles(vec![8; 16]).unwrap();
    board.reset();
    let cells = board.iterate();
    assert_eq!(filled(&cells), 3);
    assert!(cells.iter().all(|v| *v == 0 || *v == 2 || *v == 4));
}

#[test]
fn turn_spawns_only_after_change() {
    let values = vec![
        0, 0, 0, 2,
        0, 0, 0, 0,
        0, 0, 0, 0,
        0, 0, 0, 0,
    ];
    let mut board = BoardState::from_tiles(values.clone()).unwrap();
    assert!(!board.turn(Direction::Right));
    assert_eq!(board.iterate(), values);
    assert!(board.turn(Direction::Left));
    let cells = board.iterate();
    assert_eq!(cells[0], 2);
    assert_eq!(filled(&cells), 2);
}

#[test]
fn can_double_refuses_huge_values() {
    let mut values = vec![0; 16];
    values[5] = 1 << 30;
    let board = BoardState::from_tiles(values).unwrap();
    assert!(!board.can_double());
    let board = BoardState::from_tiles(vec![1 << 29; 16]).unwrap();
    assert!(board.can_double());
}
