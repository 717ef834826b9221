use yew_app::{
    check_game_state, collapse_row, collect_tiles_to_the_left, free_cells, initialise_board,
    make_move, maybe_move_tiles, place_starter_value, reverse_board, spawn_tile_at,
    transpose_board, Direction, GameState, WIN_TILE,
};

fn count_tiles(board: &Vec<Vec<i32>>) -> usize {
    board.iter().flatten().filter(|v| **v != 0).count()
}

fn sum(board: &Vec<Vec<i32>>) -> i64 {
    board.iter().flatten().map(|v| *v as i64).sum()
}

#[test]
fn test_move() {
    let mut test_board = vec![vec![4, 4, 8, 0]; 4];
    make_move(Direction::Left, &mut test_board, &mut GameState::Active);
    assert_eq!(test_board[0][0], 8);
    assert_eq!(test_board[0][1], 8);
    assert!(matches!(test_board[0][2], 0 | 2 | 4));
}

#[test]
fn test_move_no_changes() {
    let mut test_board = vec![vec![2, 4, 8, 0]; 4];
    let board_snapshot = test_board.clone();
    make_move(Direction::Left, &mut test_board, &mut GameState::Active);
    assert_eq!(test_board, board_snapshot);
    make_move(Direction::Right, &mut test_board, &mut GameState::Active);
    assert_eq!(test_board[0].split_off(1), vec![2, 4, 8]);
}

#[test]
fn test_adds_starter_value() {
    let mut test_board = vec![
        vec![2, 4, 8, 0],
        vec![2, 4, 8, 16],
        vec![2, 4, 8, 16],
        vec![2, 4, 8, 16],
    ];
    make_move(Direction::Right, &mut test_board, &mut GameState::Active);
    assert!(matches!(test_board[0][0], 2 | 4));
}

#[test]
fn collapse_does_not_cascade() {
    assert_eq!(collapse_row(&vec![2, 2, 2, 2]), vec![4, 4, 0, 0]);
}

#[test]
fn collapse_exact_rows() {
    assert_eq!(collapse_row(&vec![4, 4, 8, 0]), vec![8, 8, 0, 0]);
    assert_eq!(collapse_row(&vec![0, 2, 0, 2]), vec![4, 0, 0, 0]);
    assert_eq!(collapse_row(&vec![2, 2, 4, 4]), vec![4, 8, 0, 0]);
    assert_eq!(collapse_row(&vec![8, 4, 4, 0]), vec![8, 8, 0, 0]);
    assert_eq!(collapse_row(&vec![0, 0, 0, 0]), vec![0, 0, 0, 0]);
    assert_eq!(collapse_row(&vec![0, 0, 0, 2]), vec![2, 0, 0, 0]);
    assert_eq!(collapse_row(&vec![2, 4, 8, 16]), vec![2, 4, 8, 16]);
}

#[test]
fn collapse_near_the_largest_sum() {
    let half = 1 << 30;
    assert_eq!(collapse_row(&vec![0, half - 1, 0, half - 1]), vec![2 * (half - 1), 0, 0, 0]);
}

#[test]
fn scenario_left_merges_then_spawns_in_trailing_zero() {
    let mut board = vec![vec![4, 4, 8, 0]; 4];
    let changed = maybe_move_tiles(Direction::Left, &mut board);
    assert!(changed);
    assert_eq!(board, vec![vec![8, 8, 0, 0]; 4]);

    let mut played = vec![
        vec![4, 4, 8, 0],
        vec![0, 0, 0, 0],
        vec![0, 0, 0, 0],
        vec![0, 0, 0, 0],
    ];
    let mut state = GameState::Active;
    assert!(make_move(Direction::Left, &mut played, &mut state));
    assert_eq!(&played[0][..2], &[8, 8]);
    assert_eq!(count_tiles(&played), 3);
    assert_eq!(sum(&played) == 16 + 2 || sum(&played) == 16 + 4, true);
}

#[test]
fn scenario_blocked_left_is_refused() {
    let mut board = vec![vec![2, 4, 8, 0]; 4];
    assert!(!maybe_move_tiles(Direction::Left, &mut board));
    assert_eq!(board, vec![vec![2, 4, 8, 0]; 4]);
    let mut state = GameState::Active;
    assert!(!make_move(Direction::Left, &mut board, &mut state));
    assert_eq!(board, vec![vec![2, 4, 8, 0]; 4]);
    assert_eq!(state, GameState::Active);
}

#[test]
fn refused_move_keeps_won_state() {
    let mut board = vec![vec![2, 4, 8, 0]; 4];
    let mut state = GameState::Won;
    assert!(!make_move(Direction::Left, &mut board, &mut state));
    assert_eq!(state, GameState::Won);
}

#[test]
fn right_equals_mirrored_left() {
    let initial = vec![
        vec![2, 0, 2, 4],
        vec![0, 4, 4, 4],
        vec![8, 8, 0, 2],
        vec![0, 0, 0, 2],
    ];
    let mut right = initial.clone();
    assert!(maybe_move_tiles(Direction::Right, &mut right));
    let mut by_hand = initial.clone();
    reverse_board(&mut by_hand);
    collect_tiles_to_the_left(&mut by_hand);
    reverse_board(&mut by_hand);
    assert_eq!(right, by_hand);
    assert_eq!(
        right,
        vec![
            vec![0, 0, 4, 4],
            vec![0, 0, 4, 8],
            vec![0, 0, 16, 2],
            vec![0, 0, 0, 2],
        ]
    );
}

#[test]
fn up_and_down_moves() {
    let initial = vec![
        vec![2, 0, 4, 0],
        vec![2, 0, 4, 0],
        vec![0, 8, 4, 0],
        vec![4, 8, 4, 2],
    ];
    let mut up = initial.clone();
    assert!(maybe_move_tiles(Direction::Up, &mut up));
    assert_eq!(
        up,
        vec![
            vec![4, 16, 8, 2],
            vec![4, 0, 8, 0],
            vec![0, 0, 0, 0],
            vec![0, 0, 0, 0],
        ]
    );
    let mut down = initial.clone();
    assert!(maybe_move_tiles(Direction::Down, &mut down));
    assert_eq!(
        down,
        vec![
            vec![0, 0, 0, 0],
            vec![0, 0, 0, 0],
            vec![4, 0, 8, 0],
            vec![4, 16, 8, 2],
        ]
    );
}

#[test]
fn transpose_and_reverse() {
    let mut board = vec![
        vec![1, 2, 3, 4],
        vec![5, 6, 7, 8],
        vec![9, 10, 11, 12],
        vec![13, 14, 15, 16],
    ];
    transpose_board(&mut board);
    assert_eq!(board[0], vec![1, 5, 9, 13]);
    assert_eq!(board[3], vec![4, 8, 12, 16]);
    reverse_board(&mut board);
    assert_eq!(board[0], vec![13, 9, 5, 1]);
}

#[test]
fn move_keeps_sum() {
    let mut board = vec![
        vec![2, 2, 4, 8],
        vec![0, 4, 4, 0],
        vec![16, 0, 16, 2],
        vec![2, 2, 2, 2],
    ];
    let before = sum(&board);
    assert!(maybe_move_tiles(Direction::Left, &mut board));
    assert_eq!(sum(&board), before);
    assert_eq!(board[3], vec![4, 4, 0, 0]);
}

#[test]
fn win_detected_without_probing_moves() {
    let board = vec![
        vec![WIN_TILE, 2, 4, 8],
        vec![2, 4, 8, 32],
        vec![4, 8, 32, 64],
        vec![8, 32, 64, 128],
    ];
    let mut state = GameState::Active;
    check_game_state(&board, &mut state);
    assert_eq!(state, GameState::Won);

    let mut open_board = vec![vec![0; 4]; 4];
    open_board[2][1] = WIN_TILE;
    let mut state = GameState::Active;
    check_game_state(&open_board, &mut state);
    assert_eq!(state, GameState::Won);
}

#[test]
fn loss_detected_on_packed_board() {
    let board = vec![
        vec![8, 32, 8, 32],
        vec![32, 8, 32, 8],
        vec![8, 32, 8, 32],
        vec![32, 8, 32, 8],
    ];
    let mut state = GameState::Active;
    check_game_state(&board, &mut state);
    assert_eq!(state, GameState::Lost);
    let mut state = GameState::WonActive;
    check_game_state(&board, &mut state);
    assert_eq!(state, GameState::Lost);
}

#[test]
fn state_after_won_goes_on() {
    let mut board = vec![vec![0; 4]; 4];
    board[0][0] = WIN_TILE;
    let mut state = GameState::Won;
    check_game_state(&board, &mut state);
    assert_eq!(state, GameState::WonActive);
    let mut state = GameState::Lost;
    check_game_state(&vec![vec![2, 0, 0, 0]; 4], &mut state);
    assert_eq!(state, GameState::Active);
}

#[test]
fn free_cells_in_row_major_order() {
    let board = vec![
        vec![2, 0, 2, 2],
        vec![2, 2, 2, 2],
        vec![0, 2, 2, 0],
        vec![2, 2, 2, 2],
    ];
    assert_eq!(free_cells(&board), vec![(0, 1), (2, 0), (2, 3)]);
}

#[test]
fn spawn_at_chosen_free_cell() {
    let mut board = vec![
        vec![2, 0, 2, 2],
        vec![2, 2, 2, 2],
        vec![0, 2, 2, 0],
        vec![2, 2, 2, 2],
    ];
    spawn_tile_at(&mut board, 2, 4);
    assert_eq!(board[2], vec![0, 2, 2, 4]);
    spawn_tile_at(&mut board, 0, 2);
    assert_eq!(board[0], vec![2, 2, 2, 2]);
}

#[test]
fn spawn_on_full_board_is_a_no_op() {
    let mut board = vec![vec![2, 4, 2, 4]; 4];
    let before = board.clone();
    assert!(!place_starter_value(&mut board));
    assert_eq!(board, before);
}

#[test]
fn spawn_fills_the_only_free_cell() {
    let mut board = vec![vec![2, 4, 2, 4]; 4];
    board[3][1] = 0;
    assert!(place_starter_value(&mut board));
    assert!(matches!(board[3][1], 2 | 4));
}

#[test]
fn new_board_has_two_tiles() {
    let board = initialise_board();
    assert_eq!(board.len(), 4);
    assert!(board.iter().all(|r| r.len() == 4));
    assert_eq!(count_tiles(&board), 2);
    assert!(board.iter().flatten().all(|v| matches!(*v, 0 | 2 | 4)));
}
