use mnk_games::mnk::{MnkBoard, Player, Space};

#[test]
fn mnk_test_trivial() {
    let empty: [Space; 0] = [];
    assert!(MnkBoard::<0, 0, 1>::winner_in_run(&empty).is_none());
    assert!(MnkBoard::<0, 0, 2>::winner_in_run(&empty).is_none());
    assert!(MnkBoard::<0, 0, 3>::winner_in_run(&empty).is_none());

    let one_empty = [Space::Empty];
    assert!(MnkBoard::<0, 0, 1>::winner_in_run(&one_empty).is_none());
    assert!(MnkBoard::<0, 0, 2>::winner_in_run(&one_empty).is_none());

    let one_x = [Space::Stone(Player::X)];
    assert_eq!(MnkBoard::<1, 1, 1>::winner_in_run(&one_x), Some(Player::X));
    assert!(MnkBoard::<1, 1, 2>::winner_in_run(&one_x).is_none());

    let one_o = [Space::Stone(Player::O)];
    assert_eq!(MnkBoard::<1, 1, 1>::winner_in_run(&one_o), Some(Player::O));
    assert!(MnkBoard::<1, 1, 2>::winner_in_run(&one_o).is_none());

    // several runs
    let no_runs: Vec<Vec<Space>> = Vec::new();
    assert!(MnkBoard::<0, 0, 1>::winner_in_runs(&no_runs).is_none());

    let single = [vec![Space::Stone(Player::X)]];
    assert_eq!(MnkBoard::<0, 0, 1>::winner_in_runs(&single), Some(Player::X));
}

#[test]
fn test_single_player() {
    let right_run = [
        Space::Empty,
        Space::Empty,
        Space::Stone(Player::X),
        Space::Stone(Player::X),
        Space::Stone(Player::X),
    ];
    assert_eq!(
        MnkBoard::<0, 0, 3>::winner_in_run(&right_run),
        Some(Player::X)
    );
    assert!(MnkBoard::<0, 0, 4>::winner_in_run(&right_run).is_none());

    let interrupted = [
        Space::Stone(Player::X),
        Space::Stone(Player::X),
        Space::Empty,
        Space::Stone(Player::X),
        Space::Stone(Player::X),
    ];
    assert_eq!(
        MnkBoard::<0, 0, 2>::winner_in_run(&interrupted),
        Some(Player::X)
    );
    assert!(MnkBoard::<0, 0, 3>::winner_in_run(&interrupted).is_none());

    let bookend = [
        Space::Empty,
        Space::Stone(Player::X),
        Space::Stone(Player::X),
        Space::Stone(Player::X),
        Space::Empty,
    ];
    assert_eq!(MnkBoard::<0, 0, 3>::winner_in_run(&bookend), Some(Player::X));
    assert!(MnkBoard::<0, 0, 4>::winner_in_run(&bookend).is_none());
}

#[test]
fn test_two_player() {
    let left_heavy = [
        Space::Stone(Player::X),
        Space::Stone(Player::X),
        Space::Stone(Player::O),
    ];
    assert_eq!(
        MnkBoard::<0, 0, 2>::winner_in_run(&left_heavy),
        Some(Player::X)
    );
    assert!(MnkBoard::<0, 0, 3>::winner_in_run(&left_heavy).is_none());

    let right_heavy = [
        Space::Stone(Player::O),
        Space::Stone(Player::X),
        Space::Stone(Player::X),
    ];
    assert_eq!(
        MnkBoard::<0, 0, 2>::winner_in_run(&right_heavy),
        Some(Player::X)
    );
    assert!(MnkBoard::<0, 0, 3>::winner_in_run(&right_heavy).is_none());

    let interrupted = [
        Space::Stone(Player::X),
        Space::Stone(Player::O),
        Space::Stone(Player::X),
    ];
    assert!(MnkBoard::<0, 0, 2>::winner_in_run(&interrupted).is_none());
    assert!(MnkBoard::<0, 0, 3>::winner_in_run(&interrupted).is_none());
}

#[test]
fn test_several_runs() {
    let delayed = [vec![Space::Empty], vec![Space::Stone(Player::X)]];
    assert_eq!(
        MnkBoard::<0, 0, 1>::winner_in_runs(&delayed),
        Some(Player::X)
    );

    let all_empty = [vec![Space::Empty], vec![Space::Empty], vec![Space::Empty]];
    assert!(MnkBoard::<0, 0, 1>::winner_in_runs(&all_empty).is_none());
}

#[test]
fn test_draws() {
    let empty_0x0 = MnkBoard::<0, 0, 1>::new();
    assert!(empty_0x0.winner().is_none());

    let empty_3x3 = MnkBoard::<3, 3, 3>::new();
    assert!(empty_3x3.winner().is_none());

    let drawn_3x3 = MnkBoard::<3, 3, 3>::from([
        [
            Space::Stone(Player::X),
            Space::Stone(Player::O),
            Space::Stone(Player::X),
        ],
        [
            Space::Stone(Player::X),
            Space::Stone(Player::O),
            Space::Stone(Player::O),
        ],
        [
            Space::Stone(Player::O),
            Space::Stone(Player::X),
            Space::Stone(Player::X),
        ],
    ]);
    assert!(drawn_3x3.winner().is_none());
}

#[test]
fn test_row_win() {
    let row_win = MnkBoard::<3, 3, 3>::from([
        [
            Space::Stone(Player::X),
            Space::Stone(Player::X),
            Space::Stone(Player::X),
        ],
        [Space::Empty, Space::Empty, Space::Empty],
        [Space::Empty, Space::Empty, Space::Empty],
    ]);
    assert_eq!(row_win.winner(), Some(Player::X));
}

#[test]
fn test_column_win() {
    let column_win = MnkBoard::<3, 3, 3>::from([
        [Space::Stone(Player::X), Space::Empty, Space::Empty],
        [Space::Stone(Player::X), Space::Empty, Space::Empty],
        [Space::Stone(Player::X), Space::Empty, Space::Empty],
    ]);
    assert_eq!(column_win.winner(), Some(Player::X));
}

#[test]
fn test_top_right_win() {
    let top_right_win = MnkBoard::<3, 3, 2>::from([
        [Space::Stone(Player::X), Space::Empty, Space::Empty],
        [Space::Empty, Space::Stone(Player::X), Space::Empty],
        [Space::Empty, Space::Empty, Space::Empty],
    ]);
    assert_eq!(top_right_win.winner(), Some(Player::X));
}

#[test]
fn test_left_down_win() {
    let left_down_win = MnkBoard::<4, 3, 3>::from([
        [Space::Empty, Space::Empty, Space::Empty],
        [Space::Stone(Player::X), Space::Empty, Space::Empty],
        [Space::Empty, Space::Stone(Player::X), Space::Empty],
        [Space::Empty, Space::Empty, Space::Stone(Player::X)],
    ]);
    assert_eq!(left_down_win.winner(), Some(Player::X));
}

#[test]
fn test_top_left_win() {
    let top_left_win = MnkBoard::<3, 3, 2>::from([
        [Space::Empty, Space::Empty, Space::Stone(Player::X)],
        [Space::Empty, Space::Stone(Player::X), Space::Empty],
        [Space::Empty, Space::Empty, Space::Empty],
    ]);
    assert_eq!(top_left_win.winner(), Some(Player::X));
}

#[test]
fn test_right_down_win() {
    let right_down_win = MnkBoard::<4, 3, 3>::from([
        [Space::Empty, Space::Empty, Space::Empty],
        [Space::Empty, Space::Empty, Space::Stone(Player::X)],
        [Space::Empty, Space::Stone(Player::X), Space::Empty],
        [Space::Stone(Player::X), Space::Empty, Space::Empty],
    ]);
    assert_eq!(right_down_win.winner(), Some(Player::X));
}

fn square_board() -> MnkBoard<5, 5, 3> {
    MnkBoard::from([
        [
            Space::Empty,
            Space::Stone(Player::X),
            Space::Stone(Player::O),
            Space::Empty,
            Space::Stone(Player::X),
        ],
        [
            Space::Stone(Player::X),
            Space::Stone(Player::O),
            Space::Empty,
            Space::Stone(Player::X),
            Space::Stone(Player::O),
        ],
        [
            Space::Stone(Player::O),
            Space::Empty,
            Space::Stone(Player::X),
            Space::Stone(Player::O),
            Space::Empty,
        ],
        [
            Space::Stone(Player::O),
            Space::Stone(Player::X),
            Space::Empty,
            Space::Stone(Player::O),
            Space::Stone(Player::X),
        ],
        [
            Space::Stone(Player::X),
            Space::Stone(Player::O),
            Space::Empty,
            Space::Stone(Player::O),
            Space::Stone(Player::X),
        ],
    ])
}

#[test]
fn test_rows() {
    let board = square_board();
    let rows = board.rows();
    assert_eq!(rows.len(), 5);

    let top_row = [
        Space::Empty,
        Space::Stone(Player::X),
        Space::Stone(Player::O),
        Space::Empty,
        Space::Stone(Player::X),
    ];
    assert!(rows.contains(&top_row));

    let second_row = [
        Space::Stone(Player::X),
        Space::Stone(Player::O),
        Space::Empty,
        Space::Stone(Player::X),
        Space::Stone(Player::O),
    ];
    assert!(rows.contains(&second_row));

    let third_row = [
        Space::Stone(Player::O),
        Space::Empty,
        Space::Stone(Player::X),
        Space::Stone(Player::O),
        Space::Empty,
    ];
    assert!(rows.contains(&third_row));

    let fourth_row = [
        Space::Stone(Player::O),
        Space::Stone(Player::X),
        Space::Empty,
        Space::Stone(Player::O),
        Space::Stone(Player::X),
    ];
    assert!(rows.contains(&fourth_row));

    let fifth_row = [
        Space::Stone(Player::X),
        Space::Stone(Player::O),
        Space::Empty,
        Space::Stone(Player::O),
        Space::Stone(Player::X),
    ];
    assert!(rows.contains(&fifth_row));
}

#[test]
fn test_columns() {
    let board = square_board();
    let columns: Vec<[Space; 5]> = board.columns();
    assert_eq!(columns.len(), 5);

    let first_col = [
        Space::Empty,
        Space::Stone(Player::X),
        Space::Stone(Player::O),
        Space::Stone(Player::O),
        Space::Stone(Player::X),
    ];
    assert!(columns.contains(&first_col));

    let second_col = [
        Space::Stone(Player::X),
        Space::Stone(Player::O),
        Space::Empty,
        Space::Stone(Player::X),
        Space::Stone(Player::O),
    ];
    assert!(columns.contains(&second_col));

    let third_col = [
        Space::Stone(Player::O),
        Space::Empty,
        Space::Stone(Player::X),
        Space::Empty,
        Space::Empty,
    ];
    assert!(columns.contains(&third_col));

    let fourth_col = [
        Space::Empty,
        Space::Stone(Player::X),
        Space::Stone(Player::O),
        Space::Stone(Player::O),
        Space::Stone(Player::O),
    ];
    assert!(columns.contains(&fourth_col));

    let fifth_col = [
        Space::Stone(Player::X),
        Space::Stone(Player::O),
        Space::Empty,
        Space::Stone(Player::X),
        Space::Stone(Player::X),
    ];
    assert!(columns.contains(&fifth_col));
}

#[test]
fn test_top_right() {
    let board = square_board();
    let diags: Vec<Vec<Space>> = board.top_right_diagonals();
    assert_eq!(diags.len(), 3);

    let first_diag = vec![
        Space::Empty,
        Space::Stone(Player::O),
        Space::Stone(Player::X),
        Space::Stone(Player::O),
        Space::Stone(Player::X),
    ];
    assert!(diags.contains(&first_diag));

    let second_diag = vec![
        Space::Stone(Player::X),
        Space::Empty,
        Space::Stone(Player::O),
        Space::Stone(Player::X),
    ];
    assert!(diags.contains(&second_diag));

    let third_diag = vec![
        Space::Stone(Player::O),
        Space::Stone(Player::X),
        Space::Empty,
    ];
    assert!(diags.contains(&third_diag));
}

#[test]
fn test_left_down() {
    let board = square_board();
    let diags: Vec<Vec<Space>> = board.left_down_diagonals();
    assert_eq!(diags.len(), 2);

    let first_diag = vec![
        Space::Stone(Player::X),
        Space::Empty,
        Space::Empty,
        Space::Stone(Player::O),
    ];
    assert!(diags.contains(&first_diag));

    let second_diag = vec![
        Space::Stone(Player::O),
        Space::Stone(Player::X),
        Space::Empty,
    ];
    assert!(diags.contains(&second_diag));
}

#[test]
fn test_top_left() {
    let board = square_board();
    let diags: Vec<Vec<Space>> = board.top_left_diagonals();
    assert_eq!(diags.len(), 3);

    let first_diag = vec![
        Space::Stone(Player::O),
        Space::Stone(Player::O),
        Space::Stone(Player::O),
    ];
    assert!(diags.contains(&first_diag));
    let second_diag = vec![
        Space::Empty,
        Space::Empty,
        Space::Empty,
        Space::Stone(Player::O),
    ];
    assert!(diags.contains(&second_diag));

    let third_diag = vec![
        Space::Stone(Player::X),
        Space::Stone(Player::X),
        Space::Stone(Player::X),
        Space::Stone(Player::X),
        Space::Stone(Player::X),
    ];
    assert!(diags.contains(&third_diag));
}

#[test]
fn test_right_down() {
    let board = square_board();
    let diags: Vec<Vec<Space>> = board.right_down_diagonals();
    assert_eq!(diags.len(), 2);

    let first_diag = vec![
        Space::Stone(Player::O),
        Space::Stone(Player::O),
        Space::Empty,
        Space::Stone(Player::O),
    ];
    assert!(diags.contains(&first_diag));

    let second_diag = vec![Space::Empty, Space::Stone(Player::O), Space::Empty];
    assert!(diags.contains(&second_diag));
}

fn tall_board() -> MnkBoard<5, 4, 3> {
    MnkBoard::from([
        [
            Space::Empty,
            Space::Stone(Player::X),
            Space::Stone(Player::O),
            Space::Empty,
        ],
        [
            Space::Stone(Player::X),
            Space::Stone(Player::O),
            Space::Empty,
            Space::Stone(Player::X),
        ],
        [
            Space::Stone(Player::O),
            Space::Empty,
            Space::Stone(Player::X),
            Space::Stone(Player::O),
        ],
        [
            Space::Stone(Player::O),
            Space::Stone(Player::X),
            Space::Empty,
            Space::Stone(Player::O),
        ],
        [
            Space::Stone(Player::X),
            Space::Stone(Player::O),
            Space::Empty,
            Space::Stone(Player::O),
        ],
    ])
}

fn wide_board() -> MnkBoard<4, 5, 3> {
    MnkBoard::from([
        [
            Space::Empty,
            Space::Stone(Player::X),
            Space::Stone(Player::O),
            Space::Empty,
            Space::Stone(Player::X),
        ],
        [
            Space::Stone(Player::X),
            Space::Stone(Player::O),
            Space::Empty,
            Space::Stone(Player::X),
            Space::Stone(Player::O),
        ],
        [
            Space::Stone(Player::O),
            Space::Empty,
            Space::Stone(Player::X),
            Space::Stone(Player::O),
            Space::Empty,
        ],
        [
            Space::Stone(Player::O),
            Space::Stone(Player::X),
            Space::Empty,
            Space::Stone(Player::O),
            Space::Stone(Player::X),
        ],
    ])
}

#[test]
fn test_tall_top_right_diags() {
    let board = tall_board();
    let diags: Vec<Vec<Space>> = board.top_right_diagonals();
    assert_eq!(diags.len(), 2);

    let first_diag = vec![
        Space::Empty,
        Space::Stone(Player::O),
        Space::Stone(Player::X),
        Space::Stone(Player::O),
    ];
    assert!(diags.contains(&first_diag));

    let second_diag = vec![
        Space::Stone(Player::X),
        Space::Empty,
        Space::Stone(Player::O),
    ];
    assert!(diags.contains(&second_diag));
}

#[test]
fn test_tall_left_down_diags() {
    let board = tall_board();
    let diags: Vec<Vec<Space>> = board.left_down_diagonals();
    assert_eq!(diags.len(), 2);

    let first_diag = vec![
        Space::Stone(Player::X),
        Space::Empty,
        Space::Empty,
        Space::Stone(Player::O),
    ];
    assert!(diags.contains(&first_diag));

    let second_diag = vec![
        Space::Stone(Player::O),
        Space::Stone(Player::X),
        Space::Empty,
    ];
    assert!(diags.contains(&second_diag));
}

#[test]
fn test_tall_top_left_diags() {
    let board = tall_board();
    let diags: Vec<Vec<Space>> = board.top_left_diagonals();
    assert_eq!(diags.len(), 2);

    let first_diag = vec![
        Space::Empty,
        Space::Empty,
        Space::Empty,
        Space::Stone(Player::O),
    ];
    assert!(diags.contains(&first_diag));

    let second_diag = vec![
        Space::Stone(Player::O),
        Space::Stone(Player::O),
        Space::Stone(Player::O),
    ];
    assert!(diags.contains(&second_diag));
}

#[test]
fn test_tall_right_down_diags() {
    let board = tall_board();
    let diags: Vec<Vec<Space>> = board.right_down_diagonals();
    assert_eq!(diags.len(), 2);

    let first_diag = vec![
        Space::Stone(Player::X),
        Space::Stone(Player::X),
        Space::Stone(Player::X),
        Space::Stone(Player::X),
    ];
    assert!(diags.contains(&first_diag));

    let second_diag = vec![
        Space::Stone(Player::O),
        Space::Empty,
        Space::Stone(Player::O),
    ];
    assert!(diags.contains(&second_diag));
}

#[test]
fn test_wide_top_right_diags() {
    let board = wide_board();
    let diags: Vec<Vec<Space>> = board.top_right_diagonals();
    assert_eq!(diags.len(), 3);

    let first_diag = vec![
        Space::Empty,
        Space::Stone(Player::O),
        Space::Stone(Player::X),
        Space::Stone(Player::O),
    ];
    assert!(diags.contains(&first_diag));

    let second_diag = vec![
        Space::Stone(Player::X),
        Space::Empty,
        Space::Stone(Player::O),
        Space::Stone(Player::X),
    ];
    assert!(diags.contains(&second_diag));

    let third_diag = vec![
        Space::Stone(Player::O),
        Space::Stone(Player::X),
        Space::Empty,
    ];
    assert!(diags.contains(&third_diag));
}

#[test]
fn test_wide_left_down_diags() {
    let board = wide_board();
    let diags: Vec<Vec<Space>> = board.left_down_diagonals();
    let diag = vec![Space::Stone(Player::X), Space::Empty, Space::Empty];
    assert_eq!(diags, [diag]);
}

#[test]
fn test_wide_top_left_diags() {
    let board = wide_board();
    let diags: Vec<Vec<Space>> = board.top_left_diagonals();
    assert_eq!(diags.len(), 3);

    let first_diag = vec![
        Space::Stone(Player::X),
        Space::Stone(Player::X),
        Space::Stone(Player::X),
        Space::Stone(Player::X),
    ];
    assert!(diags.contains(&first_diag));

    let second_diag = vec![
        Space::Empty,
        Space::Empty,
        Space::Empty,
        Space::Stone(Player::O),
    ];
    assert!(diags.contains(&second_diag));

    let third_diag = vec![
        Space::Stone(Player::O),
        Space::Stone(Player::O),
        Space::Stone(Player::O),
    ];
    assert!(diags.contains(&third_diag));
}

#[test]
fn test_wide_right_up_diags() {
    let board = wide_board();
    let diags: Vec<Vec<Space>> = board.right_down_diagonals();
    let diag = vec![
        Space::Stone(Player::O),
        Space::Stone(Player::O),
        Space::Empty,
    ];
    assert_eq!(diags, [diag]);
}

