use mnk_games::gravity::GravityGame;
use mnk_games::input::{parse_column, parse_move, ColumnInput, MoveInput};
use mnk_games::variants::{ConnectFour, TicTacToe};
use mnk_games::{
    space_to_string, GameStatus, MnkBoard, MnkGame, OutOfBounds, PlaceError, PlayError, Player,
};

fn count(board: &MnkBoard<3, 3>, player: Player) -> usize {
    board
        .row_array
        .iter()
        .flat_map(|row| row.iter())
        .filter(|space| **space == Some(player))
        .count()
}

#[test]
fn parse_move_reads_two_numbers() {
    assert_eq!(parse_move("0 1\n"), MoveInput::Coordinates { row: 0, column: 1 });
    assert_eq!(parse_move("  2 3  "), MoveInput::Coordinates { row: 2, column: 3 });
    assert_eq!(parse_move("\t7 8\r\n"), MoveInput::Coordinates { row: 7, column: 8 });
    assert_eq!(parse_move("+4 05"), MoveInput::Coordinates { row: 4, column: 5 });
}

#[test]
fn parse_move_counts_pieces() {
    assert_eq!(parse_move(""), MoveInput::WrongCount);
    assert_eq!(parse_move("1"), MoveInput::WrongCount);
    assert_eq!(parse_move("1 2 3"), MoveInput::WrongCount);
    // two spaces make an empty piece in between
    assert_eq!(parse_move("1  2"), MoveInput::WrongCount);
}

#[test]
fn parse_move_rejects_non_numbers() {
    assert_eq!(parse_move("a b"), MoveInput::NotNumbers);
    assert_eq!(parse_move("-1 2"), MoveInput::NotNumbers);
    assert_eq!(parse_move("+ 2"), MoveInput::NotNumbers);
    assert_eq!(parse_move("1 2x"), MoveInput::NotNumbers);
    assert_eq!(
        parse_move("99999999999999999999999 0"),
        MoveInput::NotNumbers
    );
}

#[test]
fn player_not_swaps() {
    assert_eq!(!Player::X, Player::O);
    assert_eq!(!Player::O, Player::X);
    assert_eq!(!!Player::X, Player::X);
}

#[test]
fn messages() {
    assert_eq!(Player::X.to_string(), "X");
    assert_eq!(space_to_string(None), " ");
    assert_eq!(space_to_string(Some(Player::O)), "O");
    assert_eq!(
        OutOfBounds { row: Some(3), column: Some(12) }.to_string(),
        "row 3 and column 12 are out of bounds"
    );
    assert_eq!(OutOfBounds { row: Some(0), column: None }.to_string(), "row 0 is out of bounds");
    assert_eq!(
        OutOfBounds { row: None, column: Some(407) }.to_string(),
        "column 407 is out of bounds"
    );
    assert_eq!(OutOfBounds::default().to_string(), "location is out of bounds");
    assert_eq!(
        PlaceError::Occupied { player: Some(Player::X) }.to_string(),
        "already occupied by X"
    );
    assert_eq!(PlaceError::Occupied { player: None }.to_string(), "already occupied");
    assert_eq!(
        PlaceError::from(OutOfBounds { row: Some(9), column: None }).to_string(),
        "row 9 is out of bounds"
    );
    assert_eq!(GameStatus::Drawn.to_string(), "Draw");
    assert_eq!(GameStatus::Ongoing { next: Player::O }.to_string(), "Next: O");
    assert_eq!(GameStatus::Won(Player::X).to_string(), "X won!");
    assert_eq!(
        PlayError::GameOver(GameStatus::Drawn).to_string(),
        "game already over: Draw"
    );
    assert_eq!(
        PlayError::PlaceError(PlaceError::Occupied { player: None }).to_string(),
        "impossible move: already occupied"
    );
    assert_eq!(
        PlayError::RuleError { message: "no".to_string() }.to_string(),
        "illegal move: no"
    );
}

#[test]
fn occupied_move_changes_nothing() {
    let mut game = TicTacToe::new();
    assert_eq!(game.play_at(1, 1), Ok(()));
    let before = game;
    assert_eq!(
        game.play_at(1, 1),
        Err(PlayError::PlaceError(PlaceError::Occupied { player: Some(Player::X) }))
    );
    assert_eq!(game, before);
    assert_eq!(
        game.play_at(0, 3),
        Err(PlayError::PlaceError(PlaceError::OutOfBounds(OutOfBounds {
            row: None,
            column: Some(3)
        })))
    );
    assert_eq!(game, before);
}

#[test]
fn turns_alternate() {
    let mut game = TicTacToe::new();
    let moves = [(0, 0), (1, 1), (0, 1), (2, 2), (1, 0)];
    for (i, (row, column)) in moves.iter().enumerate() {
        assert_eq!(game.play_at(*row, *column), Ok(()));
        let x = count(game.board(), Player::X);
        let o = count(game.board(), Player::O);
        assert!(x == o || x == o + 1);
        assert_eq!(x + o, i + 1);
        if let GameStatus::Ongoing { next } = game.status() {
            assert_eq!(next == Player::X, x == o);
        }
    }
}

#[test]
fn winning_move_wins_for_mover_and_ends_game() {
    let mut game = TicTacToe::new();
    for (row, column) in [(0, 0), (1, 0), (0, 1), (1, 1)] {
        assert_eq!(game.play_at(row, column), Ok(()));
    }
    assert_eq!(game.status(), GameStatus::Ongoing { next: Player::X });
    assert_eq!(game.play_at(0, 2), Ok(()));
    assert_eq!(game.status(), GameStatus::Won(Player::X));
    let over = game;
    assert_eq!(
        game.play_at(2, 2),
        Err(PlayError::GameOver(GameStatus::Won(Player::X)))
    );
    assert_eq!(game, over);
}

#[test]
fn full_board_without_line_is_drawn() {
    let mut game = TicTacToe::new();
    // X O X / X O O / O X X
    for (row, column) in [
        (0, 0),
        (0, 1),
        (0, 2),
        (1, 1),
        (1, 0),
        (1, 2),
        (2, 1),
        (2, 0),
        (2, 2),
    ] {
        assert_eq!(game.play_at(row, column), Ok(()));
    }
    assert!(game.board().full());
    assert_eq!(game.status(), GameStatus::Drawn);
}

#[test]
fn winner_found_on_long_diagonal_of_wide_board() {
    let board = MnkBoard::from([
        [None, None, None, Some(Player::O), None],
        [None, None, Some(Player::O), None, None],
        [None, Some(Player::O), None, None, None],
    ]);
    let game = MnkGame::<3, 5, 3> { board, status: GameStatus::Ongoing { next: Player::X } };
    assert_eq!(game.winner(), Some(Player::O));
    let shorter = MnkGame::<3, 5, 4> { board, status: GameStatus::Ongoing { next: Player::X } };
    assert_eq!(shorter.winner(), None);
}

#[test]
fn board_conversions() {
    let rows = [[Some(Player::X), None], [None, Some(Player::O)]];
    let board = MnkBoard::from(rows);
    let back: [[Option<Player>; 2]; 2] = board.into();
    assert_eq!(back, rows);
    assert_eq!(MnkBoard::<2, 3>::default(), MnkBoard::new());
    assert!(!MnkBoard::<2, 3>::new().full());
    assert!(MnkBoard::<0, 0>::new().full());
    let game: MnkGame<3, 3, 3> = MnkGame::default();
    let board: MnkBoard<3, 3> = game.into();
    assert_eq!(board, MnkBoard::new());
    assert_eq!(
        board.coords_to_spaces(&[(0, 0), (2, 1)]),
        vec![None, None]
    );
}

#[test]
fn gravity_stacks_stones() {
    let mut game = ConnectFour::new();
    assert_eq!(game.play_in(3), Ok(()));
    assert_eq!(game.board().get(5, 3), Ok(&Some(Player::X)));
    assert_eq!(game.play_in(3), Ok(()));
    assert_eq!(game.board().get(4, 3), Ok(&Some(Player::O)));
    assert_eq!(game.status(), GameStatus::Ongoing { next: Player::X });
    assert_eq!(
        game.play_in(7),
        Err(PlayError::PlaceError(PlaceError::OutOfBounds(OutOfBounds {
            row: None,
            column: Some(7)
        })))
    );
}

#[test]
fn gravity_full_column_and_win() {
    let mut game: GravityGame<2, 2, 2> = GravityGame::new();
    assert_eq!(game.play_in(0), Ok(()));
    assert_eq!(game.play_in(0), Ok(()));
    assert_eq!(
        game.play_in(0),
        Err(PlayError::PlaceError(PlaceError::Occupied { player: None }))
    );
    assert_eq!(game.play_in(1), Ok(()));
    // X at (1, 0) and (1, 1)
    assert_eq!(game.status(), GameStatus::Won(Player::X));
    assert_eq!(
        game.to_string(),
        "+-+-+\n\
         |O| |\n\
         +-+-+\n\
         |X|X|\n\
         +-+-+\n\
         X won!"
    );
    assert_eq!(
        game.play_in(1),
        Err(PlayError::GameOver(GameStatus::Won(Player::X)))
    );
    let inner: MnkGame<2, 2, 2> = game.into();
    assert_eq!(inner.status(), GameStatus::Won(Player::X));
    let default_game: GravityGame<2, 2, 2> = GravityGame::default();
    let board: MnkBoard<2, 2> = default_game.into();
    assert_eq!(board, MnkBoard::new());
}

#[test]
fn diagonal_families_cover_each_space_once() {
    let board = MnkBoard::<3, 4>::from([[Some(Player::X); 4]; 3]);
    let down_right: usize = board
        .top_right_diagonals(1)
        .iter()
        .chain(board.left_down_diagonals(1).iter())
        .map(|run| run.len())
        .sum();
    assert_eq!(down_right, 12);
    let down_left: usize = board
        .top_left_diagonals(1)
        .iter()
        .chain(board.right_down_diagonals(1).iter())
        .map(|run| run.len())
        .sum();
    assert_eq!(down_left, 12);
}

#[test]
fn parse_column_reads_one_number() {
    assert_eq!(parse_column(" 3\n"), ColumnInput::Column(3));
    assert_eq!(parse_column("+0"), ColumnInput::Column(0));
    assert_eq!(parse_column("x"), ColumnInput::NotNumber);
    assert_eq!(parse_column(""), ColumnInput::NotNumber);
    assert_eq!(parse_column("1  "), ColumnInput::Column(1));
    assert_eq!(parse_column("1 2"), ColumnInput::WrongCount);
}

#[test]
fn diagonals_shorter_than_min_length_are_left_out() {
    let tall = MnkBoard::<3, 1>::new();
    assert!(tall.left_down_diagonals(2).is_empty());
    assert!(tall.right_down_diagonals(2).is_empty());
    assert_eq!(tall.top_left_diagonals(1), vec![vec![None]]);
    let wide = MnkBoard::<1, 3>::new();
    assert!(wide.top_right_diagonals(2).is_empty());
    assert!(wide.top_left_diagonals(2).is_empty());
    assert_eq!(wide.top_right_diagonals(1).len(), 3);
}

#[test]
fn swapping_players_swaps_winner() {
    let board = MnkBoard::from([
        [Some(Player::X), Some(Player::O), None],
        [None, Some(Player::X), Some(Player::O)],
        [None, None, Some(Player::X)],
    ]);
    let mut swapped = board;
    for row in swapped.row_array.iter_mut() {
        for space in row.iter_mut() {
            *space = space.map(|p| !p);
        }
    }
    let game = MnkGame::<3, 3, 3> { board, status: GameStatus::Ongoing { next: Player::O } };
    let other = MnkGame::<3, 3, 3> { board: swapped, status: GameStatus::Ongoing { next: Player::X } };
    assert_eq!(game.winner(), Some(Player::X));
    assert_eq!(other.winner(), Some(Player::O));
}

#[test]
fn gravity_columns_fill_from_bottom() {
    let mut game: GravityGame<3, 2, 3> = GravityGame::new();
    for column in [1, 1, 0, 1, 0, 1, 0, 0, 5] {
        let _ = game.play_in(column);
        let board = game.board();
        for c in 0..2 {
            for r in 0..2 {
                if board.get(r, c).unwrap().is_some() {
                    assert!(board.get(r + 1, c).unwrap().is_some());
                }
            }
        }
    }
}

#[test]
fn reachable_games_are_consistent() {
    let mut game = TicTacToe::new();
    // some moves are illegal and change nothing
    for (row, column) in [(1, 1), (1, 1), (0, 0), (2, 2), (5, 0), (0, 2), (0, 1), (2, 0), (1, 0), (2, 1), (1, 2), (2, 2)] {
        let _ = game.play_at(row, column);
        let x = count(game.board(), Player::X);
        let o = count(game.board(), Player::O);
        assert!(x == o || x == o + 1);
        match game.status() {
            GameStatus::Ongoing { next } => {
                assert_eq!(next == Player::X, x == o);
                assert!(!game.board().full());
                assert_eq!(game.winner(), None);
            }
            GameStatus::Won(winner) => {
                assert_eq!(winner == Player::X, x == o + 1);
                assert_eq!(game.winner(), Some(winner));
            }
            GameStatus::Drawn => {
                assert!(game.board().full());
                assert_eq!(game.winner(), None);
            }
        }
    }
    // X completes the middle row with (1, 2); the last move comes after the game is over
    assert_eq!(game.status(), GameStatus::Won(Player::X));
}
