use mnk_games::{
    winner_in_run, winner_in_runs, GameStatus, MnkBoard, MnkGame, OutOfBounds, PlaceError,
    PlayError, Player,
};

#[test]
fn games_trivial() {
    // a single run
    let empty: [Option<Player>; 0] = [];
    assert!(winner_in_run(&empty, 1).is_none());
    assert!(winner_in_run(&empty, 2).is_none());
    assert!(winner_in_run(&empty, 3).is_none());

    let one_empty = [None];
    assert!(winner_in_run(&one_empty, 1).is_none());
    assert!(winner_in_run(&one_empty, 2).is_none());

    let one_x = [Some(Player::X)];
    assert_eq!(winner_in_run(&one_x, 1), Some(Player::X));
    assert!(winner_in_run(&one_x, 2).is_none());

    let one_o = [Some(Player::O)];
    assert_eq!(winner_in_run(&one_o, 1), Some(Player::O));
    assert!(winner_in_run(&one_o, 2).is_none());

    // several runs
    let no_runs: Vec<Vec<Option<Player>>> = Vec::new();
    assert!(winner_in_runs(&no_runs, 1).is_none());

    let single = [vec![Some(Player::X)]];
    assert_eq!(winner_in_runs(&single, 1), Some(Player::X));
}

#[test]
fn single_player() {
    let right_run = [None, None, Some(Player::X), Some(Player::X), Some(Player::X)];
    assert_eq!(winner_in_run(&right_run, 3), Some(Player::X));
    assert!(winner_in_run(&right_run, 4).is_none());

    let interrupted = [
        Some(Player::X),
        Some(Player::X),
        None,
        Some(Player::X),
        Some(Player::X),
    ];
    assert_eq!(winner_in_run(&interrupted, 2), Some(Player::X));
    assert!(winner_in_run(&interrupted, 3).is_none());

    let bookend = [None, Some(Player::X), Some(Player::X), Some(Player::X), None];
    assert_eq!(winner_in_run(&bookend, 3), Some(Player::X));
    assert!(winner_in_run(&bookend, 4).is_none());
}

#[test]
fn two_player() {
    let left_heavy = [Some(Player::X), Some(Player::X), Some(Player::O)];
    assert_eq!(winner_in_run(&left_heavy, 2), Some(Player::X));
    assert!(winner_in_run(&left_heavy, 3).is_none());

    let right_heavy = [Some(Player::O), Some(Player::X), Some(Player::X)];
    assert_eq!(winner_in_run(&right_heavy, 2), Some(Player::X));
    assert!(winner_in_run(&right_heavy, 3).is_none());

    let interrupted = [Some(Player::X), Some(Player::O), Some(Player::X)];
    assert!(winner_in_run(&interrupted, 2).is_none());
    assert!(winner_in_run(&interrupted, 3).is_none());
}

#[test]
fn several_runs() {
    let delayed = [vec![None], vec![Some(Player::X)]];
    assert_eq!(winner_in_runs(&delayed, 1), Some(Player::X));

    let all_empty = [vec![None], vec![None], vec![None]];
    assert!(winner_in_runs(&all_empty, 1).is_none());
}

#[test]
fn rejects_finished_games() {
    let mut drawn: MnkGame<1, 1, 1> = MnkGame::new();
    drawn.status = GameStatus::Drawn;
    assert_eq!(
        drawn.play_at(0, 0),
        Err(PlayError::GameOver(GameStatus::Drawn))
    );
    assert_eq!(drawn.board, MnkBoard::<1, 1>::new());

    let mut x_won: MnkGame<1, 1, 1> = MnkGame::new();
    x_won.status = GameStatus::Won(Player::X);
    assert_eq!(
        x_won.play_at(0, 0),
        Err(PlayError::GameOver(GameStatus::Won(Player::X)))
    );
    assert_eq!(x_won.board, MnkBoard::<1, 1>::new());

    let mut o_won: MnkGame<1, 1, 1> = MnkGame::new();
    o_won.status = GameStatus::Won(Player::O);
    assert_eq!(
        o_won.play_at(0, 0),
        Err(PlayError::GameOver(GameStatus::Won(Player::O)))
    );
    assert_eq!(o_won.board, MnkBoard::<1, 1>::new());
}

#[test]
fn rejects_place_errors() {
    let mut empty: MnkGame<1, 1, 1> = MnkGame::new();
    assert_eq!(
        empty.play_at(1, 0),
        Err(PlayError::PlaceError(PlaceError::OutOfBounds(OutOfBounds {
            row: Some(1),
            column: None
        })))
    );
}

#[test]
fn depends_on_next_player() {
    let mut x_plays: MnkGame<1, 1, 1> = MnkGame::new();
    assert_eq!(x_plays.play_at(0, 0), Ok(()));
    assert_eq!(x_plays.board.get(0, 0), Ok(&Some(Player::X)));

    let mut o_plays: MnkGame<1, 1, 1> = MnkGame::new();
    o_plays.status = GameStatus::Ongoing { next: Player::O };
    assert_eq!(o_plays.play_at(0, 0), Ok(()));
    assert_eq!(o_plays.board.get(0, 0), Ok(&Some(Player::O)));
}

#[test]
fn swaps_next_player() {
    let mut x_plays: MnkGame<2, 2, 2> = MnkGame::new();
    assert_eq!(x_plays.play_at(0, 0), Ok(()));
    assert_eq!(x_plays.status, GameStatus::Ongoing { next: Player::O });

    let mut o_plays: MnkGame<2, 2, 2> = MnkGame::new();
    o_plays.status = GameStatus::Ongoing { next: Player::O };
    assert_eq!(o_plays.play_at(0, 0), Ok(()));
    assert_eq!(o_plays.status, GameStatus::Ongoing { next: Player::X });
}

#[test]
fn updates_status() {
    let mut x_wins: MnkGame<1, 1, 1> = MnkGame::new();
    assert_eq!(x_wins.play_at(0, 0), Ok(()));
    assert_eq!(x_wins.status, GameStatus::Won(Player::X));
}

#[test]
fn detects_wins() {
    let mut x_wins: MnkGame<1, 1, 1> = MnkGame::new();
    x_wins.board = MnkBoard::from([[Some(Player::X)]]);
    x_wins.update_status();
    assert_eq!(x_wins.status, GameStatus::Won(Player::X));

    let mut o_wins: MnkGame<1, 1, 1> = MnkGame::new();
    o_wins.board = MnkBoard::from([[Some(Player::O)]]);
    o_wins.update_status();
    assert_eq!(o_wins.status, GameStatus::Won(Player::O));
}

#[test]
fn detects_draws() {
    let mut drawn: MnkGame<1, 1, 2> = MnkGame::new();
    drawn.board = MnkBoard::from([[Some(Player::X)]]);
    drawn.update_status();
    assert_eq!(drawn.status, GameStatus::Drawn);
}

#[test]
fn detects_ongoing() {
    let mut ongoing: MnkGame<1, 1, 1> = MnkGame::new();
    ongoing.update_status();
    assert_eq!(ongoing.status, GameStatus::Ongoing { next: Player::X });
}

fn ongoing_game<const R: usize, const C: usize, const K: usize>(
    board: MnkBoard<R, C>,
) -> MnkGame<R, C, K> {
    MnkGame {
        board,
        status: GameStatus::Ongoing { next: Player::X },
    }
}

#[test]
fn draws() {
    let empty_0x0: MnkGame<0, 0, 1> = ongoing_game(MnkBoard::new());
    assert!(empty_0x0.winner().is_none());

    let empty_3x3: MnkGame<3, 3, 3> = ongoing_game(MnkBoard::new());
    assert!(empty_3x3.winner().is_none());

    let drawn_3x3: MnkGame<3, 3, 3> = ongoing_game(MnkBoard::from([
        [Some(Player::X), Some(Player::O), Some(Player::X)],
        [Some(Player::X), Some(Player::O), Some(Player::O)],
        [Some(Player::O), Some(Player::X), Some(Player::X)],
    ]));
    assert!(drawn_3x3.winner().is_none());
}

#[test]
fn row_win() {
    let row_win: MnkGame<3, 3, 3> = ongoing_game(MnkBoard::from([
        [Some(Player::X), Some(Player::X), Some(Player::X)],
        [None, None, None],
        [None, None, None],
    ]));
    assert_eq!(row_win.winner(), Some(Player::X));
}

#[test]
fn column_win() {
    let column_win: MnkGame<3, 3, 3> = ongoing_game(MnkBoard::from([
        [Some(Player::X), None, None],
        [Some(Player::X), None, None],
        [Some(Player::X), None, None],
    ]));
    assert_eq!(column_win.winner(), Some(Player::X));
}

#[test]
fn top_right_win() {
    let top_right_win: MnkGame<3, 3, 2> = ongoing_game(MnkBoard::from([
        [Some(Player::X), None, None],
        [None, Some(Player::X), None],
        [None, None, None],
    ]));
    assert_eq!(top_right_win.winner(), Some(Player::X));
}

#[test]
fn left_down_win() {
    let left_down_win: MnkGame<4, 3, 3> = ongoing_game(MnkBoard::from([
        [None, None, None],
        [Some(Player::X), None, None],
        [None, Some(Player::X), None],
        [None, None, Some(Player::X)],
    ]));
    assert_eq!(left_down_win.winner(), Some(Player::X));
}

#[test]
fn top_left_win() {
    let top_left_win: MnkGame<3, 3, 2> = ongoing_game(MnkBoard::from([
        [None, None, Some(Player::X)],
        [None, Some(Player::X), None],
        [None, None, None],
    ]));
    assert_eq!(top_left_win.winner(), Some(Player::X));
}

#[test]
fn right_down_win() {
    let right_down_win: MnkGame<4, 3, 3> = ongoing_game(MnkBoard::from([
        [None, None, None],
        [None, None, Some(Player::X)],
        [None, Some(Player::X), None],
        [Some(Player::X), None, None],
    ]));
    assert_eq!(right_down_win.winner(), Some(Player::X));
}

#[test]
fn draw() {
    let mut draw: MnkGame<1, 1, 1> = MnkGame::new();
    draw.status = GameStatus::Drawn;
    assert_eq!(
        draw.to_string(),
        "+-+\n\
         | |\n\
         +-+\n\
         Draw"
    );
}

#[test]
fn ongoing() {
    let x_next: MnkGame<1, 1, 1> = MnkGame::new();
    assert_eq!(
        x_next.to_string(),
        "+-+\n\
         | |\n\
         +-+\n\
         Next: X"
    );

    let mut o_next: MnkGame<1, 1, 1> = MnkGame::new();
    o_next.status = GameStatus::Ongoing { next: Player::O };
    assert_eq!(
        o_next.to_string(),
        "+-+\n\
         | |\n\
         +-+\n\
         Next: O"
    );
}

#[test]
fn won() {
    let mut x_won: MnkGame<1, 1, 1> = MnkGame::new();
    x_won.status = GameStatus::Won(Player::X);
    assert_eq!(
        x_won.to_string(),
        "+-+\n\
         | |\n\
         +-+\n\
         X won!"
    );

    let mut o_won: MnkGame<1, 1, 1> = MnkGame::new();
    o_won.status = GameStatus::Won(Player::O);
    assert_eq!(
        o_won.to_string(),
        "+-+\n\
         | |\n\
         +-+\n\
         O won!"
    );
}
