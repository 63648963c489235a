//! Standard m,n,k-games: two players alternate placing stones until one has
//! `K` in a row or the board is full.

use vstd::prelude::*;
use core::ops::Not;
use crate::board::{
    board_full, board_text, place_error_text, place_outcome, player_text, runs_view, MnkBoard,
    PlaceError, Player,
};
use crate::lines::{
    all_runs, board_winner, k_in_a_row, lemma_board_winner_meaning, lemma_line_winner_at,
    lemma_line_winner_some, lemma_runs_winner_append, lemma_runs_winner_step,
    lemma_only_mover_wins, lemma_other_lines_kept, lemma_rename_board_winner, line_at,
    rename_space, space_at, step_col, step_row, well_formed, Direction, lemma_stone_count_empty, lemma_stone_count_with_stone,
    lemma_streak_completes, line_winner, runs_winner, stone_count, streak, with_stone,
};

verus! {

/// Errors which may occur when playing a move.
#[derive(Clone, Debug, Eq, Hash, PartialEq)]
#[non_exhaustive]
pub enum PlayError {
    /// An error which may occur when the game is already over.
    GameOver(GameStatus),
    /// An error which may occur when a stone cannot be placed at the indicated position.
    PlaceError(PlaceError),
    /// An error which may occur when a move is against a game's rules.
    RuleError {
        /// An informative message about the violated rule.
        message: String,
    },
}

/// The current status of a game.
#[derive(Clone, Copy, Debug, Eq, Hash, PartialEq, Structural)]
pub enum GameStatus {
    /// The game is over and is a draw.
    Drawn,
    /// The game is not over.
    Ongoing {
        /// The [`Player`] who will play the next move.
        next: Player,
    },
    /// The game is over and has been won by the indicated [`Player`].
    Won(Player),
}

/// `"Draw"`, `"Next: "` and the next player, or the winner and `" won!"`.
pub open spec fn status_text(status: GameStatus) -> Seq<char> {
    match status {
        GameStatus::Drawn => "Draw"@,
        GameStatus::Ongoing { next } => "Next: "@ + player_text(next),
        GameStatus::Won(player) => player_text(player) + " won!"@,
    }
}

impl GameStatus {
    /// Describes the status.
    pub fn to_string(&self) -> (text: String)
        ensures
            text@ == status_text(*self),
    {
        let mut text = String::new();
        match self {
            GameStatus::Drawn => {
                text.append("Draw");
            },
            GameStatus::Ongoing { next } => {
                text.append("Next: ");
                let name = next.to_string();
                text.append(name.as_str());
            },
            GameStatus::Won(player) => {
                let name = player.to_string();
                text.append(name.as_str());
                text.append(" won!");
            },
        }
        text
    }
}

/// The message for a rejected move.
pub open spec fn play_error_text(err: PlayError) -> Seq<char> {
    match err {
        PlayError::GameOver(status) => "game already over: "@ + status_text(status),
        PlayError::PlaceError(place_error) => "impossible move: "@ + place_error_text(place_error),
        PlayError::RuleError { message } => "illegal move: "@ + message@,
    }
}

impl PlayError {
    /// Says why the move was rejected.
    pub fn to_string(&self) -> (text: String)
        ensures
            text@ == play_error_text(*self),
    {
        let mut text = String::new();
        match self {
            PlayError::GameOver(status) => {
                text.append("game already over: ");
                let detail = status.to_string();
                text.append(detail.as_str());
            },
            PlayError::PlaceError(place_error) => {
                text.append("impossible move: ");
                let detail = place_error.to_string();
                text.append(detail.as_str());
            },
            PlayError::RuleError { message } => {
                text.append("illegal move: ");
                text.append(message.as_str());
            },
        }
        text
    }
}

/// Returns the first [`Player`] to have `win_length` consecutive [`Some`]s in the run.
#[must_use]
pub fn winner_in_run(run: &[Option<Player>], win_length: usize) -> (winner: Option<Player>)
    ensures
        winner == line_winner(run@, win_length as nat),
{
    let ghost k = win_length as nat;
    let mut consecutive: usize = 0;
    let mut previous: Option<Player> = None;
    let mut i: usize = 0;
    while i < run.len()
        invariant
            i <= run@.len(),
            k == win_length as nat,
            consecutive == streak(run@, i - 1),
            consecutive <= i,
            previous == if i == 0 {
                None
            } else {
                run@[i - 1]
            },
            forall|e: int| e < i ==> !#[trigger] crate::lines::completes_line(run@, k, e),
        decreases run@.len() - i,
    {
        let space = run[i];
        proof {
            if i > 0 {
                lemma_streak_completes(run@, k, i - 1);
            }
            lemma_streak_completes(run@, k, i as int);
        }
        match space {
            None => {
                consecutive = 0;
            },
            Some(player) => {
                let same = match previous {
                    Some(before) => before == player,
                    None => false,
                };
                if same {
                    consecutive += 1;
                } else {
                    consecutive = 1;
                }
                if consecutive == win_length {
                    proof {
                        lemma_line_winner_at(run@, k, i as int);
                    }
                    return Some(player);
                }
            },
        }
        previous = space;
        i += 1;
    }
    proof {
        lemma_line_winner_some(run@, k);
    }
    None
}

/// Returns the first [`Player`] to be a winner in any of the passed runs.
#[must_use]
pub fn winner_in_runs(runs: &[Vec<Option<Player>>], win_length: usize) -> (winner: Option<Player>)
    ensures
        winner == runs_winner(runs_view(runs@), win_length as nat),
{
    let ghost rv = runs_view(runs@);
    let ghost k = win_length as nat;
    let mut i: usize = 0;
    assert(rv.subrange(0, rv.len() as int) =~= rv);
    while i < runs.len()
        invariant
            i <= runs@.len(),
            rv == runs_view(runs@),
            k == win_length as nat,
            runs_winner(rv, k) == runs_winner(rv.subrange(i as int, rv.len() as int), k),
        decreases runs@.len() - i,
    {
        proof {
            lemma_runs_winner_step(rv, k, i as int);
        }
        let winner = winner_in_run(runs[i].as_slice(), win_length);
        if winner.is_some() {
            return winner;
        }
        i += 1;
    }
    assert(rv.subrange(i as int, rv.len() as int) =~= Seq::<Seq<Option<Player>>>::empty());
    None
}

/// A standard [*m,n,k*-game].
///
/// [`Player::X`] and [`Player::O`] alternate placing stones, in that order, on a board with `R`
/// rows and `C` columns until one wins by having `K` stones in a row, column, or diagonal.
///
/// Methods are zero-indexed. Rows at least `R` and columns at least `C` are considered out of
/// bounds.
///
/// [*m,n,k*-game]: https://en.wikipedia.org/wiki/M,n,k-game
#[derive(Clone, Copy, Debug, Eq, Hash, PartialEq)]
pub struct MnkGame<const R: usize, const C: usize, const K: usize> {
    /// The stones played so far.
    pub board: MnkBoard<R, C>,
    /// Whether the game is over, and if not, whose move it is.
    pub status: GameStatus,
}

/// The status a game has after `mover` has played and left the board `g`:
/// won by whoever has `k` in a row, drawn if the board is full, and otherwise
/// the other player's turn.
pub open spec fn status_after(
    g: Seq<Seq<Option<Player>>>,
    rows: nat,
    cols: nat,
    k: nat,
    mover: Player,
) -> GameStatus {
    match board_winner(g, rows, cols, k) {
        Some(winner) => GameStatus::Won(winner),
        None => if board_full(g) {
            GameStatus::Drawn
        } else {
            GameStatus::Ongoing { next: mover.opponent() }
        },
    }
}

/// X and O have taken turns, X first: X has as many stones as O or one more,
/// and in an ongoing game it is X's move exactly when the counts are equal.
pub open spec fn fair_turns(g: Seq<Seq<Option<Player>>>, status: GameStatus) -> bool {
    let x = stone_count(g, Player::X);
    let o = stone_count(g, Player::O);
    &&& (x == o || x == o + 1)
    &&& (status matches GameStatus::Ongoing { next } ==> (next == Player::X <==> x == o))
}

/// What a status after a move means: a winner has `k` in a row; a draw has a
/// full board on which no one has; an ongoing game has a free space, no line,
/// and the other player to move.
pub proof fn lemma_status_after_meaning(
    g: Seq<Seq<Option<Player>>>,
    rows: nat,
    cols: nat,
    k: nat,
    mover: Player,
)
    requires
        k > 0,
    ensures
        status_after(g, rows, cols, k, mover) matches GameStatus::Won(w) ==> k_in_a_row(g, rows, cols, k, w),
        status_after(g, rows, cols, k, mover) == GameStatus::Drawn ==> board_full(g) && forall|p: Player|
            !#[trigger] k_in_a_row(g, rows, cols, k, p),
        status_after(g, rows, cols, k, mover) matches GameStatus::Ongoing { next } ==> {
            &&& next == mover.opponent()
            &&& !board_full(g)
            &&& forall|p: Player| !#[trigger] k_in_a_row(g, rows, cols, k, p)
        },
{
    lemma_board_winner_meaning(g, rows, cols, k);
}

/// The space with X and O swapped.
pub open spec fn swap_space(space: Option<Player>) -> Option<Player> {
    match space {
        Some(player) => Some(player.opponent()),
        None => None,
    }
}

/// Swapping X and O on every space of a board swaps the winner: if board `h`
/// is board `g` with the players swapped, the winner of `h` is the other
/// player of the winner of `g`, and neither has one if the other has none.
pub proof fn lemma_swapped_board_winner<const R: usize, const C: usize>(
    g: MnkBoard<R, C>,
    h: MnkBoard<R, C>,
    k: nat,
)
    requires
        forall|r: int, c: int| 0 <= r < R && 0 <= c < C ==> #[trigger] h@[r][c] == swap_space(g@[r][c]),
    ensures
        board_winner(h@, R as nat, C as nat, k) == swap_space(board_winner(g@, R as nat, C as nat, k)),
{
    let f = |p: Player| p.opponent();
    g.lemma_well_formed();
    h.lemma_well_formed();
    assert forall|a: Player, b: Player| #[trigger] f(a) == #[trigger] f(b) implies a == b by {}
    assert forall|r: int, c: int| 0 <= r < R && 0 <= c < C implies #[trigger] h@[r][c] == rename_space(g@[r][c], f) by {
        assert(h@[r][c] == swap_space(g@[r][c]));
    }
    lemma_rename_board_winner(g@, h@, R as nat, C as nat, k, f);
}

/// The board and status agree with a game played by the rules from an empty
/// board: X has as many stones as O or one more; an ongoing game has a free
/// space, no line, and X to move exactly when the counts are equal; a won game
/// has a line of the winner, none of the other player, and the winner is X
/// exactly when X has the extra stone; a drawn game is full with no line.
pub open spec fn consistent_game(
    g: Seq<Seq<Option<Player>>>,
    rows: nat,
    cols: nat,
    k: nat,
    status: GameStatus,
) -> bool {
    let x = stone_count(g, Player::X);
    let o = stone_count(g, Player::O);
    &&& (x == o || x == o + 1)
    &&& match status {
        GameStatus::Ongoing { next } => {
            &&& (next == Player::X <==> x == o)
            &&& !board_full(g)
            &&& !k_in_a_row(g, rows, cols, k, Player::X)
            &&& !k_in_a_row(g, rows, cols, k, Player::O)
        },
        GameStatus::Won(winner) => {
            &&& k_in_a_row(g, rows, cols, k, winner)
            &&& !k_in_a_row(g, rows, cols, k, winner.opponent())
            &&& (winner == Player::X <==> x == o + 1)
        },
        GameStatus::Drawn => {
            &&& board_full(g)
            &&& !k_in_a_row(g, rows, cols, k, Player::X)
            &&& !k_in_a_row(g, rows, cols, k, Player::O)
        },
    }
}

/// A legal move keeps a game consistent: if the game before was consistent
/// and ongoing and the mover places a stone on an empty space, the board and
/// the status after the move (as `play_at` leaves them) are consistent.
pub proof fn lemma_move_keeps_consistency(
    g: Seq<Seq<Option<Player>>>,
    rows: nat,
    cols: nat,
    k: nat,
    status: GameStatus,
    row: usize,
    column: usize,
)
    requires
        k > 0,
        well_formed(g, rows, cols),
        consistent_game(g, rows, cols, k, status),
        status is Ongoing,
        place_outcome(g, rows, cols, row, column) is Ok,
    ensures
        consistent_game(
            with_stone(g, row as int, column as int, status->next),
            rows,
            cols,
            k,
            status_after(with_stone(g, row as int, column as int, status->next), rows, cols, k, status->next),
        ),
{
    let next = status->next;
    let after = with_stone(g, row as int, column as int, next);
    lemma_stone_count_with_stone(g, row as int, column as int, next, Player::X);
    lemma_stone_count_with_stone(g, row as int, column as int, next, Player::O);
    lemma_status_after_meaning(after, rows, cols, k, next);
    lemma_board_winner_meaning(g, rows, cols, k);
    assert forall|p: Player| !#[trigger] k_in_a_row(g, rows, cols, k, p) by {
        match p {
            Player::X => {},
            Player::O => {},
        }
    }
    lemma_only_mover_wins(g, rows, cols, k, row as int, column as int, next);
    if k_in_a_row(after, rows, cols, k, next.opponent()) {
        lemma_other_lines_kept(g, rows, cols, k, row as int, column as int, next, next.opponent());
    }
}

impl<const R: usize, const C: usize, const K: usize> MnkGame<R, C, K> {
    /// Returns a [`GameStatus::Ongoing`] `MnkGame<R, C, K>` with an empty board and current player
    /// [`Player::X`].
    #[must_use]
    pub fn new() -> (game: Self)
        ensures
            forall|r: int, c: int| 0 <= r < R && 0 <= c < C ==> (#[trigger] game.board@[r][c]) is None,
            game.status == (GameStatus::Ongoing { next: Player::X }),
            fair_turns(game.board@, game.status),
            R > 0 && C > 0 ==> consistent_game(game.board@, R as nat, C as nat, K as nat, game.status),
    {
        let game = Self {
            board: MnkBoard::<R, C>::new(),
            status: GameStatus::Ongoing { next: Player::X },
        };
        proof {
            game.board.lemma_well_formed();
            lemma_stone_count_empty(game.board@, Player::X);
            lemma_stone_count_empty(game.board@, Player::O);
            assert forall|p: Player| !#[trigger] k_in_a_row(game.board@, R as nat, C as nat, K as nat, p) by {
                if k_in_a_row(game.board@, R as nat, C as nat, K as nat, p) {
                    let (r, c, d) = choose|r: int, c: int, d: Direction|
                        #[trigger] line_at(game.board@, R as nat, C as nat, K as nat, r, c, d, p);
                    assert(space_at(game.board@, R as nat, C as nat, step_row(d, r, 0), step_col(d, c, 0)) == Some(p));
                }
            }
            if R > 0 && C > 0 {
                assert(game.board@[0][0] is None);
            }
        }
        game
    }

    /// The current state of the game's [`MnkBoard`].
    #[must_use]
    pub fn board(&self) -> (board: &MnkBoard<R, C>)
        ensures
            *board == self.board,
    {
        &self.board
    }

    /// The current [`GameStatus`] of the game.
    #[must_use]
    pub fn status(&self) -> (status: GameStatus)
        ensures
            status == self.status,
    {
        self.status
    }

    /// The board drawn as by [`MnkBoard::to_string`], then a line with the status.
    pub fn to_string(&self) -> (text: String)
        ensures
            text@ == board_text(self.board@, C as nat) + "\n"@ + status_text(self.status),
    {
        let mut text = self.board.to_string();
        text.append("\n");
        let status = self.status.to_string();
        text.append(status.as_str());
        text
    }

    /// Attempts to play at the indicated location.
    ///
    /// If successful, plays a stone at the indicated location, switches the current [`Player`],
    /// and checks whether the [`GameStatus`] has changed. Never plays a stone if it also returns an
    /// error.
    ///
    /// # Errors
    ///
    /// - [`PlayError::GameOver`] if the game is [`GameStatus::Drawn`] or [`GameStatus::Won`].
    /// - [`PlayError::PlaceError`] if the indicated location is not a valid move.
    pub fn play_at(&mut self, row: usize, column: usize) -> (res: Result<(), PlayError>)
        requires
            K > 0 || !(old(self).status is Ongoing && place_outcome(
                old(self).board@,
                R as nat,
                C as nat,
                row,
                column,
            ) is Ok),
        ensures
            match old(self).status {
                GameStatus::Ongoing { next } => match place_outcome(
                    old(self).board@,
                    R as nat,
                    C as nat,
                    row,
                    column,
                ) {
                    Ok(()) => {
                        &&& res is Ok
                        &&& final(self).board@ == with_stone(
                            old(self).board@,
                            row as int,
                            column as int,
                            next,
                        )
                        &&& final(self).status == status_after(
                            final(self).board@,
                            R as nat,
                            C as nat,
                            K as nat,
                            next,
                        )
                    },
                    Err(err) => {
                        &&& res == Err::<(), PlayError>(PlayError::PlaceError(err))
                        &&& *final(self) == *old(self)
                    },
                },
                _ => {
                    &&& res == Err::<(), PlayError>(PlayError::GameOver(old(self).status))
                    &&& *final(self) == *old(self)
                },
            },
            fair_turns(old(self).board@, old(self).status) ==> fair_turns(
                final(self).board@,
                final(self).status,
            ),
            old(self).status is Ongoing && board_winner(
                old(self).board@,
                R as nat,
                C as nat,
                K as nat,
            ) is None ==> final(self).status != GameStatus::Won(old(self).status->next.opponent()),
            consistent_game(old(self).board@, R as nat, C as nat, K as nat, old(self).status)
                ==> consistent_game(final(self).board@, R as nat, C as nat, K as nat, final(self).status),
    {
        let ghost before = self.board@;
        proof {
            self.board.lemma_well_formed();
        }
        match self.status {
            GameStatus::Drawn | GameStatus::Won(_) => Err(PlayError::GameOver(self.status)),
            GameStatus::Ongoing { next } => match self.board.place(next, row, column) {
                Err(err) => Err(PlayError::PlaceError(err)),
                Ok(()) => {
                    self.status = GameStatus::Ongoing { next: next.not() };
                    self.update_status();
                    proof {
                        lemma_stone_count_with_stone(before, row as int, column as int, next, Player::X);
                        lemma_stone_count_with_stone(before, row as int, column as int, next, Player::O);
                        if consistent_game(before, R as nat, C as nat, K as nat, old(self).status) {
                            lemma_move_keeps_consistency(
                                before,
                                R as nat,
                                C as nat,
                                K as nat,
                                old(self).status,
                                row,
                                column,
                            );
                        }
                        if board_winner(before, R as nat, C as nat, K as nat) is None {
                            lemma_only_mover_wins(
                                before,
                                R as nat,
                                C as nat,
                                K as nat,
                                row as int,
                                column as int,
                                next,
                            );
                        }
                    }
                    Ok(())
                },
            },
        }
    }

    /// Changes the `status` field.
    ///
    /// [`GameStatus::Won`] if the game has been won. Otherwise, [`GameStatus::Drawn`] if the board
    /// is full and unchanged otherwise.
    pub fn update_status(&mut self)
        requires
            K > 0,
        ensures
            final(self).board == old(self).board,
            final(self).status == match board_winner(old(self).board@, R as nat, C as nat, K as nat) {
                Some(winner) => GameStatus::Won(winner),
                None => if board_full(old(self).board@) {
                    GameStatus::Drawn
                } else {
                    old(self).status
                },
            },
    {
        self.status = match self.winner() {
            Some(winner) => GameStatus::Won(winner),
            None => if self.board.full() {
                GameStatus::Drawn
            } else {
                self.status
            },
        };
    }

    /// Returns the winner of the game, or [`None`] if neither [`Player`] has won.
    ///
    /// The winner has `K` stones in a row, column or diagonal; there is none exactly when
    /// neither player has.
    #[must_use]
    pub fn winner(&self) -> (winner: Option<Player>)
        requires
            K > 0,
        ensures
            winner == board_winner(self.board@, R as nat, C as nat, K as nat),
            winner matches Some(p) ==> k_in_a_row(self.board@, R as nat, C as nat, K as nat, p),
            winner is None <==> forall|p: Player| !#[trigger] k_in_a_row(self.board@, R as nat, C as nat, K as nat, p),
    {
        let ghost g = self.board@;
        let ghost rows = R as nat;
        let ghost cols = C as nat;
        let ghost k = K as nat;
        proof {
            lemma_board_winner_meaning(g, rows, cols, k);
        }
        let ghost rr = crate::lines::row_runs(g, rows, cols);
        let ghost cr = crate::lines::column_runs(g, rows, cols);
        let ghost tr = crate::lines::top_right_runs(g, rows, cols, k);
        let ghost ld = crate::lines::left_down_runs(g, rows, cols, k);
        let ghost tl = crate::lines::top_left_runs(g, rows, cols, k);
        let ghost rd = crate::lines::right_down_runs(g, rows, cols, k);
        let ghost e = Seq::<Seq<Option<Player>>>::empty();
        let ghost a = if k <= cols { rr } else { e };
        let ghost b = if k <= rows { cr } else { e };
        let ghost diags = if k <= rows && k <= cols { tr + ld + tl + rd } else { e };
        assert(all_runs(g, rows, cols, k) == a + b + diags);
        proof {
            lemma_runs_winner_append(a + b, diags, k);
            lemma_runs_winner_append(a, b, k);
            lemma_runs_winner_append(tr + ld + tl, rd, k);
            lemma_runs_winner_append(tr + ld, tl, k);
            lemma_runs_winner_append(tr, ld, k);
        }
        if C >= K {
            let winner = winner_in_runs(self.board.rows().as_slice(), K);
            if winner.is_some() {
                return winner;
            }
        }
        if R >= K {
            let winner = winner_in_runs(self.board.columns().as_slice(), K);
            if winner.is_some() {
                return winner;
            }
        }
        if R >= K && C >= K {
            let mut winner = winner_in_runs(self.board.top_right_diagonals(K).as_slice(), K);
            if winner.is_some() {
                return winner;
            }
            winner = winner_in_runs(self.board.left_down_diagonals(K).as_slice(), K);
            if winner.is_some() {
                return winner;
            }
            winner = winner_in_runs(self.board.top_left_diagonals(K).as_slice(), K);
            if winner.is_some() {
                return winner;
            }
            winner_in_runs(self.board.right_down_diagonals(K).as_slice(), K)
        } else {
            None
        }
    }
}

impl<const R: usize, const C: usize, const K: usize> Default for MnkGame<R, C, K> {
    /// An ongoing game with an empty board, X to move.
    fn default() -> (game: Self)
        ensures
            forall|r: int, c: int| 0 <= r < R && 0 <= c < C ==> (#[trigger] game.board@[r][c]) is None,
            game.status == (GameStatus::Ongoing { next: Player::X }),
    {
        Self::new()
    }
}

impl<const R: usize, const C: usize, const K: usize> From<MnkGame<R, C, K>> for MnkBoard<R, C> {
    /// The game's board.
    fn from(game: MnkGame<R, C, K>) -> (board: Self)
        ensures
            board == game.board,
    {
        game.board
    }
}

impl<const R: usize, const C: usize, const K: usize> vstd::std_specs::convert::FromSpecImpl<MnkGame<R, C, K>> for MnkBoard<R, C> {
    open spec fn obeys_from_spec() -> bool {
        true
    }

    open spec fn from_spec(game: MnkGame<R, C, K>) -> MnkBoard<R, C> {
        game.board
    }
}

} // verus!
