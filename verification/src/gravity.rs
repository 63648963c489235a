//! [`MnkGame`]s with gravity, which restricts vertical stone placement.

use vstd::prelude::*;
use crate::board::{place_outcome, MnkBoard, OutOfBounds, PlaceError};
use crate::board::board_text;
use crate::games::{consistent_game, fair_turns, status_after, status_text, GameStatus, MnkGame, PlayError};
use crate::lines::board_winner;
use crate::lines::with_stone;

verus! {

/// A restricted [`MnkGame`] where stones must be placed at the bottom of a column.
#[derive(Clone, Copy, Debug, Eq, Hash, PartialEq)]
pub struct GravityGame<const R: usize, const C: usize, const K: usize>(MnkGame<R, C, K>);

/// Whether the row `row` is the physically lowest (numerically greatest) empty row of
/// `column` in a board of `rows` rows.
pub open spec fn is_lowest_empty(g: Seq<Seq<Option<crate::Player>>>, rows: nat, column: int, row: int) -> bool {
    &&& 0 <= row < rows
    &&& g[row][column] is None
    &&& forall|below: int| row < below < rows ==> (#[trigger] g[below][column]) is Some
}

/// Where a stone dropped into `column` comes to rest, or why it cannot be dropped.
pub open spec fn drop_outcome(
    g: Seq<Seq<Option<crate::Player>>>,
    rows: nat,
    cols: nat,
    column: usize,
) -> Result<usize, PlayError> {
    if column >= cols {
        Err(
            PlayError::PlaceError(
                PlaceError::OutOfBounds(OutOfBounds { row: None, column: Some(column) }),
            ),
        )
    } else if exists|row: int| 0 <= row < rows && (#[trigger] g[row][column as int]) is None {
        Ok((choose|row: int| #[trigger] is_lowest_empty(g, rows, column as int, row)) as usize)
    } else {
        Err(PlayError::PlaceError(PlaceError::Occupied { player: None }))
    }
}

/// From an empty row `row` of `column`, some empty row at or below it has only stones below.
proof fn lemma_lowest_empty_exists(g: Seq<Seq<Option<crate::Player>>>, rows: nat, column: int, row: int)
    requires
        0 <= row < rows,
        g[row][column] is None,
    ensures
        exists|lowest: int| #[trigger] is_lowest_empty(g, rows, column, lowest),
    decreases rows - row,
{
    if forall|below: int| row < below < rows ==> (#[trigger] g[below][column]) is Some {
        assert(is_lowest_empty(g, rows, column, row));
    } else {
        let below = choose|below: int| row < below < rows && !((#[trigger] g[below][column]) is Some);
        lemma_lowest_empty_exists(g, rows, column, below);
    }
}

/// A dropped stone lands in the lowest empty space of its column, and is refused only when
/// it cannot land: out of bounds exactly when `column >= cols`; otherwise the drop succeeds
/// whenever any space of the column is empty, landing on an empty space with only stones
/// below it, and is refused as occupied exactly when every space of the column holds a stone.
pub proof fn lemma_drop_outcome_meaning(
    g: Seq<Seq<Option<crate::Player>>>,
    rows: nat,
    cols: nat,
    column: usize,
)
    requires
        rows <= usize::MAX,
    ensures
        column >= cols ==> drop_outcome(g, rows, cols, column) == Err::<usize, PlayError>(
            PlayError::PlaceError(
                PlaceError::OutOfBounds(OutOfBounds { row: None, column: Some(column) }),
            ),
        ),
        column < cols && (exists|r: int| 0 <= r < rows && (#[trigger] g[r][column as int]) is None)
            ==> (drop_outcome(g, rows, cols, column) matches Ok(row) && row < rows
            && g[row as int][column as int] is None && forall|below: int|
            row < below < rows ==> (#[trigger] g[below][column as int]) is Some),
        column < cols && (forall|r: int| 0 <= r < rows ==> (#[trigger] g[r][column as int]) is Some)
            ==> drop_outcome(g, rows, cols, column) == Err::<usize, PlayError>(
            PlayError::PlaceError(PlaceError::Occupied { player: None }),
        ),
        drop_outcome(g, rows, cols, column) matches Err(PlayError::PlaceError(
            PlaceError::Occupied { .. },
        )) ==> forall|r: int| 0 <= r < rows ==> (#[trigger] g[r][column as int]) is Some,
{
    if column < cols && exists|r: int| 0 <= r < rows && (#[trigger] g[r][column as int]) is None {
        let r = choose|r: int| 0 <= r < rows && (#[trigger] g[r][column as int]) is None;
        lemma_lowest_empty_exists(g, rows, column as int, r);
        let lowest = choose|row: int| #[trigger] is_lowest_empty(g, rows, column as int, row);
        assert(is_lowest_empty(g, rows, column as int, lowest));
        assert(drop_outcome(g, rows, cols, column) == Ok::<usize, PlayError>(lowest as usize));
    }
}

/// In every column, each stone rests on the bottom or on another stone.
pub open spec fn stacked(g: Seq<Seq<Option<crate::Player>>>, rows: nat, cols: nat) -> bool {
    forall|r: int, below: int, c: int|
        0 <= r < below < rows && 0 <= c < cols && (#[trigger] g[r][c]) is Some ==> (#[trigger] g[below][c]) is Some
}

impl<const R: usize, const C: usize, const K: usize> GravityGame<R, C, K> {
    /// Every column of a gravity game fills from the bottom, without gaps.
    #[verifier::type_invariant]
    spec fn columns_fill_from_bottom(self) -> bool {
        stacked(self.0.board@, R as nat, C as nat)
    }

    /// The underlying game.
    pub closed spec fn game(&self) -> MnkGame<R, C, K> {
        self.0
    }

    /// Returns a [`GameStatus::Ongoing`] `GravityGame<R, C, K>` with an empty board and current
    /// player X.
    #[must_use]
    pub fn new() -> (game: Self)
        ensures
            forall|r: int, c: int| 0 <= r < R && 0 <= c < C ==> (#[trigger] game.game().board@[r][c]) is None,
            game.game().status == (GameStatus::Ongoing { next: crate::Player::X }),
            fair_turns(game.game().board@, game.game().status),
            stacked(game.game().board@, R as nat, C as nat),
            R > 0 && C > 0 ==> consistent_game(
                game.game().board@,
                R as nat,
                C as nat,
                K as nat,
                game.game().status,
            ),
    {
        Self(MnkGame::new())
    }

    /// The current state of the game's [`MnkBoard`].
    #[must_use]
    pub fn board(&self) -> (board: &MnkBoard<R, C>)
        ensures
            *board == self.game().board,
            stacked(board@, R as nat, C as nat),
    {
        proof {
            use_type_invariant(self);
        }
        self.0.board()
    }

    /// The current [`GameStatus`] of the game.
    #[must_use]
    pub fn status(&self) -> (status: GameStatus)
        ensures
            status == self.game().status,
    {
        self.0.status()
    }

    /// The game drawn as by [`MnkGame::to_string`].
    pub fn to_string(&self) -> (text: String)
        ensures
            text@ == board_text(self.game().board@, C as nat) + "\n"@ + status_text(self.game().status),
    {
        self.0.to_string()
    }

    /// Attempts to play in the indicated column.
    ///
    /// If the column has any [`None`] in it, plays at the physically lowest one (that is,
    /// the one with the highest row index).
    ///
    /// # Errors
    /// - [`PlayError::PlaceError(PlaceError::Occupied)`][PlayError::PlaceError] if the column is
    ///   full.
    /// - A [`PlayError::PlaceError(PlaceError::OutOfBounds)`][PlayError::PlaceError] if the column
    ///   is out of bounds.
    /// - Any errors thrown by [`MnkGame::play_at`].
    pub fn play_in(&mut self, column: usize) -> (res: Result<(), PlayError>)
        requires
            K > 0 || !(old(self).game().status is Ongoing && drop_outcome(
                old(self).game().board@,
                R as nat,
                C as nat,
                column,
            ) is Ok),
        ensures
            match drop_outcome(old(self).game().board@, R as nat, C as nat, column) {
                Err(err) => res == Err::<(), PlayError>(err) && *final(self) == *old(self),
                Ok(row) => match old(self).game().status {
                    GameStatus::Ongoing { next } => {
                        &&& res is Ok
                        &&& final(self).game().board@ == with_stone(
                            old(self).game().board@,
                            row as int,
                            column as int,
                            next,
                        )
                        &&& final(self).game().status == status_after(
                            final(self).game().board@,
                            R as nat,
                            C as nat,
                            K as nat,
                            next,
                        )
                    },
                    _ => {
                        &&& res == Err::<(), PlayError>(PlayError::GameOver(old(self).game().status))
                        &&& *final(self) == *old(self)
                    },
                },
            },
            stacked(final(self).game().board@, R as nat, C as nat),
            fair_turns(old(self).game().board@, old(self).game().status) ==> fair_turns(
                final(self).game().board@,
                final(self).game().status,
            ),
            old(self).game().status is Ongoing && board_winner(
                old(self).game().board@,
                R as nat,
                C as nat,
                K as nat,
            ) is None ==> final(self).game().status != GameStatus::Won(
                old(self).game().status->next.opponent(),
            ),
            consistent_game(old(self).game().board@, R as nat, C as nat, K as nat, old(self).game().status)
                ==> consistent_game(
                final(self).game().board@,
                R as nat,
                C as nat,
                K as nat,
                final(self).game().status,
            ),
    {
        let row = match lowest_row_in(self.board(), column) {
            Ok(row) => row,
            Err(err) => return Err(err),
        };
        proof {
            use_type_invariant(&*self);
        }
        assert(place_outcome(self.0.board@, R as nat, C as nat, row, column) is Ok);
        let mut game = self.0;
        let res = game.play_at(row, column);
        self.0 = game;
        res
    }
}

/// Find the physically lowest (numerically greatest) row index corresponding to a [`None`].
pub fn lowest_row_in<const R: usize, const C: usize>(
    board: &MnkBoard<R, C>,
    column: usize,
) -> (res: Result<usize, PlayError>)
    ensures
        res == drop_outcome(board@, R as nat, C as nat, column),
        res matches Ok(row) ==> is_lowest_empty(board@, R as nat, column as int, row as int),
{
    if column >= C {
        return Err(
            PlayError::PlaceError(
                PlaceError::OutOfBounds(OutOfBounds { row: None, column: Some(column) }),
            ),
        );
    }
    let mut r: usize = R;
    while r > 0
        invariant
            r <= R,
            column < C,
            forall|below: int| r <= below < R ==> (#[trigger] board@[below][column as int]) is Some,
        decreases r,
    {
        r -= 1;
        if board.get_unchecked(r, column).is_none() {
            assert(is_lowest_empty(board@, R as nat, column as int, r as int));
            proof {
                let chosen = choose|row: int| #[trigger] is_lowest_empty(board@, R as nat, column as int, row);
                assert(is_lowest_empty(board@, R as nat, column as int, chosen));
                if chosen < r {
                    assert(board@[r as int][column as int] is Some);
                }
                if chosen > r {
                    assert(board@[chosen][column as int] is Some);
                }
            }
            return Ok(r);
        }
    }
    Err(PlayError::PlaceError(PlaceError::Occupied { player: None }))
}

impl<const R: usize, const C: usize, const K: usize> Default for GravityGame<R, C, K> {
    /// An ongoing game with an empty board, X to move.
    fn default() -> (game: Self)
        ensures
            forall|r: int, c: int| 0 <= r < R && 0 <= c < C ==> (#[trigger] game.game().board@[r][c]) is None,
            game.game().status == (GameStatus::Ongoing { next: crate::Player::X }),
    {
        Self::new()
    }
}

impl<const R: usize, const C: usize, const K: usize> From<GravityGame<R, C, K>> for MnkBoard<R, C> {
    /// The game's board.
    fn from(game: GravityGame<R, C, K>) -> (board: Self)
        ensures
            board == game.game().board,
    {
        game.0.board
    }
}

impl<const R: usize, const C: usize, const K: usize> vstd::std_specs::convert::FromSpecImpl<GravityGame<R, C, K>> for MnkBoard<R, C> {
    open spec fn obeys_from_spec() -> bool {
        true
    }

    open spec fn from_spec(game: GravityGame<R, C, K>) -> MnkBoard<R, C> {
        game.game().board
    }
}

impl<const R: usize, const C: usize, const K: usize> From<GravityGame<R, C, K>> for MnkGame<R, C, K> {
    /// The underlying game.
    fn from(game: GravityGame<R, C, K>) -> (inner: Self)
        ensures
            inner == game.game(),
    {
        game.0
    }
}

impl<const R: usize, const C: usize, const K: usize> vstd::std_specs::convert::FromSpecImpl<GravityGame<R, C, K>> for MnkGame<R, C, K> {
    open spec fn obeys_from_spec() -> bool {
        true
    }

    open spec fn from_spec(game: GravityGame<R, C, K>) -> MnkGame<R, C, K> {
        game.game()
    }
}

} // verus!
