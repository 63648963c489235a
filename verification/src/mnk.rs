//! A self-contained m,n,k board whose spaces are [`Space`]s and whose win length `K` is part of
//! its type.

use vstd::prelude::*;
use crate::lines::{
    lemma_diagonal_runs_long_enough, ray_coords, all_runs, board_winner, column_runs, k_in_a_row, lemma_board_winner_meaning,
    lemma_line_winner_at, lemma_line_winner_some, lemma_runs_winner_append,
    lemma_runs_winner_step, lemma_streak_completes, left_down_runs, line_winner, ray,
    ray_on_board, right_down_runs, row_runs, runs_winner, streak,
    top_left_runs, top_right_runs, well_formed, Direction,
};

verus! {

/// One of two players.
#[derive(Clone, Copy, Debug, Eq, Hash, Ord, PartialEq, PartialOrd, Structural)]
pub enum Player {
    /// The player who makes the first move.
    X,
    /// The player who makes the second move.
    O,
}

/// A space that can be played on by a [`Player`].
#[derive(Clone, Copy, Debug, Default, Eq, Hash, Ord, PartialEq, PartialOrd, Structural)]
pub enum Space {
    /// A space that has not been played on yet.
    #[default]
    Empty,
    /// A space that has been taken by the indicated [`Player`].
    Stone(Player),
}

/// `"X"` for [`Player::X`] and `"O"` for [`Player::O`].
pub open spec fn player_text(player: Player) -> Seq<char> {
    match player {
        Player::X => "X"@,
        Player::O => "O"@,
    }
}

impl Player {
    /// Writes "X" for [`Player::X`] and "O" for [`Player::O`].
    pub fn to_string(&self) -> (text: String)
        ensures
            text@ == player_text(*self),
    {
        let mut text = String::new();
        match self {
            Player::X => text.append("X"),
            Player::O => text.append("O"),
        }
        text
    }
}

/// A blank for [`Space::Empty`] and the player's letter for a [`Space::Stone`].
pub open spec fn space_text(space: Space) -> Seq<char> {
    match space {
        Space::Empty => " "@,
        Space::Stone(player) => player_text(player),
    }
}

impl Space {
    /// Writes a space character for [`Space::Empty`] and the player name for a [`Space::Stone`].
    pub fn to_string(&self) -> (text: String)
        ensures
            text@ == space_text(*self),
    {
        match self {
            Space::Empty => {
                let mut text = String::new();
                text.append(" ");
                text
            },
            Space::Stone(player) => player.to_string(),
        }
    }
}

/// A space as an optional stone: `None` when empty.
pub open spec fn space_view(space: Space) -> Option<Player> {
    match space {
        Space::Empty => None,
        Space::Stone(player) => Some(player),
    }
}

/// The contents of a run of spaces.
pub open spec fn spaces_view(run: Seq<Space>) -> Seq<Option<Player>> {
    run.map_values(|space: Space| space_view(space))
}

/// The contents of a list of runs.
pub open spec fn runs_view(runs: Seq<Vec<Space>>) -> Seq<Seq<Option<Player>>> {
    runs.map_values(|run: Vec<Space>| spaces_view(run@))
}

impl From<Option<Player>> for Space {
    /// Maps [`None`] and [`Some`] to [`Space::Empty`] and [`Space::Stone`], respectively.
    fn from(player: Option<Player>) -> (space: Self)
        ensures
            space_view(space) == player,
    {
        match player {
            None => Space::Empty,
            Some(player) => Space::Stone(player),
        }
    }
}

impl vstd::std_specs::convert::FromSpecImpl<Option<Player>> for Space {
    open spec fn obeys_from_spec() -> bool {
        true
    }

    open spec fn from_spec(player: Option<Player>) -> Space {
        match player {
            None => Space::Empty,
            Some(player) => Space::Stone(player),
        }
    }
}

impl From<Space> for Option<Player> {
    /// Maps [`Space::Empty`] and [`Space::Stone`] to [`None`] and [`Some`],
    /// respectively.
    fn from(space: Space) -> (player: Self)
        ensures
            player == space_view(space),
    {
        match space {
            Space::Empty => None,
            Space::Stone(player) => Some(player),
        }
    }
}

impl vstd::std_specs::convert::FromSpecImpl<Space> for Option<Player> {
    open spec fn obeys_from_spec() -> bool {
        true
    }

    open spec fn from_spec(space: Space) -> Option<Player> {
        space_view(space)
    }
}

/// The board state of an [*m,n,k*-game].
///
/// *M,n,k*-games are two-player games played on an *m*-by-*n* board. Each [`Player`] takes turns
/// placing a stone in an empty [`Space`] on the board. A player wins when they have placed *k*
/// consecutive stones across a row, column, or diagonal. The game is drawn if there are no free
/// spaces and neither player has won.
///
/// An `MnkBoard<R, C, K>` struct has `R` rows and `C` columns of spaces. It considers a winner
/// to be a player with `K` stones in a row. However, the choice of which dimension represents the
/// number of rows is arbitrary; it is okay for other structs employing an `MnkBoard<R, C, K>` to
/// reinterpret `R` to be the number of columns and `C` to be the number of rows as long as
/// user-facing behavior is consistent with this assignment.
///
/// `K` must be nonzero: the methods that look for a winner require it.
///
/// [*m,n,k*-game]: https://en.wikipedia.org/wiki/M,n,k-game
#[derive(Clone, Copy, Debug, Eq, Hash, Ord, PartialEq, PartialOrd)]
pub struct MnkBoard<const R: usize, const C: usize, const K: usize> {
    /// A row-major array representing the spaces of the board.
    pub row_array: [[Space; C]; R],
}

impl<const R: usize, const C: usize, const K: usize> View for MnkBoard<R, C, K> {
    type V = Seq<Seq<Option<Player>>>;

    /// The board as a sequence of rows, each a sequence of optional stones.
    open spec fn view(&self) -> Seq<Seq<Option<Player>>> {
        self.row_array@.map_values(|row: [Space; C]| spaces_view(row@))
    }
}

/// Adding a run adds its contents.
proof fn lemma_runs_view_push(runs: Seq<Vec<Space>>, run: Vec<Space>)
    ensures
        runs_view(runs.push(run)) == runs_view(runs).push(spaces_view(run@)),
{
    assert(runs_view(runs.push(run)) =~= runs_view(runs).push(spaces_view(run@)));
}

impl<const R: usize, const C: usize, const K: usize> MnkBoard<R, C, K> {
    /// The board has `R` rows of `C` spaces.
    pub proof fn lemma_well_formed(&self)
        ensures
            well_formed(self@, R as nat, C as nat),
    {
        assert forall|r: int| 0 <= r < R implies #[trigger] self@[r].len() == C by {
            assert(self@[r] == spaces_view(self.row_array@[r]@));
        }
    }

    /// Returns a board filled with [`Space::Empty`].
    #[must_use]
    pub fn new() -> (board: Self)
        ensures
            forall|r: int, c: int| 0 <= r < R && 0 <= c < C ==> (#[trigger] board@[r][c]) is None,
    {
        let row: [Space; C] = [Space::Empty; C];
        let board = Self { row_array: [row; R] };
        assert forall|r: int, c: int| 0 <= r < R && 0 <= c < C implies (#[trigger] board@[r][c]) is None by {
            assert(board.row_array@[r] == row);
            assert(row@[c] == Space::Empty);
        }
        board
    }

    /// Returns the winner of the game, or [`None`] if neither player has won.
    ///
    /// It is possible, but ill-advised, for a board to have multiple winners. In such a case, the
    /// value returned by this is one of them, not `None`: the owner of the first line found,
    /// searching rows, then columns, then diagonals.
    #[must_use]
    pub fn winner(&self) -> (winner: Option<Player>)
        requires
            K > 0,
        ensures
            winner == board_winner(self@, R as nat, C as nat, K as nat),
            winner matches Some(p) ==> k_in_a_row(self@, R as nat, C as nat, K as nat, p),
            winner is None <==> forall|p: Player| !#[trigger] k_in_a_row(self@, R as nat, C as nat, K as nat, p),
    {
        let ghost g = self@;
        let ghost rows = R as nat;
        let ghost cols = C as nat;
        let ghost k = K as nat;
        proof {
            lemma_board_winner_meaning(g, rows, cols, k);
        }
        let ghost rr = row_runs(g, rows, cols);
        let ghost cr = column_runs(g, rows, cols);
        let ghost tr = top_right_runs(g, rows, cols, k);
        let ghost ld = left_down_runs(g, rows, cols, k);
        let ghost tl = top_left_runs(g, rows, cols, k);
        let ghost rd = right_down_runs(g, rows, cols, k);
        let ghost e = Seq::<Seq<Option<Player>>>::empty();
        let ghost a = if k <= cols { rr } else { e };
        let ghost b = if k <= rows { cr } else { e };
        let ghost diags = if k <= rows && k <= cols { tr + ld + tl + rd } else { e };
        assert(all_runs(g, rows, cols, k) == a + b + diags);
        proof {
            lemma_runs_winner_append(a + b, diags, k);
            lemma_runs_winner_append(a, b, k);
            lemma_runs_winner_append(tr + ld + tl, rd, k);
            lemma_runs_winner_append(tr + ld, tl, k);
            lemma_runs_winner_append(tr, ld, k);
        }
        if C >= K {
            let rows_array = self.rows();
            let winner = Self::winner_in_runs(self.rows_to_runs(&rows_array).as_slice());
            if winner.is_some() {
                return winner;
            }
        }
        if R >= K {
            let columns = self.columns();
            let winner = Self::winner_in_runs(self.columns_to_runs(columns.as_slice()).as_slice());
            if winner.is_some() {
                return winner;
            }
        }
        if R >= K && C >= K {
            let mut winner = Self::winner_in_runs(self.top_right_diagonals().as_slice());
            if winner.is_some() {
                return winner;
            }
            winner = Self::winner_in_runs(self.left_down_diagonals().as_slice());
            if winner.is_some() {
                return winner;
            }
            winner = Self::winner_in_runs(self.top_left_diagonals().as_slice());
            if winner.is_some() {
                return winner;
            }
            Self::winner_in_runs(self.right_down_diagonals().as_slice())
        } else {
            None
        }
    }

    /// Returns the first [`Player`] to be a winner in any of the passed runs.
    pub fn winner_in_runs(runs: &[Vec<Space>]) -> (winner: Option<Player>)
        ensures
            winner == runs_winner(runs_view(runs@), K as nat),
    {
        let ghost rv = runs_view(runs@);
        let ghost k = K as nat;
        let mut i: usize = 0;
        assert(rv.subrange(0, rv.len() as int) =~= rv);
        while i < runs.len()
            invariant
                i <= runs@.len(),
                rv == runs_view(runs@),
                k == K as nat,
                runs_winner(rv, k) == runs_winner(rv.subrange(i as int, rv.len() as int), k),
            decreases runs@.len() - i,
        {
            proof {
                lemma_runs_winner_step(rv, k, i as int);
            }
            let winner = Self::winner_in_run(runs[i].as_slice());
            if winner.is_some() {
                return winner;
            }
            i += 1;
        }
        assert(rv.subrange(i as int, rv.len() as int) =~= Seq::<Seq<Option<Player>>>::empty());
        None
    }

    /// Returns the first [`Player`] to have `K` consecutive [`Space::Stone`]s in the run.
    pub fn winner_in_run(run: &[Space]) -> (winner: Option<Player>)
        ensures
            winner == line_winner(spaces_view(run@), K as nat),
    {
        let ghost k = K as nat;
        let ghost sv = spaces_view(run@);
        let mut consecutive: usize = 0;
        let mut previous = Space::Empty;
        let mut i: usize = 0;
        while i < run.len()
            invariant
                i <= run@.len(),
                k == K as nat,
                sv == spaces_view(run@),
                sv.len() == run@.len(),
                consecutive == streak(sv, i - 1),
                consecutive <= i,
                space_view(previous) == if i == 0 {
                    None
                } else {
                    sv[i - 1]
                },
                forall|e: int| e < i ==> !#[trigger] crate::lines::completes_line(sv, k, e),
            decreases run@.len() - i,
        {
            let space = run[i];
            assert(space_view(space) == sv[i as int]);
            proof {
                if i > 0 {
                    lemma_streak_completes(sv, k, i - 1);
                }
                lemma_streak_completes(sv, k, i as int);
            }
            match space {
                Space::Empty => {
                    consecutive = 0;
                },
                Space::Stone(player) => {
                    let same = match previous {
                        Space::Stone(before) => before == player,
                        Space::Empty => false,
                    };
                    if same {
                        consecutive += 1;
                    } else {
                        consecutive = 1;
                    }
                    if consecutive == K {
                        proof {
                            lemma_line_winner_at(sv, k, i as int);
                        }
                        return Some(player);
                    }
                },
            }
            previous = space;
            i += 1;
        }
        proof {
            lemma_line_winner_some(sv, k);
        }
        None
    }

    /// Converts (row, column) pairs to their corresponding [`Space`] instances.
    pub fn coords_to_spaces(&self, coords: &[(usize, usize)]) -> (spaces: Vec<Space>)
        requires
            forall|i: int| 0 <= i < coords@.len() ==> (#[trigger] coords@[i]).0 < R && coords@[i].1 < C,
        ensures
            spaces@.len() == coords@.len(),
            forall|i: int| 0 <= i < coords@.len() ==> #[trigger] spaces@[i] == self.row_array@[coords@[i].0 as int]@[coords@[i].1 as int],
    {
        let mut spaces: Vec<Space> = Vec::new();
        let mut i: usize = 0;
        while i < coords.len()
            invariant
                i <= coords@.len(),
                forall|i: int| 0 <= i < coords@.len() ==> (#[trigger] coords@[i]).0 < R && coords@[i].1 < C,
                spaces@.len() == i,
                forall|j: int| 0 <= j < i ==> #[trigger] spaces@[j] == self.row_array@[coords@[j].0 as int]@[coords@[j].1 as int],
            decreases coords@.len() - i,
        {
            let (r, c) = coords[i];
            let row: &[Space; C] = &self.row_array[r];
            spaces.push(row[c]);
            i += 1;
        }
        spaces
    }

    /// The spaces along a ray that lies on the board.
    fn ray_spaces(&self, d: Direction, r: usize, c: usize, len: usize) -> (spaces: Vec<Space>)
        requires
            ray_on_board(R as nat, C as nat, d, r as int, c as int, len as nat),
        ensures
            spaces_view(spaces@) == ray(self@, d, r as int, c as int, len as nat),
    {
        let coords = ray_coords(R, C, d, r, c, len);
        let spaces = self.coords_to_spaces(coords.as_slice());
        assert(spaces_view(spaces@) =~= ray(self@, d, r as int, c as int, len as nat));
        spaces
    }

    /// Returns the rows of the board.
    pub fn rows(&self) -> (rows: [[Space; C]; R])
        ensures
            rows == self.row_array,
    {
        self.row_array
    }

    /// Copies the rows of the board into runs.
    fn rows_to_runs(&self, rows: &[[Space; C]; R]) -> (runs: Vec<Vec<Space>>)
        requires
            *rows == self.row_array,
        ensures
            runs_view(runs@) == row_runs(self@, R as nat, C as nat),
    {
        let mut runs: Vec<Vec<Space>> = Vec::new();
        let mut r: usize = 0;
        while r < R
            invariant
                r <= R,
                *rows == self.row_array,
                runs_view(runs@) =~= row_runs(self@, R as nat, C as nat).take(r as int),
            decreases R - r,
        {
            let row: &[Space; C] = &rows[r];
            let mut run: Vec<Space> = Vec::new();
            let mut c: usize = 0;
            while c < C
                invariant
                    c <= C,
                    r < R,
                    *row == self.row_array@[r as int],
                    run@.len() == c,
                    forall|i: int| 0 <= i < c ==> (#[trigger] run@[i]) == self.row_array@[r as int]@[i],
                decreases C - c,
            {
                run.push(row[c]);
                c += 1;
            }
            assert(row_runs(self@, R as nat, C as nat)[r as int] =~= spaces_view(run@));
            let ghost before = runs@;
            runs.push(run);
            proof {
                lemma_runs_view_push(before, run);
            }
            r += 1;
        }
        runs
    }

    /// Returns the columns of the board, left to right, each read top to bottom.
    pub fn columns(&self) -> (columns: Vec<[Space; R]>)
        ensures
            columns@.len() == C,
            forall|c: int, r: int| 0 <= c < C && 0 <= r < R ==> (#[trigger] columns@[c]@[r]) == self.row_array@[r]@[c],
    {
        let mut columns: Vec<[Space; R]> = Vec::new();
        let mut c: usize = 0;
        while c < C
            invariant
                c <= C,
                columns@.len() == c,
                forall|j: int, r: int| 0 <= j < c && 0 <= r < R ==> (#[trigger] columns@[j]@[r]) == self.row_array@[r]@[j],
            decreases C - c,
        {
            let mut column: [Space; R] = [Space::Empty; R];
            let mut r: usize = 0;
            while r < R
                invariant
                    r <= R,
                    c < C,
                    forall|i: int| 0 <= i < r ==> (#[trigger] column@[i]) == self.row_array@[i]@[c as int],
                decreases R - r,
            {
                let row: &[Space; C] = &self.row_array[r];
                column[r] = row[c];
                r += 1;
            }
            columns.push(column);
            c += 1;
        }
        columns
    }

    /// Copies columns of spaces into runs.
    fn columns_to_runs(&self, columns: &[[Space; R]]) -> (runs: Vec<Vec<Space>>)
        requires
            columns@.len() == C,
            forall|c: int, r: int| 0 <= c < C && 0 <= r < R ==> (#[trigger] columns@[c]@[r]) == self.row_array@[r]@[c],
        ensures
            runs_view(runs@) == column_runs(self@, R as nat, C as nat),
    {
        let mut runs: Vec<Vec<Space>> = Vec::new();
        let mut c: usize = 0;
        while c < C
            invariant
                c <= C,
                columns@.len() == C,
                forall|c: int, r: int| 0 <= c < C && 0 <= r < R ==> (#[trigger] columns@[c]@[r]) == self.row_array@[r]@[c],
                runs_view(runs@) =~= column_runs(self@, R as nat, C as nat).take(c as int),
            decreases C - c,
        {
            let column: &[Space; R] = &columns[c];
            let mut run: Vec<Space> = Vec::new();
            let mut r: usize = 0;
            while r < R
                invariant
                    r <= R,
                    c < C,
                    *column == columns@[c as int],
                    forall|c: int, r: int| 0 <= c < C && 0 <= r < R ==> (#[trigger] columns@[c]@[r]) == self.row_array@[r]@[c],
                    run@.len() == r,
                    forall|i: int| 0 <= i < r ==> (#[trigger] run@[i]) == self.row_array@[i]@[c as int],
                decreases R - r,
            {
                run.push(column[r]);
                r += 1;
            }
            assert(column_runs(self@, R as nat, C as nat)[c as int] =~= spaces_view(run@));
            let ghost before = runs@;
            runs.push(run);
            proof {
                lemma_runs_view_push(before, run);
            }
            c += 1;
        }
        runs
    }

    /// Returns the diagonals that start at the top and move right.
    ///
    /// Only returns diagonals of length at least `K`.
    pub fn top_right_diagonals(&self) -> (diags: Vec<Vec<Space>>)
        requires
            K <= C,
        ensures
            runs_view(diags@) == top_right_runs(self@, R as nat, C as nat, K as nat),
            forall|j: int| 0 <= j < diags@.len() ==> #[trigger] diags@[j]@.len() >= K,
    {
        let ghost family = top_right_runs(self@, R as nat, C as nat, K as nat);
        proof {
            lemma_diagonal_runs_long_enough(self@, R as nat, C as nat, K as nat);
        }
        if R < K {
            let diags: Vec<Vec<Space>> = Vec::new();
            assert(runs_view(diags@) =~= family);
            return diags;
        }
        let last = C - K;
        let mut diags: Vec<Vec<Space>> = Vec::new();
        let mut left_col: usize = 0;
        loop
            invariant_except_break
                left_col <= last,
                runs_view(diags@) =~= family.take(left_col as int),
            invariant
                last == C - K,
                family == top_right_runs(self@, R as nat, C as nat, K as nat),
                R >= K,
            ensures
                runs_view(diags@) =~= family,
            decreases last - left_col,
        {
            let len = if R < C - left_col { R } else { C - left_col };
            assert(ray_on_board(R as nat, C as nat, Direction::DownRight, 0, left_col as int, len as nat));
            let run = self.ray_spaces(Direction::DownRight, 0, left_col, len);
            assert(family[left_col as int] == spaces_view(run@));
            let ghost before = diags@;
            diags.push(run);
            proof {
                lemma_runs_view_push(before, run);
            }
            assert(runs_view(diags@) =~= family.take(left_col + 1));
            if left_col == last {
                assert(family.take(left_col + 1) =~= family);
                break;
            }
            left_col += 1;
        }
        proof {
            assert forall|j: int| 0 <= j < diags@.len() implies #[trigger] diags@[j]@.len() >= K by {
                assert(runs_view(diags@)[j].len() == diags@[j]@.len());
            }
        }
        diags
    }

    /// Returns the diagonals that start on the left and move down.
    ///
    /// Skips the highest such diagonal. Only returns diagonals of length at least `K`.
    pub fn left_down_diagonals(&self) -> (diags: Vec<Vec<Space>>)
        requires
            K <= R,
        ensures
            runs_view(diags@) == left_down_runs(self@, R as nat, C as nat, K as nat),
            forall|j: int| 0 <= j < diags@.len() ==> #[trigger] diags@[j]@.len() >= K,
    {
        let ghost family = left_down_runs(self@, R as nat, C as nat, K as nat);
        proof {
            lemma_diagonal_runs_long_enough(self@, R as nat, C as nat, K as nat);
        }
        if C < K {
            let diags: Vec<Vec<Space>> = Vec::new();
            assert(runs_view(diags@) =~= family);
            return diags;
        }
        let count = R - K;
        let mut diags: Vec<Vec<Space>> = Vec::new();
        let mut j: usize = 0;
        while j < count
            invariant
                j <= count,
                count == R - K,
                family == left_down_runs(self@, R as nat, C as nat, K as nat),
                C >= K,
                runs_view(diags@) =~= family.take(j as int),
            decreases count - j,
        {
            let top_row = j + 1;
            let len = if R - top_row < C { R - top_row } else { C };
            assert(ray_on_board(R as nat, C as nat, Direction::DownRight, top_row as int, 0, len as nat));
            let run = self.ray_spaces(Direction::DownRight, top_row, 0, len);
            assert(family[j as int] == spaces_view(run@));
            let ghost before = diags@;
            diags.push(run);
            proof {
                lemma_runs_view_push(before, run);
            }
            j += 1;
            assert(runs_view(diags@) =~= family.take(j as int));
        }
        proof {
            assert forall|j: int| 0 <= j < diags@.len() implies #[trigger] diags@[j]@.len() >= K by {
                assert(runs_view(diags@)[j].len() == diags@[j]@.len());
            }
        }
        diags
    }

    /// Returns the diagonals that start at the top and move left.
    ///
    /// Only returns diagonals of length at least `K`.
    pub fn top_left_diagonals(&self) -> (diags: Vec<Vec<Space>>)
        requires
            K >= 1,
        ensures
            runs_view(diags@) == top_left_runs(self@, R as nat, C as nat, K as nat),
            forall|j: int| 0 <= j < diags@.len() ==> #[trigger] diags@[j]@.len() >= K,
    {
        let ghost family = top_left_runs(self@, R as nat, C as nat, K as nat);
        proof {
            lemma_diagonal_runs_long_enough(self@, R as nat, C as nat, K as nat);
        }
        if R < K {
            let diags: Vec<Vec<Space>> = Vec::new();
            assert(runs_view(diags@) =~= family);
            return diags;
        }
        let mut diags: Vec<Vec<Space>> = Vec::new();
        let mut last_col: usize = K - 1;
        while last_col < C
            invariant
                K >= 1,
                K - 1 <= last_col,
                K - 1 <= C ==> last_col <= C,
                K - 1 > C ==> last_col == K - 1,
                family == top_left_runs(self@, R as nat, C as nat, K as nat),
                R >= K,
                runs_view(diags@) =~= family.take(last_col - (K - 1)),
            decreases C - last_col,
        {
            let len = if R < last_col + 1 { R } else { last_col + 1 };
            assert(ray_on_board(R as nat, C as nat, Direction::DownLeft, 0, last_col as int, len as nat));
            let run = self.ray_spaces(Direction::DownLeft, 0, last_col, len);
            assert(family[last_col - (K - 1)] == spaces_view(run@));
            let ghost before = diags@;
            diags.push(run);
            proof {
                lemma_runs_view_push(before, run);
            }
            assert(runs_view(diags@) =~= family.take(last_col + 1 - (K - 1)));
            last_col += 1;
        }
        assert(family.take(last_col - (K - 1)) =~= family);
        proof {
            assert forall|j: int| 0 <= j < diags@.len() implies #[trigger] diags@[j]@.len() >= K by {
                assert(runs_view(diags@)[j].len() == diags@[j]@.len());
            }
        }
        diags
    }

    /// Returns the diagonals that start on the right and move down.
    ///
    /// Skips the highest such diagonal. Only returns diagonals of length at least `K`.
    pub fn right_down_diagonals(&self) -> (diags: Vec<Vec<Space>>)
        requires
            K <= R,
        ensures
            runs_view(diags@) == right_down_runs(self@, R as nat, C as nat, K as nat),
            forall|j: int| 0 <= j < diags@.len() ==> #[trigger] diags@[j]@.len() >= K,
    {
        let ghost family = right_down_runs(self@, R as nat, C as nat, K as nat);
        proof {
            lemma_diagonal_runs_long_enough(self@, R as nat, C as nat, K as nat);
        }
        if C < K {
            let diags: Vec<Vec<Space>> = Vec::new();
            assert(runs_view(diags@) =~= family);
            return diags;
        }
        let count = R - K;
        let mut diags: Vec<Vec<Space>> = Vec::new();
        let mut j: usize = 0;
        while j < count
            invariant
                j <= count,
                count == R - K,
                family == right_down_runs(self@, R as nat, C as nat, K as nat),
                C >= K,
                runs_view(diags@) =~= family.take(j as int),
            decreases count - j,
        {
            let last_row = j + 1;
            let run = if C == 0 {
                Vec::new()
            } else {
                let len = if R - last_row < C { R - last_row } else { C };
                assert(ray_on_board(R as nat, C as nat, Direction::DownLeft, last_row as int, C - 1, len as nat));
                self.ray_spaces(Direction::DownLeft, last_row, C - 1, len)
            };
            assert(spaces_view(run@) =~= family[j as int]);
            let ghost before = diags@;
            diags.push(run);
            proof {
                lemma_runs_view_push(before, run);
            }
            j += 1;
            assert(runs_view(diags@) =~= family.take(j as int));
        }
        proof {
            assert forall|j: int| 0 <= j < diags@.len() implies #[trigger] diags@[j]@.len() >= K by {
                assert(runs_view(diags@)[j].len() == diags@[j]@.len());
            }
        }
        diags
    }
}

impl<const R: usize, const C: usize, const K: usize> Default for MnkBoard<R, C, K> {
    /// Returns a board filled with [`Space::Empty`].
    fn default() -> (board: Self)
        ensures
            forall|r: int, c: int| 0 <= r < R && 0 <= c < C ==> (#[trigger] board@[r][c]) is None,
    {
        Self::new()
    }
}

impl<const R: usize, const C: usize, const K: usize> From<[[Space; C]; R]> for MnkBoard<R, C, K> {
    /// Converts a row-major array into an `MnkBoard`.
    fn from(rows: [[Space; C]; R]) -> (board: Self)
        ensures
            board.row_array == rows,
    {
        Self { row_array: rows }
    }
}

impl<const R: usize, const C: usize, const K: usize> vstd::std_specs::convert::FromSpecImpl<[[Space; C]; R]> for MnkBoard<R, C, K> {
    open spec fn obeys_from_spec() -> bool {
        true
    }

    open spec fn from_spec(rows: [[Space; C]; R]) -> MnkBoard<R, C, K> {
        MnkBoard { row_array: rows }
    }
}

impl<const R: usize, const C: usize, const K: usize> From<MnkBoard<R, C, K>> for [[Space; C]; R] {
    /// Converts an `MnkBoard` into a row-major array.
    fn from(board: MnkBoard<R, C, K>) -> (rows: Self)
        ensures
            rows == board.row_array,
    {
        board.row_array
    }
}

impl<const R: usize, const C: usize, const K: usize> vstd::std_specs::convert::FromSpecImpl<MnkBoard<R, C, K>> for [[Space; C]; R] {
    open spec fn obeys_from_spec() -> bool {
        true
    }

    open spec fn from_spec(board: MnkBoard<R, C, K>) -> [[Space; C]; R] {
        board.row_array
    }
}

} // verus!
