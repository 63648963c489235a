//! m-by-n game boards themselves and simple foundational infrastructure for them.

use vstd::prelude::*;
use crate::text::{
    decimal_text, free_of, lemma_free_of_concat, lemma_split_on_piece, lemma_split_on_single, push_decimal,
    split_on,
};
use crate::lines::{
    lemma_diagonal_runs_long_enough, ray_coords, column_runs, left_down_runs, ray, ray_on_board, right_down_runs, row_runs,
    top_left_runs, top_right_runs, well_formed, with_stone, Direction,
};
use core::ops::Not;

verus! {

/// One of two players.
#[derive(Clone, Copy, Debug, Eq, Hash, PartialEq, Structural)]
pub enum Player {
    /// The player who makes the first move.
    X,
    /// The player who makes the second move.
    O,
}

impl Player {
    /// The other player.
    pub open spec fn opponent(self) -> Player {
        match self {
            Player::X => Player::O,
            Player::O => Player::X,
        }
    }
}

impl Not for Player {
    type Output = Player;

    /// The other player.
    fn not(self) -> (other: Player)
        ensures
            other == self.opponent(),
    {
        match self {
            Player::X => Player::O,
            Player::O => Player::X,
        }
    }
}

impl vstd::std_specs::ops::NotSpecImpl for Player {
    open spec fn obeys_not_spec() -> bool {
        true
    }

    open spec fn not_req(self) -> bool {
        true
    }

    open spec fn not_spec(self) -> Player {
        self.opponent()
    }
}

/// `"X"` for [`Player::X`] and `"O"` for [`Player::O`].
pub open spec fn player_text(player: Player) -> Seq<char> {
    match player {
        Player::X => "X"@,
        Player::O => "O"@,
    }
}

impl Player {
    /// Writes `"X"` for [`Player::X`] and `"O"` for [`Player::O`].
    pub fn to_string(&self) -> (text: String)
        ensures
            text@ == player_text(*self),
    {
        let mut text = String::new();
        match self {
            Player::X => text.append("X"),
            Player::O => text.append("O"),
        }
        text
    }
}

/// An error which can occur when the intended location is not within the board's bounds.
#[derive(Clone, Copy, Debug, Default, Eq, Hash, PartialEq, Structural)]
pub struct OutOfBounds {
    /// If [`Some`], the intended row, which is out of bounds.
    ///
    /// If [`None`], the intended row may or may not be out of bounds.
    pub row: Option<usize>,
    /// If [`Some`], the intended column, which is out of bounds.
    ///
    /// If [`None`], the intended column may or may not be out of bounds.
    pub column: Option<usize>,
}

/// The message for an out-of-bounds location.
pub open spec fn out_of_bounds_text(oob: OutOfBounds) -> Seq<char> {
    match (oob.row, oob.column) {
        (Some(row), Some(col)) => "row "@ + decimal_text(row as nat) + " and column "@ + decimal_text(
            col as nat,
        ) + " are out of bounds"@,
        (Some(row), None) => "row "@ + decimal_text(row as nat) + " is out of bounds"@,
        (None, Some(col)) => "column "@ + decimal_text(col as nat) + " is out of bounds"@,
        (None, None) => "location is out of bounds"@,
    }
}

impl OutOfBounds {
    /// Names the indices that are out of bounds.
    pub fn to_string(&self) -> (text: String)
        ensures
            text@ == out_of_bounds_text(*self),
    {
        let mut text = String::new();
        match (self.row, self.column) {
            (Some(row), Some(col)) => {
                text.append("row ");
                push_decimal(&mut text, row);
                text.append(" and column ");
                push_decimal(&mut text, col);
                text.append(" are out of bounds");
            },
            (Some(row), None) => {
                text.append("row ");
                push_decimal(&mut text, row);
                text.append(" is out of bounds");
            },
            (None, Some(col)) => {
                text.append("column ");
                push_decimal(&mut text, col);
                text.append(" is out of bounds");
            },
            (None, None) => {
                text.append("location is out of bounds");
            },
        }
        text
    }
}

/// An error which can occur when trying to place a stone.
#[derive(Clone, Copy, Debug, Eq, Hash, PartialEq, Structural)]
#[non_exhaustive]
pub enum PlaceError {
    /// An error which can occur when the location is already occupied.
    Occupied {
        /// The player who is occupying the location, if known.
        player: Option<Player>,
    },
    /// An error which can occur when the intended location is not within the board's bounds.
    OutOfBounds(OutOfBounds),
}

impl From<OutOfBounds> for PlaceError {
    fn from(oob: OutOfBounds) -> (err: Self)
        ensures
            err == PlaceError::OutOfBounds(oob),
    {
        PlaceError::OutOfBounds(oob)
    }
}

impl vstd::std_specs::convert::FromSpecImpl<OutOfBounds> for PlaceError {
    open spec fn obeys_from_spec() -> bool {
        true
    }

    open spec fn from_spec(oob: OutOfBounds) -> PlaceError {
        PlaceError::OutOfBounds(oob)
    }
}

/// The message for a failed placement.
pub open spec fn place_error_text(err: PlaceError) -> Seq<char> {
    match err {
        PlaceError::Occupied { player } => match player {
            Some(player) => "already occupied by "@ + player_text(player),
            None => "already occupied"@,
        },
        PlaceError::OutOfBounds(oob) => out_of_bounds_text(oob),
    }
}

impl PlaceError {
    /// Says why the stone could not be placed.
    pub fn to_string(&self) -> (text: String)
        ensures
            text@ == place_error_text(*self),
    {
        match self {
            PlaceError::Occupied { player } => match player {
                Some(player) => {
                    let mut text = String::new();
                    text.append("already occupied by ");
                    let name = player.to_string();
                    text.append(name.as_str());
                    text
                },
                None => {
                    let mut text = String::new();
                    text.append("already occupied");
                    text
                },
            },
            PlaceError::OutOfBounds(oob) => oob.to_string(),
        }
    }
}

/// One character for a space: a blank when empty, else the player's letter.
pub open spec fn space_text(space: Option<Player>) -> Seq<char> {
    match space {
        None => " "@,
        Some(player) => player_text(player),
    }
}

/// `n` copies of `"+-"`.
pub open spec fn dashes_text(n: nat) -> Seq<char>
    decreases n,
{
    if n == 0 {
        Seq::empty()
    } else {
        dashes_text((n - 1) as nat) + "+-"@
    }
}

/// The horizontal border of a board with `cols` columns.
pub open spec fn border_text(cols: nat) -> Seq<char> {
    dashes_text(cols) + "+"@
}

/// The spaces of a row, separated by `"|"`.
pub open spec fn cells_text(row: Seq<Option<Player>>) -> Seq<char>
    decreases row.len(),
{
    if row.len() == 0 {
        Seq::empty()
    } else if row.len() == 1 {
        space_text(row[0])
    } else {
        cells_text(row.drop_last()) + "|"@ + space_text(row.last())
    }
}

/// A row of the board between vertical bars.
pub open spec fn row_text(row: Seq<Option<Player>>) -> Seq<char> {
    "|"@ + cells_text(row) + "|"@
}

/// The rows of the board, separated by `separator`.
pub open spec fn rows_text(rows: Seq<Seq<Option<Player>>>, separator: Seq<char>) -> Seq<char>
    decreases rows.len(),
{
    if rows.len() == 0 {
        Seq::empty()
    } else if rows.len() == 1 {
        row_text(rows[0])
    } else {
        rows_text(rows.drop_last(), separator) + separator + row_text(rows.last())
    }
}

/// The board drawn with `+`, `-` and `|`, one line per row and a border line between rows and
/// around them.
pub open spec fn board_text(g: Seq<Seq<Option<Player>>>, cols: nat) -> Seq<char> {
    border_text(cols) + "\n"@ + rows_text(g, "\n"@ + border_text(cols) + "\n"@) + "\n"@
        + border_text(cols)
}

/// A run of `"+-"` holds no line break.
proof fn lemma_dashes_one_line(n: nat)
    ensures
        free_of(dashes_text(n), '\n'),
    decreases n,
{
    reveal_strlit("+-");
    if n > 0 {
        lemma_dashes_one_line((n - 1) as nat);
        lemma_free_of_concat(dashes_text((n - 1) as nat), "+-"@, '\n');
    }
}

/// A border line holds no line break.
proof fn lemma_border_one_line(cols: nat)
    ensures
        free_of(border_text(cols), '\n'),
{
    reveal_strlit("+");
    lemma_dashes_one_line(cols);
    lemma_free_of_concat(dashes_text(cols), "+"@, '\n');
}

/// The spaces of a row hold no line break.
proof fn lemma_cells_one_line(row: Seq<Option<Player>>)
    ensures
        free_of(cells_text(row), '\n'),
    decreases row.len(),
{
    reveal_strlit(" ");
    reveal_strlit("X");
    reveal_strlit("O");
    reveal_strlit("|");
    if row.len() == 1 {
        assert(free_of(space_text(row[0]), '\n'));
    } else if row.len() > 1 {
        lemma_cells_one_line(row.drop_last());
        assert(free_of(space_text(row.last()), '\n'));
        lemma_free_of_concat(cells_text(row.drop_last()), "|"@, '\n');
        lemma_free_of_concat(cells_text(row.drop_last()) + "|"@, space_text(row.last()), '\n');
    }
}

/// A drawn row holds no line break.
proof fn lemma_row_one_line(row: Seq<Option<Player>>)
    ensures
        free_of(row_text(row), '\n'),
{
    reveal_strlit("|");
    lemma_cells_one_line(row);
    lemma_free_of_concat("|"@, cells_text(row), '\n');
    lemma_free_of_concat("|"@ + cells_text(row), "|"@, '\n');
}

/// The lines of a border followed by the first `k` rows, each after a border line.
proof fn lemma_drawn_prefix_lines(g: Seq<Seq<Option<Player>>>, cols: nat, k: int)
    requires
        1 <= k <= g.len(),
    ensures
        split_on(border_text(cols) + "\n"@ + rows_text(g.take(k), "\n"@ + border_text(cols) + "\n"@), '\n')
            =~= Seq::new(
            (2 * k) as nat,
            |i: int|
                if i % 2 == 0 {
                    border_text(cols)
                } else {
                    row_text(g[i / 2])
                },
        ),
    decreases k,
{
    reveal_strlit("\n");
    let border = border_text(cols);
    let sep = "\n"@ + border + "\n"@;
    lemma_border_one_line(cols);
    lemma_row_one_line(g[k - 1]);
    let goal = Seq::new(
        (2 * k) as nat,
        |i: int|
            if i % 2 == 0 {
                border
            } else {
                row_text(g[i / 2])
            },
    );
    if k == 1 {
        assert(rows_text(g.take(1), sep) == row_text(g[0]));
        assert(border + "\n"@ + row_text(g[0]) =~= border + seq!['\n'] + row_text(g[0]));
        lemma_split_on_single(border, '\n');
        lemma_split_on_piece(border, row_text(g[0]), '\n');
        assert(split_on(border + "\n"@ + rows_text(g.take(1), sep), '\n') =~= goal);
    } else {
        lemma_drawn_prefix_lines(g, cols, k - 1);
        let before = border + "\n"@ + rows_text(g.take(k - 1), sep);
        assert(g.take(k).drop_last() =~= g.take(k - 1));
        assert(rows_text(g.take(k), sep) == rows_text(g.take(k - 1), sep) + sep + row_text(g[k - 1]));
        let with_border = before + seq!['\n'] + border;
        assert(border + "\n"@ + rows_text(g.take(k), sep) =~= with_border + seq!['\n'] + row_text(
            g[k - 1],
        ));
        lemma_split_on_piece(before, border, '\n');
        lemma_split_on_piece(with_border, row_text(g[k - 1]), '\n');
        assert(split_on(border + "\n"@ + rows_text(g.take(k), sep), '\n') =~= goal);
    }
}

/// The drawn board has one line per row and a border line above, between and below the
/// rows: for a board of at least one row, the lines are the border and the rows in turn,
/// `2 * g.len() + 1` of them, line `2 * r + 1` showing row `r`.
pub proof fn lemma_board_text_lines(g: Seq<Seq<Option<Player>>>, cols: nat)
    requires
        g.len() >= 1,
    ensures
        split_on(board_text(g, cols), '\n') =~= Seq::new(
            (2 * g.len() + 1) as nat,
            |i: int|
                if i % 2 == 0 {
                    border_text(cols)
                } else {
                    row_text(g[i / 2])
                },
        ),
{
    reveal_strlit("\n");
    let border = border_text(cols);
    let sep = "\n"@ + border + "\n"@;
    lemma_border_one_line(cols);
    lemma_drawn_prefix_lines(g, cols, g.len() as int);
    assert(g.take(g.len() as int) =~= g);
    let drawn = border + "\n"@ + rows_text(g, sep);
    assert(board_text(g, cols) =~= drawn + seq!['\n'] + border);
    lemma_split_on_piece(drawn, border, '\n');
}

/// Returns a single-character representation of the space.
pub fn space_to_string(space: Option<Player>) -> (text: String)
    ensures
        text@ == space_text(space),
{
    match space {
        None => {
            let mut text = String::new();
            text.append(" ");
            text
        },
        Some(player) => player.to_string(),
    }
}

/// Appends the row drawn between vertical bars.
fn push_row_text<const C: usize>(text: &mut String, row: &[Option<Player>; C])
    ensures
        final(text)@ == old(text)@ + row_text(row@),
{
    text.append("|");
    let mut c: usize = 0;
    while c < C
        invariant
            c <= C,
            text@ == old(text)@ + "|"@ + cells_text(row@.take(c as int)),
        decreases C - c,
    {
        let ghost before = text@;
        if c > 0 {
            text.append("|");
        }
        let cell = space_to_string(row[c]);
        text.append(cell.as_str());
        proof {
            let next = row@.take(c + 1);
            assert(next.drop_last() =~= row@.take(c as int));
            assert(next.last() == row@[c as int]);
            if c == 0 {
                assert(cells_text(row@.take(c as int)) =~= Seq::empty());
                assert(cells_text(next) == space_text(row@[0]));
            }
            assert(text@ =~= old(text)@ + "|"@ + cells_text(next));
        }
        c += 1;
    }
    text.append("|");
    assert(row@.take(C as int) =~= row@);
    assert(text@ =~= old(text)@ + row_text(row@));
}

/// A game board with `R` rows and `C` columns of spaces, each represented by an
/// [`Option<Player>`]s.
///
/// Methods for this struct are 0-indexed. Row indices at least `R` and column indices at least `C`
/// are considered out of bounds.
///
/// This struct performs very little input validation. It is intended to be wrapped by other types
/// that perform more thorough validation based on a particular game's rules, not used in
/// user-facing code directly.
#[derive(Clone, Copy, Debug, Eq, Hash, PartialEq)]
pub struct MnkBoard<const R: usize, const C: usize> {
    /// A row-major array representing the spaces of the board.
    pub row_array: [[Option<Player>; C]; R],
}

impl<const R: usize, const C: usize> View for MnkBoard<R, C> {
    type V = Seq<Seq<Option<Player>>>;

    /// The board as a sequence of rows, each a sequence of spaces.
    open spec fn view(&self) -> Seq<Seq<Option<Player>>> {
        self.row_array@.map_values(|row: [Option<Player>; C]| row@)
    }
}

/// The contents of a list of runs.
pub open spec fn runs_view(runs: Seq<Vec<Option<Player>>>) -> Seq<Seq<Option<Player>>> {
    runs.map_values(|run: Vec<Option<Player>>| run@)
}

/// Adding a run adds its contents.
proof fn lemma_runs_view_push(runs: Seq<Vec<Option<Player>>>, run: Vec<Option<Player>>)
    ensures
        runs_view(runs.push(run)) == runs_view(runs).push(run@),
{
    assert(runs_view(runs.push(run)) =~= runs_view(runs).push(run@));
}

/// What placing a stone at `(row, column)` of a board of `rows` by `cols`
/// spaces gives: out of bounds (the row is checked first), occupied (naming
/// the occupant), or success.
pub open spec fn place_outcome(
    g: Seq<Seq<Option<Player>>>,
    rows: nat,
    cols: nat,
    row: usize,
    column: usize,
) -> Result<(), PlaceError> {
    if row >= rows {
        Err(PlaceError::OutOfBounds(OutOfBounds { row: Some(row), column: None }))
    } else if column >= cols {
        Err(PlaceError::OutOfBounds(OutOfBounds { row: None, column: Some(column) }))
    } else if g[row as int][column as int] is Some {
        Err(PlaceError::Occupied { player: g[row as int][column as int] })
    } else {
        Ok(())
    }
}

/// A stone can be placed exactly on the empty spaces inside the board: placing succeeds
/// if and only if `row < rows`, `column < cols` and the space is empty; it is refused as out
/// of bounds if and only if an index is too large (the row named when it is, else the
/// column); and a refusal of an in-bounds space names the stone that is there.
pub proof fn lemma_place_outcome_meaning(
    g: Seq<Seq<Option<Player>>>,
    rows: nat,
    cols: nat,
    row: usize,
    column: usize,
)
    ensures
        place_outcome(g, rows, cols, row, column) is Ok <==> (row < rows && column < cols
            && g[row as int][column as int] is None),
        (place_outcome(g, rows, cols, row, column) matches Err(PlaceError::OutOfBounds(_))) <==> (
        row >= rows || column >= cols),
        row >= rows ==> place_outcome(g, rows, cols, row, column) == Err::<(), PlaceError>(
            PlaceError::OutOfBounds(OutOfBounds { row: Some(row), column: None }),
        ),
        row < rows && column >= cols ==> place_outcome(g, rows, cols, row, column) == Err::<
            (),
            PlaceError,
        >(PlaceError::OutOfBounds(OutOfBounds { row: None, column: Some(column) })),
        row < rows && column < cols && g[row as int][column as int] is Some ==> place_outcome(
            g,
            rows,
            cols,
            row,
            column,
        ) == Err::<(), PlaceError>(PlaceError::Occupied { player: g[row as int][column as int] }),
{
}

/// Every space of the board holds a stone.
pub open spec fn board_full(g: Seq<Seq<Option<Player>>>) -> bool {
    forall|r: int, c: int| 0 <= r < g.len() && 0 <= c < g[r].len() ==> (#[trigger] g[r][c]) is Some
}

impl<const R: usize, const C: usize> MnkBoard<R, C> {
    /// The board has `R` rows of `C` spaces.
    pub proof fn lemma_well_formed(&self)
        ensures
            well_formed(self@, R as nat, C as nat),
    {
        assert forall|r: int| 0 <= r < R implies #[trigger] self@[r].len() == C by {
            assert(self@[r] == self.row_array@[r]@);
        }
    }

    /// Returns a board filled with [`None`].
    #[must_use]
    pub fn new() -> (board: Self)
        ensures
            forall|r: int, c: int| 0 <= r < R && 0 <= c < C ==> (#[trigger] board@[r][c]) is None,
    {
        let row: [Option<Player>; C] = [None; C];
        let board = Self { row_array: [row; R] };
        assert forall|r: int, c: int| 0 <= r < R && 0 <= c < C implies (#[trigger] board@[r][c]) is None by {
            assert(board.row_array@[r] == row);
            assert(row@[c] is None);
        }
        board
    }

    /// Returns `true` if every space on the board is [`Some`] and `false` otherwise.
    #[must_use]
    pub fn full(&self) -> (is_full: bool)
        ensures
            is_full == board_full(self@),
    {
        proof {
            self.lemma_well_formed();
        }
        let mut r: usize = 0;
        while r < R
            invariant
                r <= R,
                well_formed(self@, R as nat, C as nat),
                forall|i: int, j: int| 0 <= i < r && 0 <= j < C ==> (#[trigger] self@[i][j]) is Some,
            decreases R - r,
        {
            let mut c: usize = 0;
            while c < C
                invariant
                    r < R,
                    c <= C,
                    well_formed(self@, R as nat, C as nat),
                    forall|i: int, j: int| 0 <= i < r && 0 <= j < C ==> (#[trigger] self@[i][j]) is Some,
                    forall|j: int| 0 <= j < c ==> (#[trigger] self@[r as int][j]) is Some,
                decreases C - c,
            {
                if self.row_array[r][c].is_none() {
                    return false;
                }
                c += 1;
            }
            r += 1;
        }
        true
    }

    /// Attempts to place a stone on the board.
    ///
    /// If and only if the space at the specified row and column is [`None`], replaces
    /// it with [`Some(player)`][Some].
    ///
    /// # Errors
    ///
    ///  - [`PlaceError::Occupied`] if the corresponding space is occupied.
    ///  - [`PlaceError::OutOfBounds`] if either index is out of bounds.
    pub fn place(&mut self, player: Player, row: usize, column: usize) -> (res: Result<(), PlaceError>)
        ensures
            res == place_outcome(old(self)@, R as nat, C as nat, row, column),
            res is Ok ==> final(self)@ == with_stone(old(self)@, row as int, column as int, player),
            res is Err ==> *final(self) == *old(self),
    {
        if row >= R {
            return Err(PlaceError::OutOfBounds(OutOfBounds { row: Some(row), column: None }));
        }
        if column >= C {
            return Err(PlaceError::OutOfBounds(OutOfBounds { row: None, column: Some(column) }));
        }
        match self.row_array[row][column] {
            Some(occupant) => Err(PlaceError::Occupied { player: Some(occupant) }),
            None => {
                self.place_unchecked(player, row, column);
                Ok(())
            },
        }
    }

    /// Place [`Some(Player)`][Some] on the board without overlap checking.
    ///
    /// Replaces occupied spaces. [`MnkBoard::place`] is the alternative that keeps them.
    pub fn place_unchecked(&mut self, player: Player, row: usize, column: usize)
        requires
            row < R,
            column < C,
        ensures
            final(self)@ == with_stone(old(self)@, row as int, column as int, player),
    {
        let mut updated = self.row_array[row];
        updated[column] = Some(player);
        self.row_array[row] = updated;
        proof {
            assert(self@ =~= old(self)@.update(
                row as int,
                old(self)@[row as int].update(column as int, Some(player)),
            ));
        }
    }

    /// Returns the [`Option<Player>`] at the specified row and column.
    ///
    /// # Errors
    /// [`OutOfBounds`] if either index is out of bounds.
    pub fn get(&self, row: usize, column: usize) -> (res: Result<&Option<Player>, OutOfBounds>)
        ensures
            row >= R ==> res == Err::<&Option<Player>, OutOfBounds>(
                OutOfBounds { row: Some(row), column: None },
            ),
            row < R && column >= C ==> res == Err::<&Option<Player>, OutOfBounds>(
                OutOfBounds { row: None, column: Some(column) },
            ),
            row < R && column < C ==> (res matches Ok(space) && *space == self@[row as int][column as int]),
    {
        if row >= R {
            return Err(OutOfBounds { row: Some(row), column: None });
        }
        if column >= C {
            return Err(OutOfBounds { row: None, column: Some(column) });
        }
        Ok(self.get_unchecked(row, column))
    }

    /// Draws the board with `+`, `-` and `|`, one line per row and a border line between rows
    /// and around them.
    pub fn to_string(&self) -> (text: String)
        ensures
            text@ == board_text(self@, C as nat),
    {
        let mut border = String::new();
        let mut c: usize = 0;
        while c < C
            invariant
                c <= C,
                border@ == dashes_text(c as nat),
            decreases C - c,
        {
            border.append("+-");
            c += 1;
        }
        border.append("+");
        let ghost sep = "\n"@ + border_text(C as nat) + "\n"@;
        let mut text = String::new();
        text.append(border.as_str());
        text.append("\n");
        let ghost head = text@;
        let mut r: usize = 0;
        while r < R
            invariant
                r <= R,
                border@ == border_text(C as nat),
                sep == "\n"@ + border_text(C as nat) + "\n"@,
                head == border_text(C as nat) + "\n"@,
                text@ == head + rows_text(self@.take(r as int), sep),
            decreases R - r,
        {
            let ghost before = text@;
            if r > 0 {
                text.append("\n");
                text.append(border.as_str());
                text.append("\n");
            }
            push_row_text(&mut text, &self.row_array[r]);
            proof {
                let next = self@.take(r + 1);
                assert(next.drop_last() =~= self@.take(r as int));
                assert(next.last() == self.row_array@[r as int]@);
                if r == 0 {
                    assert(rows_text(self@.take(r as int), sep) =~= Seq::empty());
                    assert(rows_text(next, sep) == row_text(self@[0]));
                }
                assert(text@ =~= head + rows_text(next, sep));
            }
            r += 1;
        }
        text.append("\n");
        text.append(border.as_str());
        assert(self@.take(R as int) =~= self@);
        assert(text@ =~= board_text(self@, C as nat));
        text
    }

    /// Returns the [`Option<Player>`] at the specified row and column, which must be in bounds.
    ///
    /// [`MnkBoard::get`] is the alternative that checks bounds.
    #[must_use]
    pub fn get_unchecked(&self, row: usize, column: usize) -> (space: &Option<Player>)
        requires
            row < R,
            column < C,
        ensures
            *space == self@[row as int][column as int],
    {
        let row_ref: &[Option<Player>; C] = &self.row_array[row];
        &row_ref[column]
    }

    /// Converts (row, column) pairs to their corresponding [`Option<Player>`]s.
    pub fn coords_to_spaces(&self, coords: &[(usize, usize)]) -> (spaces: Vec<Option<Player>>)
        requires
            forall|i: int| 0 <= i < coords@.len() ==> (#[trigger] coords@[i]).0 < R && coords@[i].1 < C,
        ensures
            spaces@ == Seq::new(
                coords@.len(),
                |i: int| self@[coords@[i].0 as int][coords@[i].1 as int],
            ),
    {
        let mut spaces: Vec<Option<Player>> = Vec::new();
        let mut i: usize = 0;
        while i < coords.len()
            invariant
                i <= coords@.len(),
                forall|i: int| 0 <= i < coords@.len() ==> (#[trigger] coords@[i]).0 < R && coords@[i].1 < C,
                spaces@ == Seq::new(
                    i as nat,
                    |j: int| self@[coords@[j].0 as int][coords@[j].1 as int],
                ),
            decreases coords@.len() - i,
        {
            let (r, c) = coords[i];
            spaces.push(*self.get_unchecked(r, c));
            i += 1;
            proof {
                assert(spaces@ =~= Seq::new(
                    i as nat,
                    |j: int| self@[coords@[j].0 as int][coords@[j].1 as int],
                ));
            }
        }
        spaces
    }

    /// The spaces along a ray that lies on the board.
    fn ray_spaces(&self, d: Direction, r: usize, c: usize, len: usize) -> (spaces: Vec<Option<Player>>)
        requires
            ray_on_board(R as nat, C as nat, d, r as int, c as int, len as nat),
        ensures
            spaces@ == ray(self@, d, r as int, c as int, len as nat),
    {
        let coords = ray_coords(R, C, d, r, c, len);
        let spaces = self.coords_to_spaces(coords.as_slice());
        assert(spaces@ =~= ray(self@, d, r as int, c as int, len as nat));
        spaces
    }

    /// Returns the rows of the board, top to bottom.
    pub fn rows(&self) -> (rows: Vec<Vec<Option<Player>>>)
        ensures
            runs_view(rows@) == row_runs(self@, R as nat, C as nat),
    {
        let mut rows: Vec<Vec<Option<Player>>> = Vec::new();
        let mut r: usize = 0;
        while r < R
            invariant
                r <= R,
                runs_view(rows@) =~= row_runs(self@, R as nat, C as nat).take(r as int),
            decreases R - r,
        {
            assert(ray_on_board(R as nat, C as nat, Direction::Right, r as int, 0, C as nat));
            let run = self.ray_spaces(Direction::Right, r, 0, C);
            assert(row_runs(self@, R as nat, C as nat)[r as int] == run@);
            let ghost before = rows@;
            rows.push(run);
            assert(rows@ == before.push(run));
            proof { lemma_runs_view_push(before, run); }
            r += 1;
            assert(runs_view(rows@) =~= row_runs(self@, R as nat, C as nat).take(r as int));
        }
        rows
    }

    /// Returns the columns of the board, left to right, each read top to bottom.
    pub fn columns(&self) -> (columns: Vec<Vec<Option<Player>>>)
        ensures
            runs_view(columns@) == column_runs(self@, R as nat, C as nat),
    {
        let mut columns: Vec<Vec<Option<Player>>> = Vec::new();
        let mut c: usize = 0;
        while c < C
            invariant
                c <= C,
                runs_view(columns@) =~= column_runs(self@, R as nat, C as nat).take(c as int),
            decreases C - c,
        {
            assert(ray_on_board(R as nat, C as nat, Direction::Down, 0, c as int, R as nat));
            let run = self.ray_spaces(Direction::Down, 0, c, R);
            assert(column_runs(self@, R as nat, C as nat)[c as int] == run@);
            let ghost before = columns@;
            columns.push(run);
            assert(columns@ == before.push(run));
            proof { lemma_runs_view_push(before, run); }
            c += 1;
            assert(runs_view(columns@) =~= column_runs(self@, R as nat, C as nat).take(c as int));
        }
        columns
    }

    /// Returns the diagonals that start at the top and move right.
    ///
    /// Only returns diagonals of length at least `min_length`.
    pub fn top_right_diagonals(&self, min_length: usize) -> (diags: Vec<Vec<Option<Player>>>)
        requires
            min_length <= C,
        ensures
            runs_view(diags@) == top_right_runs(self@, R as nat, C as nat, min_length as nat),
            forall|j: int| 0 <= j < diags@.len() ==> #[trigger] diags@[j]@.len() >= min_length,
    {
        let ghost family = top_right_runs(self@, R as nat, C as nat, min_length as nat);
        proof {
            lemma_diagonal_runs_long_enough(self@, R as nat, C as nat, min_length as nat);
        }
        if R < min_length {
            let diags: Vec<Vec<Option<Player>>> = Vec::new();
            assert(runs_view(diags@) =~= family);
            return diags;
        }
        let last = C - min_length;
        let mut diags: Vec<Vec<Option<Player>>> = Vec::new();
        let mut left_col: usize = 0;
        loop
            invariant_except_break
                left_col <= last,
                runs_view(diags@) =~= family.take(left_col as int),
            invariant
                last == C - min_length,
                family == top_right_runs(self@, R as nat, C as nat, min_length as nat),
                R >= min_length,
            ensures
                runs_view(diags@) =~= family,
            decreases last - left_col,
        {
            let len = if R < C - left_col { R } else { C - left_col };
            assert(ray_on_board(R as nat, C as nat, Direction::DownRight, 0, left_col as int, len as nat));
            let run = self.ray_spaces(Direction::DownRight, 0, left_col, len);
            assert(family[left_col as int] == run@);
            let ghost before = diags@;
            diags.push(run);
            assert(diags@ == before.push(run));
            proof { lemma_runs_view_push(before, run); }
            assert(runs_view(diags@) =~= family.take(left_col + 1));
            if left_col == last {
                assert(family.take(left_col + 1) =~= family);
                break;
            }
            left_col += 1;
        }
        proof {
            assert forall|j: int| 0 <= j < diags@.len() implies #[trigger] diags@[j]@.len() >= min_length by {
                assert(runs_view(diags@)[j].len() == diags@[j]@.len());
            }
        }
        diags
    }

    /// Returns the diagonals that start on the left and move down.
    ///
    /// Only returns diagonals of length at least `min_length`. Skips the highest such diagonal.
    /// (This avoids overlap with [`MnkBoard::top_right_diagonals`].)
    pub fn left_down_diagonals(&self, min_length: usize) -> (diags: Vec<Vec<Option<Player>>>)
        requires
            min_length <= R,
        ensures
            runs_view(diags@) == left_down_runs(self@, R as nat, C as nat, min_length as nat),
            forall|j: int| 0 <= j < diags@.len() ==> #[trigger] diags@[j]@.len() >= min_length,
    {
        let ghost family = left_down_runs(self@, R as nat, C as nat, min_length as nat);
        proof {
            lemma_diagonal_runs_long_enough(self@, R as nat, C as nat, min_length as nat);
        }
        if C < min_length {
            let diags: Vec<Vec<Option<Player>>> = Vec::new();
            assert(runs_view(diags@) =~= family);
            return diags;
        }
        let count = R - min_length;
        let mut diags: Vec<Vec<Option<Player>>> = Vec::new();
        let mut j: usize = 0;
        while j < count
            invariant
                j <= count,
                count == R - min_length,
                family == left_down_runs(self@, R as nat, C as nat, min_length as nat),
                C >= min_length,
                runs_view(diags@) =~= family.take(j as int),
            decreases count - j,
        {
            let top_row = j + 1;
            let len = if R - top_row < C { R - top_row } else { C };
            assert(ray_on_board(R as nat, C as nat, Direction::DownRight, top_row as int, 0, len as nat));
            let run = self.ray_spaces(Direction::DownRight, top_row, 0, len);
            assert(family[j as int] == run@);
            let ghost before = diags@;
            diags.push(run);
            assert(diags@ == before.push(run));
            proof { lemma_runs_view_push(before, run); }
            j += 1;
            assert(runs_view(diags@) =~= family.take(j as int));
        }
        proof {
            assert forall|j: int| 0 <= j < diags@.len() implies #[trigger] diags@[j]@.len() >= min_length by {
                assert(runs_view(diags@)[j].len() == diags@[j]@.len());
            }
        }
        diags
    }

    /// Returns the diagonals that start at the top and move left.
    ///
    /// Only returns diagonals of length at least `min_length`.
    pub fn top_left_diagonals(&self, min_length: usize) -> (diags: Vec<Vec<Option<Player>>>)
        requires
            min_length >= 1,
        ensures
            runs_view(diags@) == top_left_runs(self@, R as nat, C as nat, min_length as nat),
            forall|j: int| 0 <= j < diags@.len() ==> #[trigger] diags@[j]@.len() >= min_length,
    {
        let ghost family = top_left_runs(self@, R as nat, C as nat, min_length as nat);
        proof {
            lemma_diagonal_runs_long_enough(self@, R as nat, C as nat, min_length as nat);
        }
        if R < min_length {
            let diags: Vec<Vec<Option<Player>>> = Vec::new();
            assert(runs_view(diags@) =~= family);
            return diags;
        }
        let mut diags: Vec<Vec<Option<Player>>> = Vec::new();
        let mut last_col: usize = min_length - 1;
        while last_col < C
            invariant
                min_length >= 1,
                min_length - 1 <= last_col,
                min_length - 1 <= C ==> last_col <= C,
                min_length - 1 > C ==> last_col == min_length - 1,
                family == top_left_runs(self@, R as nat, C as nat, min_length as nat),
                R >= min_length,
                runs_view(diags@) =~= family.take(last_col - (min_length - 1)),
            decreases C - last_col,
        {
            let len = if R < last_col + 1 { R } else { last_col + 1 };
            assert(ray_on_board(R as nat, C as nat, Direction::DownLeft, 0, last_col as int, len as nat));
            let run = self.ray_spaces(Direction::DownLeft, 0, last_col, len);
            assert(family[last_col - (min_length - 1)] == run@);
            let ghost before = diags@;
            diags.push(run);
            assert(diags@ == before.push(run));
            proof { lemma_runs_view_push(before, run); }
            assert(runs_view(diags@) =~= family.take(last_col + 1 - (min_length - 1)));
            last_col += 1;
        }
        assert(family.take(last_col - (min_length - 1)) =~= family);
        proof {
            assert forall|j: int| 0 <= j < diags@.len() implies #[trigger] diags@[j]@.len() >= min_length by {
                assert(runs_view(diags@)[j].len() == diags@[j]@.len());
            }
        }
        diags
    }

    /// Returns the diagonals that start on the right and move down.
    ///
    /// Only returns diagonals of length at least `min_length`. Skips the highest such diagonal.
    /// (This avoids overlap with [`MnkBoard::top_left_diagonals`].)
    pub fn right_down_diagonals(&self, min_length: usize) -> (diags: Vec<Vec<Option<Player>>>)
        requires
            min_length <= R,
        ensures
            runs_view(diags@) == right_down_runs(self@, R as nat, C as nat, min_length as nat),
            forall|j: int| 0 <= j < diags@.len() ==> #[trigger] diags@[j]@.len() >= min_length,
    {
        let ghost family = right_down_runs(self@, R as nat, C as nat, min_length as nat);
        proof {
            lemma_diagonal_runs_long_enough(self@, R as nat, C as nat, min_length as nat);
        }
        if C < min_length {
            let diags: Vec<Vec<Option<Player>>> = Vec::new();
            assert(runs_view(diags@) =~= family);
            return diags;
        }
        let count = R - min_length;
        let mut diags: Vec<Vec<Option<Player>>> = Vec::new();
        let mut j: usize = 0;
        while j < count
            invariant
                j <= count,
                count == R - min_length,
                family == right_down_runs(self@, R as nat, C as nat, min_length as nat),
                C >= min_length,
                runs_view(diags@) =~= family.take(j as int),
            decreases count - j,
        {
            let last_row = j + 1;
            let run = if C == 0 {
                Vec::new()
            } else {
                let len = if R - last_row < C { R - last_row } else { C };
                assert(ray_on_board(R as nat, C as nat, Direction::DownLeft, last_row as int, C - 1, len as nat));
                self.ray_spaces(Direction::DownLeft, last_row, C - 1, len)
            };
            assert(run@ =~= family[j as int]);
            let ghost before = diags@;
            diags.push(run);
            assert(diags@ == before.push(run));
            proof { lemma_runs_view_push(before, run); }
            j += 1;
            assert(runs_view(diags@) =~= family.take(j as int));
        }
        proof {
            assert forall|j: int| 0 <= j < diags@.len() implies #[trigger] diags@[j]@.len() >= min_length by {
                assert(runs_view(diags@)[j].len() == diags@[j]@.len());
            }
        }
        diags
    }
}

impl<const R: usize, const C: usize> Default for MnkBoard<R, C> {
    /// Returns a board filled with [`None`].
    fn default() -> (board: Self)
        ensures
            forall|r: int, c: int| 0 <= r < R && 0 <= c < C ==> (#[trigger] board@[r][c]) is None,
    {
        Self::new()
    }
}

impl<const R: usize, const C: usize> From<[[Option<Player>; C]; R]> for MnkBoard<R, C> {
    /// Converts a row-major array into an `MnkBoard`.
    fn from(rows: [[Option<Player>; C]; R]) -> (board: Self)
        ensures
            board.row_array == rows,
    {
        Self { row_array: rows }
    }
}

impl<const R: usize, const C: usize> vstd::std_specs::convert::FromSpecImpl<[[Option<Player>; C]; R]> for MnkBoard<R, C> {
    open spec fn obeys_from_spec() -> bool {
        true
    }

    open spec fn from_spec(rows: [[Option<Player>; C]; R]) -> MnkBoard<R, C> {
        MnkBoard { row_array: rows }
    }
}

impl<const R: usize, const C: usize> From<MnkBoard<R, C>> for [[Option<Player>; C]; R] {
    /// Converts an `MnkBoard` into a row-major array.
    fn from(board: MnkBoard<R, C>) -> (rows: Self)
        ensures
            rows == board.row_array,
    {
        board.row_array
    }
}

impl<const R: usize, const C: usize> vstd::std_specs::convert::FromSpecImpl<MnkBoard<R, C>> for [[Option<Player>; C]; R] {
    open spec fn obeys_from_spec() -> bool {
        true
    }

    open spec fn from_spec(board: MnkBoard<R, C>) -> [[Option<Player>; C]; R] {
        board.row_array
    }
}

} // verus!
