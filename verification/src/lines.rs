//! The mathematics of k-in-a-row: what it means for a run of spaces, or for a
//! whole board, to hold `k` consecutive stones of one player.
//!
//! Everything here is generic over the player type `P`, so that every board in
//! this crate is judged by the same definitions. A space is an `Option<P>`:
//! `None` is empty, `Some(p)` holds a stone of `p`.

use vstd::prelude::*;

verus! {

// ---------------------------------------------------------------------------
// Runs
// ---------------------------------------------------------------------------

/// The spaces `run[end + 1 - k ..= end]` all hold the stone `run[end]`, and
/// there are `k > 0` of them: a line of `k` stones is complete at `end`.
pub open spec fn completes_line<P>(run: Seq<Option<P>>, k: nat, end: int) -> bool {
    &&& 0 < k
    &&& k <= end + 1
    &&& end < run.len()
    &&& run[end] is Some
    &&& forall|j: int| end - k < j <= end ==> run[j] == run[end]
}

/// Some line of `k` stones is complete somewhere in `run`.
pub open spec fn has_line<P>(run: Seq<Option<P>>, k: nat) -> bool {
    exists|end: int| completes_line(run, k, end)
}

/// `end` is the first index at which a line of `k` stones is complete.
pub open spec fn is_first_line_end<P>(run: Seq<Option<P>>, k: nat, end: int) -> bool {
    &&& completes_line(run, k, end)
    &&& forall|e: int| e < end ==> !completes_line(run, k, e)
}

/// The player whose line of `k` stones is completed first along `run`, if any.
pub open spec fn line_winner<P>(run: Seq<Option<P>>, k: nat) -> Option<P> {
    if has_line(run, k) {
        run[choose|end: int| is_first_line_end(run, k, end)]
    } else {
        None
    }
}

/// The line winner of the first run (in order) that has one.
pub open spec fn runs_winner<P>(runs: Seq<Seq<Option<P>>>, k: nat) -> Option<P>
    decreases runs.len(),
{
    if runs.len() == 0 {
        None
    } else if line_winner(runs[0], k) is Some {
        line_winner(runs[0], k)
    } else {
        runs_winner(runs.drop_first(), k)
    }
}

/// The number of equal stones that end at index `i` of `run` (0 when
/// `run[i]` is empty or `i` is outside the run).
pub open spec fn streak<P>(run: Seq<Option<P>>, i: int) -> nat
    decreases i,
{
    if i < 0 || i >= run.len() || run[i] is None {
        0
    } else if i > 0 && run[i - 1] == run[i] {
        streak(run, i - 1) + 1
    } else {
        1
    }
}

/// A line of `k` stones is complete at `end` exactly when the streak there
/// is at least `k`.
pub proof fn lemma_streak_completes<P>(run: Seq<Option<P>>, k: nat, end: int)
    requires
        0 <= end < run.len(),
    ensures
        completes_line(run, k, end) <==> (0 < k && k <= streak(run, end)),
    decreases end,
{
    if end > 0 {
        lemma_streak_completes(run, (k - 1) as nat, end - 1);
    }
    if run[end] is Some && 0 < k && k <= streak(run, end) {
        // every space of the streak holds the same stone
        assert forall|j: int| end - k < j <= end implies run[j] == run[end] by {
            lemma_streak_members(run, end, j);
        }
    }
    if completes_line(run, k, end) {
        lemma_streak_at_least(run, k, end);
    }
}

proof fn lemma_streak_members<P>(run: Seq<Option<P>>, end: int, j: int)
    requires
        0 <= end < run.len(),
        end - streak(run, end) < j <= end,
    ensures
        run[j] == run[end],
    decreases end - j,
{
    if j < end {
        assert(streak(run, end) > 1);
        lemma_streak_members(run, end - 1, j);
    }
}

proof fn lemma_streak_at_least<P>(run: Seq<Option<P>>, k: nat, end: int)
    requires
        completes_line(run, k, end),
    ensures
        k <= streak(run, end),
    decreases k,
{
    if k > 1 {
        assert(run[end - 1] == run[end]);
        lemma_streak_at_least(run, (k - 1) as nat, end - 1);
    }
}

/// If a line is complete somewhere, there is a first place where it is.
pub proof fn lemma_first_line_end_exists<P>(run: Seq<Option<P>>, k: nat, end: int)
    requires
        completes_line(run, k, end),
    ensures
        exists|e: int| is_first_line_end(run, k, e),
    decreases end,
{
    if exists|e: int| e < end && completes_line(run, k, e) {
        let e = choose|e: int| e < end && completes_line(run, k, e);
        lemma_first_line_end_exists(run, k, e);
    } else {
        assert(is_first_line_end(run, k, end));
    }
}

/// The first line end is unique.
pub proof fn lemma_first_line_end_unique<P>(run: Seq<Option<P>>, k: nat, a: int, b: int)
    requires
        is_first_line_end(run, k, a),
        is_first_line_end(run, k, b),
    ensures
        a == b,
{
}

/// `line_winner` is the stone at any first line end.
pub proof fn lemma_line_winner_at<P>(run: Seq<Option<P>>, k: nat, end: int)
    requires
        is_first_line_end(run, k, end),
    ensures
        line_winner(run, k) == run[end],
{
    lemma_first_line_end_exists(run, k, end);
    let e = choose|e: int| is_first_line_end(run, k, e);
    lemma_first_line_end_unique(run, k, e, end);
}

/// `line_winner` is `Some` exactly when the run has a line.
pub proof fn lemma_line_winner_some<P>(run: Seq<Option<P>>, k: nat)
    ensures
        line_winner(run, k) is Some <==> has_line(run, k),
        has_line(run, k) ==> exists|end: int|
            is_first_line_end(run, k, end) && line_winner(run, k) == run[end],
{
    if has_line(run, k) {
        let end = choose|end: int| completes_line(run, k, end);
        lemma_first_line_end_exists(run, k, end);
        let e = choose|e: int| is_first_line_end(run, k, e);
        lemma_line_winner_at(run, k, e);
    }
}

/// The winner of a concatenation of run lists: the first list decides if it can.
pub proof fn lemma_runs_winner_append<P>(a: Seq<Seq<Option<P>>>, b: Seq<Seq<Option<P>>>, k: nat)
    ensures
        runs_winner(a + b, k) == if runs_winner(a, k) is Some {
            runs_winner(a, k)
        } else {
            runs_winner(b, k)
        },
    decreases a.len(),
{
    if a.len() > 0 {
        assert((a + b).drop_first() =~= a.drop_first() + b);
        lemma_runs_winner_append(a.drop_first(), b, k);
    } else {
        assert(a + b =~= b);
    }
}

/// The winner of the runs from index `i` on.
pub proof fn lemma_runs_winner_step<P>(runs: Seq<Seq<Option<P>>>, k: nat, i: int)
    requires
        0 <= i < runs.len(),
    ensures
        runs_winner(runs.subrange(i, runs.len() as int), k) == if line_winner(runs[i], k) is Some {
            line_winner(runs[i], k)
        } else {
            runs_winner(runs.subrange(i + 1, runs.len() as int), k)
        },
{
    assert(runs.subrange(i, runs.len() as int).drop_first() =~= runs.subrange(
        i + 1,
        runs.len() as int,
    ));
}

/// `runs_winner` is `Some` exactly when one of the runs has a line, and then
/// it is the line winner of some run.
pub proof fn lemma_runs_winner_some<P>(runs: Seq<Seq<Option<P>>>, k: nat)
    ensures
        runs_winner(runs, k) is Some <==> exists|i: int| 0 <= i < runs.len() && #[trigger] has_line(runs[i], k),
        runs_winner(runs, k) is Some ==> exists|i: int|
            0 <= i < runs.len() && #[trigger] line_winner(runs[i], k) == runs_winner(runs, k),
    decreases runs.len(),
{
    lemma_line_winner_some(runs[0], k);
    if runs.len() > 0 {
        lemma_runs_winner_some(runs.drop_first(), k);
        if runs_winner(runs, k) is Some && line_winner(runs[0], k) is None {
            let i = choose|i: int|
                0 <= i < runs.drop_first().len() && #[trigger] line_winner(runs.drop_first()[i], k)
                    == runs_winner(runs.drop_first(), k);
            assert(line_winner(runs[i + 1], k) == runs_winner(runs, k));
        }
        if exists|i: int| 0 <= i < runs.len() && #[trigger] has_line(runs[i], k) {
            let i = choose|i: int| 0 <= i < runs.len() && #[trigger] has_line(runs[i], k);
            if i > 0 {
                assert(has_line(runs.drop_first()[i - 1], k));
            }
        }
        if exists|i: int| 0 <= i < runs.drop_first().len() && #[trigger] has_line(runs.drop_first()[i], k) {
            let i = choose|i: int| 0 <= i < runs.drop_first().len() && #[trigger] has_line(runs.drop_first()[i], k);
            assert(has_line(runs[i + 1], k));
        }
    }
}


// ---------------------------------------------------------------------------
// Boards
// ---------------------------------------------------------------------------

/// A direction in which a line of stones can run across a board.
pub enum Direction {
    /// Along a row, to increasing column indices.
    Right,
    /// Along a column, to increasing row indices.
    Down,
    /// To increasing row and column indices.
    DownRight,
    /// To increasing row and decreasing column indices.
    DownLeft,
}

/// The row index `i` steps from row `r` in direction `d`.
pub open spec fn step_row(d: Direction, r: int, i: int) -> int {
    match d {
        Direction::Right => r,
        _ => r + i,
    }
}

/// The column index `i` steps from column `c` in direction `d`.
pub open spec fn step_col(d: Direction, c: int, i: int) -> int {
    match d {
        Direction::Right => c + i,
        Direction::Down => c,
        Direction::DownRight => c + i,
        Direction::DownLeft => c - i,
    }
}

/// `g` is a board of `rows` rows, each of `cols` spaces.
pub open spec fn well_formed<P>(g: Seq<Seq<Option<P>>>, rows: nat, cols: nat) -> bool {
    &&& g.len() == rows
    &&& forall|r: int| 0 <= r < rows ==> #[trigger] g[r].len() == cols
}

/// The board `g` with a stone of `player` at `(row, column)`.
pub open spec fn with_stone<P>(g: Seq<Seq<Option<P>>>, row: int, column: int, player: P) -> Seq<
    Seq<Option<P>>,
> {
    g.update(row, g[row].update(column, Some(player)))
}

/// The space at row `r` and column `c`; `None` off the board.
pub open spec fn space_at<P>(g: Seq<Seq<Option<P>>>, rows: nat, cols: nat, r: int, c: int) -> Option<P> {
    if 0 <= r < rows && 0 <= c < cols {
        g[r][c]
    } else {
        None
    }
}

/// `k` stones of `p` lie on the board starting at `(r, c)` and going in direction `d`.
pub open spec fn line_at<P>(
    g: Seq<Seq<Option<P>>>,
    rows: nat,
    cols: nat,
    k: nat,
    r: int,
    c: int,
    d: Direction,
    p: P,
) -> bool {
    forall|i: int|
        0 <= i < k ==> #[trigger] space_at(g, rows, cols, step_row(d, r, i), step_col(d, c, i))
            == Some(p)
}

/// Player `p` has `k > 0` stones in a row, column, or diagonal of the board.
pub open spec fn k_in_a_row<P>(g: Seq<Seq<Option<P>>>, rows: nat, cols: nat, k: nat, p: P) -> bool {
    &&& k > 0
    &&& exists|r: int, c: int, d: Direction| line_at(g, rows, cols, k, r, c, d, p)
}

/// The `len` spaces from `(r, c)` in direction `d`.
pub open spec fn ray<P>(g: Seq<Seq<Option<P>>>, d: Direction, r: int, c: int, len: nat) -> Seq<
    Option<P>,
> {
    Seq::new(len, |i: int| g[step_row(d, r, i)][step_col(d, c, i)])
}

/// All `len` spaces from `(r, c)` in direction `d` are on the board.
pub open spec fn ray_on_board(rows: nat, cols: nat, d: Direction, r: int, c: int, len: nat) -> bool {
    forall|i: int|
        0 <= i < len ==> 0 <= #[trigger] step_row(d, r, i) < rows && 0 <= step_col(d, c, i) < cols
}

/// The (row, column) pairs of the `len` spaces from `(r, c)` in direction `d`,
/// on a board of `rows` by `cols` spaces.
pub fn ray_coords(rows: usize, cols: usize, d: Direction, r: usize, c: usize, len: usize) -> (coords: Vec<(usize, usize)>)
    requires
        ray_on_board(rows as nat, cols as nat, d, r as int, c as int, len as nat),
    ensures
        coords@.len() == len,
        forall|j: int| 0 <= j < len ==> (#[trigger] coords@[j]).0 == step_row(d, r as int, j)
            && coords@[j].1 == step_col(d, c as int, j),
{
    let mut coords: Vec<(usize, usize)> = Vec::new();
    let mut i: usize = 0;
    while i < len
        invariant
            i <= len,
            ray_on_board(rows as nat, cols as nat, d, r as int, c as int, len as nat),
            coords@.len() == i,
            forall|j: int| 0 <= j < i ==> (#[trigger] coords@[j]).0 == step_row(d, r as int, j)
                && coords@[j].1 == step_col(d, c as int, j),
        decreases len - i,
    {
        assert(0 <= step_row(d, r as int, i as int) < rows);
        let cell = match d {
            Direction::Right => (r, c + i),
            Direction::Down => (r + i, c),
            Direction::DownRight => (r + i, c + i),
            Direction::DownLeft => (r + i, c - i),
        };
        coords.push(cell);
        i += 1;
    }
    coords
}

/// `x`, or 0 if it is negative.
pub open spec fn clip(x: int) -> nat {
    if x < 0 {
        0
    } else {
        x as nat
    }
}

/// The smaller of two integers.
pub open spec fn min(a: int, b: int) -> int {
    if a <= b {
        a
    } else {
        b
    }
}

/// The rows of the board, top to bottom.
pub open spec fn row_runs<P>(g: Seq<Seq<Option<P>>>, rows: nat, cols: nat) -> Seq<Seq<Option<P>>> {
    Seq::new(rows, |r: int| ray(g, Direction::Right, r, 0, cols))
}

/// The columns of the board, left to right, each read top to bottom.
pub open spec fn column_runs<P>(g: Seq<Seq<Option<P>>>, rows: nat, cols: nat) -> Seq<
    Seq<Option<P>>,
> {
    Seq::new(cols, |c: int| ray(g, Direction::Down, 0, c, rows))
}

/// The down-right diagonals of at least `m` spaces that start in the top row:
/// those starting at columns `0 ..= cols - m`, or none when the board has fewer
/// than `m` rows.
pub open spec fn top_right_runs<P>(g: Seq<Seq<Option<P>>>, rows: nat, cols: nat, m: nat) -> Seq<
    Seq<Option<P>>,
> {
    Seq::new(
        if rows >= m { clip(cols - m + 1) } else { 0 },
        |j: int| ray(g, Direction::DownRight, 0, j, clip(min(rows as int, cols - j))),
    )
}

/// The down-right diagonals of at least `m` spaces that start in the left
/// column below the top row: those starting at rows `1 ..= rows - m`, or none
/// when the board has fewer than `m` columns.
pub open spec fn left_down_runs<P>(g: Seq<Seq<Option<P>>>, rows: nat, cols: nat, m: nat) -> Seq<
    Seq<Option<P>>,
> {
    Seq::new(
        if cols >= m { clip(rows - m) } else { 0 },
        |j: int| ray(g, Direction::DownRight, j + 1, 0, clip(min(rows - j - 1, cols as int))),
    )
}

/// The down-left diagonals of at least `m` spaces that start in the top row:
/// those starting at columns `m - 1 .. cols`, or none when the board has fewer
/// than `m` rows.
pub open spec fn top_left_runs<P>(g: Seq<Seq<Option<P>>>, rows: nat, cols: nat, m: nat) -> Seq<
    Seq<Option<P>>,
> {
    Seq::new(
        if rows >= m { clip(cols - m + 1) } else { 0 },
        |j: int| ray(g, Direction::DownLeft, 0, m - 1 + j, clip(min(rows as int, m + j))),
    )
}

/// The down-left diagonals of at least `m` spaces that start in the right
/// column below the top row: those starting at rows `1 ..= rows - m`, or none
/// when the board has fewer than `m` columns.
pub open spec fn right_down_runs<P>(g: Seq<Seq<Option<P>>>, rows: nat, cols: nat, m: nat) -> Seq<
    Seq<Option<P>>,
> {
    Seq::new(
        if cols >= m { clip(rows - m) } else { 0 },
        |j: int| ray(g, Direction::DownLeft, j + 1, cols - 1, clip(min(rows - j - 1, cols as int))),
    )
}

/// Every run of the four diagonal families has at least `m` spaces.
pub proof fn lemma_diagonal_runs_long_enough<P>(g: Seq<Seq<Option<P>>>, rows: nat, cols: nat, m: nat)
    ensures
        forall|j: int| 0 <= j < top_right_runs(g, rows, cols, m).len()
            ==> #[trigger] top_right_runs(g, rows, cols, m)[j].len() >= m,
        forall|j: int| 0 <= j < left_down_runs(g, rows, cols, m).len()
            ==> #[trigger] left_down_runs(g, rows, cols, m)[j].len() >= m,
        forall|j: int| 0 <= j < top_left_runs(g, rows, cols, m).len()
            ==> #[trigger] top_left_runs(g, rows, cols, m)[j].len() >= m,
        forall|j: int| 0 <= j < right_down_runs(g, rows, cols, m).len()
            ==> #[trigger] right_down_runs(g, rows, cols, m)[j].len() >= m,
{
}

/// The runs searched for a line of `k` stones, in the order they are searched:
/// rows, then columns, then the four families of diagonals. A family is left
/// out when no line of `k` could fit in it.
pub open spec fn all_runs<P>(g: Seq<Seq<Option<P>>>, rows: nat, cols: nat, k: nat) -> Seq<
    Seq<Option<P>>,
> {
    (if k <= cols {
        row_runs(g, rows, cols)
    } else {
        Seq::empty()
    }) + (if k <= rows {
        column_runs(g, rows, cols)
    } else {
        Seq::empty()
    }) + (if k <= rows && k <= cols {
        top_right_runs(g, rows, cols, k) + left_down_runs(g, rows, cols, k) + top_left_runs(
            g,
            rows,
            cols,
            k,
        ) + right_down_runs(g, rows, cols, k)
    } else {
        Seq::empty()
    })
}

/// The winner of a board: the line winner of the first run, in the order of
/// [`all_runs`], that holds `k` stones of one player in a row.
pub open spec fn board_winner<P>(g: Seq<Seq<Option<P>>>, rows: nat, cols: nat, k: nat) -> Option<P> {
    runs_winner(all_runs(g, rows, cols, k), k)
}

// ---------------------------------------------------------------------------
// What the board winner means
// ---------------------------------------------------------------------------

/// `run` is the sequence of spaces along some ray that lies on the board.
pub open spec fn is_board_ray<P>(g: Seq<Seq<Option<P>>>, rows: nat, cols: nat, run: Seq<Option<P>>) -> bool {
    exists|d: Direction, r: int, c: int|
        #[trigger] ray(g, d, r, c, run.len()) == run && ray_on_board(rows, cols, d, r, c, run.len())
}

/// Every run of `runs` is a ray that lies on the board.
pub open spec fn runs_on_board<P>(g: Seq<Seq<Option<P>>>, rows: nat, cols: nat, runs: Seq<Seq<Option<P>>>) -> bool {
    forall|j: int| 0 <= j < runs.len() ==> #[trigger] is_board_ray(g, rows, cols, runs[j])
}

/// The diagonal families do not overlap: no space lies both on a down-right
/// diagonal that starts in the top row and on one that starts lower in the
/// left column, nor both on a down-left diagonal that starts in the top row and
/// on one that starts lower in the right column.
pub proof fn lemma_diagonal_families_disjoint(
    rows: nat,
    cols: nat,
    m: nat,
    top: int,
    side: int,
    i: int,
    i2: int,
)
    requires
        0 <= top < clip(cols - m + 1),
        0 <= side < clip(rows - m),
        0 <= i,
        0 <= i2,
    ensures
        step_row(Direction::DownRight, 0, i) != step_row(Direction::DownRight, side + 1, i2)
            || step_col(Direction::DownRight, top, i) != step_col(Direction::DownRight, 0, i2),
        step_row(Direction::DownLeft, 0, i) != step_row(Direction::DownLeft, side + 1, i2)
            || step_col(Direction::DownLeft, m - 1 + top, i) != step_col(
            Direction::DownLeft,
            cols - 1,
            i2,
        ),
{
}

/// A line found along a ray that lies on the board is a line on the board.
proof fn lemma_ray_line<P>(
    g: Seq<Seq<Option<P>>>,
    rows: nat,
    cols: nat,
    k: nat,
    d: Direction,
    r: int,
    c: int,
    len: nat,
    end: int,
)
    requires
        ray_on_board(rows, cols, d, r, c, len),
        completes_line(ray(g, d, r, c, len), k, end),
    ensures
        k_in_a_row(g, rows, cols, k, ray(g, d, r, c, len)[end]->Some_0),
{
    let run = ray(g, d, r, c, len);
    let p = run[end]->Some_0;
    let start = end - k + 1;
    let r0 = step_row(d, r, start);
    let c0 = step_col(d, c, start);
    assert forall|i: int| 0 <= i < k implies #[trigger] space_at(
        g,
        rows,
        cols,
        step_row(d, r0, i),
        step_col(d, c0, i),
    ) == Some(p) by {
        assert(step_row(d, r0, i) == step_row(d, r, start + i));
        assert(step_col(d, c0, i) == step_col(d, c, start + i));
        assert(run[start + i] == run[end]);
    }
    assert(line_at(g, rows, cols, k, r0, c0, d, p));
}

/// A winner found among runs that lie on the board has `k` in a row.
pub proof fn lemma_runs_winner_sound<P>(
    g: Seq<Seq<Option<P>>>,
    rows: nat,
    cols: nat,
    runs: Seq<Seq<Option<P>>>,
    k: nat,
)
    requires
        runs_on_board(g, rows, cols, runs),
    ensures
        runs_winner(runs, k) matches Some(p) ==> k_in_a_row(g, rows, cols, k, p),
{
    lemma_runs_winner_some(runs, k);
    if runs_winner(runs, k) is Some {
        let i = choose|i: int|
            0 <= i < runs.len() && #[trigger] line_winner(runs[i], k) == runs_winner(runs, k);
        lemma_line_winner_some(runs[i], k);
        let end = choose|end: int|
            is_first_line_end(runs[i], k, end) && line_winner(runs[i], k) == runs[i][end];
        assert(is_board_ray(g, rows, cols, runs[i]));
        let (d, r, c) = choose|d: Direction, r: int, c: int|
            #[trigger] ray(g, d, r, c, runs[i].len()) == runs[i] && ray_on_board(
                rows,
                cols,
                d,
                r,
                c,
                runs[i].len(),
            );
        lemma_ray_line(g, rows, cols, k, d, r, c, runs[i].len(), end);
    }
}

proof fn lemma_on_board_append<P>(
    g: Seq<Seq<Option<P>>>,
    rows: nat,
    cols: nat,
    a: Seq<Seq<Option<P>>>,
    b: Seq<Seq<Option<P>>>,
)
    requires
        runs_on_board(g, rows, cols, a),
        runs_on_board(g, rows, cols, b),
    ensures
        runs_on_board(g, rows, cols, a + b),
{
    assert forall|j: int| 0 <= j < (a + b).len() implies #[trigger] is_board_ray(
        g,
        rows,
        cols,
        (a + b)[j],
    ) by {
        if j < a.len() {
            assert((a + b)[j] == a[j]);
        } else {
            assert((a + b)[j] == b[j - a.len()]);
        }
    }
}

/// Every run searched for a winner lies on the board.
pub proof fn lemma_all_runs_on_board<P>(g: Seq<Seq<Option<P>>>, rows: nat, cols: nat, k: nat)
    requires
        k > 0,
    ensures
        runs_on_board(g, rows, cols, all_runs(g, rows, cols, k)),
{
    let e = Seq::<Seq<Option<P>>>::empty();
    assert(runs_on_board(g, rows, cols, e));
    let rr = row_runs(g, rows, cols);
    assert forall|j: int| 0 <= j < rr.len() implies #[trigger] is_board_ray(g, rows, cols, rr[j]) by {
        assert(ray(g, Direction::Right, j, 0, rr[j].len()) == rr[j]);
        assert(ray_on_board(rows, cols, Direction::Right, j, 0, rr[j].len()));
    }
    let cr = column_runs(g, rows, cols);
    assert forall|j: int| 0 <= j < cr.len() implies #[trigger] is_board_ray(g, rows, cols, cr[j]) by {
        assert(ray(g, Direction::Down, 0, j, cr[j].len()) == cr[j]);
        assert(ray_on_board(rows, cols, Direction::Down, 0, j, cr[j].len()));
    }
    let tr = top_right_runs(g, rows, cols, k);
    assert forall|j: int| 0 <= j < tr.len() implies #[trigger] is_board_ray(g, rows, cols, tr[j]) by {
        assert(ray(g, Direction::DownRight, 0, j, tr[j].len()) == tr[j]);
        assert(ray_on_board(rows, cols, Direction::DownRight, 0, j, tr[j].len()));
    }
    let ld = left_down_runs(g, rows, cols, k);
    assert forall|j: int| 0 <= j < ld.len() implies #[trigger] is_board_ray(g, rows, cols, ld[j]) by {
        assert(ray(g, Direction::DownRight, j + 1, 0, ld[j].len()) == ld[j]);
        assert(ray_on_board(rows, cols, Direction::DownRight, j + 1, 0, ld[j].len()));
    }
    let tl = top_left_runs(g, rows, cols, k);
    assert forall|j: int| 0 <= j < tl.len() implies #[trigger] is_board_ray(g, rows, cols, tl[j]) by {
        assert(ray(g, Direction::DownLeft, 0, k - 1 + j, tl[j].len()) == tl[j]);
        assert(ray_on_board(rows, cols, Direction::DownLeft, 0, k - 1 + j, tl[j].len()));
    }
    let rd = right_down_runs(g, rows, cols, k);
    assert forall|j: int| 0 <= j < rd.len() implies #[trigger] is_board_ray(g, rows, cols, rd[j]) by {
        assert(ray(g, Direction::DownLeft, j + 1, cols - 1, rd[j].len()) == rd[j]);
        assert(ray_on_board(rows, cols, Direction::DownLeft, j + 1, cols - 1, rd[j].len()));
    }
    lemma_on_board_append(g, rows, cols, tr, ld);
    lemma_on_board_append(g, rows, cols, tr + ld, tl);
    lemma_on_board_append(g, rows, cols, tr + ld + tl, rd);
    let a = if k <= cols { rr } else { e };
    let b = if k <= rows { cr } else { e };
    let c = if k <= rows && k <= cols { tr + ld + tl + rd } else { e };
    lemma_on_board_append(g, rows, cols, a, b);
    lemma_on_board_append(g, rows, cols, a + b, c);
}

/// A line on the board shows up as a completed line in any ray that covers it.
proof fn lemma_line_in_ray<P>(
    g: Seq<Seq<Option<P>>>,
    rows: nat,
    cols: nat,
    k: nat,
    d: Direction,
    r: int,
    c: int,
    p: P,
    r0: int,
    c0: int,
    len: nat,
    off: int,
)
    requires
        k > 0,
        line_at(g, rows, cols, k, r, c, d, p),
        step_row(d, r0, off) == r,
        step_col(d, c0, off) == c,
        0 <= off,
        off + k <= len,
    ensures
        completes_line(ray(g, d, r0, c0, len), k, off + k - 1),
        ray(g, d, r0, c0, len)[off + k - 1] == Some(p),
{
    let run = ray(g, d, r0, c0, len);
    assert forall|j: int| off <= j < off + k implies run[j] == Some(p) by {
        let i = j - off;
        assert(space_at(g, rows, cols, step_row(d, r, i), step_col(d, c, i)) == Some(p));
        assert(step_row(d, r, i) == step_row(d, r0, j));
        assert(step_col(d, c, i) == step_col(d, c0, j));
    }
}

proof fn lemma_some_if_line<P>(runs: Seq<Seq<Option<P>>>, k: nat, j: int, end: int)
    requires
        0 <= j < runs.len(),
        completes_line(runs[j], k, end),
    ensures
        runs_winner(runs, k) is Some,
{
    lemma_runs_winner_some(runs, k);
    assert(has_line(runs[j], k));
}

proof fn lemma_append_some<P>(a: Seq<Seq<Option<P>>>, b: Seq<Seq<Option<P>>>, k: nat)
    ensures
        (runs_winner(a, k) is Some || runs_winner(b, k) is Some) ==> runs_winner(a + b, k) is Some,
{
    lemma_runs_winner_append(a, b, k);
}

/// Whoever has `k` in a row, the search over [`all_runs`] finds a winner.
pub proof fn lemma_line_found<P>(
    g: Seq<Seq<Option<P>>>,
    rows: nat,
    cols: nat,
    k: nat,
    r: int,
    c: int,
    d: Direction,
    p: P,
)
    requires
        k > 0,
        line_at(g, rows, cols, k, r, c, d, p),
    ensures
        board_winner(g, rows, cols, k) is Some,
{
    // the first and last stones of the line are on the board
    assert(space_at(g, rows, cols, step_row(d, r, 0), step_col(d, c, 0)) == Some(p));
    assert(space_at(g, rows, cols, step_row(d, r, k - 1), step_col(d, c, k - 1)) == Some(p));
    let rr = row_runs(g, rows, cols);
    let cr = column_runs(g, rows, cols);
    let tr = top_right_runs(g, rows, cols, k);
    let ld = left_down_runs(g, rows, cols, k);
    let tl = top_left_runs(g, rows, cols, k);
    let rd = right_down_runs(g, rows, cols, k);
    let e = Seq::<Seq<Option<P>>>::empty();
    let a = if k <= cols { rr } else { e };
    let b = if k <= rows { cr } else { e };
    let diags = if k <= rows && k <= cols { tr + ld + tl + rd } else { e };
    match d {
        Direction::Right => {
            assert(rr[r] == ray(g, Direction::Right, r, 0, cols));
            lemma_line_in_ray(g, rows, cols, k, d, r, c, p, r, 0, cols, c);
            lemma_some_if_line(rr, k, r, c + k - 1);
        },
        Direction::Down => {
            assert(cr[c] == ray(g, Direction::Down, 0, c, rows));
            lemma_line_in_ray(g, rows, cols, k, d, r, c, p, 0, c, rows, r);
            lemma_some_if_line(cr, k, c, r + k - 1);
        },
        Direction::DownRight => {
            if r <= c {
                let j = c - r;
                let len = clip(min(rows as int, cols - j));
                assert(tr[j] == ray(g, Direction::DownRight, 0, j, len));
                lemma_line_in_ray(g, rows, cols, k, d, r, c, p, 0, j, len, r);
                lemma_some_if_line(tr, k, j, r + k - 1);
            } else {
                let j = r - c - 1;
                let len = clip(min(rows - j - 1, cols as int));
                assert(ld[j] == ray(g, Direction::DownRight, j + 1, 0, len));
                lemma_line_in_ray(g, rows, cols, k, d, r, c, p, j + 1, 0, len, c);
                lemma_some_if_line(ld, k, j, c + k - 1);
            }
        },
        Direction::DownLeft => {
            if r + c < cols {
                let j = r + c - (k - 1);
                let len = clip(min(rows as int, k + j));
                assert(tl[j] == ray(g, Direction::DownLeft, 0, k - 1 + j, len));
                lemma_line_in_ray(g, rows, cols, k, d, r, c, p, 0, k - 1 + j, len, r);
                lemma_some_if_line(tl, k, j, r + k - 1);
            } else {
                let j = r + c - cols;
                let len = clip(min(rows - j - 1, cols as int));
                let off = cols - 1 - c;
                assert(rd[j] == ray(g, Direction::DownLeft, j + 1, cols - 1, len));
                lemma_line_in_ray(g, rows, cols, k, d, r, c, p, j + 1, cols - 1, len, off);
                lemma_some_if_line(rd, k, j, off + k - 1);
            }
        },
    }
    lemma_append_some(tr, ld, k);
    lemma_append_some(tr + ld, tl, k);
    lemma_append_some(tr + ld + tl, rd, k);
    lemma_append_some(a, b, k);
    lemma_append_some(a + b, diags, k);
}

/// The board winner is a player with `k` stones in a row, column or
/// diagonal, and there is no board winner exactly when no player has `k` in
/// a row.
pub proof fn lemma_board_winner_meaning<P>(g: Seq<Seq<Option<P>>>, rows: nat, cols: nat, k: nat)
    requires
        k > 0,
    ensures
        board_winner(g, rows, cols, k) matches Some(p) ==> k_in_a_row(g, rows, cols, k, p),
        board_winner(g, rows, cols, k) is None <==> forall|p: P| !k_in_a_row(g, rows, cols, k, p),
{
    lemma_all_runs_on_board(g, rows, cols, k);
    lemma_runs_winner_sound(g, rows, cols, all_runs(g, rows, cols, k), k);
    if exists|p: P| k_in_a_row(g, rows, cols, k, p) {
        let p = choose|p: P| k_in_a_row(g, rows, cols, k, p);
        let (r, c, d) = choose|r: int, c: int, d: Direction| line_at(g, rows, cols, k, r, c, d, p);
        lemma_line_found(g, rows, cols, k, r, c, d, p);
    }
}

/// A stone of `p` completes no line of any other player: whoever else has `k`
/// in a row after `p` places a stone on an empty space already had it before.
pub proof fn lemma_other_lines_kept<P>(
    g: Seq<Seq<Option<P>>>,
    rows: nat,
    cols: nat,
    k: nat,
    row: int,
    column: int,
    p: P,
    q: P,
)
    requires
        well_formed(g, rows, cols),
        0 <= row < rows,
        0 <= column < cols,
        q != p,
        k_in_a_row(with_stone(g, row, column, p), rows, cols, k, q),
    ensures
        k_in_a_row(g, rows, cols, k, q),
{
    let after = with_stone(g, row, column, p);
    let (r0, c0, d) = choose|r0: int, c0: int, d: Direction| line_at(after, rows, cols, k, r0, c0, d, q);
    assert forall|i: int| 0 <= i < k implies #[trigger] space_at(
        g,
        rows,
        cols,
        step_row(d, r0, i),
        step_col(d, c0, i),
    ) == Some(q) by {
        let a = step_row(d, r0, i);
        let b = step_col(d, c0, i);
        assert(space_at(after, rows, cols, a, b) == Some(q));
        if a == row {
            assert(after[a] == g[row].update(column, Some(p)));
        }
    }
    assert(line_at(g, rows, cols, k, r0, c0, d, q));
}

/// A stone can only complete lines of its own player: if no one had `k` in a
/// row and `p` places a stone on an empty space, then afterwards there is
/// either still no winner or the winner is `p`.
pub proof fn lemma_only_mover_wins<P>(
    g: Seq<Seq<Option<P>>>,
    rows: nat,
    cols: nat,
    k: nat,
    row: int,
    column: int,
    p: P,
)
    requires
        well_formed(g, rows, cols),
        k > 0,
        board_winner(g, rows, cols, k) is None,
        0 <= row < rows,
        0 <= column < cols,
        g[row][column] is None,
    ensures
        board_winner(with_stone(g, row, column, p), rows, cols, k) is None || board_winner(
            with_stone(g, row, column, p),
            rows,
            cols,
            k,
        ) == Some(p),
{
    let after = with_stone(g, row, column, p);
    lemma_board_winner_meaning(g, rows, cols, k);
    lemma_board_winner_meaning(after, rows, cols, k);
    if let Some(q) = board_winner(after, rows, cols, k) {
        if q != p {
            lemma_other_lines_kept(g, rows, cols, k, row, column, p, q);
        }
    }
}

/// Reading back a placed stone: the space that received it holds it, every
/// other space is as it was, and the board keeps its shape.
pub proof fn lemma_with_stone_reads<P>(
    g: Seq<Seq<Option<P>>>,
    rows: nat,
    cols: nat,
    row: int,
    column: int,
    p: P,
)
    requires
        well_formed(g, rows, cols),
        0 <= row < rows,
        0 <= column < cols,
    ensures
        with_stone(g, row, column, p)[row][column] == Some(p),
        forall|r: int, c: int|
            0 <= r < rows && 0 <= c < cols && (r != row || c != column) ==> #[trigger] with_stone(
                g,
                row,
                column,
                p,
            )[r][c] == g[r][c],
        well_formed(with_stone(g, row, column, p), rows, cols),
{
}

// ---------------------------------------------------------------------------
// Counting stones
// ---------------------------------------------------------------------------

/// The number of stones of `p` in a row.
pub open spec fn row_count<P>(row: Seq<Option<P>>, p: P) -> nat
    decreases row.len(),
{
    if row.len() == 0 {
        0
    } else {
        row_count(row.drop_last(), p) + if row.last() == Some(p) {
            1nat
        } else {
            0nat
        }
    }
}

/// The number of stones of `p` on the board.
pub open spec fn stone_count<P>(g: Seq<Seq<Option<P>>>, p: P) -> nat
    decreases g.len(),
{
    if g.len() == 0 {
        0
    } else {
        stone_count(g.drop_last(), p) + row_count(g.last(), p)
    }
}

proof fn lemma_row_count_update<P>(row: Seq<Option<P>>, c: int, p: P, q: P)
    requires
        0 <= c < row.len(),
        row[c] is None,
    ensures
        row_count(row.update(c, Some(p)), q) == row_count(row, q) + if p == q {
            1nat
        } else {
            0nat
        },
    decreases row.len(),
{
    let updated = row.update(c, Some(p));
    if c < row.len() - 1 {
        assert(updated.drop_last() =~= row.drop_last().update(c, Some(p)));
        lemma_row_count_update(row.drop_last(), c, p, q);
    } else {
        assert(updated.drop_last() =~= row.drop_last());
    }
}

/// Placing a stone of `p` on an empty space adds one stone of `p` and no
/// stone of any other player.
pub proof fn lemma_stone_count_with_stone<P>(g: Seq<Seq<Option<P>>>, r: int, c: int, p: P, q: P)
    requires
        0 <= r < g.len(),
        0 <= c < g[r].len(),
        g[r][c] is None,
    ensures
        stone_count(with_stone(g, r, c, p), q) == stone_count(g, q) + if p == q {
            1nat
        } else {
            0nat
        },
    decreases g.len(),
{
    let after = with_stone(g, r, c, p);
    if r < g.len() - 1 {
        assert(after.drop_last() =~= with_stone(g.drop_last(), r, c, p));
        lemma_stone_count_with_stone(g.drop_last(), r, c, p, q);
    } else {
        assert(after.drop_last() =~= g.drop_last());
        lemma_row_count_update(g[r], c, p, q);
    }
}

proof fn lemma_row_count_empty<P>(row: Seq<Option<P>>, q: P)
    requires
        forall|c: int| 0 <= c < row.len() ==> (#[trigger] row[c]) is None,
    ensures
        row_count(row, q) == 0,
    decreases row.len(),
{
    if row.len() > 0 {
        lemma_row_count_empty(row.drop_last(), q);
    }
}

/// An empty board holds no stones.
pub proof fn lemma_stone_count_empty<P>(g: Seq<Seq<Option<P>>>, q: P)
    requires
        forall|r: int, c: int| 0 <= r < g.len() && 0 <= c < g[r].len() ==> (#[trigger] g[r][c]) is None,
    ensures
        stone_count(g, q) == 0,
    decreases g.len(),
{
    if g.len() > 0 {
        assert forall|c: int| 0 <= c < g.last().len() implies (#[trigger] g.last()[c]) is None by {
            assert(g[g.len() - 1][c] is None);
        }
        lemma_row_count_empty(g.last(), q);
        assert forall|r: int, c: int| 0 <= r < g.drop_last().len() && 0 <= c < g.drop_last()[r].len() implies (#[trigger] g.drop_last()[r][c]) is None by {
            assert(g[r][c] is None);
        }
        lemma_stone_count_empty(g.drop_last(), q);
    }
}

// ---------------------------------------------------------------------------
// Renaming the players
// ---------------------------------------------------------------------------

/// The space `s` with its stone, if any, renamed by `f`.
pub open spec fn rename_space<P>(s: Option<P>, f: spec_fn(P) -> P) -> Option<P> {
    match s {
        Some(p) => Some(f(p)),
        None => None,
    }
}

/// The run with every stone renamed by `f`.
pub open spec fn rename_run<P>(run: Seq<Option<P>>, f: spec_fn(P) -> P) -> Seq<Option<P>> {
    run.map_values(|s: Option<P>| rename_space(s, f))
}

/// `f` never renames two players to the same one.
pub open spec fn injective<P>(f: spec_fn(P) -> P) -> bool {
    forall|a: P, b: P| #[trigger] f(a) == #[trigger] f(b) ==> a == b
}

proof fn lemma_rename_completes<P>(run: Seq<Option<P>>, f: spec_fn(P) -> P, k: nat, end: int)
    requires
        injective(f),
    ensures
        completes_line(rename_run(run, f), k, end) == completes_line(run, k, end),
{
    let renamed = rename_run(run, f);
    if 0 < k && k <= end + 1 && end < run.len() {
        assert forall|j: int| end - k < j <= end implies (renamed[j] == renamed[end] <==> run[j]
            == run[end]) by {
            if renamed[j] == renamed[end] && run[j] is Some && run[end] is Some {
                assert(f(run[j]->Some_0) == f(run[end]->Some_0));
            }
        }
    }
}

/// Renaming the stones renames the first line's owner.
proof fn lemma_rename_line_winner<P>(run: Seq<Option<P>>, f: spec_fn(P) -> P, k: nat)
    requires
        injective(f),
    ensures
        line_winner(rename_run(run, f), k) == rename_space(line_winner(run, k), f),
{
    let renamed = rename_run(run, f);
    assert forall|e: int| completes_line(renamed, k, e) == completes_line(run, k, e) by {
        lemma_rename_completes(run, f, k, e);
    }
    lemma_line_winner_some(run, k);
    lemma_line_winner_some(renamed, k);
    if has_line(run, k) {
        let end = choose|end: int| is_first_line_end(run, k, end) && line_winner(run, k) == run[end];
        assert(is_first_line_end(renamed, k, end));
        lemma_line_winner_at(renamed, k, end);
    } else {
        assert(!has_line(renamed, k));
    }
}

proof fn lemma_rename_runs_winner<P>(runs: Seq<Seq<Option<P>>>, f: spec_fn(P) -> P, k: nat)
    requires
        injective(f),
    ensures
        runs_winner(runs.map_values(|run: Seq<Option<P>>| rename_run(run, f)), k) == rename_space(
            runs_winner(runs, k),
            f,
        ),
    decreases runs.len(),
{
    let renamed = runs.map_values(|run: Seq<Option<P>>| rename_run(run, f));
    if runs.len() > 0 {
        lemma_rename_line_winner(runs[0], f, k);
        assert(renamed.drop_first() =~= runs.drop_first().map_values(
            |run: Seq<Option<P>>| rename_run(run, f),
        ));
        lemma_rename_runs_winner(runs.drop_first(), f, k);
    }
}

/// A ray on the board of the renamed board is the renamed ray.
proof fn lemma_rename_ray<P>(
    g: Seq<Seq<Option<P>>>,
    h: Seq<Seq<Option<P>>>,
    rows: nat,
    cols: nat,
    f: spec_fn(P) -> P,
    d: Direction,
    r: int,
    c: int,
    len: nat,
)
    requires
        well_formed(g, rows, cols),
        well_formed(h, rows, cols),
        forall|a: int, b: int| 0 <= a < rows && 0 <= b < cols ==> #[trigger] h[a][b] == rename_space(g[a][b], f),
        ray_on_board(rows, cols, d, r, c, len),
    ensures
        ray(h, d, r, c, len) == rename_run(ray(g, d, r, c, len), f),
{
    assert forall|i: int| 0 <= i < len implies #[trigger] ray(h, d, r, c, len)[i] == rename_run(ray(g, d, r, c, len), f)[i] by {
        assert(0 <= step_row(d, r, i) < rows);
    }
    assert(ray(h, d, r, c, len) =~= rename_run(ray(g, d, r, c, len), f));
}

proof fn lemma_rename_append<P>(a: Seq<Seq<Option<P>>>, b: Seq<Seq<Option<P>>>, f: spec_fn(P) -> P)
    ensures
        (a + b).map_values(|run: Seq<Option<P>>| rename_run(run, f)) == a.map_values(
            |run: Seq<Option<P>>| rename_run(run, f),
        ) + b.map_values(|run: Seq<Option<P>>| rename_run(run, f)),
{
    assert((a + b).map_values(|run: Seq<Option<P>>| rename_run(run, f)) =~= a.map_values(
        |run: Seq<Option<P>>| rename_run(run, f),
    ) + b.map_values(|run: Seq<Option<P>>| rename_run(run, f)));
}

/// Renaming the players renames the winner: if board `h` is board `g` with
/// every stone renamed by an injective `f` (such as swapping X and O), the
/// winner of `h` is the renamed winner of `g`.
pub proof fn lemma_rename_board_winner<P>(
    g: Seq<Seq<Option<P>>>,
    h: Seq<Seq<Option<P>>>,
    rows: nat,
    cols: nat,
    k: nat,
    f: spec_fn(P) -> P,
)
    requires
        well_formed(g, rows, cols),
        well_formed(h, rows, cols),
        forall|a: int, b: int| 0 <= a < rows && 0 <= b < cols ==> #[trigger] h[a][b] == rename_space(g[a][b], f),
        injective(f),
    ensures
        board_winner(h, rows, cols, k) == rename_space(board_winner(g, rows, cols, k), f),
{
    let rename = |run: Seq<Option<P>>| rename_run(run, f);
    let rr = row_runs(g, rows, cols);
    assert forall|j: int| 0 <= j < rr.len() implies #[trigger] row_runs(h, rows, cols)[j] == rename(rr[j]) by {
        lemma_rename_ray(g, h, rows, cols, f, Direction::Right, j, 0, cols);
    }
    assert(row_runs(h, rows, cols) =~= rr.map_values(rename));
    let cr = column_runs(g, rows, cols);
    assert forall|j: int| 0 <= j < cr.len() implies #[trigger] column_runs(h, rows, cols)[j] == rename(cr[j]) by {
        lemma_rename_ray(g, h, rows, cols, f, Direction::Down, 0, j, rows);
    }
    assert(column_runs(h, rows, cols) =~= cr.map_values(rename));
    let tr = top_right_runs(g, rows, cols, k);
    assert forall|j: int| 0 <= j < tr.len() implies #[trigger] top_right_runs(h, rows, cols, k)[j] == rename(tr[j]) by {
        lemma_rename_ray(g, h, rows, cols, f, Direction::DownRight, 0, j, tr[j].len());
    }
    assert(top_right_runs(h, rows, cols, k) =~= tr.map_values(rename));
    let ld = left_down_runs(g, rows, cols, k);
    assert forall|j: int| 0 <= j < ld.len() implies #[trigger] left_down_runs(h, rows, cols, k)[j] == rename(ld[j]) by {
        lemma_rename_ray(g, h, rows, cols, f, Direction::DownRight, j + 1, 0, ld[j].len());
    }
    assert(left_down_runs(h, rows, cols, k) =~= ld.map_values(rename));
    let tl = top_left_runs(g, rows, cols, k);
    assert forall|j: int| 0 <= j < tl.len() implies #[trigger] top_left_runs(h, rows, cols, k)[j] == rename(tl[j]) by {
        lemma_rename_ray(g, h, rows, cols, f, Direction::DownLeft, 0, k - 1 + j, tl[j].len());
    }
    assert(top_left_runs(h, rows, cols, k) =~= tl.map_values(rename));
    let rd = right_down_runs(g, rows, cols, k);
    assert forall|j: int| 0 <= j < rd.len() implies #[trigger] right_down_runs(h, rows, cols, k)[j] == rename(rd[j]) by {
        lemma_rename_ray(g, h, rows, cols, f, Direction::DownLeft, j + 1, cols - 1, rd[j].len());
    }
    assert(right_down_runs(h, rows, cols, k) =~= rd.map_values(rename));
    let e = Seq::<Seq<Option<P>>>::empty();
    assert(e.map_values(rename) =~= e);
    lemma_rename_append(tr, ld, f);
    lemma_rename_append(tr + ld, tl, f);
    lemma_rename_append(tr + ld + tl, rd, f);
    let a = if k <= cols { rr } else { e };
    let b = if k <= rows { cr } else { e };
    let c = if k <= rows && k <= cols { tr + ld + tl + rd } else { e };
    lemma_rename_append(a, b, f);
    lemma_rename_append(a + b, c, f);
    assert(all_runs(h, rows, cols, k) == all_runs(g, rows, cols, k).map_values(rename));
    lemma_rename_runs_winner(all_runs(g, rows, cols, k), f, k);
}

} // verus!
