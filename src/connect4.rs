//! Connect-4 board: columns of cells filled bottom-up, move legality and
//! detection of a four-in-a-line around the cell just played.
use vstd::prelude::*;

verus! {

/// A board: each column lists its occupied cells from the bottom up, each
/// cell holding the player who owns it. `player` is the side to move next.
pub struct Connect4 {
    pub columns: Vec<Vec<bool>>,
    pub height: u8,
    pub player: bool,
}

/// Why a move was refused.
#[derive(PartialEq, Eq, Structural, Debug, Clone, Copy)]
pub enum MoveError {
    /// The column index is not a column of the board.
    NoSuchColumn,
    /// The column already holds `height` cells.
    ColumnFull,
}

impl Connect4 {
    /// The cells of every column, as sequences.
    pub open spec fn cells(&self) -> Seq<Seq<bool>> {
        self.columns@.map_values(|c: Vec<bool>| c@)
    }

    /// At most `u8::MAX` columns, and no column holds more cells than the
    /// board is tall.
    pub open spec fn wf(&self) -> bool {
        &&& self.columns@.len() <= u8::MAX
        &&& forall|i: int| 0 <= i < self.columns@.len() ==> #[trigger] self.columns@[i]@.len() <= self.height
    }
}

/// Whether `s` holds four consecutive entries equal to `p`.
pub open spec fn has_run(s: Seq<bool>, p: bool) -> bool {
    exists|j: int| 4 <= j <= s.len() && #[trigger] run_ends_at(s, p, j)
}

/// The four entries just before position `j` all equal `p`.
pub open spec fn run_ends_at(s: Seq<bool>, p: bool, j: int) -> bool {
    s[j - 1] == p && s[j - 2] == p && s[j - 3] == p && s[j - 4] == p
}

/// The owner of cell (`c`, `r`), or `!p` where that cell is empty or off the board.
pub open spec fn line_cell(cols: Seq<Seq<bool>>, c: int, r: int, p: bool) -> bool {
    if 0 <= r < cols[c].len() {
        cols[c][r]
    } else {
        !p
    }
}

/// Row `r`, one entry per column.
pub open spec fn row_line(cols: Seq<Seq<bool>>, r: int, p: bool) -> Seq<bool> {
    Seq::new(cols.len(), |i: int| line_cell(cols, i, r, p))
}

/// The diagonal through (`c`, `r`) that rises to the right, one entry per column.
pub open spec fn rising_line(cols: Seq<Seq<bool>>, c: int, r: int, p: bool) -> Seq<bool> {
    Seq::new(cols.len(), |i: int| line_cell(cols, i, r + i - c, p))
}

/// The diagonal through (`c`, `r`) that falls to the right, one entry per column.
pub open spec fn falling_line(cols: Seq<Seq<bool>>, c: int, r: int, p: bool) -> Seq<bool> {
    Seq::new(cols.len(), |i: int| line_cell(cols, i, r + c - i, p))
}

/// The three cells below (`c`, `r`) belong to `p`.
pub open spec fn column_win(cols: Seq<Seq<bool>>, c: int, r: int, p: bool) -> bool {
    r >= 3 && cols[c][r - 1] == p && cols[c][r - 2] == p && cols[c][r - 3] == p
}

/// Player `p`, having just played cell (`c`, `r`), holds four in a line
/// through the column, the row or one of the two diagonals.
pub open spec fn wins_at(cols: Seq<Seq<bool>>, c: int, r: int, p: bool) -> bool {
    ||| column_win(cols, c, r, p)
    ||| has_run(row_line(cols, r, p), p)
    ||| has_run(rising_line(cols, c, r, p), p)
    ||| has_run(falling_line(cols, c, r, p), p)
}

/// An empty board of `num_columns` columns, `height` tall, first player to move.
pub fn connect4_new(num_columns: u8, height: u8) -> (game: Connect4)
    ensures
        game.columns@.len() == num_columns,
        forall|i: int| 0 <= i < num_columns ==> #[trigger] game.columns@[i]@.len() == 0,
        game.height == height,
        game.player == false,
        game.wf(),
{
    let mut columns: Vec<Vec<bool>> = Vec::new();
    let mut k: u8 = 0;
    while k < num_columns
        invariant
            k <= num_columns,
            columns@.len() == k,
            forall|i: int| 0 <= i < k ==> #[trigger] columns@[i]@.len() == 0,
        decreases num_columns - k,
    {
        columns.push(Vec::<bool>::new());
        k = k + 1;
    }
    Connect4 { columns, height, player: false }
}

/// One entry per column: whether that column still has room.
pub fn connect4_legal(game: &Connect4) -> (legal: Vec<bool>)
    ensures
        legal@.len() == game.columns@.len(),
        forall|i: int|
            0 <= i < legal@.len() ==> #[trigger] legal@[i] == (game.columns@[i]@.len() < game.height),
{
    let mut legal: Vec<bool> = Vec::new();
    let mut i: usize = 0;
    while i < game.columns.len()
        invariant
            i <= game.columns@.len(),
            legal@.len() == i,
            forall|j: int| 0 <= j < i ==> #[trigger] legal@[j] == (game.columns@[j]@.len() < game.height),
        decreases game.columns@.len() - i,
    {
        legal.push(game.columns[i].len() < game.height as usize);
        i = i + 1;
    }
    legal
}

/// Whether `sequence` holds four consecutive entries equal to `player`.
pub fn check_contiguous(sequence: &Vec<bool>, player: bool) -> (found: bool)
    ensures
        found == has_run(sequence@, player),
{
    let mut counter: usize = 0;
    let mut i: usize = 0;
    while i < sequence.len()
        invariant
            i <= sequence@.len(),
            counter < 4,
            counter <= i,
            forall|k: int| i - counter <= k < i ==> #[trigger] sequence@[k] == player,
            counter < i ==> sequence@[i - 1 - counter] != player,
            forall|j: int| 4 <= j <= i ==> !#[trigger] run_ends_at(sequence@, player, j),
        decreases sequence@.len() - i,
    {
        if sequence[i] == player {
            counter = counter + 1;
            if counter >= 4 {
                assert(run_ends_at(sequence@, player, i + 1));
                return true;
            }
        } else {
            counter = 0;
        }
        i = i + 1;
        assert(i >= 4 ==> !run_ends_at(sequence@, player, i as int)) by {
            if i >= 4 {
                assert(counter < i);
                assert(sequence@[i - 1 - counter] != player);
            }
        }
    }
    false
}

/// The cells of each column of `cols`, as plain sequences.
pub open spec fn cells_of(cols: Seq<Vec<bool>>) -> Seq<Seq<bool>> {
    cols.map_values(|c: Vec<bool>| c@)
}

fn copy_column(column: &Vec<bool>) -> (copy: Vec<bool>)
    ensures
        copy@ == column@,
{
    let mut copy: Vec<bool> = Vec::new();
    let mut i: usize = 0;
    while i < column.len()
        invariant
            i <= column@.len(),
            copy@ == column@.take(i as int),
        decreases column@.len() - i,
    {
        copy.push(column[i]);
        i = i + 1;
        assert(copy@ =~= column@.take(i as int));
    }
    assert(copy@ =~= column@);
    copy
}

/// The owner of cell (`c`, `r`) of `cols`, or `!p` where that cell is empty.
fn owner_or(cols: &Vec<Vec<bool>>, c: usize, r: usize, p: bool) -> (owner: bool)
    requires
        c < cols@.len(),
    ensures
        owner == line_cell(cells_of(cols@), c as int, r as int, p),
{
    if r < cols[c].len() {
        cols[c][r]
    } else {
        !p
    }
}

/// Drops the mover's piece into column `player_move`. On success returns
/// whether that piece completed four in a line, and the board after the move
/// with the turn passed on.
pub fn connect4_move(player_move: u8, game: &Connect4) -> (result: Result<(bool, Connect4), MoveError>)
    requires
        game.wf(),
    ensures
        player_move >= game.columns@.len() ==> result == Err::<(bool, Connect4), MoveError>(
            MoveError::NoSuchColumn,
        ),
        player_move < game.columns@.len() && game.columns@[player_move as int]@.len() >= game.height
            ==> result == Err::<(bool, Connect4), MoveError>(MoveError::ColumnFull),
        player_move < game.columns@.len() && game.columns@[player_move as int]@.len() < game.height
            ==> match result {
            Ok((end, next)) => {
                let c = player_move as int;
                let r = game.columns@[c]@.len() as int;
                &&& next.cells() == game.cells().update(c, game.cells()[c].push(game.player))
                &&& next.height == game.height
                &&& next.player == !game.player
                &&& next.wf()
                &&& end == wins_at(next.cells(), c, r, game.player)
            },
            Err(_) => false,
        },
{
    let col = player_move as usize;
    if col >= game.columns.len() {
        return Err(MoveError::NoSuchColumn);
    }
    let row = game.columns[col].len();
    if row >= game.height as usize {
        return Err(MoveError::ColumnFull);
    }
    let p = game.player;
    let ghost target = game.cells().update(col as int, game.cells()[col as int].push(p));
    let mut new: Vec<Vec<bool>> = Vec::new();
    let mut i: usize = 0;
    while i < game.columns.len()
        invariant
            i <= game.columns@.len(),
            game.wf(),
            col < game.columns@.len(),
            row == game.columns@[col as int]@.len(),
            target == game.cells().update(col as int, game.cells()[col as int].push(p)),
            new@.len() == i,
            forall|j: int| 0 <= j < i ==> #[trigger] new@[j]@ == target[j],
        decreases game.columns@.len() - i,
    {
        let mut column = copy_column(&game.columns[i]);
        if i == col {
            column.push(p);
        }
        new.push(column);
        i = i + 1;
    }
    assert(cells_of(new@) =~= target);
    let n = new.len();
    let ghost cols = target;

    let mut end = false;
    // three cells of the mover directly below
    if row > 2 && new[col][row - 1] == p && new[col][row - 2] == p && new[col][row - 3] == p {
        end = true;
    }
    assert(end == column_win(cols, col as int, row as int, p));

    let mut query_row: Vec<bool> = Vec::new();
    let mut query_rdiag: Vec<bool> = Vec::new();
    let mut query_ldiag: Vec<bool> = Vec::new();
    let mut i: usize = 0;
    while i < n
        invariant
            n == new@.len(),
            cells_of(new@) == cols,
            cols.len() == n,
            col < n,
            n <= 255,
            row <= 255,
            i <= n,
            query_row@.len() == i,
            query_rdiag@.len() == i,
            query_ldiag@.len() == i,
            forall|j: int| 0 <= j < i ==> #[trigger] query_row@[j] == row_line(cols, row as int, p)[j],
            forall|j: int|
                0 <= j < i ==> #[trigger] query_rdiag@[j] == rising_line(cols, col as int, row as int, p)[j],
            forall|j: int|
                0 <= j < i ==> #[trigger] query_ldiag@[j] == falling_line(cols, col as int, row as int, p)[j],
        decreases n - i,
    {
        query_row.push(owner_or(&new, i, row, p));
        if i + row >= col {
            query_rdiag.push(owner_or(&new, i, i + row - col, p));
        } else {
            query_rdiag.push(!p);
        }
        if row + col >= i {
            query_ldiag.push(owner_or(&new, i, row + col - i, p));
        } else {
            query_ldiag.push(!p);
        }
        i = i + 1;
    }
    assert(query_row@ =~= row_line(cols, row as int, p));
    assert(query_rdiag@ =~= rising_line(cols, col as int, row as int, p));
    assert(query_ldiag@ =~= falling_line(cols, col as int, row as int, p));
    if check_contiguous(&query_row, p) {
        end = true;
    }
    if check_contiguous(&query_rdiag, p) {
        end = true;
    }
    if check_contiguous(&query_ldiag, p) {
        end = true;
    }
    let next = Connect4 { columns: new, height: game.height, player: !p };
    assert(next.cells() =~= cols);
    Ok((end, next))
}

} // verus!
