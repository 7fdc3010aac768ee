//! Bingo on five-by-five boards: marking drawn numbers and finding winners.

use vstd::prelude::*;

verus! {

#[derive(Debug, Copy, Clone, PartialEq, Eq, Structural)]
pub struct Cell {
    pub value: u64,
    pub marked: bool,
}

pub type Row = [Cell; 5];

pub type Board = [Row; 5];

impl Cell {
    /// An unmarked cell.
    pub fn new(value: u64) -> (r: Cell)
        ensures
            r == (Cell { value, marked: false }),
    {
        Cell { value, marked: false }
    }
}

/// Every cell of the row is marked.
pub open spec fn row_complete(row: Row) -> bool {
    forall|i: int| 0 <= i < 5 ==> (#[trigger] row[i]).marked
}

/// Every cell of column `c` is marked.
pub open spec fn column_complete(board: Board, c: int) -> bool {
    forall|r: int| 0 <= r < 5 ==> (#[trigger] board[r][c]).marked
}

pub open spec fn has_complete_row(board: Board) -> bool {
    exists|r: int| 0 <= r < 5 && row_complete(#[trigger] board[r])
}

pub open spec fn has_complete_column(board: Board) -> bool {
    exists|c: int| 0 <= c < 5 && #[trigger] column_complete(board, c)
}

/// A board wins once a whole row or a whole column is marked.
pub open spec fn wins(board: Board) -> bool {
    has_complete_row(board) || has_complete_column(board)
}

/// `cell` after `number` is drawn.
pub open spec fn marked_with(cell: Cell, number: u64) -> Cell {
    Cell { value: cell.value, marked: cell.marked || cell.value == number }
}

/// `after` is `before` with every cell holding `number` marked.
pub open spec fn board_marked(before: Board, after: Board, number: u64) -> bool {
    forall|r: int, c: int| 0 <= r < 5 && 0 <= c < 5 ==> #[trigger] after[r][c] == marked_with(before[r][c], number)
}

pub fn check_row(row: &Row) -> (r: bool)
    ensures
        r == row_complete(*row),
{
    let mut i: usize = 0;
    while i < 5
        invariant
            i <= 5,
            forall|k: int| 0 <= k < i ==> (#[trigger] row[k]).marked,
        decreases 5 - i,
    {
        if !row[i].marked {
            return false;
        }
        i += 1;
    }
    true
}

/// Whether some row of the board is complete.
pub fn check_rouws(board: &Board) -> (r: bool)
    ensures
        r == has_complete_row(*board),
{
    let mut i: usize = 0;
    while i < 5
        invariant
            i <= 5,
            forall|k: int| 0 <= k < i ==> !row_complete(#[trigger] board[k]),
        decreases 5 - i,
    {
        if check_row(&board[i]) {
            return true;
        }
        i += 1;
    }
    false
}

pub fn check_columns(board: &Board) -> (r: bool)
    ensures
        r == has_complete_column(*board),
{
    let mut i: usize = 0;
    while i < 5
        invariant
            i <= 5,
            forall|k: int| 0 <= k < i ==> !#[trigger] column_complete(*board, k),
        decreases 5 - i,
    {
        let column: Row = [board[0][i], board[1][i], board[2][i], board[3][i], board[4][i]];
        let complete = check_row(&column);
        proof {
            assert forall|r: int| 0 <= r < 5 implies column[r] == board[r][i as int] by {
                if r == 0 {
                } else if r == 1 {
                } else if r == 2 {
                } else if r == 3 {
                } else {
                }
            }
            if complete {
                assert(column_complete(*board, i as int));
            } else {
                let k = choose|k: int| 0 <= k < 5 && !(#[trigger] column[k]).marked;
                assert(!board[k][i as int].marked);
            }
        }
        if complete {
            return true;
        }
        i += 1;
    }
    false
}

pub fn check_board(board: &Board) -> (r: bool)
    ensures
        r == wins(*board),
{
    check_rouws(board) || check_columns(board)
}

/// `board` with every cell holding `number` marked.
fn mark_board(board: &Board, number: u64) -> (r: Board)
    ensures
        board_marked(*board, r, number),
{
    let mut out = *board;
    let mut i: usize = 0;
    while i < 5
        invariant
            i <= 5,
            forall|r: int, c: int| 0 <= r < i && 0 <= c < 5 ==> #[trigger] out[r][c] == marked_with(board[r][c], number),
            forall|r: int| i <= r < 5 ==> #[trigger] out[r] == board[r],
        decreases 5 - i,
    {
        let mut row = out[i];
        let mut j: usize = 0;
        while j < 5
            invariant
                i < 5,
                j <= 5,
                forall|c: int| 0 <= c < j ==> #[trigger] row[c] == marked_with(board[i as int][c], number),
                forall|c: int| j <= c < 5 ==> #[trigger] row[c] == board[i as int][c],
            decreases 5 - j,
        {
            let cell = row[j];
            row[j] = Cell { value: cell.value, marked: cell.marked || cell.value == number };
            j += 1;
        }
        out[i] = row;
        i += 1;
    }
    out
}

/// Marks `number` on every board and returns the first board, after
/// marking, that wins; `None` when none does.
pub fn play_round(number: &u64, data: &mut Vec<Board>) -> (r: Option<Board>)
    ensures
        final(data)@.len() == old(data)@.len(),
        forall|b: int| 0 <= b < old(data)@.len() ==> board_marked(old(data)@[b], #[trigger] final(data)@[b], *number),
        r is None ==> forall|b: int| 0 <= b < final(data)@.len() ==> !wins(#[trigger] final(data)@[b]),
        r matches Some(w) ==> exists|b: int|
            0 <= b < final(data)@.len() && w == final(data)@[b] && wins(w) && forall|k: int| 0 <= k < b ==> !wins(#[trigger] final(data)@[k]),
{
    let ghost before = data@;
    let mut winner: Option<Board> = None;
    let mut b: usize = 0;
    while b < data.len()
        invariant
            b <= data@.len(),
            data@.len() == before.len(),
            forall|k: int| 0 <= k < b ==> board_marked(before[k], #[trigger] data@[k], *number),
            forall|k: int| b <= k < data@.len() ==> #[trigger] data@[k] == before[k],
            winner is None ==> forall|k: int| 0 <= k < b ==> !wins(#[trigger] data@[k]),
            winner matches Some(w) ==> exists|k: int|
                0 <= k < b && w == data@[k] && wins(w) && forall|m: int| 0 <= m < k ==> !wins(#[trigger] data@[m]),
        decreases data@.len() - b,
    {
        let marked = mark_board(&data[b], *number);
        let ghost d0 = data@;
        let ghost w0 = winner;
        data[b] = marked;
        proof {
            assert forall|k: int| 0 <= k < b implies #[trigger] data@[k] == d0[k] by {}
            if w0 is Some {
                let w = w0->0;
                let k = choose|k: int|
                    0 <= k < b && w == d0[k] && wins(w) && forall|m: int| 0 <= m < k ==> !wins(#[trigger] d0[m]);
                assert(data@[k] == d0[k]);
                assert forall|m: int| 0 <= m < k implies !wins(#[trigger] data@[m]) by {
                    assert(data@[m] == d0[m]);
                }
            }
        }
        if check_board(&marked) {
            if winner.is_none() {
                winner = Some(marked);
                proof {
                    assert(data@[b as int] == marked);
                }
            }
        }
        b += 1;
    }
    winner
}

} // verus!
