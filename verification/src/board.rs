//! The board, the sides that play on it, and how one board differs from the
//! next.
use vstd::prelude::*;

verus! {

/// Ten rows of nine cells, each with the letter of its piece, or a blank.
pub type Board = [[char; 9]; 10];

/// The side that plays from the bottom of the screen, as far as it is known.
#[derive(Clone, Copy, Debug, PartialEq, Eq, Structural)]
pub enum Camp {
    Unknown,
    Red,
    Black,
}

impl Camp {
    pub fn is_black(&self) -> (r: bool)
        ensures
            r == (*self == Camp::Black),
    {
        *self == Camp::Black
    }
}

/// One move: who made it, and the cells it went from and to, each written as a
/// letter and a digit.
#[derive(Debug)]
pub struct Changed {
    pub camp: Camp,
    pub from: String,
    pub to: String,
}

impl Default for Changed {
    /// No move at all.
    fn default() -> (r: Changed)
        ensures
            r.camp == Camp::Unknown,
            r.from@ == Seq::<char>::empty(),
            r.to@ == Seq::<char>::empty(),
    {
        Changed { camp: Camp::Unknown, from: String::new(), to: String::new() }
    }
}

impl Clone for Changed {
    fn clone(&self) -> (r: Changed)
        ensures
            r == *self,
    {
        Changed { camp: self.camp, from: self.from.clone(), to: self.to.clone() }
    }
}

/// How far two boards lie apart.
#[derive(Clone, Copy, Debug, PartialEq, Eq, Structural)]
pub enum BoardChangeState {
    /// One piece moved.
    Move,
    /// One cell differs, which no move can do.
    One,
    /// Anything else.
    Unknown,
}

/// Whether every cell of `board` is blank.
pub open spec fn is_blank(board: Board) -> bool {
    forall|row: int, col: int| 0 <= row < 10 && 0 <= col < 9 ==> #[trigger] board@[row]@[col] == ' '
}

pub fn blank_board() -> (board: Board)
    ensures
        is_blank(board),
{
    [[' '; 9]; 10]
}

/// Whether two boards hold the same pieces in the same cells.
pub fn same_board(a: &Board, b: &Board) -> (r: bool)
    ensures
        r == (*a == *b),
{
    let mut row: usize = 0;
    while row < 10
        invariant
            row <= 10,
            forall|i: int| 0 <= i < row ==> #[trigger] a@[i] == b@[i],
        decreases 10 - row,
    {
        let x: [char; 9] = a[row];
        let y: [char; 9] = b[row];
        let mut col: usize = 0;
        while col < 9
            invariant
                row < 10,
                col <= 9,
                x == a@[row as int],
                y == b@[row as int],
                forall|j: int| 0 <= j < col ==> #[trigger] x@[j] == y@[j],
            decreases 9 - col,
        {
            if x[col] != y[col] {
                return false;
            }
            col = col + 1;
        }
        assert(x =~= y);
        row = row + 1;
    }
    assert(*a =~= *b);
    true
}

} // verus!
