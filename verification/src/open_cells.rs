//! The open set: the empty cells of a board, each with its candidates.

use crate::candidates::{candidate_digits, candidates};
use crate::grid::{board_of, region_index, region_of, well_formed, Board};
use crate::seq_facts::{lemma_filter_distinct, lemma_filter_member};
use vstd::prelude::*;

verus! {

/// The value of cell number `k`, cells being numbered row-major from 0 to 80.
pub open spec fn cell_at(b: Board, k: int) -> u8 {
    b[k / 9][k % 9]
}

/// The predicate "cell number `k` is empty".
pub open spec fn is_open(b: Board) -> spec_fn(int) -> bool {
    |k: int| cell_at(b, k) == 0
}

/// The cell numbers below `n`, ascending.
pub open spec fn cell_numbers(n: int) -> Seq<int> {
    Seq::new(n as nat, |k: int| k)
}

/// The numbers of the empty cells among the first `n` cells, ascending.
pub open spec fn open_upto(b: Board, n: int) -> Seq<int> {
    cell_numbers(n).filter(is_open(b))
}

/// The numbers of the empty cells of the board, ascending.
pub open spec fn open_cells(b: Board) -> Seq<int> {
    open_upto(b, 81)
}

/// How many cells of the board are empty.
pub open spec fn open_count(b: Board) -> nat {
    open_cells(b).len()
}

/// An empty cell: where it lies, and which digits may go into it.
#[derive(Debug, Clone, PartialEq, Eq)]
pub struct OpenCell {
    pub row: usize,
    pub col: usize,
    pub region: usize,
    pub candidates: Vec<u8>,
}

/// The empty cells of a board in row-major order, looked up by coordinate.
#[derive(Debug, Clone, PartialEq, Eq)]
pub struct OpenCells {
    pub cells: Vec<OpenCell>,
}

impl OpenCell {
    /// Row, column and region of the cell.
    pub open spec fn key(&self) -> (usize, usize, usize) {
        (self.row, self.col, self.region)
    }

    /// The entry is that of cell number `k` of board `b`, with the candidates
    /// that `b` gives the cell.
    pub open spec fn describes(&self, b: Board, k: int) -> bool {
        &&& self.row == k / 9
        &&& self.col == k % 9
        &&& self.region == region_of(k / 9, k % 9)
        &&& self.candidates@ == candidates(b, k / 9, k % 9)
    }
}

impl OpenCells {
    /// The entries are exactly the empty cells of `b`, in row-major order, each
    /// with the candidates that `b` gives it.
    pub open spec fn tracks(&self, b: Board) -> bool {
        &&& self.cells@.len() == open_cells(b).len()
        &&& forall|i: int|
            0 <= i < self.cells@.len() ==> (#[trigger] self.cells@[i]).describes(
                b,
                open_cells(b)[i],
            )
    }

    /// The index of the first entry from `from` on that lies at `key`, or the
    /// number of entries if there is none.
    pub open spec fn search(&self, key: (usize, usize, usize), from: int) -> int
        decreases self.cells@.len() - from,
    {
        if from < 0 || from >= self.cells@.len() {
            self.cells@.len() as int
        } else if self.cells@[from].key() == key {
            from
        } else {
            self.search(key, from + 1)
        }
    }

    /// The index of the first entry that lies at `key`, or the number of
    /// entries if there is none.
    pub open spec fn index_of(&self, key: (usize, usize, usize)) -> int {
        self.search(key, 0)
    }

    /// Some entry lies at `key`.
    pub open spec fn has_key(&self, key: (usize, usize, usize)) -> bool {
        self.index_of(key) < self.cells@.len()
    }

    /// The number of entries.
    pub fn len(&self) -> (n: usize)
        ensures
            n == self.cells@.len(),
    {
        self.cells.len()
    }

    /// Whether there is no entry.
    pub fn is_empty(&self) -> (none: bool)
        ensures
            none == (self.cells@.len() == 0),
    {
        self.cells.len() == 0
    }

    /// Whether some entry lies at `key`.
    pub fn contains_key(&self, key: &(usize, usize, usize)) -> (found: bool)
        ensures
            found == self.has_key(*key),
    {
        self.get(key).is_some()
    }

    /// The candidates of the first entry that lies at `key`.
    pub fn get(&self, key: &(usize, usize, usize)) -> (found: Option<&Vec<u8>>)
        ensures
            self.has_key(*key) ==> found == Some(&self.cells@[self.index_of(*key)].candidates),
            !self.has_key(*key) ==> found.is_none(),
    {
        let mut i: usize = 0;
        while i < self.cells.len()
            invariant
                i <= self.cells@.len(),
                self.search(*key, i as int) == self.index_of(*key),
            decreases self.cells@.len() - i,
        {
            let entry = &self.cells[i];
            if entry.row == key.0 && entry.col == key.1 && entry.region == key.2 {
                return Some(&entry.candidates);
            }
            i += 1;
        }
        None
    }
}

/// The open set of the table: one scan over all 81 cells.
pub fn scan(table: &Vec<Vec<u8>>) -> (open: OpenCells)
    requires
        well_formed(board_of(table@)),
    ensures
        open.tracks(board_of(table@)),
{
    let ghost b = board_of(table@);
    let mut cells: Vec<OpenCell> = Vec::new();
    let mut row: usize = 0;
    proof {
        reveal(Seq::filter);
        assert(cell_numbers(0).filter(is_open(b)) =~= Seq::<int>::empty());
    }
    while row < 9
        invariant
            row <= 9,
            b == board_of(table@),
            well_formed(b),
            cells@.len() == open_upto(b, row * 9).len(),
            forall|i: int|
                0 <= i < cells@.len() ==> (#[trigger] cells@[i]).describes(
                    b,
                    open_upto(b, row * 9)[i],
                ),
        decreases 9 - row,
    {
        let mut col: usize = 0;
        while col < 9
            invariant
                row < 9,
                col <= 9,
                b == board_of(table@),
                well_formed(b),
                cells@.len() == open_upto(b, row * 9 + col).len(),
                forall|i: int|
                    0 <= i < cells@.len() ==> (#[trigger] cells@[i]).describes(
                        b,
                        open_upto(b, row * 9 + col)[i],
                    ),
            decreases 9 - col,
        {
            let ghost k = row * 9 + col;
            proof {
                assert(cell_numbers(k + 1) =~= cell_numbers(k).push(k));
                cell_numbers(k).lemma_filter_push(k, is_open(b));
                assert(k / 9 == row && k % 9 == col);
                assert(b[row as int].len() == 9);
            }
            if table[row][col] == 0 {
                let region = region_index(row, col);
                let candidates = candidate_digits(table, row, col);
                cells.push(OpenCell { row, col, region, candidates });
            }
            col += 1;
        }
        row += 1;
    }
    OpenCells { cells }
}

/// The numbers of the empty cells are distinct, each names an empty cell of
/// the board, and every empty cell is among them.
pub proof fn lemma_open_cells(b: Board)
    ensures
        open_cells(b).no_duplicates(),
        forall|i: int|
            0 <= i < open_cells(b).len() ==> 0 <= #[trigger] open_cells(b)[i] < 81 && cell_at(
                b,
                open_cells(b)[i],
            ) == 0,
        forall|k: int| 0 <= k < 81 && cell_at(b, k) == 0 ==> open_cells(b).contains(k),
{
    lemma_filter_distinct(cell_numbers(81), is_open(b));
    assert forall|i: int| 0 <= i < open_cells(b).len() implies 0 <= #[trigger] open_cells(b)[i]
        < 81 && cell_at(b, open_cells(b)[i]) == 0 by {
        let k = open_cells(b)[i];
        assert(open_cells(b).contains(k));
        lemma_filter_member(cell_numbers(81), is_open(b), k);
        let j = choose|j: int| 0 <= j < cell_numbers(81).len() && cell_numbers(81)[j] == k;
    }
    assert forall|k: int| 0 <= k < 81 && cell_at(b, k) == 0 implies open_cells(b).contains(k) by {
        assert(cell_numbers(81)[k] == k);
        lemma_filter_member(cell_numbers(81), is_open(b), k);
    }
}

/// A search from `from` on ends at the first entry that lies at `key`, or
/// past the last entry if none does.
pub proof fn lemma_search(open: &OpenCells, key: (usize, usize, usize), from: int)
    requires
        0 <= from <= open.cells@.len(),
    ensures
        from <= open.search(key, from) <= open.cells@.len(),
        open.search(key, from) < open.cells@.len() ==> open.cells@[open.search(key, from)].key()
            == key,
        forall|i: int| from <= i < open.search(key, from) ==> (#[trigger] open.cells@[i]).key() != key,
    decreases open.cells@.len() - from,
{
    if from < open.cells@.len() && open.cells@[from].key() != key {
        lemma_search(open, key, from + 1);
    }
}

/// An open set that tracks a board has an entry at a coordinate exactly when
/// the coordinate names an empty cell of the board, and the entry then holds
/// the candidates that the board gives the cell.
pub proof fn lemma_tracked_key(open: &OpenCells, b: Board, key: (usize, usize, usize))
    requires
        well_formed(b),
        open.tracks(b),
    ensures
        open.has_key(key) <==> key.0 < 9 && key.1 < 9 && key.2 == region_of(
            key.0 as int,
            key.1 as int,
        ) && b[key.0 as int][key.1 as int] == 0,
        open.has_key(key) ==> open.cells@[open.index_of(key)].candidates@ == candidates(
            b,
            key.0 as int,
            key.1 as int,
        ),
{
    lemma_open_cells(b);
    lemma_search(open, key, 0);
    let at = open.index_of(key);
    if open.has_key(key) {
        assert(open.cells@[at].describes(b, open_cells(b)[at]));
    }
    if key.0 < 9 && key.1 < 9 && key.2 == region_of(key.0 as int, key.1 as int)
        && b[key.0 as int][key.1 as int] == 0 {
        let k: int = key.0 * 9 + key.1;
        assert(k / 9 == key.0 && k % 9 == key.1);
        assert(0 <= k < 81 && cell_at(b, k) == 0);
        assert(open_cells(b).contains(k));
        let i = choose|i: int| 0 <= i < open_cells(b).len() && open_cells(b)[i] == k;
        assert(open.cells@[i].describes(b, k));
        assert(open.cells@[i].key() == key);
    }
}

} // verus!
