//! A solving session: the table, its open set, and the operations on them.

use crate::candidates::{candidate_digits, candidates};
use crate::engine::{
    any_without_candidates, lemma_candidate_range, lemma_dead_entry, lemma_fill_counts,
    lemma_put_cell, lemma_put_well_formed, phase_after, round, run, solution, start, step, sweep,
    verdict, Phase, SolveError,
};
use crate::laws::{lemma_complete, lemma_open_count_bound, lemma_rest, lemma_round};
use crate::grid::{board_of, put, region_of, well_formed, write_cell, Board};
use crate::open_cells::{cell_at, lemma_open_cells, open_cells, open_count, scan, OpenCells};
use crate::validator::{check_groups, valid};
use vstd::prelude::*;

verus! {

/// Why a table of rows is no sudoku board.
#[derive(Debug, Clone, Copy, PartialEq, Eq, Structural)]
pub enum InputError {
    /// A cell holds a value above 9.
    ImproperCell,
    /// A row does not have nine cells.
    ColumnCount,
    /// There is no row at all.
    Empty,
    /// The rows are not nine.
    RowCount,
}

/// What is wrong with one row, if anything: a cell above 9 is reported before
/// a wrong length.
pub open spec fn row_fault(row: Seq<u8>) -> Option<InputError> {
    if exists|c: int| 0 <= c < row.len() && row[c] > 9 {
        Some(InputError::ImproperCell)
    } else if row.len() != 9 {
        Some(InputError::ColumnCount)
    } else {
        None
    }
}

/// The fault of the first faulty row from `from` on.
pub open spec fn rows_fault(rows: Seq<Seq<u8>>, from: int) -> Option<InputError>
    decreases rows.len() - from,
{
    if from < 0 || from >= rows.len() {
        None
    } else if row_fault(rows[from]).is_some() {
        row_fault(rows[from])
    } else {
        rows_fault(rows, from + 1)
    }
}

/// What is wrong with a table of rows, if anything: the first faulty row is
/// reported before a wrong number of rows.
pub open spec fn table_fault(rows: Seq<Seq<u8>>) -> Option<InputError> {
    if rows_fault(rows, 0).is_some() {
        rows_fault(rows, 0)
    } else if rows.len() == 0 {
        Some(InputError::Empty)
    } else if rows.len() != 9 {
        Some(InputError::RowCount)
    } else {
        None
    }
}

/// No row from `from` on is faulty exactly when each of them has nine cells
/// of at most 9.
pub proof fn lemma_rows_fault(rows: Seq<Seq<u8>>, from: int)
    requires
        0 <= from,
    ensures
        rows_fault(rows, from).is_none() <==> forall|r: int|
            from <= r < rows.len() ==> row_fault(#[trigger] rows[r]).is_none(),
    decreases rows.len() - from,
{
    if from < rows.len() {
        lemma_rows_fault(rows, from + 1);
    }
}

/// A table of rows is without fault exactly when it is a well-formed board.
pub proof fn lemma_table_fault(rows: Seq<Seq<u8>>)
    ensures
        table_fault(rows).is_none() <==> well_formed(rows),
{
    lemma_rows_fault(rows, 0);
    if well_formed(rows) {
        assert forall|r: int| 0 <= r < rows.len() implies row_fault(#[trigger] rows[r]).is_none() by {
            assert(rows[r].len() == 9);
            assert forall|c: int| 0 <= c < rows[r].len() implies rows[r][c] <= 9 by {}
        }
    }
    if table_fault(rows).is_none() {
        assert forall|r: int| 0 <= r < 9 implies (#[trigger] rows[r]).len() == 9 by {
            assert(row_fault(rows[r]).is_none());
        }
        assert forall|r: int, c: int| 0 <= r < 9 && 0 <= c < 9 implies #[trigger] rows[r][c]
            <= 9 by {
            assert(row_fault(rows[r]).is_none());
        }
    }
}

/// A sudoku table and the empty cells that are still to be filled.
#[derive(Debug, Clone, PartialEq, Eq)]
pub struct Sudoku {
    /// The table, row by row; `0` marks an empty cell.
    pub table: Vec<Vec<u8>>,
    /// The empty cells with their candidates, once they have been scanned.
    pub empty_cells: OpenCells,
}

impl Sudoku {
    /// The board that the table stands for.
    pub open spec fn board(&self) -> Board {
        board_of(self.table@)
    }

    /// The table is nine rows of nine cells, each empty or a digit.
    pub open spec fn wf(&self) -> bool {
        well_formed(self.board())
    }

    /// The open set is that of the table as it stands.
    pub open spec fn scanned(&self) -> bool {
        self.empty_cells.tracks(self.board())
    }

    /// Takes a table of rows as a board, with nothing scanned yet.
    pub fn from(rows: Vec<Vec<u8>>) -> (made: Result<Sudoku, InputError>)
        ensures
            made.is_ok() <==> well_formed(board_of(rows@)),
            match made {
                Ok(sudoku) => sudoku.table == rows && sudoku.empty_cells.cells@.len() == 0,
                Err(fault) => table_fault(board_of(rows@)) == Some(fault),
            },
    {
        let ghost b = board_of(rows@);
        proof {
            lemma_table_fault(b);
        }
        let mut r: usize = 0;
        while r < rows.len()
            invariant
                r <= rows.len(),
                b == board_of(rows@),
                rows_fault(b, r as int) == rows_fault(b, 0),
                table_fault(b).is_none() <==> well_formed(b),
            decreases rows.len() - r,
        {
            let row = &rows[r];
            let mut c: usize = 0;
            while c < row.len()
                invariant
                    c <= row.len(),
                    r < rows.len(),
                    b == board_of(rows@),
                    row@ == b[r as int],
                    rows_fault(b, r as int) == rows_fault(b, 0),
                    table_fault(b).is_none() <==> well_formed(b),
                    forall|i: int| 0 <= i < c ==> row@[i] <= 9,
                decreases row.len() - c,
            {
                if row[c] > 9 {
                    return Err(InputError::ImproperCell);
                }
                c += 1;
            }
            if row.len() != 9 {
                return Err(InputError::ColumnCount);
            }
            r += 1;
        }
        if rows.len() == 0 {
            return Err(InputError::Empty);
        } else if rows.len() != 9 {
            return Err(InputError::RowCount);
        }
        Ok(Sudoku { table: rows, empty_cells: OpenCells { cells: Vec::new() } })
    }

    /// Checks the uniqueness rule on all 27 groups of the table.
    pub fn is_valid(&self) -> (checked: Result<(), SolveError>)
        requires
            self.wf(),
        ensures
            checked == if valid(self.board()) {
                Ok::<(), SolveError>(())
            } else {
                Err::<(), SolveError>(SolveError::InvalidPuzzle)
            },
    {
        if check_groups(&self.table) {
            Ok(())
        } else {
            Err(SolveError::InvalidPuzzle)
        }
    }

    /// Scans the table and records every empty cell with its candidates.
    pub fn get_empty_cells(&mut self)
        requires
            old(self).wf(),
        ensures
            final(self).table == old(self).table,
            final(self).scanned(),
    {
        self.empty_cells = scan(&self.table);
    }

    /// The digits that may go into the cell at `coord` (row, column, region):
    /// those that none of the three groups holds, ascending.
    pub fn possible_vals(&self, coord: &(usize, usize, usize)) -> (vals: Vec<u8>)
        requires
            self.wf(),
            coord.0 < 9,
            coord.1 < 9,
            coord.2 == region_of(coord.0 as int, coord.1 as int),
        ensures
            vals@ == candidates(self.board(), coord.0 as int, coord.1 as int),
    {
        candidate_digits(&self.table, coord.0, coord.1)
    }

    /// One round of propagation. Every cell of the open set is visited in
    /// row-major order and filled if, on the table as it then stands, it has
    /// exactly one candidate; then the open set is scanned afresh.
    pub fn fill_sure_places(&mut self) -> (outcome: Result<(), SolveError>)
        requires
            old(self).wf(),
            old(self).scanned(),
        ensures
            final(self).wf(),
            final(self).scanned(),
            final(self).board() == round(old(self).board()),
            open_count(final(self).board()) <= open_count(old(self).board()),
            valid(old(self).board()) ==> valid(final(self).board()),
            outcome == verdict(phase_after(old(self).board(), final(self).board())),
    {
        let ghost b0 = self.board();
        let ghost order = open_cells(b0);
        let n = self.empty_cells.cells.len();
        let mut filled: usize = 0;
        let mut i: usize = 0;
        proof {
            lemma_round(b0);
            lemma_open_cells(b0);
        }
        while i < n
            invariant
                i <= n,
                n == order.len(),
                order == open_cells(b0),
                self.empty_cells == old(self).empty_cells,
                self.empty_cells.tracks(b0),
                order.no_duplicates(),
                forall|j: int| 0 <= j < n ==> 0 <= #[trigger] order[j] < 81,
                self.wf(),
                self.board() == sweep(b0, order, i as nat),
                forall|j: int| i <= j < n ==> cell_at(self.board(), #[trigger] order[j]) == 0,
                open_count(self.board()) + filled == n,
                filled <= i,
            decreases n - i,
        {
            let ghost b = self.board();
            let ghost k = order[i as int];
            let row = self.empty_cells.cells[i].row;
            let col = self.empty_cells.cells[i].col;
            assert(self.empty_cells.cells@[i as int].describes(b0, k));
            let options = candidate_digits(&self.table, row, col);
            if options.len() == 1 {
                let digit = options[0];
                proof {
                    lemma_candidate_range(b, k / 9, k % 9, 0);
                    lemma_put_well_formed(b, k / 9, k % 9, digit);
                    lemma_fill_counts(b, k, digit, 81);
                    assert forall|j: int| i + 1 <= j < n implies cell_at(
                        put(b, k / 9, k % 9, digit),
                        #[trigger] order[j],
                    ) == 0 by {
                        lemma_put_cell(b, k, digit, order[j]);
                    }
                }
                write_cell(&mut self.table, row, col, digit);
                filled += 1;
            }
            i += 1;
        }
        self.empty_cells = scan(&self.table);
        proof {
            lemma_dead_entry(&self.empty_cells, self.board());
        }
        if any_without_candidates(&self.empty_cells) {
            Err(SolveError::InvalidPuzzle)
        } else if self.empty_cells.is_empty() {
            Ok(())
        } else if filled == 0 {
            Err(SolveError::Stalled)
        } else {
            Ok(())
        }
    }

    /// Solves the table as far as naked singles go: checks the uniqueness
    /// rule, scans the empty cells, and runs rounds until no cell is empty, a
    /// round fills nothing, or an empty cell is left without candidates.
    pub fn solve(&mut self) -> (outcome: Result<(), SolveError>)
        requires
            old(self).wf(),
        ensures
            final(self).wf(),
            final(self).board() == solution(old(self).board()).board,
            outcome == verdict(solution(old(self).board()).phase),
            valid(old(self).board()) ==> final(self).scanned(),
            !valid(old(self).board()) ==> *final(self) == *old(self),
            outcome.is_ok() ==> valid(final(self).board()) && forall|r: int, c: int|
                0 <= r < 9 && 0 <= c < 9 ==> 1 <= #[trigger] final(self).board()[r][c] <= 9,
    {
        let ghost b0 = self.board();
        if !check_groups(&self.table) {
            return Err(SolveError::InvalidPuzzle);
        }
        self.empty_cells = scan(&self.table);
        let ghost mut rounds: nat = 0;
        proof {
            lemma_open_count_bound(b0);
        }
        while !self.empty_cells.is_empty()
            invariant
                self.wf(),
                self.scanned(),
                valid(self.board()),
                b0 == old(self).board(),
                valid(b0),
                rounds + open_count(self.board()) <= 81,
                run(start(b0), 81) == run(start(self.board()), (81 - rounds) as nat),
            decreases self.empty_cells.cells@.len(),
        {
            let ghost b = self.board();
            let outcome = self.fill_sure_places();
            proof {
                let next = step(start(b));
                assert(next.board == self.board());
                assert(run(start(b), (81 - rounds) as nat) == run(next, (80 - rounds) as nat));
                if next.phase != Phase::Propagating {
                    lemma_rest(next, (80 - rounds) as nat);
                }
                if next.phase == Phase::Solved || next.phase == Phase::Propagating {
                    assert(next == start(self.board()));
                }
                rounds = rounds + 1;
            }
            match outcome {
                Err(fault) => {
                    return Err(fault);
                },
                Ok(()) => {},
            }
        }
        proof {
            lemma_rest(start(self.board()), (81 - rounds) as nat);
            lemma_complete(self.board());
        }
        Ok(())
    }
}

} // verus!
