//! One round of propagation, and the machine that runs rounds until the board
//! is solved, stuck or contradictory.

use crate::candidates::{candidates, digits, legal_at};
use crate::grid::{put, well_formed, Board};
use crate::open_cells::{
    cell_at, cell_numbers, is_open, lemma_open_cells, open_cells, open_count, open_upto, OpenCells,
};
use crate::seq_facts::lemma_filter_member;
use crate::validator::valid;
use vstd::prelude::*;

verus! {

/// Why propagation gave up.
#[derive(Debug, Clone, Copy, PartialEq, Eq, Structural)]
pub enum SolveError {
    /// The board breaks the uniqueness rule, or some empty cell has no
    /// candidate left.
    InvalidPuzzle,
    /// A round filled nothing although cells are still empty: the puzzle needs
    /// more than naked singles.
    Stalled,
}

/// Where the propagation machine stands.
#[derive(Debug, Clone, Copy, PartialEq, Eq, Structural)]
pub enum Phase {
    /// More rounds are due.
    Propagating,
    /// No cell is empty.
    Solved,
    /// The last round filled nothing and cells are still empty.
    Stalled,
    /// Some empty cell has no candidate left.
    Invalid,
}

/// A board together with the phase of the machine.
pub struct EngineState {
    pub board: Board,
    pub phase: Phase,
}

/// Cell number `k`, if it is empty and has exactly one candidate, filled with
/// that candidate; any other board is left as it is.
pub open spec fn fill_single(b: Board, k: int) -> Board {
    let options = candidates(b, k / 9, k % 9);
    if cell_at(b, k) == 0 && options.len() == 1 {
        put(b, k / 9, k % 9, options[0])
    } else {
        b
    }
}

/// The board after the first `n` cells of `order` were visited in turn, each
/// judged on the board as the visits before it left it.
pub open spec fn sweep(b: Board, order: Seq<int>, n: nat) -> Board
    decreases n,
{
    if n == 0 {
        b
    } else {
        fill_single(sweep(b, order, (n - 1) as nat), order[n - 1])
    }
}

/// The board after one round: every cell that was empty when the round began
/// is visited once, in row-major order.
pub open spec fn round(b: Board) -> Board {
    sweep(b, open_cells(b), open_cells(b).len())
}

/// Some empty cell of the board has no candidate.
pub open spec fn dead_end(b: Board) -> bool {
    exists|k: int|
        0 <= k < 81 && cell_at(b, k) == 0 && #[trigger] candidates(b, k / 9, k % 9).len() == 0
}

/// The phase that a round leads to, from the board before it and after it.
pub open spec fn phase_after(before: Board, after: Board) -> Phase {
    if dead_end(after) {
        Phase::Invalid
    } else if open_count(after) == 0 {
        Phase::Solved
    } else if open_count(after) == open_count(before) {
        Phase::Stalled
    } else {
        Phase::Propagating
    }
}

/// What a caller is told of a phase.
pub open spec fn verdict(phase: Phase) -> Result<(), SolveError> {
    match phase {
        Phase::Propagating | Phase::Solved => Ok(()),
        Phase::Stalled => Err(SolveError::Stalled),
        Phase::Invalid => Err(SolveError::InvalidPuzzle),
    }
}

/// The machine before its first round.
pub open spec fn start(b: Board) -> EngineState {
    EngineState {
        board: b,
        phase: if open_count(b) == 0 {
            Phase::Solved
        } else {
            Phase::Propagating
        },
    }
}

/// One transition: a round while the machine propagates, nothing once it has
/// come to rest.
pub open spec fn step(s: EngineState) -> EngineState {
    if s.phase == Phase::Propagating {
        EngineState { board: round(s.board), phase: phase_after(s.board, round(s.board)) }
    } else {
        s
    }
}

/// The machine after `n` transitions.
pub open spec fn run(s: EngineState, n: nat) -> EngineState
    decreases n,
{
    if n == 0 {
        s
    } else {
        run(step(s), (n - 1) as nat)
    }
}

/// Where the machine ends up on a board: at once invalid if the board breaks
/// the uniqueness rule, else wherever 81 transitions take it.
pub open spec fn solution(b: Board) -> EngineState {
    if valid(b) {
        run(start(b), 81)
    } else {
        EngineState { board: b, phase: Phase::Invalid }
    }
}

/// Every candidate is a digit from 1 to 9.
pub proof fn lemma_candidate_range(b: Board, r: int, c: int, i: int)
    requires
        0 <= i < candidates(b, r, c).len(),
    ensures
        1 <= candidates(b, r, c)[i] <= 9,
        legal_at(b, r, c)(candidates(b, r, c)[i]),
{
    let d = candidates(b, r, c)[i];
    assert(candidates(b, r, c).contains(d));
    lemma_filter_member(digits(), legal_at(b, r, c), d);
    let j = choose|j: int| 0 <= j < digits().len() && digits()[j] == d;
}

/// Writing a digit into a cell keeps the board well formed.
pub proof fn lemma_put_well_formed(b: Board, r: int, c: int, d: u8)
    requires
        well_formed(b),
        0 <= r < 9,
        0 <= c < 9,
        d <= 9,
    ensures
        well_formed(put(b, r, c, d)),
{
    let after = put(b, r, c, d);
    assert forall|i: int| 0 <= i < 9 implies (#[trigger] after[i]).len() == 9 by {
        assert(b[i].len() == 9);
    }
    assert forall|i: int, j: int| 0 <= i < 9 && 0 <= j < 9 implies #[trigger] after[i][j] <= 9 by {
        assert(b[i].len() == 9);
        assert(b[i][j] <= 9);
    }
}

/// Writing into cell number `k` changes that cell and no other.
pub proof fn lemma_put_cell(b: Board, k: int, d: u8, j: int)
    requires
        well_formed(b),
        0 <= k < 81,
        0 <= j < 81,
    ensures
        cell_at(put(b, k / 9, k % 9, d), j) == if j == k {
            d
        } else {
            cell_at(b, j)
        },
{
    assert(b[k / 9].len() == 9);
    assert(b[j / 9].len() == 9);
}

/// Filling an empty cell takes it out of the open cells counted so far.
pub proof fn lemma_fill_counts(b: Board, k: int, d: u8, n: int)
    requires
        well_formed(b),
        0 <= k < 81,
        0 <= n <= 81,
        cell_at(b, k) == 0,
        d != 0,
    ensures
        open_upto(put(b, k / 9, k % 9, d), n).len() + (if n > k {
            1int
        } else {
            0int
        }) == open_upto(b, n).len(),
    decreases n,
{
    let after = put(b, k / 9, k % 9, d);
    reveal(Seq::filter);
    if n == 0 {
        assert(cell_numbers(0).filter(is_open(b)) =~= Seq::<int>::empty());
        assert(cell_numbers(0).filter(is_open(after)) =~= Seq::<int>::empty());
    } else {
        lemma_fill_counts(b, k, d, n - 1);
        assert(cell_numbers(n) =~= cell_numbers(n - 1).push(n - 1));
        cell_numbers(n - 1).lemma_filter_push(n - 1, is_open(b));
        cell_numbers(n - 1).lemma_filter_push(n - 1, is_open(after));
        lemma_put_cell(b, k, d, n - 1);
    }
}

/// An open set that tracks a board has an entry without candidates exactly
/// when the board is at a dead end.
pub proof fn lemma_dead_entry(open: &OpenCells, b: Board)
    requires
        open.tracks(b),
    ensures
        dead_end(b) <==> exists|i: int|
            0 <= i < open.cells@.len() && (#[trigger] open.cells@[i]).candidates@.len() == 0,
{
    lemma_open_cells(b);
    if dead_end(b) {
        let k = choose|k: int|
            0 <= k < 81 && cell_at(b, k) == 0 && #[trigger] candidates(b, k / 9, k % 9).len() == 0;
        let i = choose|i: int| 0 <= i < open_cells(b).len() && open_cells(b)[i] == k;
        assert(open.cells@[i].describes(b, k));
        assert(open.cells@[i].candidates@.len() == 0);
    }
    if exists|i: int|
        0 <= i < open.cells@.len() && (#[trigger] open.cells@[i]).candidates@.len() == 0 {
        let i = choose|i: int|
            0 <= i < open.cells@.len() && (#[trigger] open.cells@[i]).candidates@.len() == 0;
        let k = open_cells(b)[i];
        assert(open.cells@[i].describes(b, k));
        assert(0 <= k < 81 && cell_at(b, k) == 0 && candidates(b, k / 9, k % 9).len() == 0);
    }
}

/// Whether some entry of the open set has no candidate.
pub fn any_without_candidates(open: &OpenCells) -> (dead: bool)
    ensures
        dead == exists|i: int|
            0 <= i < open.cells@.len() && (#[trigger] open.cells@[i]).candidates@.len() == 0,
{
    let mut i: usize = 0;
    while i < open.cells.len()
        invariant
            i <= open.cells@.len(),
            forall|j: int| 0 <= j < i ==> (#[trigger] open.cells@[j]).candidates@.len() != 0,
        decreases open.cells@.len() - i,
    {
        if open.cells[i].candidates.len() == 0 {
            return true;
        }
        i += 1;
    }
    false
}

} // verus!
