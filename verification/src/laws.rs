//! What holds of every board: rounds keep a board sound, never add empty
//! cells, and come to rest within 81 rounds.

use crate::candidates::{candidates, digits, legal_at};
use crate::engine::{
    dead_end, fill_single, lemma_candidate_range, lemma_fill_counts, lemma_put_well_formed, round,
    run, start, step, sweep, EngineState, Phase,
};
use crate::grid::{block_of, column_of, put, region_of, row_of, well_formed, Board};
use crate::open_cells::{
    cell_at, cell_numbers, is_open, lemma_open_cells, open_cells, open_count,
};
use crate::seq_facts::lemma_filter_member;
use crate::validator::{distinct_filled, groups_clear, valid};
use vstd::prelude::*;

verus! {

/// Writing into a cell a digit that its row, its column and its region all
/// lack keeps a sound board sound.
pub proof fn lemma_fill_keeps_valid(b: Board, r: int, c: int, d: u8)
    requires
        well_formed(b),
        valid(b),
        0 <= r < 9,
        0 <= c < 9,
        legal_at(b, r, c)(d),
    ensures
        valid(put(b, r, c, d)),
{
    let a = put(b, r, c, d);
    assert(b[r].len() == 9);
    assert forall|k: int| 0 <= k < 9 implies #[trigger] groups_clear(a, k) by {
        assert(groups_clear(b, k));
        assert(b[k].len() == 9);
        let old_row = row_of(b, k);
        let new_row = row_of(a, k);
        assert forall|i: int, j: int| 0 <= i < j < new_row.len() && new_row[i] != 0 implies (
        #[trigger] new_row[i]) != (#[trigger] new_row[j]) by {
            if k == r {
                assert(row_of(b, r)[i] == b[r][i] && row_of(b, r)[j] == b[r][j]);
                if i != c && j != c {
                    assert(old_row[i] != old_row[j]);
                }
            } else {
                assert(old_row[i] != old_row[j]);
            }
        }
        let old_col = column_of(b, k);
        let new_col = column_of(a, k);
        assert forall|i: int, j: int| 0 <= i < j < new_col.len() && new_col[i] != 0 implies (
        #[trigger] new_col[i]) != (#[trigger] new_col[j]) by {
            assert(b[i].len() == 9 && b[j].len() == 9);
            if k == c {
                assert(column_of(b, c)[i] == b[i][c] && column_of(b, c)[j] == b[j][c]);
                if i != r && j != r {
                    assert(old_col[i] != old_col[j]);
                }
            } else {
                assert(old_col[i] != old_col[j]);
            }
        }
        let old_block = block_of(b, k);
        let new_block = block_of(a, k);
        assert forall|i: int, j: int| 0 <= i < j < new_block.len() && new_block[i] != 0 implies (
        #[trigger] new_block[i]) != (#[trigger] new_block[j]) by {
            let ri = (k / 3) * 3 + i / 3;
            let ci = (k % 3) * 3 + i % 3;
            let rj = (k / 3) * 3 + j / 3;
            let cj = (k % 3) * 3 + j % 3;
            assert(b[ri].len() == 9 && b[rj].len() == 9);
            assert(old_block[i] == b[ri][ci] && old_block[j] == b[rj][cj]);
            if k == region_of(r, c) {
                let whole = block_of(b, region_of(r, c));
                assert(whole[i] == b[ri][ci] && whole[j] == b[rj][cj]);
                if !(ri == r && ci == c) && !(rj == r && cj == c) {
                    assert(old_block[i] != old_block[j]);
                }
            } else {
                assert(old_block[i] != old_block[j]);
            }
        }
    }
}

/// A visit keeps the board well formed, adds no empty cell, and keeps a sound
/// board sound.
pub proof fn lemma_fill_single(b: Board, k: int)
    requires
        well_formed(b),
        0 <= k < 81,
    ensures
        well_formed(fill_single(b, k)),
        open_count(fill_single(b, k)) <= open_count(b),
        fill_single(b, k) != b ==> open_count(fill_single(b, k)) < open_count(b),
        valid(b) ==> valid(fill_single(b, k)),
{
    let options = candidates(b, k / 9, k % 9);
    if cell_at(b, k) == 0 && options.len() == 1 {
        lemma_candidate_range(b, k / 9, k % 9, 0);
        lemma_put_well_formed(b, k / 9, k % 9, options[0]);
        lemma_fill_counts(b, k, options[0], 81);
        if valid(b) {
            lemma_fill_keeps_valid(b, k / 9, k % 9, options[0]);
        }
    }
}

/// A sweep keeps the board well formed, adds no empty cell, and keeps a sound
/// board sound.
pub proof fn lemma_sweep(b: Board, order: Seq<int>, n: nat)
    requires
        well_formed(b),
        n <= order.len(),
        forall|i: int| 0 <= i < order.len() ==> 0 <= #[trigger] order[i] < 81,
    ensures
        well_formed(sweep(b, order, n)),
        open_count(sweep(b, order, n)) <= open_count(b),
        sweep(b, order, n) != b ==> open_count(sweep(b, order, n)) < open_count(b),
        valid(b) ==> valid(sweep(b, order, n)),
    decreases n,
{
    if n > 0 {
        lemma_sweep(b, order, (n - 1) as nat);
        lemma_fill_single(sweep(b, order, (n - 1) as nat), order[n - 1]);
    }
}

/// A round keeps the board well formed and sound, and the number of empty
/// cells never grows from one round to the next; it shrinks whenever the round
/// changes the board.
pub proof fn lemma_round(b: Board)
    requires
        well_formed(b),
    ensures
        well_formed(round(b)),
        open_count(round(b)) <= open_count(b),
        round(b) != b ==> open_count(round(b)) < open_count(b),
        valid(b) ==> valid(round(b)),
{
    lemma_open_cells(b);
    lemma_sweep(b, open_cells(b), open_cells(b).len());
}

/// A board has at most 81 empty cells.
pub proof fn lemma_open_count_bound(b: Board)
    ensures
        open_count(b) <= 81,
{
    cell_numbers(81).lemma_filter_len(is_open(b));
}

/// A well-formed board without empty cells holds a digit from 1 to 9 in
/// every cell.
pub proof fn lemma_complete(b: Board)
    requires
        well_formed(b),
        open_count(b) == 0,
    ensures
        forall|r: int, c: int| 0 <= r < 9 && 0 <= c < 9 ==> 1 <= #[trigger] b[r][c] <= 9,
{
    lemma_open_cells(b);
    assert forall|r: int, c: int| 0 <= r < 9 && 0 <= c < 9 implies 1 <= #[trigger] b[r][c]
        <= 9 by {
        let k = r * 9 + c;
        assert(k / 9 == r && k % 9 == c);
        if cell_at(b, k) == 0 {
            assert(open_cells(b).contains(k));
        }
    }
}

/// A group in which two different cells hold the same digit is not free of
/// repeats.
pub proof fn lemma_repeat(cells: Seq<u8>, i: int, j: int)
    requires
        0 <= i < cells.len(),
        0 <= j < cells.len(),
        i != j,
        cells[i] != 0,
        cells[i] == cells[j],
    ensures
        !distinct_filled(cells),
{
    if i < j {
        assert(!(cells[i] != cells[j]));
    } else {
        assert(!(cells[j] != cells[i]));
    }
}

/// Two different cells of one row, one column or one region that hold the
/// same digit make the board unsound.
pub proof fn lemma_shared_digit_invalid(b: Board, r1: int, c1: int, r2: int, c2: int)
    requires
        well_formed(b),
        0 <= r1 < 9 && 0 <= c1 < 9,
        0 <= r2 < 9 && 0 <= c2 < 9,
        r1 != r2 || c1 != c2,
        r1 == r2 || c1 == c2 || region_of(r1, c1) == region_of(r2, c2),
        b[r1][c1] != 0,
        b[r1][c1] == b[r2][c2],
    ensures
        !valid(b),
{
    assert(b[r1].len() == 9 && b[r2].len() == 9);
    if r1 == r2 {
        lemma_repeat(row_of(b, r1), c1, c2);
        assert(!groups_clear(b, r1));
    } else if c1 == c2 {
        lemma_repeat(column_of(b, c1), r1, r2);
        assert(!groups_clear(b, c1));
    } else {
        let k = region_of(r1, c1);
        let i = (r1 % 3) * 3 + c1 % 3;
        let j = (r2 % 3) * 3 + c2 % 3;
        assert(k / 3 == r1 / 3 && k % 3 == c1 / 3);
        assert(k / 3 == r2 / 3 && k % 3 == c2 / 3);
        assert(i / 3 == r1 % 3 && i % 3 == c1 % 3);
        assert(j / 3 == r2 % 3 && j % 3 == c2 % 3);
        assert((k / 3) * 3 + i / 3 == r1 && (k % 3) * 3 + i % 3 == c1);
        assert((k / 3) * 3 + j / 3 == r2 && (k % 3) * 3 + j % 3 == c2);
        lemma_repeat(block_of(b, k), i, j);
        assert(!groups_clear(b, k));
    }
}

/// A machine at rest stays as it is.
pub proof fn lemma_rest(s: EngineState, n: nat)
    requires
        s.phase != Phase::Propagating,
    ensures
        run(s, n) == s,
    decreases n,
{
    if n > 0 {
        lemma_rest(s, (n - 1) as nat);
    }
}

/// While the machine propagates, every transition fills at least one cell.
pub proof fn lemma_run_progress(s: EngineState, n: nat)
    requires
        well_formed(s.board),
        s.phase == Phase::Propagating ==> open_count(s.board) > 0,
    ensures
        well_formed(run(s, n).board),
        run(s, n).phase == Phase::Propagating ==> open_count(run(s, n).board) > 0 && open_count(
            run(s, n).board,
        ) + n <= open_count(s.board),
        valid(s.board) ==> valid(run(s, n).board),
    decreases n,
{
    if n > 0 {
        if s.phase == Phase::Propagating {
            lemma_round(s.board);
        }
        lemma_run_progress(step(s), (n - 1) as nat);
        if step(s).phase != Phase::Propagating {
            lemma_rest(step(s), (n - 1) as nat);
        }
    }
}

/// From any well-formed board the machine has come to rest after 81 rounds:
/// it is solved, stalled or invalid.
pub proof fn lemma_terminates(b: Board)
    requires
        well_formed(b),
    ensures
        run(start(b), 81).phase != Phase::Propagating,
{
    lemma_open_count_bound(b);
    lemma_run_progress(start(b), 81);
}

/// A round that leaves the number of empty cells as it was, with cells still
/// empty and none of them without candidates, stalls the machine, and no
/// further round changes anything.
pub proof fn lemma_unchanged_stalls(b: Board, n: nat)
    requires
        well_formed(b),
        open_count(b) > 0,
        open_count(round(b)) == open_count(b),
        !dead_end(round(b)),
    ensures
        round(b) == b,
        step(start(b)) == (EngineState { board: b, phase: Phase::Stalled }),
        run(step(start(b)), n) == step(start(b)),
{
    lemma_round(b);
    lemma_rest(step(start(b)), n);
}

/// A sweep over cells of which none is empty with a single candidate leaves
/// the board as it is.
pub proof fn lemma_idle_sweep(b: Board, order: Seq<int>, n: nat)
    requires
        n <= order.len(),
        forall|i: int|
            0 <= i < order.len() ==> !(cell_at(b, #[trigger] order[i]) == 0 && candidates(
                b,
                order[i] / 9,
                order[i] % 9,
            ).len() == 1),
    ensures
        sweep(b, order, n) == b,
    decreases n,
{
    if n > 0 {
        lemma_idle_sweep(b, order, (n - 1) as nat);
        assert(!(cell_at(b, order[n - 1]) == 0 && candidates(
            b,
            order[n - 1] / 9,
            order[n - 1] % 9,
        ).len() == 1));
    }
}

/// A board with empty cells, each of which has two candidates or more, stalls
/// the machine in one round, and the round leaves the board as it is.
pub proof fn lemma_no_single_stalls(b: Board)
    requires
        well_formed(b),
        open_count(b) > 0,
        forall|k: int|
            0 <= k < 81 && cell_at(b, k) == 0 ==> (#[trigger] candidates(b, k / 9, k % 9)).len()
                >= 2,
    ensures
        round(b) == b,
        step(start(b)) == (EngineState { board: b, phase: Phase::Stalled }),
{
    lemma_open_cells(b);
    let order = open_cells(b);
    assert forall|i: int| 0 <= i < order.len() implies !(cell_at(b, #[trigger] order[i]) == 0
        && candidates(b, order[i] / 9, order[i] % 9).len() == 1) by {
        assert(candidates(b, order[i] / 9, order[i] % 9).len() >= 2);
    }
    lemma_idle_sweep(b, order, order.len());
}

/// Filling an empty cell gives no cell a candidate that it did not have
/// before: candidate sets only shrink.
pub proof fn lemma_fill_shrinks(b: Board, r: int, c: int, d: u8, r2: int, c2: int, i: int)
    requires
        well_formed(b),
        0 <= r < 9 && 0 <= c < 9,
        0 <= r2 < 9 && 0 <= c2 < 9,
        b[r][c] == 0,
        0 <= i < candidates(put(b, r, c, d), r2, c2).len(),
    ensures
        candidates(b, r2, c2).contains(candidates(put(b, r, c, d), r2, c2)[i]),
{
    let a = put(b, r, c, d);
    let x = candidates(a, r2, c2)[i];
    lemma_candidate_range(a, r2, c2, i);
    assert(b[r].len() == 9 && b[r2].len() == 9);
    if row_of(b, r2).contains(x) {
        let j = choose|j: int| 0 <= j < row_of(b, r2).len() && row_of(b, r2)[j] == x;
        assert(row_of(a, r2)[j] == x);
    }
    if column_of(b, c2).contains(x) {
        let j = choose|j: int| 0 <= j < column_of(b, c2).len() && column_of(b, c2)[j] == x;
        assert(b[j].len() == 9);
        assert(column_of(a, c2)[j] == x);
    }
    let k = region_of(r2, c2);
    if block_of(b, k).contains(x) {
        let j = choose|j: int| 0 <= j < block_of(b, k).len() && block_of(b, k)[j] == x;
        assert(b[(k / 3) * 3 + j / 3].len() == 9);
        assert(block_of(a, k)[j] == x);
    }
    assert(legal_at(b, r2, c2)(x));
    assert(digits()[x - 1] == x);
    lemma_filter_member(digits(), legal_at(b, r2, c2), x);
}

} // verus!
