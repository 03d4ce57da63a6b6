//! The uniqueness rule: no row, column or region holds a digit twice.

use crate::grid::{
    block_of, board_of, column_cells, column_of, region_cells, row_of, well_formed, Board,
};
use std::collections::HashSet;
use vstd::prelude::*;

verus! {

/// No filled cell of the group shares its digit with another cell; empty
/// cells never count as repeats of one another.
pub open spec fn distinct_filled(cells: Seq<u8>) -> bool {
    forall|i: int, j: int|
        0 <= i < j < cells.len() && cells[i] != 0 ==> #[trigger] cells[i] != #[trigger] cells[j]
}

/// Row `k`, column `k` and region `k` are each free of repeated digits.
pub open spec fn groups_clear(b: Board, k: int) -> bool {
    &&& distinct_filled(row_of(b, k))
    &&& distinct_filled(column_of(b, k))
    &&& distinct_filled(block_of(b, k))
}

/// All 27 constraint groups are free of repeated digits.
pub open spec fn valid(b: Board) -> bool {
    forall|k: int| 0 <= k < 9 ==> #[trigger] groups_clear(b, k)
}

/// Whether some digit fills two cells of the group.
pub fn has_repeat(cells: &Vec<u8>) -> (repeated: bool)
    ensures
        repeated == !distinct_filled(cells@),
{
    broadcast use vstd::std_specs::hash::group_hash_axioms;

    let mut seen: HashSet<u8> = HashSet::new();
    let mut i: usize = 0;
    while i < cells.len()
        invariant
            i <= cells.len(),
            forall|v: u8|
                seen@.contains(v) <==> v != 0 && exists|j: int| 0 <= j < i && cells@[j] == v,
            forall|a: int, b: int|
                0 <= a < b < i && cells@[a] != 0 ==> #[trigger] cells@[a] != #[trigger] cells@[b],
        decreases cells.len() - i,
    {
        let digit = cells[i];
        if digit != 0 && !seen.insert(digit) {
            proof {
                let j = choose|j: int| 0 <= j < i && cells@[j] == digit;
                assert(cells@[j] == cells@[i as int]);
            }
            return true;
        }
        proof {
            assert forall|v: u8|
                seen@.contains(v) <==> v != 0 && exists|j: int|
                    0 <= j < i + 1 && cells@[j] == v by {
                if v != 0 && exists|j: int| 0 <= j < i + 1 && cells@[j] == v {
                    let j = choose|j: int| 0 <= j < i + 1 && cells@[j] == v;
                    if j < i {
                        assert(exists|j: int| 0 <= j < i && cells@[j] == v);
                    }
                }
                if seen@.contains(v) && v != digit {
                    let j = choose|j: int| 0 <= j < i && cells@[j] == v;
                    assert(0 <= j < i + 1 && cells@[j] == v);
                }
                if seen@.contains(v) && v == digit && digit != 0 {
                    assert(0 <= i < i + 1 && cells@[i as int] == v);
                }
            }
        }
        i += 1;
    }
    false
}

/// Whether the table breaks the uniqueness rule nowhere.
pub fn check_groups(table: &Vec<Vec<u8>>) -> (clear: bool)
    requires
        well_formed(board_of(table@)),
    ensures
        clear == valid(board_of(table@)),
{
    let ghost b = board_of(table@);
    let mut k: usize = 0;
    while k < 9
        invariant
            k <= 9,
            b == board_of(table@),
            well_formed(b),
            forall|n: int| 0 <= n < k ==> #[trigger] groups_clear(b, n),
        decreases 9 - k,
    {
        assert(table@[k as int]@ == row_of(b, k as int));
        if has_repeat(&table[k]) {
            assert(!groups_clear(b, k as int));
            return false;
        }
        let down = column_cells(table, k);
        if has_repeat(&down) {
            assert(!groups_clear(b, k as int));
            return false;
        }
        let square = region_cells(table, k);
        if has_repeat(&square) {
            assert(!groups_clear(b, k as int));
            return false;
        }
        k += 1;
    }
    true
}

} // verus!
