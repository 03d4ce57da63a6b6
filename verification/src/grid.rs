//! The board: nine rows of nine cells, and the three kinds of constraint group.

use vstd::prelude::*;

verus! {

/// A board as a mathematical value: rows of cells, `0` for an empty cell.
pub type Board = Seq<Seq<u8>>;

/// The board that a table of rows stands for.
pub open spec fn board_of(table: Seq<Vec<u8>>) -> Board {
    Seq::new(table.len(), |r: int| table[r]@)
}

/// Nine rows of nine cells, each cell empty or a digit from 1 to 9.
pub open spec fn well_formed(b: Board) -> bool {
    &&& b.len() == 9
    &&& forall|r: int| 0 <= r < 9 ==> (#[trigger] b[r]).len() == 9
    &&& forall|r: int, c: int| 0 <= r < 9 && 0 <= c < 9 ==> #[trigger] b[r][c] <= 9
}

/// The 3x3 region that holds cell (`row`, `col`); regions are numbered row-major.
pub open spec fn region_of(row: int, col: int) -> int {
    (row / 3) * 3 + col / 3
}

/// The cells of row `r`, left to right.
pub open spec fn row_of(b: Board, r: int) -> Seq<u8> {
    b[r]
}

/// The cells of column `c`, top to bottom.
pub open spec fn column_of(b: Board, c: int) -> Seq<u8> {
    Seq::new(9, |r: int| b[r][c])
}

/// The cells of region `k`, row-major within the region.
pub open spec fn block_of(b: Board, k: int) -> Seq<u8> {
    Seq::new(9, |i: int| b[(k / 3) * 3 + i / 3][(k % 3) * 3 + i % 3])
}

/// The board `b` with cell (`r`, `c`) holding `d`.
pub open spec fn put(b: Board, r: int, c: int, d: u8) -> Board {
    b.update(r, b[r].update(c, d))
}

/// Region index of a cell.
pub fn region_index(row: usize, col: usize) -> (k: usize)
    requires
        row < 9,
        col < 9,
    ensures
        k == region_of(row as int, col as int),
        k < 9,
{
    row / 3 * 3 + col / 3
}

/// Column `c` of the table, top to bottom.
pub fn column_cells(table: &Vec<Vec<u8>>, c: usize) -> (cells: Vec<u8>)
    requires
        well_formed(board_of(table@)),
        c < 9,
    ensures
        cells@ == column_of(board_of(table@), c as int),
{
    let mut cells: Vec<u8> = Vec::new();
    let mut r: usize = 0;
    while r < 9
        invariant
            r <= 9,
            c < 9,
            well_formed(board_of(table@)),
            cells@.len() == r,
            forall|i: int| 0 <= i < r ==> cells@[i] == board_of(table@)[i][c as int],
        decreases 9 - r,
    {
        assert(board_of(table@)[r as int].len() == 9);
        cells.push(table[r][c]);
        r += 1;
    }
    assert(cells@ =~= column_of(board_of(table@), c as int));
    cells
}

/// Region `k` of the table, row-major within the region.
pub fn region_cells(table: &Vec<Vec<u8>>, k: usize) -> (cells: Vec<u8>)
    requires
        well_formed(board_of(table@)),
        k < 9,
    ensures
        cells@ == block_of(board_of(table@), k as int),
{
    let mut cells: Vec<u8> = Vec::new();
    let mut i: usize = 0;
    while i < 9
        invariant
            i <= 9,
            k < 9,
            well_formed(board_of(table@)),
            cells@.len() == i,
            forall|j: int|
                0 <= j < i ==> cells@[j] == board_of(table@)[(k / 3) * 3 + j / 3][(k % 3) * 3 + j
                    % 3],
        decreases 9 - i,
    {
        let r: usize = k / 3 * 3 + i / 3;
        let c: usize = k % 3 * 3 + i % 3;
        assert(board_of(table@)[r as int].len() == 9);
        cells.push(table[r][c]);
        i += 1;
    }
    assert(cells@ =~= block_of(board_of(table@), k as int));
    cells
}

/// The value of cell (`r`, `c`).
pub fn read_cell(table: &Vec<Vec<u8>>, r: usize, c: usize) -> (d: u8)
    requires
        well_formed(board_of(table@)),
        r < 9,
        c < 9,
    ensures
        d == board_of(table@)[r as int][c as int],
{
    assert(board_of(table@)[r as int].len() == 9);
    table[r][c]
}

/// Writes digit `d` into cell (`r`, `c`).
pub fn write_cell(table: &mut Vec<Vec<u8>>, r: usize, c: usize, d: u8)
    requires
        well_formed(board_of(old(table)@)),
        r < 9,
        c < 9,
        1 <= d <= 9,
    ensures
        board_of(final(table)@) == put(board_of(old(table)@), r as int, c as int, d),
{
    assert(board_of(table@)[r as int].len() == 9);
    table[r][c] = d;
    assert(board_of(table@) =~= put(board_of(old(table)@), r as int, c as int, d));
}

} // verus!
