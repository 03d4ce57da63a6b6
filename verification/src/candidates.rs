//! Which digits may still go into a cell: those that its row, its column and
//! its region all lack.

use crate::grid::{
    block_of, board_of, column_cells, column_of, region_cells, region_index, region_of, row_of,
    well_formed, Board,
};
use crate::seq_facts::{
    lemma_distinct_unchanged, lemma_filter_distinct, lemma_filter_member, lemma_filter_twice,
};
use vstd::prelude::*;

verus! {

/// The digits 1 to 9 in ascending order.
pub open spec fn digits() -> Seq<u8> {
    Seq::new(9, |i: int| (i + 1) as u8)
}

/// The predicate "does not occur in `cells`".
pub open spec fn absent_from(cells: Seq<u8>) -> spec_fn(u8) -> bool {
    |d: u8| !cells.contains(d)
}

/// The predicate "occurs in `cells`".
pub open spec fn found_in(cells: Seq<u8>) -> spec_fn(u8) -> bool {
    |d: u8| cells.contains(d)
}

/// The digits that a group of cells lacks, ascending.
pub open spec fn missing(cells: Seq<u8>) -> Seq<u8> {
    digits().filter(absent_from(cells))
}

/// The predicate "occurs neither in row `r`, nor in column `c`, nor in the
/// region of cell (`r`, `c`)".
pub open spec fn legal_at(b: Board, r: int, c: int) -> spec_fn(u8) -> bool {
    |d: u8|
        !row_of(b, r).contains(d) && !column_of(b, c).contains(d) && !block_of(
            b,
            region_of(r, c),
        ).contains(d)
}

/// The candidates of cell (`r`, `c`): the digits 1 to 9 that none of its three
/// groups holds, ascending.
pub open spec fn candidates(b: Board, r: int, c: int) -> Seq<u8> {
    digits().filter(legal_at(b, r, c))
}

/// The digits have no repeats.
pub proof fn lemma_digits_distinct()
    ensures
        digits().no_duplicates(),
{
}

/// The candidates of a cell are the digits common to what its row, its column
/// and its region lack.
pub proof fn lemma_candidates_intersect(b: Board, r: int, c: int)
    ensures
        candidates(b, r, c) == missing(row_of(b, r)).filter(
            found_in(
                missing(column_of(b, c)).filter(found_in(missing(block_of(b, region_of(r, c))))),
            ),
        ),
        missing(row_of(b, r)).no_duplicates(),
        missing(column_of(b, c)).no_duplicates(),
{
    let in_row = absent_from(row_of(b, r));
    let in_col = absent_from(column_of(b, c));
    let in_block = absent_from(block_of(b, region_of(r, c)));
    let lacking_col = missing(column_of(b, c));
    let lacking_block = missing(block_of(b, region_of(r, c)));
    let common = lacking_col.filter(found_in(lacking_block));
    assert forall|i: int| 0 <= i < digits().len() implies legal_at(b, r, c)(#[trigger] digits()[i])
        == (in_row(digits()[i]) && found_in(common)(digits()[i])) by {
        let d = digits()[i];
        lemma_filter_member(lacking_col, found_in(lacking_block), d);
        lemma_filter_member(digits(), in_col, d);
        lemma_filter_member(digits(), in_block, d);
        assert(digits().contains(d));
    }
    lemma_filter_twice(digits(), in_row, found_in(common), legal_at(b, r, c));
    lemma_digits_distinct();
    lemma_filter_distinct(digits(), in_row);
    lemma_filter_distinct(digits(), in_col);
}

/// Whether `cells` holds `d`.
pub fn holds(cells: &Vec<u8>, d: u8) -> (found: bool)
    ensures
        found == cells@.contains(d),
{
    let mut i: usize = 0;
    while i < cells.len()
        invariant
            i <= cells.len(),
            forall|j: int| 0 <= j < i ==> cells@[j] != d,
        decreases cells.len() - i,
    {
        if cells[i] == d {
            return true;
        }
        i += 1;
    }
    false
}

/// The digits 1 to 9 that `cells` lacks, ascending.
pub fn missing_digits(cells: &Vec<u8>) -> (lacking: Vec<u8>)
    ensures
        lacking@ == missing(cells@),
{
    let mut lacking: Vec<u8> = Vec::new();
    let mut d: u8 = 1;
    proof {
        reveal(Seq::filter);
        assert(digits().take(0).filter(absent_from(cells@)) =~= Seq::<u8>::empty());
    }
    while d <= 9
        invariant
            1 <= d <= 10,
            lacking@ == digits().take(d - 1).filter(absent_from(cells@)),
        decreases 10 - d,
    {
        proof {
            assert(digits().take(d as int) =~= digits().take(d - 1).push(d));
            digits().take(d - 1).lemma_filter_push(d, absent_from(cells@));
        }
        if !holds(cells, d) {
            lacking.push(d);
        }
        d += 1;
    }
    assert(digits().take(9) =~= digits());
    lacking
}

/// `Intersect::intersect` of the crate `array_tool`, on vectors of bytes. It
/// returns the elements of `a` that `b` holds too, each once, in the order of
/// their first occurrence in `a`.
#[verifier::external_body]
fn intersect(a: &Vec<u8>, b: Vec<u8>) -> (common: Vec<u8>)
    ensures
        common@ == a@.remove_duplicates(Seq::empty()).filter(found_in(b@)),
{
    array_tool::vec::Intersect::intersect(a, b)
}

/// The candidates of cell (`row`, `col`) on the table as it stands.
pub fn candidate_digits(table: &Vec<Vec<u8>>, row: usize, col: usize) -> (vals: Vec<u8>)
    requires
        well_formed(board_of(table@)),
        row < 9,
        col < 9,
    ensures
        vals@ == candidates(board_of(table@), row as int, col as int),
{
    let ghost b = board_of(table@);
    let in_column = column_cells(table, col);
    let in_block = region_cells(table, region_index(row, col));
    let lacking_row = missing_digits(&table[row]);
    let lacking_column = missing_digits(&in_column);
    let lacking_block = missing_digits(&in_block);
    proof {
        assert(table@[row as int]@ == row_of(b, row as int));
        lemma_candidates_intersect(b, row as int, col as int);
        assert(Seq::<u8>::empty() + lacking_row@ =~= lacking_row@);
        assert(Seq::<u8>::empty() + lacking_column@ =~= lacking_column@);
        lemma_distinct_unchanged(lacking_row@, Seq::empty());
        lemma_distinct_unchanged(lacking_column@, Seq::empty());
    }
    intersect(&lacking_row, intersect(&lacking_column, lacking_block))
}

} // verus!
