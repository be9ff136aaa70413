//! Grid cells. A cell holds one token as text; a blank cell holds a single
//! space.

use vstd::prelude::*;
use vstd::string::*;

verus! {

/// The texts of a row of cells, cell by cell.
pub open spec fn texts(cells: Seq<String>) -> Seq<Seq<char>> {
    Seq::new(cells.len(), |i: int| cells[i]@)
}

/// The text of a blank cell.
pub open spec fn blank() -> Seq<char> {
    seq![' ']
}

/// Whether a cell text is that of a blank cell.
pub open spec fn is_blank(text: Seq<char>) -> bool {
    text == blank()
}

/// A blank cell.
pub fn blank_cell() -> (cell: String)
    ensures
        cell@ == blank(),
{
    proof {
        reveal_strlit(" ");
    }
    let cell = String::from_str(" ");
    assert(cell@ =~= blank());
    cell
}

/// Whether a cell is blank.
pub fn cell_is_blank(cell: &str) -> (b: bool)
    ensures
        b == is_blank(cell@),
{
    if cell.unicode_len() != 1 {
        return false;
    }
    let c: char = cell.get_char(0);
    assert(c == ' ' ==> cell@ =~= blank());
    c == ' '
}

/// A grid of `count` blank cells.
pub fn blank_cells(count: usize) -> (cells: Vec<String>)
    ensures
        cells@.len() == count,
        forall|i: int| 0 <= i < count ==> is_blank(#[trigger] cells@[i]@),
{
    let mut cells: Vec<String> = Vec::new();
    let mut i: usize = 0;
    while i < count
        invariant
            i <= count,
            cells@.len() == i,
            forall|j: int| 0 <= j < i ==> is_blank(#[trigger] cells@[j]@),
        decreases count - i,
    {
        cells.push(blank_cell());
        i = i + 1;
    }
    cells
}

} // verus!
