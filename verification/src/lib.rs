pub mod chance;
pub mod create;
pub mod laws;
pub mod rules;
pub mod search;
pub mod solve;
pub mod text;

use vstd::prelude::*;
use crate::text::{cell_of_char, parsed, parses};

verus! {

/// One position of a grid: empty, or holding a value between 1 and the side length.
#[derive(Clone, Copy, PartialEq, Eq, Debug, Structural)]
pub enum Cell {
    Unfilled,
    Filled(u8),
}

/// A square grid of `NUM_CELLS` cells, `LENGTH` to a row, read left to right and then top to
/// bottom, with boxes `BOX_WIDTH` wide and `BOX_HEIGHT` high.
#[derive(Debug)]
pub struct Board<
    const NUM_CELLS: usize,
    const LENGTH: usize,
    const BOX_WIDTH: usize,
    const BOX_HEIGHT: usize,
> {
    pub(crate) cells: Vec<Cell>,
}

/// A text that is not a grid of the expected size.
#[derive(Debug)]
pub struct ParseError {}

impl ParseError {
    /// The text that describes the error.
    pub fn message(&self) -> (text: String)
        ensures
            text@ == "Parse error"@,
    {
        "Parse error".to_owned()
    }
}

impl<
    const NUM_CELLS: usize,
    const LENGTH: usize,
    const BOX_WIDTH: usize,
    const BOX_HEIGHT: usize,
> View for Board<NUM_CELLS, LENGTH, BOX_WIDTH, BOX_HEIGHT> {
    type V = Seq<Cell>;

    closed spec fn view(&self) -> Seq<Cell> {
        self.cells@
    }
}

/// Whether `c` is a cell that a grid of side `side` may hold.
pub open spec fn cell_in_range(c: Cell, side: int) -> bool {
    c matches Cell::Filled(v) ==> 1 <= v <= side
}

/// Whether `cells` is the content of a grid of `num_cells` cells and side `side`.
pub open spec fn cells_wf(cells: Seq<Cell>, num_cells: int, side: int) -> bool {
    &&& cells.len() == num_cells
    &&& forall|i: int| 0 <= i < cells.len() ==> cell_in_range(#[trigger] cells[i], side)
}

impl<
    const NUM_CELLS: usize,
    const LENGTH: usize,
    const BOX_WIDTH: usize,
    const BOX_HEIGHT: usize,
> Board<NUM_CELLS, LENGTH, BOX_WIDTH, BOX_HEIGHT> {
    /// The geometry is that of a square grid with boxes that tile it, and values fit in a byte.
    pub open spec fn geometry_ok() -> bool {
        &&& 1 <= LENGTH <= 255
        &&& NUM_CELLS == LENGTH * LENGTH
        &&& BOX_WIDTH * BOX_HEIGHT == LENGTH
    }

    /// The grid has `NUM_CELLS` cells and every filled one holds a value in `1..=LENGTH`.
    pub open spec fn wf(&self) -> bool {
        cells_wf(self@, NUM_CELLS as int, LENGTH as int)
    }

    /// A grid with every cell empty.
    pub fn unfilled() -> (board: Self)
        ensures
            board.wf(),
            board@ == Seq::new(NUM_CELLS as nat, |i: int| Cell::Unfilled),
    {
        let mut cells: Vec<Cell> = Vec::new();
        let mut i: usize = 0;
        while i < NUM_CELLS
            invariant
                i <= NUM_CELLS,
                cells@.len() == i,
                forall|j: int| 0 <= j < i ==> cells@[j] == Cell::Unfilled,
            decreases NUM_CELLS - i,
        {
            cells.push(Cell::Unfilled);
            i += 1;
        }
        assert(cells@ =~= Seq::new(NUM_CELLS as nat, |i: int| Cell::Unfilled));
        Board { cells }
    }

    /// The cell at position `index`.
    pub fn cell(&self, index: usize) -> (c: Cell)
        requires
            index < self@.len(),
        ensures
            c == self@[index as int],
    {
        self.cells[index]
    }

    /// The number of cells that the grid holds.
    pub fn len(&self) -> (n: usize)
        ensures
            n == self@.len(),
    {
        self.cells.len()
    }

    /// Replaces the cell at position `index`.
    pub(crate) fn put(&mut self, index: usize, c: Cell)
        requires
            index < old(self)@.len(),
        ensures
            final(self)@ == old(self)@.update(index as int, c),
    {
        self.cells.set(index, c);
    }

    /// The position of the first empty cell, if there is one.
    pub fn first_unfilled(&self) -> (found: Option<usize>)
        ensures
            found matches Some(i) ==> crate::search::first_unfilled_at(self@, i as int),
            found is None ==> crate::search::is_full(self@),
    {
        let n = self.cells.len();
        let mut i: usize = 0;
        while i < n
            invariant
                n == self.cells@.len(),
                i <= n,
                forall|j: int| 0 <= j < i ==> #[trigger] self.cells@[j] != Cell::Unfilled,
            decreases n - i,
        {
            if self.cells[i] == Cell::Unfilled {
                return Some(i);
            }
            i += 1;
        }
        None
    }

    /// Reads a grid from a text of `NUM_CELLS` digits, `0` for an empty cell. A text of
    /// another length, or with a character that is no digit between `0` and `LENGTH`, is an
    /// error.
    pub fn parse(s: &str) -> (result: Result<Self, ParseError>)
        ensures
            result is Ok <==> parses(s@, NUM_CELLS as int, LENGTH as int),
            result matches Ok(board) ==> board.wf() && board@ == parsed(s@, LENGTH as int),
    {
        broadcast use vstd::string::is_ascii_spec_bytes;

        if !s.is_ascii() {
            proof {
                if parses(s@, NUM_CELLS as int, LENGTH as int) {
                    crate::text::lemma_parses_is_ascii(s@, NUM_CELLS as int, LENGTH as int);
                }
            }
            return Err(ParseError {});
        }
        let bytes = s.as_bytes();
        if bytes.len() != NUM_CELLS {
            return Err(ParseError {});
        }
        let mut cells: Vec<Cell> = Vec::new();
        let mut i: usize = 0;
        while i < NUM_CELLS
            invariant
                i <= NUM_CELLS,
                bytes@.len() == NUM_CELLS,
                s@.len() == NUM_CELLS,
                bytes@ == Seq::new(s@.len(), |k: int| s@[k] as u8),
                vstd::utf8::is_ascii_chars(s@),
                cells@.len() == i,
                forall|j: int| 0 <= j < i ==> cell_of_char(#[trigger] s@[j], LENGTH as int) == Some(cells@[j]),
            decreases NUM_CELLS - i,
        {
            let b = bytes[i];
            assert(b == s@[i as int] as u8);
            assert(s@[i as int] as int == b as int) by {
                assert(s@[i as int] as nat <= 127);
            }
            if b < 48 || b > 57 || (b - 48) as usize > LENGTH {
                assert(cell_of_char(s@[i as int], LENGTH as int) is None);
                return Err(ParseError {});
            }
            let digit = b - 48;
            if digit == 0 {
                cells.push(Cell::Unfilled);
            } else {
                cells.push(Cell::Filled(digit));
            }
            i += 1;
        }
        assert(cells@ =~= parsed(s@, LENGTH as int));
        Ok(Board { cells })
    }

    /// Writes the grid as text, cell by cell: `0` for an empty cell, the value in decimal for
    /// a filled one.
    pub fn serialize(&self) -> (text: String)
        ensures
            text@ == crate::text::board_text(self@),
    {
        let mut text = String::new();
        let n = self.cells.len();
        let mut i: usize = 0;
        while i < n
            invariant
                n == self.cells@.len(),
                i <= n,
                text@ == crate::text::board_text(self.cells@.take(i as int)),
            decreases n - i,
        {
            proof {
                assert(self.cells@.take(i + 1).drop_last() =~= self.cells@.take(i as int));
            }
            match self.cells[i] {
                Cell::Unfilled => crate::text::append_digit(&mut text, 0),
                Cell::Filled(v) => crate::text::append_decimal(&mut text, v),
            }
            i += 1;
        }
        assert(self.cells@.take(n as int) =~= self.cells@);
        text
    }
}

impl<
    const NUM_CELLS: usize,
    const LENGTH: usize,
    const BOX_WIDTH: usize,
    const BOX_HEIGHT: usize,
> Clone for Board<NUM_CELLS, LENGTH, BOX_WIDTH, BOX_HEIGHT> {
    /// A grid with the same cells.
    fn clone(&self) -> (copy: Self)
        ensures
            copy@ == self@,
    {
        let mut cells: Vec<Cell> = Vec::new();
        let n = self.cells.len();
        let mut i: usize = 0;
        while i < n
            invariant
                n == self.cells@.len(),
                i <= n,
                cells@ == self.cells@.take(i as int),
            decreases n - i,
        {
            cells.push(self.cells[i]);
            assert(self.cells@.take(i + 1) =~= self.cells@.take(i as int).push(self.cells@[i as int]));
            i += 1;
        }
        assert(self.cells@.take(n as int) =~= self.cells@);
        Board { cells }
    }
}

impl<
    const NUM_CELLS: usize,
    const LENGTH: usize,
    const BOX_WIDTH: usize,
    const BOX_HEIGHT: usize,
> PartialEq for Board<NUM_CELLS, LENGTH, BOX_WIDTH, BOX_HEIGHT> {
    /// Two grids are equal where they hold the same cells.
    fn eq(&self, other: &Self) -> (same: bool) {
        let n = self.cells.len();
        if other.cells.len() != n {
            return false;
        }
        let mut i: usize = 0;
        while i < n
            invariant
                n == self.cells@.len(),
                n == other.cells@.len(),
                i <= n,
                forall|j: int| 0 <= j < i ==> self.cells@[j] == other.cells@[j],
            decreases n - i,
        {
            if self.cells[i] != other.cells[i] {
                return false;
            }
            i += 1;
        }
        assert(self.cells@ =~= other.cells@);
        true
    }
}

impl<
    const NUM_CELLS: usize,
    const LENGTH: usize,
    const BOX_WIDTH: usize,
    const BOX_HEIGHT: usize,
> vstd::std_specs::cmp::PartialEqSpecImpl for Board<NUM_CELLS, LENGTH, BOX_WIDTH, BOX_HEIGHT> {
    open spec fn obeys_eq_spec() -> bool {
        true
    }

    open spec fn eq_spec(&self, other: &Self) -> bool {
        self@ == other@
    }
}

impl<
    const NUM_CELLS: usize,
    const LENGTH: usize,
    const BOX_WIDTH: usize,
    const BOX_HEIGHT: usize,
> std::str::FromStr for Board<NUM_CELLS, LENGTH, BOX_WIDTH, BOX_HEIGHT> {
    type Err = ParseError;

    /// Reads a grid from a text as `parse` does.
    fn from_str(s: &str) -> (result: Result<Self, ParseError>)
        ensures
            result is Ok <==> parses(s@, NUM_CELLS as int, LENGTH as int),
            result matches Ok(board) ==> board.wf() && board@ == parsed(s@, LENGTH as int),
    {
        Self::parse(s)
    }
}

} // verus!
