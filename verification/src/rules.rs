pub mod util;

use vstd::prelude::*;
use crate::rules::util::{
    classic_valid, column_of, even_odd_valid, is_valid_classic, kings_valid, knights_valid,
    lemma_classic_shrinks, lemma_pairs_shrink, nonconsecutive_valid, passes_even_odd_constraint,
    passes_kings_move_constraint, passes_knights_move_constraint,
    passes_nonconsecutive_constraint, row_of, Reach, Relation,
};
use crate::search::{consistent, extends, is_full, Acceptance};
use crate::text::{parsed, parses};
use crate::{Board, Cell, ParseError};

verus! {

/// A rule of a puzzle: a predicate on grids, filled in part or in full.
pub trait PuzzleRules<
    const NUM_CELLS: usize,
    const LENGTH: usize,
    const BOX_WIDTH: usize,
    const BOX_HEIGHT: usize,
> {
    /// What the rule says of a grid, as a predicate on its cells.
    spec fn accepts(&self, cells: Seq<Cell>) -> bool;

    /// Whether the rule accepts the grid.
    fn is_valid(&self, board: &Board<NUM_CELLS, LENGTH, BOX_WIDTH, BOX_HEIGHT>) -> (ok: bool)
        requires
            Board::<NUM_CELLS, LENGTH, BOX_WIDTH, BOX_HEIGHT>::geometry_ok(),
            board.wf(),
        ensures
            ok == self.accepts(board@),
    ;
}

/// The rule as a predicate on cells, as the search theory takes it.
pub open spec fn acceptance<
    R: PuzzleRules<NUM_CELLS, LENGTH, BOX_WIDTH, BOX_HEIGHT>,
    const NUM_CELLS: usize,
    const LENGTH: usize,
    const BOX_WIDTH: usize,
    const BOX_HEIGHT: usize,
>(rules: &R) -> Acceptance {
    |cells: Seq<Cell>| rules.accepts(cells)
}

/// No two cells that touch at an edge hold values that differ by one, and no row, column or
/// box holds a value twice.
pub struct Miracle {}

impl<
    const NUM_CELLS: usize,
    const LENGTH: usize,
    const BOX_WIDTH: usize,
    const BOX_HEIGHT: usize,
> PuzzleRules<NUM_CELLS, LENGTH, BOX_WIDTH, BOX_HEIGHT> for Miracle {
    open spec fn accepts(&self, cells: Seq<Cell>) -> bool {
        &&& classic_valid(cells, LENGTH as int, BOX_WIDTH as int, BOX_HEIGHT as int)
        &&& nonconsecutive_valid(cells, LENGTH as int)
    }

    fn is_valid(&self, board: &Board<NUM_CELLS, LENGTH, BOX_WIDTH, BOX_HEIGHT>) -> (ok: bool) {
        is_valid_classic(board) && passes_nonconsecutive_constraint(board)
    }
}

/// Whether the cells at `i1` and `i2` add up to 10. Where one of them is empty they are
/// taken to do so.
pub open spec fn add_10(cells: Seq<Cell>, i1: int, i2: int) -> bool {
    match (cells[i1], cells[i2]) {
        (Cell::Filled(a), Cell::Filled(b)) => a + b == 10,
        _ => true,
    }
}

/// How many of the right and the lower neighbour of the cell at `i` add up to 10 with it;
/// none where the cell is empty.
pub open spec fn tens_at(cells: Seq<Cell>, i: int, side: int) -> nat {
    if cells[i] == Cell::Unfilled {
        0
    } else {
        let right: nat = if column_of(i, side) + 1 < side && add_10(cells, i + 1, i) {
            1
        } else {
            0
        };
        let down: nat = if row_of(i, side) + 1 < side && add_10(cells, i + side, i) {
            1
        } else {
            0
        };
        right + down
    }
}

/// The sum of `tens_at` over the first `upto` cells.
pub open spec fn tens_upto(cells: Seq<Cell>, upto: int, side: int) -> nat
    decreases upto,
{
    if upto <= 0 {
        0
    } else {
        tens_upto(cells, upto - 1, side) + tens_at(cells, upto - 1, side)
    }
}

/// The sum over the first `upto` cells counts at most two for each.
proof fn lemma_tens_bound(cells: Seq<Cell>, upto: int, side: int)
    requires
        0 <= upto,
    ensures
        tens_upto(cells, upto, side) <= 2 * upto,
    decreases upto,
{
    if upto > 0 {
        lemma_tens_bound(cells, upto - 1, side);
    }
}

/// Counts the pairs of a filled cell and its right or lower neighbour that add up to 10,
/// an empty neighbour counting as one that does.
pub fn count_10s<
    const NUM_CELLS: usize,
    const LENGTH: usize,
    const BOX_WIDTH: usize,
    const BOX_HEIGHT: usize,
>(board: &Board<NUM_CELLS, LENGTH, BOX_WIDTH, BOX_HEIGHT>) -> (count: usize)
    requires
        Board::<NUM_CELLS, LENGTH, BOX_WIDTH, BOX_HEIGHT>::geometry_ok(),
        board.wf(),
    ensures
        count == tens_upto(board@, NUM_CELLS as int, LENGTH as int),
{
    assert(LENGTH * LENGTH <= 255 * 255) by (nonlinear_arith)
        requires
            1 <= LENGTH <= 255,
    ;
    let mut count: usize = 0;
    let mut i: usize = 0;
    while i < NUM_CELLS
        invariant
            Board::<NUM_CELLS, LENGTH, BOX_WIDTH, BOX_HEIGHT>::geometry_ok(),
            board.wf(),
            NUM_CELLS <= 255 * 255,
            i <= NUM_CELLS,
            count == tens_upto(board@, i as int, LENGTH as int),
        decreases NUM_CELLS - i,
    {
        proof {
            lemma_tens_bound(board@, i as int, LENGTH as int);
        }
        if board.cell(i) != Cell::Unfilled {
            let row = i / LENGTH;
            let column = i % LENGTH;
            proof {
                crate::rules::util::lemma_unit_in_range(
                    0,
                    i as int,
                    LENGTH as int,
                    LENGTH as int,
                    1,
                );
                assert(row * LENGTH + LENGTH <= LENGTH * LENGTH) by (nonlinear_arith)
                    requires
                        row < LENGTH,
                ;
                vstd::arithmetic::div_mod::lemma_fundamental_div_mod(i as int, LENGTH as int);
                assert(LENGTH * row == row * LENGTH) by (nonlinear_arith);
            }
            if column + 1 < LENGTH {
                if is_add_10(board, i + 1, i) {
                    count += 1;
                }  // Right.

            }
            if row + 1 < LENGTH {
                assert(row * LENGTH + 2 * LENGTH <= LENGTH * LENGTH) by (nonlinear_arith)
                    requires
                        row + 2 <= LENGTH,
                ;
                if is_add_10(board, i + LENGTH, i) {
                    count += 1;
                }  // Down.

            }
        }
        i += 1;
    }
    count
}

/// Whether the cells at `i1` and `i2` add up to 10, an empty cell counting as one that does.
pub fn is_add_10<
    const NUM_CELLS: usize,
    const LENGTH: usize,
    const BOX_WIDTH: usize,
    const BOX_HEIGHT: usize,
>(board: &Board<NUM_CELLS, LENGTH, BOX_WIDTH, BOX_HEIGHT>, i1: usize, i2: usize) -> (yes: bool)
    requires
        i1 < board@.len(),
        i2 < board@.len(),
    ensures
        yes == add_10(board@, i1 as int, i2 as int),
{
    match (board.cell(i1), board.cell(i2)) {
        (Cell::Filled(a), Cell::Filled(b)) => a as u16 + b as u16 == 10,
        _ => true,
    }
}

/// No row, column or box holds a value twice.
pub struct ClassicSudoku {}

impl<
    const NUM_CELLS: usize,
    const LENGTH: usize,
    const BOX_WIDTH: usize,
    const BOX_HEIGHT: usize,
> PuzzleRules<NUM_CELLS, LENGTH, BOX_WIDTH, BOX_HEIGHT> for ClassicSudoku {
    open spec fn accepts(&self, cells: Seq<Cell>) -> bool {
        classic_valid(cells, LENGTH as int, BOX_WIDTH as int, BOX_HEIGHT as int)
    }

    fn is_valid(&self, board: &Board<NUM_CELLS, LENGTH, BOX_WIDTH, BOX_HEIGHT>) -> (ok: bool) {
        is_valid_classic(board)
    }
}

/// No two cells a knight's move apart hold one value, and no row, column or box holds a
/// value twice.
pub struct KnightsRestrictionSudoku {}

impl<
    const NUM_CELLS: usize,
    const LENGTH: usize,
    const BOX_WIDTH: usize,
    const BOX_HEIGHT: usize,
> PuzzleRules<NUM_CELLS, LENGTH, BOX_WIDTH, BOX_HEIGHT> for KnightsRestrictionSudoku {
    open spec fn accepts(&self, cells: Seq<Cell>) -> bool {
        &&& knights_valid(cells, LENGTH as int)
        &&& classic_valid(cells, LENGTH as int, BOX_WIDTH as int, BOX_HEIGHT as int)
    }

    fn is_valid(&self, board: &Board<NUM_CELLS, LENGTH, BOX_WIDTH, BOX_HEIGHT>) -> (ok: bool) {
        passes_knights_move_constraint(board) && is_valid_classic(board)
    }
}

/// No two cells that touch at a corner hold one value.
pub struct KingsMove {}

impl<
    const NUM_CELLS: usize,
    const LENGTH: usize,
    const BOX_WIDTH: usize,
    const BOX_HEIGHT: usize,
> PuzzleRules<NUM_CELLS, LENGTH, BOX_WIDTH, BOX_HEIGHT> for KingsMove {
    open spec fn accepts(&self, cells: Seq<Cell>) -> bool {
        kings_valid(cells, LENGTH as int)
    }

    fn is_valid(&self, board: &Board<NUM_CELLS, LENGTH, BOX_WIDTH, BOX_HEIGHT>) -> (ok: bool) {
        passes_kings_move_constraint(board)
    }
}

/// Every filled cell of `cells` is even where the cell of `mask` at its position is filled
/// and even, and odd where that one is filled and odd.
pub open spec fn parity_matches(cells: Seq<Cell>, mask: Seq<Cell>) -> bool {
    forall|i: int|
        0 <= i < cells.len() && i < mask.len() ==> (#[trigger] cells[i] matches Cell::Filled(v)
            ==> (mask[i] matches Cell::Filled(w) ==> v % 2 == w % 2))
}

/// Every filled cell is even or odd as the cell of a fixed grid at its position, where that
/// one is filled, and no row, column or box holds a value twice.
// A very uninteresting puzzle constraint.
// However, it can be used with the solver to quickly find interesting solutions.
// For example, meeting the 112121212121212121212121112121212121212111212121212121211121212121212121212121211 restriction
// guarantees all even digits only have odd neighbors.
pub struct ParityMask<
    const NUM_CELLS: usize,
    const LENGTH: usize,
    const BOX_WIDTH: usize,
    const BOX_HEIGHT: usize,
> {
    mask: Board<NUM_CELLS, LENGTH, BOX_WIDTH, BOX_HEIGHT>,
}

impl<
    const NUM_CELLS: usize,
    const LENGTH: usize,
    const BOX_WIDTH: usize,
    const BOX_HEIGHT: usize,
> ParityMask<NUM_CELLS, LENGTH, BOX_WIDTH, BOX_HEIGHT> {
    /// The cells of the fixed grid.
    pub closed spec fn mask_cells(&self) -> Seq<Cell> {
        self.mask@
    }

    /// Reads the fixed grid from a text, as a grid is read.
    pub fn parse(s: &str) -> (result: Result<Self, ParseError>)
        ensures
            result is Ok <==> parses(s@, NUM_CELLS as int, LENGTH as int),
            result matches Ok(rule) ==> rule.mask_cells() == parsed(s@, LENGTH as int),
    {
        match Board::parse(s) {
            Ok(mask) => Ok(Self { mask }),
            Err(e) => Err(e),
        }
    }
}

impl<
    const NUM_CELLS: usize,
    const LENGTH: usize,
    const BOX_WIDTH: usize,
    const BOX_HEIGHT: usize,
> std::str::FromStr for ParityMask<NUM_CELLS, LENGTH, BOX_WIDTH, BOX_HEIGHT> {
    type Err = ParseError;

    /// Reads the fixed grid from a text as `parse` does.
    fn from_str(s: &str) -> (result: Result<Self, ParseError>)
        ensures
            result is Ok <==> parses(s@, NUM_CELLS as int, LENGTH as int),
            result matches Ok(rule) ==> rule.mask_cells() == parsed(s@, LENGTH as int),
    {
        Self::parse(s)
    }
}

impl<
    const NUM_CELLS: usize,
    const LENGTH: usize,
    const BOX_WIDTH: usize,
    const BOX_HEIGHT: usize,
> PuzzleRules<NUM_CELLS, LENGTH, BOX_WIDTH, BOX_HEIGHT> for ParityMask<
    NUM_CELLS,
    LENGTH,
    BOX_WIDTH,
    BOX_HEIGHT,
> {
    open spec fn accepts(&self, cells: Seq<Cell>) -> bool {
        &&& parity_matches(cells, self.mask_cells())
        &&& classic_valid(cells, LENGTH as int, BOX_WIDTH as int, BOX_HEIGHT as int)
    }

    fn is_valid(&self, board: &Board<NUM_CELLS, LENGTH, BOX_WIDTH, BOX_HEIGHT>) -> (ok: bool) {
        let n = if board.len() < self.mask.len() {
            board.len()
        } else {
            self.mask.len()
        };
        let mut i: usize = 0;
        while i < n
            invariant
                n <= board@.len(),
                n <= self.mask@.len(),
                n == board@.len() || n == self.mask@.len(),
                i <= n,
                forall|k: int|
                    0 <= k < i ==> (#[trigger] board@[k] matches Cell::Filled(v) ==> (
                    self.mask@[k] matches Cell::Filled(w) ==> v % 2 == w % 2)),
            decreases n - i,
        {
            let parity_mismatch = match (board.cell(i), self.mask.cell(i)) {
                (Cell::Filled(v1), Cell::Filled(v2)) => v1 % 2 != v2 % 2,
                (_, _) => false,
            };
            if parity_mismatch {
                return false;
            }
            i += 1;
        }
        is_valid_classic(board)
    }
}

/// No two cells that touch at an edge both hold even values, and no row, column or box
/// holds a value twice.
// Even digits must have odd orthogonally adjacent cells.
pub struct EvenOddNeighbors {}

impl<
    const NUM_CELLS: usize,
    const LENGTH: usize,
    const BOX_WIDTH: usize,
    const BOX_HEIGHT: usize,
> PuzzleRules<NUM_CELLS, LENGTH, BOX_WIDTH, BOX_HEIGHT> for EvenOddNeighbors {
    open spec fn accepts(&self, cells: Seq<Cell>) -> bool {
        &&& even_odd_valid(cells, LENGTH as int)
        &&& classic_valid(cells, LENGTH as int, BOX_WIDTH as int, BOX_HEIGHT as int)
    }

    fn is_valid(&self, board: &Board<NUM_CELLS, LENGTH, BOX_WIDTH, BOX_HEIGHT>) -> (ok: bool) {
        let has_even_neighbor = !passes_even_odd_constraint(board);
        if has_even_neighbor {
            return false;
        }
        is_valid_classic(board)
    }
}

/// Two rules taken together: what both accept.
pub struct Both<A, B> {
    pub first: A,
    pub second: B,
}

impl<
    A: PuzzleRules<NUM_CELLS, LENGTH, BOX_WIDTH, BOX_HEIGHT>,
    B: PuzzleRules<NUM_CELLS, LENGTH, BOX_WIDTH, BOX_HEIGHT>,
    const NUM_CELLS: usize,
    const LENGTH: usize,
    const BOX_WIDTH: usize,
    const BOX_HEIGHT: usize,
> PuzzleRules<NUM_CELLS, LENGTH, BOX_WIDTH, BOX_HEIGHT> for Both<A, B> {
    open spec fn accepts(&self, cells: Seq<Cell>) -> bool {
        self.first.accepts(cells) && self.second.accepts(cells)
    }

    fn is_valid(&self, board: &Board<NUM_CELLS, LENGTH, BOX_WIDTH, BOX_HEIGHT>) -> (ok: bool) {
        self.first.is_valid(board) && self.second.is_valid(board)
    }
}

/// The classic rule is consistent: it accepts every grid that can be filled up to a grid
/// that it accepts.
pub proof fn lemma_classic_consistent<
    const NUM_CELLS: usize,
    const LENGTH: usize,
    const BOX_WIDTH: usize,
    const BOX_HEIGHT: usize,
>(rules: &ClassicSudoku)
    ensures
        consistent(
            acceptance::<ClassicSudoku, NUM_CELLS, LENGTH, BOX_WIDTH, BOX_HEIGHT>(rules),
            NUM_CELLS as int,
            LENGTH as int,
        ),
{
    let ok = acceptance::<ClassicSudoku, NUM_CELLS, LENGTH, BOX_WIDTH, BOX_HEIGHT>(rules);
    let n = NUM_CELLS as int;
    let side = LENGTH as int;
    assert forall|part: Seq<Cell>, goal: Seq<Cell>|
        crate::cells_wf(goal, n, side) && is_full(goal) && #[trigger] extends(goal, part) && ok(
            goal,
        ) implies #[trigger] ok(part) by {
        lemma_classic_shrinks(part, goal, side, BOX_WIDTH as int, BOX_HEIGHT as int);
    }
}

/// The knight's rule is consistent.
pub proof fn lemma_knights_consistent<
    const NUM_CELLS: usize,
    const LENGTH: usize,
    const BOX_WIDTH: usize,
    const BOX_HEIGHT: usize,
>(rules: &KnightsRestrictionSudoku)
    ensures
        consistent(
            acceptance::<KnightsRestrictionSudoku, NUM_CELLS, LENGTH, BOX_WIDTH, BOX_HEIGHT>(rules),
            NUM_CELLS as int,
            LENGTH as int,
        ),
{
    let ok = acceptance::<KnightsRestrictionSudoku, NUM_CELLS, LENGTH, BOX_WIDTH, BOX_HEIGHT>(rules);
    let n = NUM_CELLS as int;
    let side = LENGTH as int;
    assert forall|part: Seq<Cell>, goal: Seq<Cell>|
        crate::cells_wf(goal, n, side) && is_full(goal) && #[trigger] extends(goal, part) && ok(
            goal,
        ) implies #[trigger] ok(part) by {
        lemma_classic_shrinks(part, goal, side, BOX_WIDTH as int, BOX_HEIGHT as int);
        lemma_pairs_shrink(part, goal, side, Reach::Knight, Relation::SameValue);
    }
}

/// The king's rule is consistent.
pub proof fn lemma_kings_consistent<
    const NUM_CELLS: usize,
    const LENGTH: usize,
    const BOX_WIDTH: usize,
    const BOX_HEIGHT: usize,
>(rules: &KingsMove)
    ensures
        consistent(
            acceptance::<KingsMove, NUM_CELLS, LENGTH, BOX_WIDTH, BOX_HEIGHT>(rules),
            NUM_CELLS as int,
            LENGTH as int,
        ),
{
    let ok = acceptance::<KingsMove, NUM_CELLS, LENGTH, BOX_WIDTH, BOX_HEIGHT>(rules);
    let n = NUM_CELLS as int;
    let side = LENGTH as int;
    assert forall|part: Seq<Cell>, goal: Seq<Cell>|
        crate::cells_wf(goal, n, side) && is_full(goal) && #[trigger] extends(goal, part) && ok(
            goal,
        ) implies #[trigger] ok(part) by {
        lemma_pairs_shrink(part, goal, side, Reach::Diagonal, Relation::SameValue);
    }
}

/// The rule of values that do not follow each other is consistent.
pub proof fn lemma_miracle_consistent<
    const NUM_CELLS: usize,
    const LENGTH: usize,
    const BOX_WIDTH: usize,
    const BOX_HEIGHT: usize,
>(rules: &Miracle)
    ensures
        consistent(
            acceptance::<Miracle, NUM_CELLS, LENGTH, BOX_WIDTH, BOX_HEIGHT>(rules),
            NUM_CELLS as int,
            LENGTH as int,
        ),
{
    let ok = acceptance::<Miracle, NUM_CELLS, LENGTH, BOX_WIDTH, BOX_HEIGHT>(rules);
    let n = NUM_CELLS as int;
    let side = LENGTH as int;
    assert forall|part: Seq<Cell>, goal: Seq<Cell>|
        crate::cells_wf(goal, n, side) && is_full(goal) && #[trigger] extends(goal, part) && ok(
            goal,
        ) implies #[trigger] ok(part) by {
        lemma_classic_shrinks(part, goal, side, BOX_WIDTH as int, BOX_HEIGHT as int);
        lemma_pairs_shrink(part, goal, side, Reach::Adjacent, Relation::Consecutive);
    }
}

/// The rule of even values that do not touch is consistent.
pub proof fn lemma_even_odd_consistent<
    const NUM_CELLS: usize,
    const LENGTH: usize,
    const BOX_WIDTH: usize,
    const BOX_HEIGHT: usize,
>(rules: &EvenOddNeighbors)
    ensures
        consistent(
            acceptance::<EvenOddNeighbors, NUM_CELLS, LENGTH, BOX_WIDTH, BOX_HEIGHT>(rules),
            NUM_CELLS as int,
            LENGTH as int,
        ),
{
    let ok = acceptance::<EvenOddNeighbors, NUM_CELLS, LENGTH, BOX_WIDTH, BOX_HEIGHT>(rules);
    let n = NUM_CELLS as int;
    let side = LENGTH as int;
    assert forall|part: Seq<Cell>, goal: Seq<Cell>|
        crate::cells_wf(goal, n, side) && is_full(goal) && #[trigger] extends(goal, part) && ok(
            goal,
        ) implies #[trigger] ok(part) by {
        lemma_classic_shrinks(part, goal, side, BOX_WIDTH as int, BOX_HEIGHT as int);
        lemma_pairs_shrink(part, goal, side, Reach::Adjacent, Relation::BothEven);
    }
}

/// The rule of a fixed grid of even and odd cells is consistent.
pub proof fn lemma_parity_mask_consistent<
    const NUM_CELLS: usize,
    const LENGTH: usize,
    const BOX_WIDTH: usize,
    const BOX_HEIGHT: usize,
>(rules: &ParityMask<NUM_CELLS, LENGTH, BOX_WIDTH, BOX_HEIGHT>)
    ensures
        consistent(acceptance(rules), NUM_CELLS as int, LENGTH as int),
{
    let ok = acceptance(rules);
    let n = NUM_CELLS as int;
    let side = LENGTH as int;
    let mask = rules.mask_cells();
    assert forall|part: Seq<Cell>, goal: Seq<Cell>|
        crate::cells_wf(goal, n, side) && is_full(goal) && #[trigger] extends(goal, part) && ok(
            goal,
        ) implies #[trigger] ok(part) by {
        lemma_classic_shrinks(part, goal, side, BOX_WIDTH as int, BOX_HEIGHT as int);
        assert forall|i: int| 0 <= i < part.len() && i < mask.len() implies (
        #[trigger] part[i] matches Cell::Filled(v) ==> (mask[i] matches Cell::Filled(w) ==> v % 2
            == w % 2)) by {
            if part[i] != Cell::Unfilled {
                assert(goal[i] == part[i]);
            }
        }
    }
}

/// Two consistent rules taken together are consistent.
pub proof fn lemma_both_consistent<
    A: PuzzleRules<NUM_CELLS, LENGTH, BOX_WIDTH, BOX_HEIGHT>,
    B: PuzzleRules<NUM_CELLS, LENGTH, BOX_WIDTH, BOX_HEIGHT>,
    const NUM_CELLS: usize,
    const LENGTH: usize,
    const BOX_WIDTH: usize,
    const BOX_HEIGHT: usize,
>(rules: &Both<A, B>)
    requires
        consistent(acceptance(&rules.first), NUM_CELLS as int, LENGTH as int),
        consistent(acceptance(&rules.second), NUM_CELLS as int, LENGTH as int),
    ensures
        consistent(acceptance(rules), NUM_CELLS as int, LENGTH as int),
{
    let ok = acceptance(rules);
    let first = acceptance(&rules.first);
    let second = acceptance(&rules.second);
    let n = NUM_CELLS as int;
    let side = LENGTH as int;
    assert forall|part: Seq<Cell>, goal: Seq<Cell>|
        crate::cells_wf(goal, n, side) && is_full(goal) && #[trigger] extends(goal, part) && ok(
            goal,
        ) implies #[trigger] ok(part) by {
        assert(first(goal) && second(goal));
        assert(first(part) && second(part));
    }
}

} // verus!
