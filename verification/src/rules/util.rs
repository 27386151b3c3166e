use vstd::prelude::*;
use crate::search::extends;
use crate::{Board, Cell};

verus! {

/// The row of position `i` in a grid of side `side`.
pub open spec fn row_of(i: int, side: int) -> int {
    i / side
}

/// The column of position `i` in a grid of side `side`.
pub open spec fn column_of(i: int, side: int) -> int {
    i % side
}

/// The box of position `i`, boxes counted left to right and then top to bottom.
pub open spec fn box_of(i: int, side: int, box_width: int, box_height: int) -> int {
    (row_of(i, side) / box_height) * (side / box_width) + column_of(i, side) / box_width
}

/// The unit of kind `kind` that holds position `i`: its row (0), its column (1) or its box.
pub open spec fn unit_of(kind: int, i: int, side: int, box_width: int, box_height: int) -> int {
    if kind == 0 {
        row_of(i, side)
    } else if kind == 1 {
        column_of(i, side)
    } else {
        box_of(i, side, box_width, box_height)
    }
}

/// Positions `i` and `j` share a row, a column or a box.
pub open spec fn same_unit(i: int, j: int, side: int, box_width: int, box_height: int) -> bool {
    ||| row_of(i, side) == row_of(j, side)
    ||| column_of(i, side) == column_of(j, side)
    ||| box_of(i, side, box_width, box_height) == box_of(j, side, box_width, box_height)
}

/// No value stands twice in a row, a column or a box among the first `upto` cells.
pub open spec fn classic_valid_upto(
    cells: Seq<Cell>,
    upto: int,
    side: int,
    box_width: int,
    box_height: int,
) -> bool {
    forall|i: int, j: int|
        0 <= i < j < upto && #[trigger] cells[i] != Cell::Unfilled && cells[i] == #[trigger] cells[j]
            ==> !same_unit(i, j, side, box_width, box_height)
}

/// No value stands twice in a row, a column or a box.
pub open spec fn classic_valid(cells: Seq<Cell>, side: int, box_width: int, box_height: int) -> bool {
    classic_valid_upto(cells, cells.len() as int, side, box_width, box_height)
}

/// The slot of a table of seen values for the value `v` in unit `unit`.
spec fn slot_of(unit: int, v: int, side: int) -> int {
    unit * side + (v - 1)
}

/// The table says which values stand in which unit of kind `kind` among the first `upto`
/// cells, and `witness` names for each value seen a position where it stands.
#[verifier::opaque]
spec fn tracks(
    table: Seq<bool>,
    witness: Seq<int>,
    cells: Seq<Cell>,
    upto: int,
    kind: int,
    side: int,
    box_width: int,
    box_height: int,
) -> bool {
    &&& table.len() == side * side
    &&& witness.len() == side * side
    &&& forall|k: int|
        0 <= k < upto ==> (#[trigger] cells[k] matches Cell::Filled(v) ==> {
            let s = slot_of(unit_of(kind, k, side, box_width, box_height), v as int, side);
            0 <= s < side * side && table[s]
        })
    &&& forall|s: int|
        0 <= s < side * side && #[trigger] table[s] ==> {
            let k = witness[s];
            &&& 0 <= k < upto
            &&& cells[k] matches Cell::Filled(v)
            &&& slot_of(unit_of(kind, k, side, box_width, box_height), v as int, side) == s
        }
}

/// A unit and a value below the side length have a slot of their own in the table.
proof fn lemma_slot(unit: int, v: int, side: int)
    requires
        0 <= unit < side,
        1 <= v <= side,
    ensures
        0 <= slot_of(unit, v, side) < side * side,
        slot_of(unit, v, side) / side == unit,
        slot_of(unit, v, side) % side == v - 1,
{
    vstd::arithmetic::div_mod::lemma_fundamental_div_mod_converse(
        slot_of(unit, v, side),
        side,
        unit,
        v - 1,
    );
    assert(unit * side + side <= side * side) by (nonlinear_arith)
        requires
            0 <= unit < side,
    ;
    assert(0 <= unit * side) by (nonlinear_arith)
        requires
            0 <= unit,
            0 < side,
    ;
}

/// Every position of a well-formed geometry lies in a row, a column and a box below `side`.
pub proof fn lemma_unit_in_range(kind: int, i: int, side: int, box_width: int, box_height: int)
    requires
        0 <= i < side * side,
        1 <= side,
        box_width * box_height == side,
        box_width >= 0,
        box_height >= 0,
    ensures
        0 <= unit_of(kind, i, side, box_width, box_height) < side,
{
    let row = i / side;
    let column = i % side;
    assert(0 <= row < side) by (nonlinear_arith)
        requires
            0 <= i < side * side,
            1 <= side,
            row == i / side,
    ;
    assert(box_width >= 1 && box_height >= 1) by (nonlinear_arith)
        requires
            box_width * box_height == side,
            side >= 1,
            box_width >= 0,
            box_height >= 0,
    ;
    assert(side / box_width == box_height) by (nonlinear_arith)
        requires
            box_width * box_height == side,
            box_width >= 1,
    ;
    let band = row / box_height;
    let stack = column / box_width;
    assert(0 <= band < box_width) by (nonlinear_arith)
        requires
            0 <= row < box_width * box_height,
            box_height >= 1,
            band == row / box_height,
    ;
    assert(0 <= stack < box_height) by (nonlinear_arith)
        requires
            0 <= column < box_width * box_height,
            box_width >= 1,
            stack == column / box_width,
    ;
    assert(0 <= band * box_height + stack < box_width * box_height) by (nonlinear_arith)
        requires
            0 <= band < box_width,
            0 <= stack < box_height,
    ;
}

/// The table of seen values still tracks the cells once a cell that it need not hold, or
/// holds already, is counted in.
proof fn lemma_tracks_skip(
    table: Seq<bool>,
    witness: Seq<int>,
    cells: Seq<Cell>,
    upto: int,
    kind: int,
    side: int,
    box_width: int,
    box_height: int,
)
    requires
        tracks(table, witness, cells, upto, kind, side, box_width, box_height),
        0 <= upto < cells.len(),
        cells[upto] == Cell::Unfilled,
    ensures
        tracks(table, witness, cells, upto + 1, kind, side, box_width, box_height),
{
    reveal(tracks);
}

/// Marking the slot of the next cell keeps the table tracking the cells.
proof fn lemma_tracks_mark(
    table: Seq<bool>,
    witness: Seq<int>,
    cells: Seq<Cell>,
    upto: int,
    kind: int,
    side: int,
    box_width: int,
    box_height: int,
    v: u8,
)
    requires
        tracks(table, witness, cells, upto, kind, side, box_width, box_height),
        0 <= upto < cells.len(),
        cells[upto] == Cell::Filled(v),
        0 <= slot_of(unit_of(kind, upto, side, box_width, box_height), v as int, side) < side * side,
    ensures
        ({
            let slot = slot_of(unit_of(kind, upto, side, box_width, box_height), v as int, side);
            tracks(
                table.update(slot, true),
                witness.update(slot, upto),
                cells,
                upto + 1,
                kind,
                side,
                box_width,
                box_height,
            )
        }),
{
    reveal(tracks);
    let slot = slot_of(unit_of(kind, upto, side, box_width, box_height), v as int, side);
    let table2 = table.update(slot, true);
    let witness2 = witness.update(slot, upto);
    assert forall|k: int| 0 <= k < upto + 1 implies (#[trigger] cells[k] matches Cell::Filled(w)
        ==> {
        let s = slot_of(unit_of(kind, k, side, box_width, box_height), w as int, side);
        0 <= s < side * side && table2[s]
    }) by {
        if k < upto {
            if let Cell::Filled(w) = cells[k] {
                let s = slot_of(unit_of(kind, k, side, box_width, box_height), w as int, side);
                assert(0 <= s < side * side && table[s]);
            }
        }
    }
    assert forall|s: int| 0 <= s < side * side && #[trigger] table2[s] implies ({
        let k = witness2[s];
        &&& 0 <= k < upto + 1
        &&& cells[k] matches Cell::Filled(w)
        &&& slot_of(unit_of(kind, k, side, box_width, box_height), w as int, side) == s
    }) by {
        if s != slot {
            assert(table[s]);
        }
    }
}

/// Two filled cells with one value in one unit of a kind have one slot; so a cell whose
/// slot is marked repeats a value of its unit, and one whose slot is free does not.
proof fn lemma_slot_tells(
    table: Seq<bool>,
    witness: Seq<int>,
    cells: Seq<Cell>,
    upto: int,
    kind: int,
    side: int,
    box_width: int,
    box_height: int,
    v: u8,
)
    requires
        tracks(table, witness, cells, upto, kind, side, box_width, box_height),
        0 <= upto < cells.len(),
        cells.len() == side * side,
        1 <= side,
        box_width * box_height == side,
        box_width >= 0,
        box_height >= 0,
        crate::cells_wf(cells, side * side, side),
        cells[upto] == Cell::Filled(v),
    ensures
        ({
            let slot = slot_of(unit_of(kind, upto, side, box_width, box_height), v as int, side);
            &&& 0 <= slot < side * side
            &&& table[slot] <==> exists|k: int|
                0 <= k < upto && #[trigger] cells[k] == Cell::Filled(v) && unit_of(
                    kind,
                    k,
                    side,
                    box_width,
                    box_height,
                ) == unit_of(kind, upto, side, box_width, box_height)
        }),
{
    reveal(tracks);
    let unit = unit_of(kind, upto, side, box_width, box_height);
    let slot = slot_of(unit, v as int, side);
    lemma_unit_in_range(kind, upto, side, box_width, box_height);
    assert(crate::cell_in_range(cells[upto], side));
    lemma_slot(unit, v as int, side);
    if table[slot] {
        let k = witness[slot];
        let w = cells[k]->Filled_0;
        let unit_k = unit_of(kind, k, side, box_width, box_height);
        lemma_unit_in_range(kind, k, side, box_width, box_height);
        assert(crate::cell_in_range(cells[k], side));
        lemma_slot(unit_k, w as int, side);
        assert(cells[k] == Cell::Filled(v) && unit_k == unit);
    }
    if exists|k: int|
        0 <= k < upto && #[trigger] cells[k] == Cell::Filled(v) && unit_of(
            kind,
            k,
            side,
            box_width,
            box_height,
        ) == unit {
        let k = choose|k: int|
            0 <= k < upto && #[trigger] cells[k] == Cell::Filled(v) && unit_of(
                kind,
                k,
                side,
                box_width,
                box_height,
            ) == unit;
        assert(cells[k] matches Cell::Filled(w) && w == v);
        assert(table[slot]);
    }
}

/// For one kind of unit, the values seen in each unit so far.
struct Seen {
    marks: Vec<bool>,
    witness: Ghost<Seq<int>>,
}

impl Seen {
    /// The marks say which values stand in which unit among the first `upto` cells.
    spec fn tracks(
        &self,
        cells: Seq<Cell>,
        upto: int,
        kind: int,
        side: int,
        box_width: int,
        box_height: int,
    ) -> bool {
        &&& self.marks@.len() == side * side
        &&& self.witness@.len() == side * side
        &&& tracks(self.marks@, self.witness@, cells, upto, kind, side, box_width, box_height)
    }

    /// The marks of a grid of which no cell has been looked at.
    fn new(
        side: usize,
        Ghost(cells): Ghost<Seq<Cell>>,
        Ghost(kind): Ghost<int>,
        Ghost(box_width): Ghost<int>,
        Ghost(box_height): Ghost<int>,
    ) -> (seen: Seen)
        requires
            1 <= side <= 255,
        ensures
            seen.tracks(cells, 0, kind, side as int, box_width, box_height),
    {
        assert(side * side <= 255 * 255) by (nonlinear_arith)
            requires
                1 <= side <= 255,
        ;
        let size = side * side;
        let mut marks: Vec<bool> = Vec::new();
        let mut s: usize = 0;
        while s < size
            invariant
                s <= size,
                marks@.len() == s,
                forall|t: int| 0 <= t < s ==> !#[trigger] marks@[t],
            decreases size - s,
        {
            marks.push(false);
            s += 1;
        }
        proof {
            reveal(tracks);
        }
        Seen { marks, witness: Ghost(Seq::new(size as nat, |s: int| 0)) }
    }

    /// Whether the value `v` of the cell at `upto` stands in its unit already; marks it as
    /// seen there if not.
    fn note(
        &mut self,
        unit: usize,
        v: u8,
        side: usize,
        Ghost(cells): Ghost<Seq<Cell>>,
        Ghost(upto): Ghost<int>,
        Ghost(kind): Ghost<int>,
        Ghost(box_width): Ghost<int>,
        Ghost(box_height): Ghost<int>,
    ) -> (repeat: bool)
        requires
            old(self).tracks(cells, upto, kind, side as int, box_width, box_height),
            0 <= upto < cells.len(),
            1 <= side <= 255,
            box_width * box_height == side,
            box_width >= 0,
            box_height >= 0,
            crate::cells_wf(cells, side * side, side as int),
            cells[upto] == Cell::Filled(v),
            unit == unit_of(kind, upto, side as int, box_width, box_height),
        ensures
            repeat <==> exists|k: int|
                0 <= k < upto && #[trigger] cells[k] == Cell::Filled(v) && unit_of(
                    kind,
                    k,
                    side as int,
                    box_width,
                    box_height,
                ) == unit_of(kind, upto, side as int, box_width, box_height),
            !repeat ==> final(self).tracks(cells, upto + 1, kind, side as int, box_width, box_height),
    {
        proof {
            lemma_unit_in_range(kind, upto, side as int, box_width, box_height);
            assert(crate::cell_in_range(cells[upto], side as int));
            lemma_slot(unit as int, v as int, side as int);
            lemma_slot_tells(
                self.marks@,
                self.witness@,
                cells,
                upto,
                kind,
                side as int,
                box_width,
                box_height,
                v,
            );
            assert(side * side <= 255 * 255) by (nonlinear_arith)
                requires
                    1 <= side <= 255,
            ;
            assert(0 <= unit * side) by (nonlinear_arith)
                requires
                    0 <= unit,
                    0 <= side,
            ;
        }
        let slot = unit * side + (v - 1) as usize;
        if self.marks[slot] {
            return true;
        }
        proof {
            lemma_tracks_mark(
                self.marks@,
                self.witness@,
                cells,
                upto,
                kind,
                side as int,
                box_width,
                box_height,
                v,
            );
            self.witness@ = self.witness@.update(slot as int, upto);
        }
        self.marks.set(slot, true);
        false
    }
}

/// Whether no row, column or box holds a value twice.
pub fn is_valid_classic<
    const NUM_CELLS: usize,
    const LENGTH: usize,
    const BOX_WIDTH: usize,
    const BOX_HEIGHT: usize,
>(board: &Board<NUM_CELLS, LENGTH, BOX_WIDTH, BOX_HEIGHT>) -> (ok: bool)
    requires
        Board::<NUM_CELLS, LENGTH, BOX_WIDTH, BOX_HEIGHT>::geometry_ok(),
        board.wf(),
    ensures
        ok == classic_valid(board@, LENGTH as int, BOX_WIDTH as int, BOX_HEIGHT as int),
{
    let ghost cells = board@;
    let ghost side = LENGTH as int;
    let ghost bw = BOX_WIDTH as int;
    let ghost bh = BOX_HEIGHT as int;
    assert(BOX_WIDTH >= 1 && BOX_HEIGHT >= 1) by (nonlinear_arith)
        requires
            BOX_WIDTH * BOX_HEIGHT == LENGTH,
            LENGTH >= 1,
    ;
    // Each row, column, and box must not contain a value twice.
    let mut row_values = Seen::new(LENGTH, Ghost(cells), Ghost(0), Ghost(bw), Ghost(bh));
    let mut column_values = Seen::new(LENGTH, Ghost(cells), Ghost(1), Ghost(bw), Ghost(bh));
    let mut box_values = Seen::new(LENGTH, Ghost(cells), Ghost(2), Ghost(bw), Ghost(bh));
    let mut i: usize = 0;
    while i < NUM_CELLS
        invariant
            Board::<NUM_CELLS, LENGTH, BOX_WIDTH, BOX_HEIGHT>::geometry_ok(),
            board.wf(),
            cells == board@,
            side == LENGTH as int,
            bw == BOX_WIDTH as int,
            bh == BOX_HEIGHT as int,
            BOX_WIDTH >= 1,
            BOX_HEIGHT >= 1,
            i <= NUM_CELLS,
            row_values.tracks(cells, i as int, 0, side, bw, bh),
            column_values.tracks(cells, i as int, 1, side, bw, bh),
            box_values.tracks(cells, i as int, 2, side, bw, bh),
            classic_valid_upto(cells, i as int, side, bw, bh),
        decreases NUM_CELLS - i,
    {
        match board.cell(i) {
            Cell::Unfilled => {
                proof {
                    lemma_tracks_skip(row_values.marks@, row_values.witness@, cells, i as int, 0, side, bw, bh);
                    lemma_tracks_skip(column_values.marks@, column_values.witness@, cells, i as int, 1, side, bw, bh);
                    lemma_tracks_skip(box_values.marks@, box_values.witness@, cells, i as int, 2, side, bw, bh);
                    assert(classic_valid_upto(cells, i + 1, side, bw, bh));
                }
            },
            Cell::Filled(v) => {
                let row = i / LENGTH;
                let column = i % LENGTH;
                proof {
                    lemma_unit_in_range(0, i as int, side, bw, bh);
                    lemma_unit_in_range(2, i as int, side, bw, bh);
                    assert(0 <= ((i as int / side) / bh) * (side / bw)) by (nonlinear_arith)
                        requires
                            0 <= (i as int / side) / bh,
                            0 <= side / bw,
                    ;
                }
                let block = (row / BOX_HEIGHT) * (LENGTH / BOX_WIDTH) + column / BOX_WIDTH;
                if row_values.note(row, v, LENGTH, Ghost(cells), Ghost(i as int), Ghost(0), Ghost(bw), Ghost(bh)) {
                    proof {
                        lemma_repeat_refutes(cells, i as int, 0, side, bw, bh, v);
                    }
                    return false;
                }
                if column_values.note(column, v, LENGTH, Ghost(cells), Ghost(i as int), Ghost(1), Ghost(bw), Ghost(bh)) {
                    proof {
                        lemma_repeat_refutes(cells, i as int, 1, side, bw, bh, v);
                    }
                    return false;
                }
                if box_values.note(block, v, LENGTH, Ghost(cells), Ghost(i as int), Ghost(2), Ghost(bw), Ghost(bh)) {
                    proof {
                        lemma_repeat_refutes(cells, i as int, 2, side, bw, bh, v);
                    }
                    return false;
                }
                proof {
                    lemma_no_repeat_extends(cells, i as int, side, bw, bh, v);
                }
            },
        }
        i += 1;
    }
    true
}

/// A cell that repeats a value of one of its units shows that the grid is not valid.
proof fn lemma_repeat_refutes(
    cells: Seq<Cell>,
    upto: int,
    kind: int,
    side: int,
    box_width: int,
    box_height: int,
    v: u8,
)
    requires
        0 <= upto < cells.len(),
        0 <= kind <= 2,
        cells[upto] == Cell::Filled(v),
        exists|k: int|
            0 <= k < upto && #[trigger] cells[k] == Cell::Filled(v) && unit_of(
                kind,
                k,
                side,
                box_width,
                box_height,
            ) == unit_of(kind, upto, side, box_width, box_height),
    ensures
        !classic_valid(cells, side, box_width, box_height),
{
    let k = choose|k: int|
        0 <= k < upto && #[trigger] cells[k] == Cell::Filled(v) && unit_of(
            kind,
            k,
            side,
            box_width,
            box_height,
        ) == unit_of(kind, upto, side, box_width, box_height);
    assert(cells[k] != Cell::Unfilled && cells[k] == cells[upto]);
    assert(same_unit(k, upto, side, box_width, box_height));
}

/// A cell that repeats no value of its row, its column or its box keeps the cells before it
/// and itself free of repeats.
proof fn lemma_no_repeat_extends(
    cells: Seq<Cell>,
    upto: int,
    side: int,
    box_width: int,
    box_height: int,
    v: u8,
)
    requires
        0 <= upto < cells.len(),
        cells[upto] == Cell::Filled(v),
        classic_valid_upto(cells, upto, side, box_width, box_height),
        forall|kind: int|
            0 <= kind <= 2 ==> !exists|k: int|
                0 <= k < upto && #[trigger] cells[k] == Cell::Filled(v) && unit_of(
                    kind,
                    k,
                    side,
                    box_width,
                    box_height,
                ) == #[trigger] unit_of(kind, upto, side, box_width, box_height),
    ensures
        classic_valid_upto(cells, upto + 1, side, box_width, box_height),
{
    assert forall|i: int, j: int|
        0 <= i < j < upto + 1 && #[trigger] cells[i] != Cell::Unfilled && cells[i]
            == #[trigger] cells[j] implies !same_unit(i, j, side, box_width, box_height) by {
        if j == upto {
            assert(cells[i] == Cell::Filled(v));
            let r = unit_of(0, upto, side, box_width, box_height);
            let c = unit_of(1, upto, side, box_width, box_height);
            let b = unit_of(2, upto, side, box_width, box_height);
        }
    }
}

/// How two positions may lie to each other.
#[derive(Clone, Copy, PartialEq, Eq, Debug, Structural)]
pub enum Reach {
    /// A knight's move apart: one row and two columns, or two rows and one column.
    Knight,
    /// Neighbours across a corner: one row and one column apart.
    Diagonal,
    /// Neighbours across an edge: one row apart in one column, or one column apart in one row.
    Adjacent,
}

/// What two cells may have to do with each other.
#[derive(Clone, Copy, PartialEq, Eq, Debug, Structural)]
pub enum Relation {
    /// Both filled, with one value.
    SameValue,
    /// Both filled, with values that differ by one.
    Consecutive,
    /// Both filled, with even values.
    BothEven,
}

/// The distance between `a` and `b`.
pub open spec fn distance(a: int, b: int) -> int {
    if a <= b {
        b - a
    } else {
        a - b
    }
}

/// Positions `i` and `j` lie to each other as `reach` says.
pub open spec fn apart(reach: Reach, i: int, j: int, side: int) -> bool {
    let rows = distance(row_of(i, side), row_of(j, side));
    let columns = distance(column_of(i, side), column_of(j, side));
    match reach {
        Reach::Knight => (rows == 1 && columns == 2) || (rows == 2 && columns == 1),
        Reach::Diagonal => rows == 1 && columns == 1,
        Reach::Adjacent => (rows == 1 && columns == 0) || (rows == 0 && columns == 1),
    }
}

/// Cells `a` and `b` have to do with each other as `relation` says.
pub open spec fn related(relation: Relation, a: Cell, b: Cell) -> bool {
    match (a, b) {
        (Cell::Filled(v), Cell::Filled(w)) => match relation {
            Relation::SameValue => v == w,
            Relation::Consecutive => distance(v as int, w as int) == 1,
            Relation::BothEven => v % 2 == 0 && w % 2 == 0,
        },
        _ => false,
    }
}

/// No two cells that lie to each other as `reach` says are related as `relation` says.
pub open spec fn pairs_valid(cells: Seq<Cell>, side: int, reach: Reach, relation: Relation) -> bool {
    forall|i: int, j: int|
        0 <= i < cells.len() && 0 <= j < cells.len() && apart(reach, i, j, side) ==> !related(
            relation,
            #[trigger] cells[i],
            #[trigger] cells[j],
        )
}

/// No two cells a knight's move apart hold one value.
pub open spec fn knights_valid(cells: Seq<Cell>, side: int) -> bool {
    pairs_valid(cells, side, Reach::Knight, Relation::SameValue)
}

/// No two cells that touch at a corner hold one value.
pub open spec fn kings_valid(cells: Seq<Cell>, side: int) -> bool {
    pairs_valid(cells, side, Reach::Diagonal, Relation::SameValue)
}

/// No two cells that touch at an edge hold values that differ by one.
pub open spec fn nonconsecutive_valid(cells: Seq<Cell>, side: int) -> bool {
    pairs_valid(cells, side, Reach::Adjacent, Relation::Consecutive)
}

/// No two cells that touch at an edge both hold even values.
pub open spec fn even_odd_valid(cells: Seq<Cell>, side: int) -> bool {
    pairs_valid(cells, side, Reach::Adjacent, Relation::BothEven)
}

/// The position `rows` rows below and `columns` columns right of `i`, if the grid has it.
pub open spec fn neighbor(i: int, rows: int, columns: int, side: int) -> Option<int> {
    let row = row_of(i, side) + rows;
    let column = column_of(i, side) + columns;
    if 0 <= row < side && 0 <= column < side {
        Some(row * side + column)
    } else {
        None
    }
}

/// The cell at `i` and the one `rows` rows below and `columns` columns right of it are
/// related.
spec fn clash_toward(
    cells: Seq<Cell>,
    i: int,
    rows: int,
    columns: int,
    side: int,
    relation: Relation,
) -> bool {
    neighbor(i, rows, columns, side) matches Some(j) && related(relation, cells[i], cells[j])
}

/// The cell at `i` and one of those that lie to it as `reach` says are related.
spec fn clash_at(cells: Seq<Cell>, i: int, side: int, reach: Reach, relation: Relation) -> bool {
    match reach {
        Reach::Knight => {
            ||| clash_toward(cells, i, -1, -2, side, relation)
            ||| clash_toward(cells, i, -1, 2, side, relation)
            ||| clash_toward(cells, i, 1, -2, side, relation)
            ||| clash_toward(cells, i, 1, 2, side, relation)
            ||| clash_toward(cells, i, -2, -1, side, relation)
            ||| clash_toward(cells, i, -2, 1, side, relation)
            ||| clash_toward(cells, i, 2, -1, side, relation)
            ||| clash_toward(cells, i, 2, 1, side, relation)
        },
        Reach::Diagonal => {
            ||| clash_toward(cells, i, -1, -1, side, relation)
            ||| clash_toward(cells, i, -1, 1, side, relation)
            ||| clash_toward(cells, i, 1, -1, side, relation)
            ||| clash_toward(cells, i, 1, 1, side, relation)
        },
        Reach::Adjacent => {
            ||| clash_toward(cells, i, -1, 0, side, relation)
            ||| clash_toward(cells, i, 1, 0, side, relation)
            ||| clash_toward(cells, i, 0, -1, side, relation)
            ||| clash_toward(cells, i, 0, 1, side, relation)
        },
    }
}

/// A position of the grid is its row times the side length plus its column, and the
/// neighbour of a position lies as many rows and columns from it as was asked for.
proof fn lemma_neighbor(i: int, rows: int, columns: int, side: int)
    requires
        0 <= i < side * side,
        1 <= side,
    ensures
        0 <= row_of(i, side) < side,
        0 <= column_of(i, side) < side,
        i == row_of(i, side) * side + column_of(i, side),
        neighbor(i, rows, columns, side) matches Some(j) ==> {
            &&& 0 <= j < side * side
            &&& row_of(j, side) == row_of(i, side) + rows
            &&& column_of(j, side) == column_of(i, side) + columns
        },
{
    let row = i / side;
    vstd::arithmetic::div_mod::lemma_fundamental_div_mod(i, side);
    assert(0 <= row < side) by (nonlinear_arith)
        requires
            0 <= i < side * side,
            1 <= side,
            row == i / side,
    ;
    assert(side * row == row * side) by (nonlinear_arith);
    if let Some(j) = neighbor(i, rows, columns, side) {
        let r = row + rows;
        let c = i % side + columns;
        vstd::arithmetic::div_mod::lemma_fundamental_div_mod_converse(j, side, r, c);
        assert(0 <= r * side && r * side + side <= side * side) by (nonlinear_arith)
            requires
                0 <= r < side,
        ;
    }
}

/// Where no cell clashes with one in its reach, no two cells in reach of each other are
/// related, and the other way round.
proof fn lemma_no_clash_is_valid(cells: Seq<Cell>, side: int, reach: Reach, relation: Relation)
    requires
        cells.len() == side * side,
        1 <= side,
    ensures
        pairs_valid(cells, side, reach, relation) <==> forall|i: int|
            0 <= i < cells.len() ==> !#[trigger] clash_at(cells, i, side, reach, relation),
{
    if pairs_valid(cells, side, reach, relation) {
        assert forall|i: int| 0 <= i < cells.len() implies !#[trigger] clash_at(
            cells,
            i,
            side,
            reach,
            relation,
        ) by {
            if clash_at(cells, i, side, reach, relation) {
                lemma_clash_refutes(cells, i, side, reach, relation);
            }
        }
    }
    if forall|i: int| 0 <= i < cells.len() ==> !#[trigger] clash_at(cells, i, side, reach, relation) {
        assert forall|i: int, j: int|
            0 <= i < cells.len() && 0 <= j < cells.len() && apart(reach, i, j, side) implies !related(
            relation,
            #[trigger] cells[i],
            #[trigger] cells[j],
        ) by {
            let rows = row_of(j, side) - row_of(i, side);
            let columns = column_of(j, side) - column_of(i, side);
            lemma_neighbor(i, rows, columns, side);
            lemma_neighbor(j, 0, 0, side);
            assert(neighbor(i, rows, columns, side) == Some(j));
            assert(!clash_at(cells, i, side, reach, relation));
            assert(!clash_toward(cells, i, rows, columns, side, relation));
        }
    }
}

/// A cell that clashes with one in its reach shows that the grid is not valid.
proof fn lemma_clash_refutes(cells: Seq<Cell>, i: int, side: int, reach: Reach, relation: Relation)
    requires
        cells.len() == side * side,
        1 <= side,
        0 <= i < cells.len(),
        clash_at(cells, i, side, reach, relation),
    ensures
        !pairs_valid(cells, side, reach, relation),
{
    let (rows, columns) = choose|rows: int, columns: int|
        -2 <= rows <= 2 && -2 <= columns <= 2 && #[trigger] clash_toward(
            cells,
            i,
            rows,
            columns,
            side,
            relation,
        ) && match reach {
            Reach::Knight => (distance(rows, 0) == 1 && distance(columns, 0) == 2) || (distance(
                rows,
                0,
            ) == 2 && distance(columns, 0) == 1),
            Reach::Diagonal => distance(rows, 0) == 1 && distance(columns, 0) == 1,
            Reach::Adjacent => distance(rows, 0) + distance(columns, 0) == 1,
        };
    lemma_neighbor(i, rows, columns, side);
    let j = neighbor(i, rows, columns, side)->Some_0;
    assert(apart(reach, i, j, side));
    assert(related(relation, cells[i], cells[j]));
}

/// Whether cells `a` and `b` are related as `relation` says.
fn is_related(relation: Relation, a: Cell, b: Cell) -> (yes: bool)
    ensures
        yes == related(relation, a, b),
{
    match (a, b) {
        (Cell::Filled(v), Cell::Filled(w)) => match relation {
            Relation::SameValue => v == w,
            Relation::Consecutive => (v < w && w - v == 1) || (w < v && v - w == 1),
            Relation::BothEven => v % 2 == 0 && w % 2 == 0,
        },
        _ => false,
    }
}

/// Whether the cell at `i` is related to the one `rows` rows below and `columns` columns
/// right of it.
fn clashes_toward<
    const NUM_CELLS: usize,
    const LENGTH: usize,
    const BOX_WIDTH: usize,
    const BOX_HEIGHT: usize,
>(
    board: &Board<NUM_CELLS, LENGTH, BOX_WIDTH, BOX_HEIGHT>,
    i: usize,
    rows: i32,
    columns: i32,
    relation: Relation,
) -> (clash: bool)
    requires
        Board::<NUM_CELLS, LENGTH, BOX_WIDTH, BOX_HEIGHT>::geometry_ok(),
        board.wf(),
        i < NUM_CELLS,
        -2 <= rows <= 2,
        -2 <= columns <= 2,
    ensures
        clash == clash_toward(board@, i as int, rows as int, columns as int, LENGTH as int, relation),
{
    proof {
        lemma_neighbor(i as int, rows as int, columns as int, LENGTH as int);
    }
    let row = (i / LENGTH) as i32 + rows;
    let column = (i % LENGTH) as i32 + columns;
    if row < 0 || row >= LENGTH as i32 || column < 0 || column >= LENGTH as i32 {
        return false;
    }
    assert(row * LENGTH + LENGTH <= LENGTH * LENGTH) by (nonlinear_arith)
        requires
            0 <= row < LENGTH,
    ;
    assert(0 <= row * LENGTH) by (nonlinear_arith)
        requires
            0 <= row,
    ;
    let j = row as usize * LENGTH + column as usize;
    is_related(relation, board.cell(i), board.cell(j))
}

/// Whether the cell at `i` is related to one of those that lie to it as `reach` says.
fn clashes_at<
    const NUM_CELLS: usize,
    const LENGTH: usize,
    const BOX_WIDTH: usize,
    const BOX_HEIGHT: usize,
>(
    board: &Board<NUM_CELLS, LENGTH, BOX_WIDTH, BOX_HEIGHT>,
    i: usize,
    reach: Reach,
    relation: Relation,
) -> (clash: bool)
    requires
        Board::<NUM_CELLS, LENGTH, BOX_WIDTH, BOX_HEIGHT>::geometry_ok(),
        board.wf(),
        i < NUM_CELLS,
    ensures
        clash == clash_at(board@, i as int, LENGTH as int, reach, relation),
{
    match reach {
        Reach::Knight => {
            clashes_toward(board, i, -1, -2, relation)  // Left up.
             || clashes_toward(board, i, -1, 2, relation)  // Right up.
             || clashes_toward(board, i, 1, -2, relation)  // Left down.
             || clashes_toward(board, i, 1, 2, relation)  // Right down.
             || clashes_toward(board, i, -2, -1, relation)  // Up left.
             || clashes_toward(board, i, -2, 1, relation)  // Up right.
             || clashes_toward(board, i, 2, -1, relation)  // Down left.
             || clashes_toward(board, i, 2, 1, relation)  // Down right.
        },
        Reach::Diagonal => {
            clashes_toward(board, i, -1, -1, relation) || clashes_toward(board, i, -1, 1, relation)
                || clashes_toward(board, i, 1, -1, relation) || clashes_toward(
                board,
                i,
                1,
                1,
                relation,
            )
        },
        Reach::Adjacent => {
            clashes_toward(board, i, -1, 0, relation) || clashes_toward(board, i, 1, 0, relation)
                || clashes_toward(board, i, 0, -1, relation) || clashes_toward(
                board,
                i,
                0,
                1,
                relation,
            )
        },
    }
}

/// Whether no two cells that lie to each other as `reach` says are related as `relation`
/// says.
pub fn passes_pair_constraint<
    const NUM_CELLS: usize,
    const LENGTH: usize,
    const BOX_WIDTH: usize,
    const BOX_HEIGHT: usize,
>(board: &Board<NUM_CELLS, LENGTH, BOX_WIDTH, BOX_HEIGHT>, reach: Reach, relation: Relation) -> (ok:
    bool)
    requires
        Board::<NUM_CELLS, LENGTH, BOX_WIDTH, BOX_HEIGHT>::geometry_ok(),
        board.wf(),
    ensures
        ok == pairs_valid(board@, LENGTH as int, reach, relation),
{
    let mut i: usize = 0;
    while i < NUM_CELLS
        invariant
            Board::<NUM_CELLS, LENGTH, BOX_WIDTH, BOX_HEIGHT>::geometry_ok(),
            board.wf(),
            i <= NUM_CELLS,
            forall|k: int| 0 <= k < i ==> !#[trigger] clash_at(board@, k, LENGTH as int, reach, relation),
        decreases NUM_CELLS - i,
    {
        if board.cell(i) != Cell::Unfilled && clashes_at(board, i, reach, relation) {
            proof {
                lemma_clash_refutes(board@, i as int, LENGTH as int, reach, relation);
            }
            return false;
        }
        i += 1;
    }
    proof {
        lemma_no_clash_is_valid(board@, LENGTH as int, reach, relation);
    }
    true
}

/// Whether no two cells a knight's move apart hold one value.
pub fn passes_knights_move_constraint<
    const NUM_CELLS: usize,
    const LENGTH: usize,
    const BOX_WIDTH: usize,
    const BOX_HEIGHT: usize,
>(board: &Board<NUM_CELLS, LENGTH, BOX_WIDTH, BOX_HEIGHT>) -> (ok: bool)
    requires
        Board::<NUM_CELLS, LENGTH, BOX_WIDTH, BOX_HEIGHT>::geometry_ok(),
        board.wf(),
    ensures
        ok == knights_valid(board@, LENGTH as int),
{
    passes_pair_constraint(board, Reach::Knight, Relation::SameValue)
}

/// Whether no two cells that touch at a corner hold one value.
pub fn passes_kings_move_constraint<
    const NUM_CELLS: usize,
    const LENGTH: usize,
    const BOX_WIDTH: usize,
    const BOX_HEIGHT: usize,
>(board: &Board<NUM_CELLS, LENGTH, BOX_WIDTH, BOX_HEIGHT>) -> (ok: bool)
    requires
        Board::<NUM_CELLS, LENGTH, BOX_WIDTH, BOX_HEIGHT>::geometry_ok(),
        board.wf(),
    ensures
        ok == kings_valid(board@, LENGTH as int),
{
    passes_pair_constraint(board, Reach::Diagonal, Relation::SameValue)
}

/// Whether no two cells that touch at an edge hold values that differ by one.
pub fn passes_nonconsecutive_constraint<
    const NUM_CELLS: usize,
    const LENGTH: usize,
    const BOX_WIDTH: usize,
    const BOX_HEIGHT: usize,
>(board: &Board<NUM_CELLS, LENGTH, BOX_WIDTH, BOX_HEIGHT>) -> (ok: bool)
    requires
        Board::<NUM_CELLS, LENGTH, BOX_WIDTH, BOX_HEIGHT>::geometry_ok(),
        board.wf(),
    ensures
        ok == nonconsecutive_valid(board@, LENGTH as int),
{
    passes_pair_constraint(board, Reach::Adjacent, Relation::Consecutive)
}

/// Whether no two cells that touch at an edge both hold even values.
pub fn passes_even_odd_constraint<
    const NUM_CELLS: usize,
    const LENGTH: usize,
    const BOX_WIDTH: usize,
    const BOX_HEIGHT: usize,
>(board: &Board<NUM_CELLS, LENGTH, BOX_WIDTH, BOX_HEIGHT>) -> (ok: bool)
    requires
        Board::<NUM_CELLS, LENGTH, BOX_WIDTH, BOX_HEIGHT>::geometry_ok(),
        board.wf(),
    ensures
        ok == even_odd_valid(board@, LENGTH as int),
{
    passes_pair_constraint(board, Reach::Adjacent, Relation::BothEven)
}

/// A grid from which a grid without repeats can be had by filling empty cells has no
/// repeats.
pub proof fn lemma_classic_shrinks(
    part: Seq<Cell>,
    goal: Seq<Cell>,
    side: int,
    box_width: int,
    box_height: int,
)
    requires
        extends(goal, part),
        classic_valid(goal, side, box_width, box_height),
    ensures
        classic_valid(part, side, box_width, box_height),
{
    assert forall|i: int, j: int|
        0 <= i < j < part.len() && #[trigger] part[i] != Cell::Unfilled && part[i]
            == #[trigger] part[j] implies !same_unit(i, j, side, box_width, box_height) by {
        assert(goal[i] == part[i] && goal[j] == part[j]);
    }
}

/// A grid from which a grid without related pairs can be had by filling empty cells has no
/// related pairs.
pub proof fn lemma_pairs_shrink(
    part: Seq<Cell>,
    goal: Seq<Cell>,
    side: int,
    reach: Reach,
    relation: Relation,
)
    requires
        extends(goal, part),
        pairs_valid(goal, side, reach, relation),
    ensures
        pairs_valid(part, side, reach, relation),
{
    assert forall|i: int, j: int|
        0 <= i < part.len() && 0 <= j < part.len() && apart(reach, i, j, side) implies !related(
        relation,
        #[trigger] part[i],
        #[trigger] part[j],
    ) by {
        if related(relation, part[i], part[j]) {
            assert(goal[i] == part[i] && goal[j] == part[j]);
        }
    }
}

} // verus!
