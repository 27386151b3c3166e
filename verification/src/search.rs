use vstd::prelude::*;
use crate::Cell;
use crate::cells_wf;

verus! {

/// A rule as the search sees it: a predicate on the cells of a grid.
pub type Acceptance = spec_fn(Seq<Cell>) -> bool;

/// No cell is empty.
pub open spec fn is_full(cells: Seq<Cell>) -> bool {
    forall|i: int| 0 <= i < cells.len() ==> #[trigger] cells[i] != Cell::Unfilled
}

/// Position `i` holds the first empty cell.
pub open spec fn first_unfilled_at(cells: Seq<Cell>, i: int) -> bool {
    &&& 0 <= i < cells.len()
    &&& cells[i] == Cell::Unfilled
    &&& forall|j: int| 0 <= j < i ==> #[trigger] cells[j] != Cell::Unfilled
}

/// The number of empty cells.
pub open spec fn unfilled_count(cells: Seq<Cell>) -> nat
    decreases cells.len(),
{
    if cells.len() == 0 {
        0
    } else {
        unfilled_count(cells.drop_last()) + if cells.last() == Cell::Unfilled {
            1nat
        } else {
            0nat
        }
    }
}

/// The value at position `i`, 0 where the cell is empty.
pub open spec fn value_at(cells: Seq<Cell>, i: int) -> int {
    match cells[i] {
        Cell::Unfilled => 0,
        Cell::Filled(v) => v as int,
    }
}

/// `goal` has the same size as `start` and keeps every cell that `start` has filled.
pub open spec fn extends(goal: Seq<Cell>, start: Seq<Cell>) -> bool {
    &&& goal.len() == start.len()
    &&& forall|i: int|
        0 <= i < start.len() && #[trigger] start[i] != Cell::Unfilled ==> goal[i] == start[i]
}

/// The grid that the search holds on its way from `start` to `goal` once it has decided the
/// cells before position `t`: the cells of `goal` where `start` is filled or the position is
/// before `t`, empty cells elsewhere.
pub open spec fn path_state(start: Seq<Cell>, goal: Seq<Cell>, t: int) -> Seq<Cell> {
    Seq::new(
        start.len(),
        |j: int|
            if start[j] != Cell::Unfilled || j < t {
                goal[j]
            } else {
                Cell::Unfilled
            },
    )
}

/// `goal` is a completion of `start` that the search reaches: a full grid that keeps the
/// filled cells of `start`, such that the rule accepts every grid on the way, which fills
/// the empty cells in the order of their positions.
pub open spec fn is_solution(
    ok: Acceptance,
    num_cells: int,
    side: int,
    start: Seq<Cell>,
    goal: Seq<Cell>,
) -> bool {
    &&& cells_wf(goal, num_cells, side)
    &&& is_full(goal)
    &&& extends(goal, start)
    &&& forall|t: int| 0 <= t <= num_cells ==> ok(#[trigger] path_state(start, goal, t))
}

/// `s` is the one completion of `start`.
pub open spec fn has_unique(
    ok: Acceptance,
    num_cells: int,
    side: int,
    start: Seq<Cell>,
    s: Seq<Cell>,
) -> bool {
    &&& is_solution(ok, num_cells, side, start, s)
    &&& forall|goal: Seq<Cell>| #[trigger]
        is_solution(ok, num_cells, side, start, goal) ==> goal == s
}

/// `start` has exactly one completion.
pub open spec fn uniquely_solvable(ok: Acceptance, num_cells: int, side: int, start: Seq<Cell>) -> bool {
    exists|s: Seq<Cell>| #[trigger] has_unique(ok, num_cells, side, start, s)
}

/// `start` has two completions at least.
pub open spec fn ambiguous(ok: Acceptance, num_cells: int, side: int, start: Seq<Cell>) -> bool {
    exists|g: Seq<Cell>, h: Seq<Cell>|
        g != h && #[trigger] is_solution(ok, num_cells, side, start, g) && #[trigger] is_solution(
            ok,
            num_cells,
            side,
            start,
            h,
        )
}

/// The rule accepts every grid from which a full grid that it accepts can be had by filling
/// empty cells.
pub open spec fn consistent(ok: Acceptance, num_cells: int, side: int) -> bool {
    forall|part: Seq<Cell>, goal: Seq<Cell>|
        cells_wf(goal, num_cells, side) && is_full(goal) && #[trigger] extends(goal, part) && ok(
            goal,
        ) ==> #[trigger] ok(part)
}

/// Filling an empty cell leaves one empty cell fewer.
pub proof fn lemma_fill_decreases(cells: Seq<Cell>, i: int, v: u8)
    requires
        0 <= i < cells.len(),
        cells[i] == Cell::Unfilled,
    ensures
        unfilled_count(cells.update(i, Cell::Filled(v))) + 1 == unfilled_count(cells),
    decreases cells.len(),
{
    let after = cells.update(i, Cell::Filled(v));
    if i == cells.len() - 1 {
        assert(after.drop_last() =~= cells.drop_last());
    } else {
        lemma_fill_decreases(cells.drop_last(), i, v);
        assert(after.drop_last() =~= cells.drop_last().update(i, Cell::Filled(v)));
    }
}

/// On the way to a goal that keeps the filled cells of `start`, the search starts at `start`
/// and ends at the goal.
pub proof fn lemma_path_ends(start: Seq<Cell>, goal: Seq<Cell>)
    requires
        extends(goal, start),
    ensures
        path_state(start, goal, 0) == start,
        path_state(start, goal, start.len() as int) == goal,
{
    assert(path_state(start, goal, 0) =~= start);
    assert(path_state(start, goal, start.len() as int) =~= goal);
}

/// A grid that the rule refuses has no completion that the search reaches.
pub proof fn lemma_refused_has_none(
    ok: Acceptance,
    num_cells: int,
    side: int,
    start: Seq<Cell>,
    goal: Seq<Cell>,
)
    requires
        !ok(start),
        start.len() == num_cells,
    ensures
        !is_solution(ok, num_cells, side, start, goal),
{
    if extends(goal, start) {
        lemma_path_ends(start, goal);
    }
}

/// A full grid that the rule accepts is its own completion, and its only one.
pub proof fn lemma_full_is_own_solution(
    ok: Acceptance,
    num_cells: int,
    side: int,
    start: Seq<Cell>,
    goal: Seq<Cell>,
)
    requires
        cells_wf(start, num_cells, side),
        is_full(start),
        ok(start),
    ensures
        is_solution(ok, num_cells, side, start, start),
        is_solution(ok, num_cells, side, start, goal) ==> goal == start,
{
    assert forall|t: int| 0 <= t <= num_cells implies ok(#[trigger] path_state(start, start, t)) by {
        assert(path_state(start, start, t) =~= start);
    }
    if is_solution(ok, num_cells, side, start, goal) {
        assert(goal =~= start);
    }
}

/// A completion of a grid whose first empty cell is at `i` holds a value there, and is a
/// completion of the grid with that value at `i`.
pub proof fn lemma_solution_descends(
    ok: Acceptance,
    num_cells: int,
    side: int,
    start: Seq<Cell>,
    i: int,
    goal: Seq<Cell>,
)
    requires
        first_unfilled_at(start, i),
        is_solution(ok, num_cells, side, start, goal),
    ensures
        ok(start),
        1 <= value_at(goal, i) <= side,
        goal[i] != Cell::Unfilled,
        is_solution(ok, num_cells, side, start.update(i, goal[i]), goal),
{
    lemma_path_ends(start, goal);
    assert(ok(path_state(start, goal, 0)));
    assert(crate::cell_in_range(goal[i], side));
    let next = start.update(i, goal[i]);
    assert forall|t: int| 0 <= t <= num_cells implies ok(#[trigger] path_state(next, goal, t)) by {
        let u = if t <= i {
            i + 1
        } else {
            t
        };
        assert(path_state(next, goal, t) =~= path_state(start, goal, u));
        assert(ok(path_state(start, goal, u)));
    }
}

/// A completion of the grid with a value at its first empty cell `i` is a completion of the
/// grid itself, where the rule accepts the grid.
pub proof fn lemma_solution_ascends(
    ok: Acceptance,
    num_cells: int,
    side: int,
    start: Seq<Cell>,
    i: int,
    c: Cell,
    goal: Seq<Cell>,
)
    requires
        first_unfilled_at(start, i),
        ok(start),
        c != Cell::Unfilled,
        is_solution(ok, num_cells, side, start.update(i, c), goal),
    ensures
        is_solution(ok, num_cells, side, start, goal),
        goal[i] == c,
{
    let next = start.update(i, c);
    assert(next[i] == c);
    assert(goal[i] == c);
    assert forall|j: int| 0 <= j < start.len() && #[trigger] start[j] != Cell::Unfilled implies goal[j]
        == start[j] by {
        assert(next[j] == start[j]);
    }
    assert forall|t: int| 0 <= t <= num_cells implies ok(#[trigger] path_state(start, goal, t)) by {
        if t <= i {
            assert(path_state(start, goal, t) =~= start);
        } else {
            assert(path_state(start, goal, t) =~= path_state(next, goal, t));
            assert(ok(path_state(next, goal, t)));
        }
    }
}

/// Under a consistent rule the completions that the search reaches are the full grids that
/// keep the filled cells of `start` and that the rule accepts.
pub proof fn lemma_consistent_solutions(
    ok: Acceptance,
    num_cells: int,
    side: int,
    start: Seq<Cell>,
    goal: Seq<Cell>,
)
    requires
        consistent(ok, num_cells, side),
        start.len() == num_cells,
    ensures
        is_solution(ok, num_cells, side, start, goal) <==> {
            &&& cells_wf(goal, num_cells, side)
            &&& is_full(goal)
            &&& extends(goal, start)
            &&& ok(goal)
        },
{
    if cells_wf(goal, num_cells, side) && is_full(goal) && extends(goal, start) {
        lemma_path_ends(start, goal);
        if ok(goal) {
            assert forall|t: int| 0 <= t <= num_cells implies ok(
                #[trigger] path_state(start, goal, t),
            ) by {
                assert(extends(goal, path_state(start, goal, t)));
            }
        } else {
            assert(!ok(path_state(start, goal, num_cells)));
        }
    }
}

/// The position of the first empty cell of a grid that has one.
pub open spec fn first_unfilled_index(cells: Seq<Cell>) -> int {
    choose|i: int| first_unfilled_at(cells, i)
}

/// The grid with the value `v` at position `index`.
pub open spec fn branch(start: Seq<Cell>, index: int, v: int) -> Seq<Cell> {
    start.update(index, Cell::Filled(v as u8))
}

/// The grid with the value `v` at position `index` has a completion.
pub open spec fn leads_on(
    ok: Acceptance,
    num_cells: int,
    side: int,
    start: Seq<Cell>,
    index: int,
    v: int,
) -> bool {
    exists|goal: Seq<Cell>| #[trigger] is_solution(ok, num_cells, side, branch(start, index, v), goal)
}

/// `v` is the least value above `after` that leads to a completion when put at `index`.
pub open spec fn is_least_leading(
    ok: Acceptance,
    num_cells: int,
    side: int,
    start: Seq<Cell>,
    index: int,
    after: int,
    v: int,
) -> bool {
    &&& after < v <= side
    &&& leads_on(ok, num_cells, side, start, index, v)
    &&& forall|w: int| after < w < v ==> !#[trigger] leads_on(ok, num_cells, side, start, index, w)
}

/// The least value above `after` that leads to a completion when put at `index`.
pub open spec fn least_leading(
    ok: Acceptance,
    num_cells: int,
    side: int,
    start: Seq<Cell>,
    index: int,
    after: int,
) -> int {
    choose|v: int| is_least_leading(ok, num_cells, side, start, index, after, v)
}

/// The completion that a search in increasing order of values carries once it has found
/// that a grid has more than one. Let the search fill the first empty cell. Where the least
/// value that leads to a completion leads to more than one, it is the completion carried
/// for the grid with that value. Else the next value that leads to a completion decides: it
/// is the one completion of the grid with that value, or the completion carried for that
/// grid where it has more than one.
pub open spec fn carried(ok: Acceptance, num_cells: int, side: int, start: Seq<Cell>) -> Seq<Cell>
    decreases unfilled_count(start),
{
    let index = first_unfilled_index(start);
    if !first_unfilled_at(start, index) {
        start
    } else {
        let a = least_leading(ok, num_cells, side, start, index, 0);
        let b = least_leading(ok, num_cells, side, start, index, a);
        let first = branch(start, index, a);
        let second = branch(start, index, b);
        proof {
            lemma_fill_decreases(start, index, a as u8);
            lemma_fill_decreases(start, index, b as u8);
        }
        if ambiguous(ok, num_cells, side, first) {
            carried(ok, num_cells, side, first)
        } else if ambiguous(ok, num_cells, side, second) {
            carried(ok, num_cells, side, second)
        } else {
            choose|goal: Seq<Cell>| is_solution(ok, num_cells, side, second, goal)
        }
    }
}

/// The least value above `after` that leads to a completion is the only value that is it.
pub proof fn lemma_least_leading(
    ok: Acceptance,
    num_cells: int,
    side: int,
    start: Seq<Cell>,
    index: int,
    after: int,
    v: int,
)
    requires
        is_least_leading(ok, num_cells, side, start, index, after, v),
    ensures
        least_leading(ok, num_cells, side, start, index, after) == v,
{
    let w = least_leading(ok, num_cells, side, start, index, after);
    assert(is_least_leading(ok, num_cells, side, start, index, after, w));
    if w < v {
        assert(!leads_on(ok, num_cells, side, start, index, w));
    }
    if v < w {
        assert(!leads_on(ok, num_cells, side, start, index, v));
    }
}

/// Where the least value that leads on from the first empty cell leads to more than one
/// completion, the completion carried is the one carried for the grid with that value.
pub proof fn lemma_carried_in_first(
    ok: Acceptance,
    num_cells: int,
    side: int,
    start: Seq<Cell>,
    index: int,
    a: int,
)
    requires
        first_unfilled_at(start, index),
        is_least_leading(ok, num_cells, side, start, index, 0, a),
        ambiguous(ok, num_cells, side, branch(start, index, a)),
    ensures
        carried(ok, num_cells, side, start) == carried(ok, num_cells, side, branch(start, index, a)),
{
    assert(first_unfilled_index(start) == index);
    lemma_least_leading(ok, num_cells, side, start, index, 0, a);
}

/// Where the least value that leads on from the first empty cell leads to one completion
/// only, the completion carried is that of the grid with the next value that leads on.
pub proof fn lemma_carried_in_second(
    ok: Acceptance,
    num_cells: int,
    side: int,
    start: Seq<Cell>,
    index: int,
    a: int,
    b: int,
    goal: Seq<Cell>,
)
    requires
        first_unfilled_at(start, index),
        is_least_leading(ok, num_cells, side, start, index, 0, a),
        !ambiguous(ok, num_cells, side, branch(start, index, a)),
        is_least_leading(ok, num_cells, side, start, index, a, b),
        is_solution(ok, num_cells, side, branch(start, index, b), goal),
    ensures
        carried(ok, num_cells, side, start) == if ambiguous(
            ok,
            num_cells,
            side,
            branch(start, index, b),
        ) {
            carried(ok, num_cells, side, branch(start, index, b))
        } else {
            goal
        },
{
    assert(first_unfilled_index(start) == index);
    lemma_least_leading(ok, num_cells, side, start, index, 0, a);
    lemma_least_leading(ok, num_cells, side, start, index, a, b);
    let second = branch(start, index, b);
    if !ambiguous(ok, num_cells, side, second) {
        let chosen = choose|goal: Seq<Cell>| is_solution(ok, num_cells, side, second, goal);
        assert(is_solution(ok, num_cells, side, second, chosen));
        assert(chosen == goal);
    }
}

} // verus!
