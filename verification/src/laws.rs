use vstd::prelude::*;
use crate::search::{
    consistent, extends, has_unique, is_full, is_solution, lemma_consistent_solutions,
    lemma_full_is_own_solution, Acceptance,
};
use crate::solve::SolveResult;
use crate::{cells_wf, Cell};

verus! {

/// A search that classifies a grid says that there is no completion if and only if the
/// search reaches none: no full grid that keeps the filled cells such that the rule accepts
/// every grid on the way to it.
pub proof fn law_none_iff_nothing_reached<
    const NUM_CELLS: usize,
    const LENGTH: usize,
    const BOX_WIDTH: usize,
    const BOX_HEIGHT: usize,
>(result: SolveResult<NUM_CELLS, LENGTH, BOX_WIDTH, BOX_HEIGHT>, ok: Acceptance, start: Seq<Cell>)
    requires
        result.classifies(ok, start),
    ensures
        result is NoSolution <==> forall|goal: Seq<Cell>|
            !#[trigger] is_solution(ok, NUM_CELLS as int, LENGTH as int, start, goal),
{
}

/// Under a consistent rule, a search that classifies a grid says that there is no
/// completion if and only if no full grid that keeps the filled cells is accepted by the
/// rule.
pub proof fn law_none_iff_no_valid_full_grid<
    const NUM_CELLS: usize,
    const LENGTH: usize,
    const BOX_WIDTH: usize,
    const BOX_HEIGHT: usize,
>(result: SolveResult<NUM_CELLS, LENGTH, BOX_WIDTH, BOX_HEIGHT>, ok: Acceptance, start: Seq<Cell>)
    requires
        result.classifies(ok, start),
        consistent(ok, NUM_CELLS as int, LENGTH as int),
        start.len() == NUM_CELLS,
    ensures
        result is NoSolution <==> forall|goal: Seq<Cell>|
            !(cells_wf(goal, NUM_CELLS as int, LENGTH as int) && is_full(goal) && #[trigger] extends(
                goal,
                start,
            ) && ok(goal)),
{
    let n = NUM_CELLS as int;
    let side = LENGTH as int;
    assert forall|goal: Seq<Cell>|
        is_solution(ok, n, side, start, goal) <==> (cells_wf(goal, n, side) && is_full(goal)
            && #[trigger] extends(goal, start) && ok(goal)) by {
        lemma_consistent_solutions(ok, n, side, start, goal);
    }
    if result is NoSolution {
        assert forall|goal: Seq<Cell>|
            !(cells_wf(goal, n, side) && is_full(goal) && #[trigger] extends(goal, start) && ok(
                goal,
            )) by {
            assert(!is_solution(ok, n, side, start, goal));
        }
    }
}

/// A search that classifies a full grid that the rule accepts says that it has exactly one
/// completion: the grid itself.
pub proof fn law_solved_grid_is_its_solution<
    const NUM_CELLS: usize,
    const LENGTH: usize,
    const BOX_WIDTH: usize,
    const BOX_HEIGHT: usize,
>(result: SolveResult<NUM_CELLS, LENGTH, BOX_WIDTH, BOX_HEIGHT>, ok: Acceptance, start: Seq<Cell>)
    requires
        result.classifies(ok, start),
        cells_wf(start, NUM_CELLS as int, LENGTH as int),
        is_full(start),
        ok(start),
    ensures
        result matches SolveResult::UniqueSolution(b) && b@ == start,
{
    let n = NUM_CELLS as int;
    let side = LENGTH as int;
    lemma_full_is_own_solution(ok, n, side, start, start);
    assert forall|goal: Seq<Cell>| #[trigger] is_solution(ok, n, side, start, goal) implies goal
        == start by {
        lemma_full_is_own_solution(ok, n, side, start, goal);
    }
}

/// A search that classifies a grid with exactly one completion says so, and carries that
/// completion. This holds of the grid that making a puzzle leaves, which under a consistent
/// rule has the one completion of the grid that it was made from.
pub proof fn law_puzzle_classifies_as_unique<
    const NUM_CELLS: usize,
    const LENGTH: usize,
    const BOX_WIDTH: usize,
    const BOX_HEIGHT: usize,
>(
    result: SolveResult<NUM_CELLS, LENGTH, BOX_WIDTH, BOX_HEIGHT>,
    ok: Acceptance,
    puzzle: Seq<Cell>,
    solution: Seq<Cell>,
)
    requires
        result.classifies(ok, puzzle),
        has_unique(ok, NUM_CELLS as int, LENGTH as int, puzzle, solution),
    ensures
        result matches SolveResult::UniqueSolution(b) && b@ == solution,
{
}

} // verus!
