use vstd::prelude::*;
use rand::rngs::ThreadRng;
use crate::rules::{acceptance, PuzzleRules};
use crate::search::{
    ambiguous, consistent, extends, has_unique, is_solution, lemma_consistent_solutions,
    lemma_fill_decreases, unfilled_count, uniquely_solvable, Acceptance,
};
use crate::solve::{solution_set, solve, solve_one_with, SolveResult};
use crate::{Board, Cell};

verus! {

/// Why a grid cannot be made into a puzzle: it has no completion, or more than one.
#[derive(Clone, Copy, PartialEq, Eq, Debug, Structural)]
pub enum PuzzleCreateError {
    NoSolution,
    MultipleSolutions,
}

impl PuzzleCreateError {
    /// The text that describes the error.
    pub fn message(&self) -> (text: String)
        ensures
            text@ == match self {
                PuzzleCreateError::NoSolution => "No solution"@,
                PuzzleCreateError::MultipleSolutions => "Multiple solutions"@,
            },
    {
        let error = match self {
            Self::NoSolution => "No solution",
            Self::MultipleSolutions => "Multiple solutions",
        };
        error.to_owned()
    }
}

/// `after` is `before` with some cells emptied.
pub open spec fn diminishes(after: Seq<Cell>, before: Seq<Cell>) -> bool {
    &&& after.len() == before.len()
    &&& forall|i: int|
        0 <= i < after.len() ==> #[trigger] after[i] == before[i] || after[i] == Cell::Unfilled
}

/// Emptying any filled cell of `cells` leaves a grid with two completions at least.
pub open spec fn irreducible(ok: Acceptance, num_cells: int, side: int, cells: Seq<Cell>) -> bool {
    forall|i: int|
        0 <= i < cells.len() && #[trigger] cells[i] != Cell::Unfilled ==> ambiguous(
            ok,
            num_cells,
            side,
            cells.update(i, Cell::Unfilled),
        )
}

/// Builds a full grid that the rule accepts, filling the cells of an empty grid in an order
/// of values that the thread's generator decides. Returns nothing where the empty grid has
/// no completion.
pub fn create_puzzle_solution<
    R: PuzzleRules<NUM_CELLS, LENGTH, BOX_WIDTH, BOX_HEIGHT>,
    const NUM_CELLS: usize,
    const LENGTH: usize,
    const BOX_WIDTH: usize,
    const BOX_HEIGHT: usize,
>(rules: &R) -> (found: Option<Board<NUM_CELLS, LENGTH, BOX_WIDTH, BOX_HEIGHT>>)
    requires
        Board::<NUM_CELLS, LENGTH, BOX_WIDTH, BOX_HEIGHT>::geometry_ok(),
    ensures
        found matches Some(b) ==> b.wf() && is_solution(
            acceptance(rules),
            NUM_CELLS as int,
            LENGTH as int,
            Seq::new(NUM_CELLS as nat, |i: int| Cell::Unfilled),
            b@,
        ),
        found is None <==> solution_set(
            acceptance(rules),
            NUM_CELLS as int,
            LENGTH as int,
            Seq::new(NUM_CELLS as nat, |i: int| Cell::Unfilled),
        ) == Set::<Seq<Cell>>::empty(),
{
    let mut rng = rand::thread_rng();
    let mut board = Board::unfilled();
    create_puzzle_solution_recursive(&mut board, rules, &mut rng)
}

/// Searches for one completion of the grid, filling the first empty cell with each value in
/// an order that `rng` decides, and returns the first that it finds. Returns nothing where
/// the grid has no completion. The grid is as before when it returns.
pub fn create_puzzle_solution_recursive<
    R: PuzzleRules<NUM_CELLS, LENGTH, BOX_WIDTH, BOX_HEIGHT>,
    const NUM_CELLS: usize,
    const LENGTH: usize,
    const BOX_WIDTH: usize,
    const BOX_HEIGHT: usize,
>(
    board: &mut Board<NUM_CELLS, LENGTH, BOX_WIDTH, BOX_HEIGHT>,
    rules: &R,
    rng: &mut ThreadRng,
) -> (found: Option<Board<NUM_CELLS, LENGTH, BOX_WIDTH, BOX_HEIGHT>>)
    requires
        Board::<NUM_CELLS, LENGTH, BOX_WIDTH, BOX_HEIGHT>::geometry_ok(),
        old(board).wf(),
    ensures
        final(board)@ == old(board)@,
        found matches Some(b) ==> b.wf() && is_solution(
            acceptance(rules),
            NUM_CELLS as int,
            LENGTH as int,
            old(board)@,
            b@,
        ),
        found is None <==> solution_set(
            acceptance(rules),
            NUM_CELLS as int,
            LENGTH as int,
            old(board)@,
        ) == Set::<Seq<Cell>>::empty(),
{
    solve_one_with(board, rules, rng)
}

/// Makes a puzzle of a grid with exactly one completion: empties filled cells, picked by
/// the thread's generator, as long as the grid keeps exactly one completion, until no filled
/// cell can be emptied. A grid with no completion, or with more than one, is an error and
/// stays as it is.
///
/// Under a consistent rule the puzzle has the completion of the grid that it was made from,
/// and these two are the only errors. A rule that is not consistent may leave a grid
/// without any completion once a cell is emptied: the cell is then put back, and the
/// result is the error of a grid with no completion.
pub fn create_puzzle_from<
    R: PuzzleRules<NUM_CELLS, LENGTH, BOX_WIDTH, BOX_HEIGHT>,
    const NUM_CELLS: usize,
    const LENGTH: usize,
    const BOX_WIDTH: usize,
    const BOX_HEIGHT: usize,
>(board: &mut Board<NUM_CELLS, LENGTH, BOX_WIDTH, BOX_HEIGHT>, rules: &R) -> (result: Result<
    (),
    PuzzleCreateError,
>)
    requires
        Board::<NUM_CELLS, LENGTH, BOX_WIDTH, BOX_HEIGHT>::geometry_ok(),
        old(board).wf(),
    ensures
        final(board).wf(),
        diminishes(final(board)@, old(board)@),
        result == Err::<(), PuzzleCreateError>(PuzzleCreateError::MultipleSolutions) <==> ambiguous(
            acceptance(rules),
            NUM_CELLS as int,
            LENGTH as int,
            old(board)@,
        ),
        solution_set(acceptance(rules), NUM_CELLS as int, LENGTH as int, old(board)@)
            == Set::<Seq<Cell>>::empty() ==> result == Err::<(), PuzzleCreateError>(
            PuzzleCreateError::NoSolution,
        ),
        uniquely_solvable(acceptance(rules), NUM_CELLS as int, LENGTH as int, old(board)@)
            ==> uniquely_solvable(
            acceptance(rules),
            NUM_CELLS as int,
            LENGTH as int,
            final(board)@,
        ),
        !uniquely_solvable(acceptance(rules), NUM_CELLS as int, LENGTH as int, old(board)@)
            ==> final(board)@ == old(board)@,
        result is Ok ==> uniquely_solvable(
            acceptance(rules),
            NUM_CELLS as int,
            LENGTH as int,
            old(board)@,
        ) && irreducible(acceptance(rules), NUM_CELLS as int, LENGTH as int, final(board)@),
        consistent(acceptance(rules), NUM_CELLS as int, LENGTH as int) ==> (result is Ok
            <==> uniquely_solvable(
            acceptance(rules),
            NUM_CELLS as int,
            LENGTH as int,
            old(board)@,
        )) && forall|s: Seq<Cell>| #[trigger]
            has_unique(acceptance(rules), NUM_CELLS as int, LENGTH as int, old(board)@, s)
                ==> has_unique(
                acceptance(rules),
                NUM_CELLS as int,
                LENGTH as int,
                final(board)@,
                s,
            ),
{
    let ghost ok = acceptance(rules);
    let ghost start = board@;
    let ghost n = NUM_CELLS as int;
    let ghost side = LENGTH as int;
    match solve(board, rules) {
        SolveResult::NoSolution => {
            proof {
                assert(solution_set(ok, n, side, start) =~= Set::<Seq<Cell>>::empty());
            }
            return Err(PuzzleCreateError::NoSolution)
        },
        SolveResult::MultipleSolutions(b) => {
            proof {
                assert(solution_set(ok, n, side, start).contains(b@));
            }
            return Err(PuzzleCreateError::MultipleSolutions)
        },
        SolveResult::UniqueSolution(b) => {
            proof {
                assert(has_unique(ok, n, side, start, b@));
                assert(solution_set(ok, n, side, start).contains(b@));
            }
        },
    }
    // Keep removing digits while there exists a unique solution.
    let mut rng = rand::thread_rng();
    loop
        invariant
            Board::<NUM_CELLS, LENGTH, BOX_WIDTH, BOX_HEIGHT>::geometry_ok(),
            ok == acceptance(rules),
            start == old(board)@,
            n == NUM_CELLS as int,
            side == LENGTH as int,
            board.wf(),
            diminishes(board@, start),
            uniquely_solvable(ok, n, side, start),
            uniquely_solvable(ok, n, side, board@),
            consistent(ok, n, side) ==> forall|s: Seq<Cell>| #[trigger]
                has_unique(ok, n, side, start, s) ==> has_unique(ok, n, side, board@, s),
        decreases NUM_CELLS - unfilled_count(board@),
    {
        proof {
            lemma_unfilled_bound(board@);
        }
        let ghost before = board@;
        match remove_digit(board, rules, &mut rng) {
            Ok(true) => {
                proof {
                    lemma_unfilled_bound(board@);
                }
            },
            Ok(false) => {
                proof {
                    let s = choose|s: Seq<Cell>| #[trigger] has_unique(ok, n, side, start, s);
                    assert(solution_set(ok, n, side, start).contains(s));
                }
                return Ok(());
            },
            Err(e) => {
                return Err(e);
            },
        }
    }
}

/// A grid has no more empty cells than cells.
proof fn lemma_unfilled_bound(cells: Seq<Cell>)
    ensures
        unfilled_count(cells) <= cells.len(),
    decreases cells.len(),
{
    if cells.len() > 0 {
        lemma_unfilled_bound(cells.drop_last());
    }
}

/// Emptying a filled cell leaves one empty cell more.
proof fn lemma_clear_increases(cells: Seq<Cell>, i: int)
    requires
        0 <= i < cells.len(),
        cells[i] != Cell::Unfilled,
    ensures
        unfilled_count(cells.update(i, Cell::Unfilled)) == unfilled_count(cells) + 1,
{
    let cleared = cells.update(i, Cell::Unfilled);
    let v = cells[i]->Filled_0;
    lemma_fill_decreases(cleared, i, v);
    assert(cleared.update(i, Cell::Filled(v)) =~= cells);
}

/// Under a consistent rule a completion of a grid is a completion of the grid with one
/// cell emptied.
proof fn lemma_solution_survives(
    ok: Acceptance,
    num_cells: int,
    side: int,
    start: Seq<Cell>,
    i: int,
    s: Seq<Cell>,
)
    requires
        consistent(ok, num_cells, side),
        start.len() == num_cells,
        0 <= i < start.len(),
        is_solution(ok, num_cells, side, start, s),
    ensures
        is_solution(ok, num_cells, side, start.update(i, Cell::Unfilled), s),
{
    let cleared = start.update(i, Cell::Unfilled);
    lemma_consistent_solutions(ok, num_cells, side, start, s);
    lemma_consistent_solutions(ok, num_cells, side, cleared, s);
    assert(extends(s, cleared)) by {
        assert forall|j: int| 0 <= j < cleared.len() && #[trigger] cleared[j]
            != Cell::Unfilled implies s[j] == cleared[j] by {
            assert(start[j] == cleared[j]);
        }
    }
}

/// What is left of a list of positions once one is taken out by moving the last into its
/// place: all the others, and no new one.
proof fn lemma_swap_remove(before: Seq<usize>, k: int)
    requires
        0 <= k < before.len(),
    ensures
        ({
            let after = before.update(k, before.last()).drop_last();
            &&& after.len() == before.len() - 1
            &&& forall|j: int| 0 <= j < after.len() ==> before.contains(#[trigger] after[j])
            &&& forall|x: usize| before.contains(x) ==> after.contains(x) || x == before[k]
        }),
{
    let after = before.update(k, before.last()).drop_last();
    assert forall|j: int| 0 <= j < after.len() implies before.contains(#[trigger] after[j]) by {
        if j == k {
            assert(after[j] == before[before.len() - 1]);
        } else {
            assert(after[j] == before[j]);
        }
    }
    assert forall|x: usize| before.contains(x) implies after.contains(x) || x == before[k] by {
        let j = choose|j: int| 0 <= j < before.len() && before[j] == x;
        if j == k {
        } else if j == before.len() - 1 {
            assert(after[k] == x);
        } else {
            assert(after[j] == x);
        }
    }
}

/// The positions of the filled cells.
fn filled_positions<
    const NUM_CELLS: usize,
    const LENGTH: usize,
    const BOX_WIDTH: usize,
    const BOX_HEIGHT: usize,
>(board: &Board<NUM_CELLS, LENGTH, BOX_WIDTH, BOX_HEIGHT>) -> (positions: Vec<usize>)
    ensures
        forall|k: int|
            0 <= k < positions@.len() ==> #[trigger] positions@[k] < board@.len()
                && board@[positions@[k] as int] != Cell::Unfilled,
        forall|i: int|
            0 <= i < board@.len() && #[trigger] board@[i] != Cell::Unfilled ==> positions@.contains(
                i as usize,
            ),
{
    let mut positions: Vec<usize> = Vec::new();
    let n = board.len();
    let mut i: usize = 0;
    while i < n
        invariant
            n == board@.len(),
            i <= n,
            forall|k: int|
                0 <= k < positions@.len() ==> #[trigger] positions@[k] < board@.len()
                    && board@[positions@[k] as int] != Cell::Unfilled,
            forall|j: int|
                0 <= j < i && #[trigger] board@[j] != Cell::Unfilled ==> positions@.contains(
                    j as usize,
                ),
        decreases n - i,
    {
        let ghost held = positions@;
        if board.cell(i) != Cell::Unfilled {
            positions.push(i);
            proof {
                assert(positions@[held.len() as int] == i);
            }
        }
        proof {
            assert forall|j: int|
                0 <= j < i + 1 && #[trigger] board@[j] != Cell::Unfilled implies positions@.contains(
                j as usize,
            ) by {
                if j < i {
                    let k = choose|k: int| 0 <= k < held.len() && held[k] == j as usize;
                    assert(positions@[k] == j as usize);
                }
            }
        }
        i += 1;
    }
    positions
}

/// Empties the filled cell at `position` if the grid then still has exactly one completion,
/// and says whether it did. Where the grid without the cell has more than one completion it
/// stays as it is; where it has none, it stays as it is and that is an error.
pub fn try_removal<
    R: PuzzleRules<NUM_CELLS, LENGTH, BOX_WIDTH, BOX_HEIGHT>,
    const NUM_CELLS: usize,
    const LENGTH: usize,
    const BOX_WIDTH: usize,
    const BOX_HEIGHT: usize,
>(
    board: &mut Board<NUM_CELLS, LENGTH, BOX_WIDTH, BOX_HEIGHT>,
    rules: &R,
    position: usize,
) -> (result: Result<bool, PuzzleCreateError>)
    requires
        Board::<NUM_CELLS, LENGTH, BOX_WIDTH, BOX_HEIGHT>::geometry_ok(),
        old(board).wf(),
        position < NUM_CELLS,
    ensures
        final(board).wf(),
        match result {
            Ok(removed) => if removed {
                &&& final(board)@ == old(board)@.update(position as int, Cell::Unfilled)
                &&& uniquely_solvable(
                    acceptance(rules),
                    NUM_CELLS as int,
                    LENGTH as int,
                    final(board)@,
                )
            } else {
                &&& final(board)@ == old(board)@
                &&& ambiguous(
                    acceptance(rules),
                    NUM_CELLS as int,
                    LENGTH as int,
                    old(board)@.update(position as int, Cell::Unfilled),
                )
            },
            Err(e) => {
                &&& e == PuzzleCreateError::NoSolution
                &&& final(board)@ == old(board)@
                &&& solution_set(
                    acceptance(rules),
                    NUM_CELLS as int,
                    LENGTH as int,
                    old(board)@.update(position as int, Cell::Unfilled),
                ) == Set::<Seq<Cell>>::empty()
            },
        },
{
    let ghost ok = acceptance(rules);
    let ghost start = board@;
    let ghost n = NUM_CELLS as int;
    let ghost side = LENGTH as int;
    let old_value = board.cell(position);
    board.put(position, Cell::Unfilled);
    let ghost cleared = board@;
    match solve(board, rules) {
        SolveResult::NoSolution => {
            board.put(position, old_value);
            proof {
                assert(board@ =~= start);
                assert(solution_set(ok, n, side, cleared) =~= Set::<Seq<Cell>>::empty());
            }
            Err(PuzzleCreateError::NoSolution)
        },
        SolveResult::UniqueSolution(b) => {
            proof {
                assert(has_unique(ok, n, side, cleared, b@));
            }
            Ok(true)
        },
        SolveResult::MultipleSolutions(b) => {
            board.put(position, old_value);
            proof {
                assert(board@ =~= start);
                let other = choose|goal: Seq<Cell>| #[trigger]
                    is_solution(ok, n, side, cleared, goal) && goal != b@;
                assert(is_solution(ok, n, side, cleared, b@) && is_solution(
                    ok,
                    n,
                    side,
                    cleared,
                    other,
                ));
            }
            Ok(false)
        },
    }
}

/// Tries to empty one filled cell and keep exactly one completion: picks filled cells
/// through `rng` among those not yet tried, until the grid without the cell picked has
/// exactly one completion, or no filled cell is left to try. Says whether it emptied one.
/// A grid that has no completion at all once a cell is emptied is an error.
fn remove_digit<
    R: PuzzleRules<NUM_CELLS, LENGTH, BOX_WIDTH, BOX_HEIGHT>,
    const NUM_CELLS: usize,
    const LENGTH: usize,
    const BOX_WIDTH: usize,
    const BOX_HEIGHT: usize,
>(
    board: &mut Board<NUM_CELLS, LENGTH, BOX_WIDTH, BOX_HEIGHT>,
    rules: &R,
    rng: &mut ThreadRng,
) -> (result: Result<bool, PuzzleCreateError>)
    requires
        Board::<NUM_CELLS, LENGTH, BOX_WIDTH, BOX_HEIGHT>::geometry_ok(),
        old(board).wf(),
        uniquely_solvable(acceptance(rules), NUM_CELLS as int, LENGTH as int, old(board)@),
    ensures
        final(board).wf(),
        diminishes(final(board)@, old(board)@),
        uniquely_solvable(acceptance(rules), NUM_CELLS as int, LENGTH as int, final(board)@),
        consistent(acceptance(rules), NUM_CELLS as int, LENGTH as int) ==> result is Ok && forall|
            s: Seq<Cell>,
        | #[trigger]
            has_unique(acceptance(rules), NUM_CELLS as int, LENGTH as int, old(board)@, s)
                ==> has_unique(acceptance(rules), NUM_CELLS as int, LENGTH as int, final(board)@, s),
        result matches Ok(removed) ==> if removed {
            unfilled_count(final(board)@) == unfilled_count(old(board)@) + 1
        } else {
            final(board)@ == old(board)@ && irreducible(
                acceptance(rules),
                NUM_CELLS as int,
                LENGTH as int,
                final(board)@,
            )
        },
        result matches Err(e) ==> e == PuzzleCreateError::NoSolution && final(board)@ == old(
            board,
        )@,
{
    let ghost ok = acceptance(rules);
    let ghost start = board@;
    let ghost n = NUM_CELLS as int;
    let ghost side = LENGTH as int;
    let mut candidates = filled_positions(board);
    while candidates.len() > 0
        invariant
            Board::<NUM_CELLS, LENGTH, BOX_WIDTH, BOX_HEIGHT>::geometry_ok(),
            ok == acceptance(rules),
            start == old(board)@,
            n == NUM_CELLS as int,
            side == LENGTH as int,
            board.wf(),
            board@ == start,
            uniquely_solvable(ok, n, side, start),
            forall|k: int|
                0 <= k < candidates@.len() ==> #[trigger] candidates@[k] < start.len()
                    && start[candidates@[k] as int] != Cell::Unfilled,
            forall|i: int|
                0 <= i < start.len() && #[trigger] start[i] != Cell::Unfilled
                    ==> candidates@.contains(i as usize) || ambiguous(
                    ok,
                    n,
                    side,
                    start.update(i, Cell::Unfilled),
                ),
        decreases candidates@.len(),
    {
        let ghost untried = candidates@;
        let k = crate::chance::pick_index(rng, candidates.len());
        let i = candidates.swap_remove(k);
        proof {
            lemma_swap_remove(untried, k as int);
        }
        match try_removal(board, rules, i) {
            Ok(true) => {
                proof {
                    lemma_clear_increases(start, i as int);
                    if consistent(ok, n, side) {
                        assert forall|s: Seq<Cell>| #[trigger]
                            has_unique(ok, n, side, start, s) implies has_unique(
                            ok,
                            n,
                            side,
                            board@,
                            s,
                        ) by {
                            lemma_solution_survives(ok, n, side, start, i as int, s);
                        }
                    }
                }
                return Ok(true);
            },
            Ok(false) => {
                proof {
                    assert forall|j: int|
                        0 <= j < start.len() && #[trigger] start[j] != Cell::Unfilled
                            implies candidates@.contains(j as usize) || ambiguous(
                        ok,
                        n,
                        side,
                        start.update(j, Cell::Unfilled),
                    ) by {
                        if untried.contains(j as usize) && j != i {
                            assert(candidates@.contains(j as usize));
                        }
                    }
                }
            },
            Err(e) => {
                proof {
                    if consistent(ok, n, side) {
                        let s = choose|s: Seq<Cell>| #[trigger] has_unique(ok, n, side, start, s);
                        lemma_solution_survives(ok, n, side, start, i as int, s);
                        assert(solution_set(ok, n, side, start.update(i as int, Cell::Unfilled)).contains(
                            s,
                        ));
                    }
                }
                return Err(e);
            },
        }
    }
    proof {
        assert forall|i: int| 0 <= i < start.len() && #[trigger] start[i] != Cell::Unfilled implies ambiguous(
            ok,
            n,
            side,
            start.update(i, Cell::Unfilled),
        ) by {
            assert(!candidates@.contains(i as usize));
        }
    }
    Ok(false)
}

} // verus!
