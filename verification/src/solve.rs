use vstd::prelude::*;
use vstd::std_specs::cmp::PartialEqSpecImpl;
use crate::rules::{acceptance, PuzzleRules};
use crate::search::{
    ambiguous, branch, carried, first_unfilled_at, is_full, is_solution,
    leads_on, lemma_carried_in_first, lemma_carried_in_second, lemma_fill_decreases,
    lemma_full_is_own_solution, lemma_refused_has_none, lemma_solution_ascends,
    lemma_solution_descends, unfilled_count, value_at, Acceptance,
};
use crate::{Board, Cell};
use rand::rngs::ThreadRng;

verus! {

/// What a search for the completions of a grid found: none, exactly one, or more than one.
/// The last two carry a completion.
#[derive(Debug)]
pub enum SolveResult<
    const NUM_CELLS: usize,
    const LENGTH: usize,
    const BOX_WIDTH: usize,
    const BOX_HEIGHT: usize,
> {
    NoSolution,
    UniqueSolution(Board<NUM_CELLS, LENGTH, BOX_WIDTH, BOX_HEIGHT>),
    MultipleSolutions(Board<NUM_CELLS, LENGTH, BOX_WIDTH, BOX_HEIGHT>),
}

impl<
    const NUM_CELLS: usize,
    const LENGTH: usize,
    const BOX_WIDTH: usize,
    const BOX_HEIGHT: usize,
> PartialEq for SolveResult<NUM_CELLS, LENGTH, BOX_WIDTH, BOX_HEIGHT> {
    /// Two results are equal where they say the same and carry grids with the same cells.
    fn eq(&self, other: &Self) -> (same: bool) {
        match (self, other) {
            (SolveResult::NoSolution, SolveResult::NoSolution) => true,
            (SolveResult::UniqueSolution(a), SolveResult::UniqueSolution(b)) => a == b,
            (SolveResult::MultipleSolutions(a), SolveResult::MultipleSolutions(b)) => a == b,
            _ => false,
        }
    }
}

impl<
    const NUM_CELLS: usize,
    const LENGTH: usize,
    const BOX_WIDTH: usize,
    const BOX_HEIGHT: usize,
> PartialEqSpecImpl for SolveResult<NUM_CELLS, LENGTH, BOX_WIDTH, BOX_HEIGHT> {
    open spec fn obeys_eq_spec() -> bool {
        true
    }

    open spec fn eq_spec(&self, other: &Self) -> bool {
        match (self, other) {
            (SolveResult::NoSolution, SolveResult::NoSolution) => true,
            (SolveResult::UniqueSolution(a), SolveResult::UniqueSolution(b)) => a@ == b@,
            (SolveResult::MultipleSolutions(a), SolveResult::MultipleSolutions(b)) => a@ == b@,
            _ => false,
        }
    }
}

impl<
    const NUM_CELLS: usize,
    const LENGTH: usize,
    const BOX_WIDTH: usize,
    const BOX_HEIGHT: usize,
> SolveResult<NUM_CELLS, LENGTH, BOX_WIDTH, BOX_HEIGHT> {
    /// The result says how many completions `start` has under the rule `ok`: none; exactly
    /// one, which it carries; or at least two, of which it carries one.
    pub open spec fn classifies(&self, ok: Acceptance, start: Seq<Cell>) -> bool {
        let n = NUM_CELLS as int;
        let side = LENGTH as int;
        match self {
            SolveResult::NoSolution => forall|goal: Seq<Cell>|
                !#[trigger] is_solution(ok, n, side, start, goal),
            SolveResult::UniqueSolution(b) => {
                &&& b.wf()
                &&& is_solution(ok, n, side, start, b@)
                &&& forall|goal: Seq<Cell>|
                    #[trigger] is_solution(ok, n, side, start, goal) ==> goal == b@
            },
            SolveResult::MultipleSolutions(b) => {
                &&& b.wf()
                &&& is_solution(ok, n, side, start, b@)
                &&& exists|goal: Seq<Cell>|
                    #[trigger] is_solution(ok, n, side, start, goal) && goal != b@
            },
        }
    }

    /// The result says how many completions `start` has among those with a value below
    /// `guess` at position `index`: as `classifies`, but that more than one is known of all
    /// completions.
    spec fn covers(&self, ok: Acceptance, start: Seq<Cell>, index: int, guess: int) -> bool {
        let n = NUM_CELLS as int;
        let side = LENGTH as int;
        match self {
            SolveResult::NoSolution => forall|goal: Seq<Cell>|
                #[trigger] is_solution(ok, n, side, start, goal) ==> value_at(
                    goal,
                    index,
                ) >= guess,
            SolveResult::UniqueSolution(b) => {
                &&& b.wf()
                &&& is_solution(ok, n, side, start, b@)
                &&& value_at(b@, index) < guess
                &&& forall|goal: Seq<Cell>|
                    #[trigger] is_solution(ok, n, side, start, goal) && value_at(
                        goal,
                        index,
                    ) < guess ==> goal == b@
            },
            SolveResult::MultipleSolutions(_) => self.classifies(ok, start),
        }
    }
}

/// Once every value has been tried at the first empty cell, what is known of the completions
/// with a tried value there is known of all.
proof fn lemma_covers_all<
    const NUM_CELLS: usize,
    const LENGTH: usize,
    const BOX_WIDTH: usize,
    const BOX_HEIGHT: usize,
>(
    result: SolveResult<NUM_CELLS, LENGTH, BOX_WIDTH, BOX_HEIGHT>,
    ok: Acceptance,
    start: Seq<Cell>,
    index: int,
    guess: int,
)
    requires
        first_unfilled_at(start, index),
        result.covers(ok, start, index, guess),
        guess > LENGTH,
    ensures
        result.classifies(ok, start),
{
    let n = NUM_CELLS as int;
    let side = LENGTH as int;
    assert forall|goal: Seq<Cell>| #[trigger]
        is_solution(ok, n, side, start, goal) implies value_at(
        goal,
        index,
    ) < guess by {
        lemma_solution_descends(ok, n, side, start, index, goal);
    }
}

/// What is known of the completions with a value below `guess` at the first empty cell
/// says which of these values lead to a completion: none, or one only, and that one to one
/// completion only.
proof fn lemma_covers_branches<
    const NUM_CELLS: usize,
    const LENGTH: usize,
    const BOX_WIDTH: usize,
    const BOX_HEIGHT: usize,
>(
    current: SolveResult<NUM_CELLS, LENGTH, BOX_WIDTH, BOX_HEIGHT>,
    ok: Acceptance,
    start: Seq<Cell>,
    index: int,
    guess: int,
)
    requires
        first_unfilled_at(start, index),
        ok(start),
        1 <= guess <= 256,
        current.covers(ok, start, index, guess),
    ensures
        match current {
            SolveResult::NoSolution => forall|w: int|
                0 < w < guess ==> !#[trigger] leads_on(
                    ok,
                    NUM_CELLS as int,
                    LENGTH as int,
                    start,
                    index,
                    w,
                ),
            SolveResult::UniqueSolution(b) => {
                let a = value_at(b@, index);
                &&& 0 < a < guess
                &&& leads_on(ok, NUM_CELLS as int, LENGTH as int, start, index, a)
                &&& !ambiguous(ok, NUM_CELLS as int, LENGTH as int, branch(start, index, a))
                &&& forall|w: int|
                    0 < w < guess && w != a ==> !#[trigger] leads_on(
                        ok,
                        NUM_CELLS as int,
                        LENGTH as int,
                        start,
                        index,
                        w,
                    )
            },
            SolveResult::MultipleSolutions(_) => true,
        },
{
    let n = NUM_CELLS as int;
    let side = LENGTH as int;
    assert forall|w: int, goal: Seq<Cell>|
        0 < w < guess && #[trigger] is_solution(
            ok,
            n,
            side,
            branch(start, index, w),
            goal,
        ) implies is_solution(ok, n, side, start, goal) && value_at(goal, index) == w by {
        lemma_solution_ascends(ok, n, side, start, index, Cell::Filled(w as u8), goal);
    }
    match current {
        SolveResult::NoSolution => {
            assert forall|w: int| 0 < w < guess implies !#[trigger] leads_on(
                ok,
                n,
                side,
                start,
                index,
                w,
            ) by {
                if leads_on(ok, n, side, start, index, w) {
                    let goal = choose|goal: Seq<Cell>| #[trigger]
                        is_solution(ok, n, side, branch(start, index, w), goal);
                    assert(is_solution(ok, n, side, start, goal));
                }
            }
        },
        SolveResult::UniqueSolution(b) => {
            let a = value_at(b@, index);
            lemma_solution_descends(ok, n, side, start, index, b@);
            assert(b@[index] == Cell::Filled(a as u8));
            assert(is_solution(ok, n, side, branch(start, index, a), b@));
            assert forall|w: int| 0 < w < guess && w != a implies !#[trigger] leads_on(
                ok,
                n,
                side,
                start,
                index,
                w,
            ) by {
                if leads_on(ok, n, side, start, index, w) {
                    let goal = choose|goal: Seq<Cell>| #[trigger]
                        is_solution(ok, n, side, branch(start, index, w), goal);
                    assert(is_solution(ok, n, side, start, goal));
                }
            }
            if ambiguous(ok, n, side, branch(start, index, a)) {
                let (g, h) = choose|g: Seq<Cell>, h: Seq<Cell>|
                    g != h && #[trigger] is_solution(ok, n, side, branch(start, index, a), g)
                        && #[trigger] is_solution(ok, n, side, branch(start, index, a), h);
                assert(is_solution(ok, n, side, start, g));
                assert(is_solution(ok, n, side, start, h));
            }
        },
        SolveResult::MultipleSolutions(_) => {},
    }
}

/// Merges what is known of the completions with a value below `guess` at the first empty
/// cell with what the search found for the value `guess`.
fn merge<
    const NUM_CELLS: usize,
    const LENGTH: usize,
    const BOX_WIDTH: usize,
    const BOX_HEIGHT: usize,
>(
    current: SolveResult<NUM_CELLS, LENGTH, BOX_WIDTH, BOX_HEIGHT>,
    sub: SolveResult<NUM_CELLS, LENGTH, BOX_WIDTH, BOX_HEIGHT>,
    Ghost(ok): Ghost<Acceptance>,
    Ghost(start): Ghost<Seq<Cell>>,
    Ghost(index): Ghost<int>,
    Ghost(guess): Ghost<int>,
) -> (merged: SolveResult<NUM_CELLS, LENGTH, BOX_WIDTH, BOX_HEIGHT>)
    requires
        first_unfilled_at(start, index),
        ok(start),
        1 <= guess <= 255,
        guess <= LENGTH,
        !(current is MultipleSolutions),
        current.covers(ok, start, index, guess),
        sub.classifies(ok, start.update(index, Cell::Filled(guess as u8))),
        sub matches SolveResult::MultipleSolutions(c) ==> c@ == carried(
            ok,
            NUM_CELLS as int,
            LENGTH as int,
            start.update(index, Cell::Filled(guess as u8)),
        ),
    ensures
        merged.covers(ok, start, index, guess + 1),
        merged matches SolveResult::MultipleSolutions(b) ==> b@ == carried(
            ok,
            NUM_CELLS as int,
            LENGTH as int,
            start,
        ),
{
    let ghost n = NUM_CELLS as int;
    let ghost side = LENGTH as int;
    let ghost filled = Cell::Filled(guess as u8);
    let ghost next = start.update(index, filled);
    proof {
        assert forall|goal: Seq<Cell>| #[trigger]
            is_solution(ok, n, side, start, goal) && value_at(goal, index)
                == guess implies is_solution(ok, n, side, next, goal) by {
            lemma_solution_descends(ok, n, side, start, index, goal);
            assert(goal[index] == filled);
        }
        assert forall|goal: Seq<Cell>| #[trigger]
            is_solution(ok, n, side, next, goal) implies is_solution(
            ok,
            n,
            side,
            start,
            goal,
        ) && value_at(goal, index) == guess by {
            lemma_solution_ascends(ok, n, side, start, index, filled, goal);
        }
    }
    match sub {
        SolveResult::NoSolution => current,
        SolveResult::UniqueSolution(found) => match current {
            SolveResult::NoSolution => SolveResult::UniqueSolution(found),
            SolveResult::UniqueSolution(earlier) => {
                proof {
                    assert(is_solution(ok, n, side, start, earlier@) && earlier@ != found@);
                    assert(is_solution(ok, n, side, branch(start, index, guess), found@));
                    assert(leads_on(ok, n, side, start, index, guess));
                    lemma_covers_branches(current, ok, start, index, guess);
                    lemma_carried_in_second(
                        ok,
                        n,
                        side,
                        start,
                        index,
                        value_at(earlier@, index),
                        guess,
                        found@,
                    );
                }
                SolveResult::MultipleSolutions(found)
            },
            SolveResult::MultipleSolutions(_) => current,
        },
        SolveResult::MultipleSolutions(found) => {
            proof {
                let other = choose|goal: Seq<Cell>|
                    is_solution(ok, n, side, next, goal) && goal != found@;
                assert(is_solution(ok, n, side, start, other) && other != found@);
                assert(ambiguous(ok, n, side, next));
                assert(is_solution(ok, n, side, branch(start, index, guess), found@));
                assert(leads_on(ok, n, side, start, index, guess));
                lemma_covers_branches(current, ok, start, index, guess);
                match current {
                    SolveResult::UniqueSolution(earlier) => {
                        lemma_carried_in_second(
                            ok,
                            n,
                            side,
                            start,
                            index,
                            value_at(earlier@, index),
                            guess,
                            found@,
                        );
                    },
                    _ => {
                        lemma_carried_in_first(ok, n, side, start, index, guess);
                    },
                }
            }
            SolveResult::MultipleSolutions(found)
        },
    }
}

/// Searches for the completions of the grid, filling the first empty cell with each value
/// in increasing order, and says whether there is none, one or more. The search stops at the
/// second completion found. The grid is as before when it returns.
pub fn solve<
    R: PuzzleRules<NUM_CELLS, LENGTH, BOX_WIDTH, BOX_HEIGHT>,
    const NUM_CELLS: usize,
    const LENGTH: usize,
    const BOX_WIDTH: usize,
    const BOX_HEIGHT: usize,
>(board: &mut Board<NUM_CELLS, LENGTH, BOX_WIDTH, BOX_HEIGHT>, rules: &R) -> (result: SolveResult<
    NUM_CELLS,
    LENGTH,
    BOX_WIDTH,
    BOX_HEIGHT,
>)
    requires
        Board::<NUM_CELLS, LENGTH, BOX_WIDTH, BOX_HEIGHT>::geometry_ok(),
        old(board).wf(),
    ensures
        final(board)@ == old(board)@,
        result.classifies(acceptance(rules), old(board)@),
        result matches SolveResult::MultipleSolutions(b) ==> b@ == carried(
            acceptance(rules),
            NUM_CELLS as int,
            LENGTH as int,
            old(board)@,
        ),
    decreases unfilled_count(old(board)@),
{
    let ghost ok = acceptance(rules);
    let ghost start = board@;
    let ghost n = NUM_CELLS as int;
    let ghost side = LENGTH as int;
    if !rules.is_valid(board) {
        proof {
            assert forall|goal: Seq<Cell>| !#[trigger] is_solution(ok, n, side, start, goal) by {
                lemma_refused_has_none(ok, n, side, start, goal);
            }
        }
        return SolveResult::NoSolution;
    }
    let index = match board.first_unfilled() {
        None => {
            proof {
                assert forall|goal: Seq<Cell>| #[trigger]
                    is_solution(ok, n, side, start, goal) implies goal == start by {
                    lemma_full_is_own_solution(ok, n, side, start, goal);
                }
                lemma_full_is_own_solution(ok, n, side, start, start);
            }
            return SolveResult::UniqueSolution(board.clone());
        },
        Some(i) => i,
    };
    let mut current = SolveResult::NoSolution;
    let mut guess: usize = 1;
    while guess <= LENGTH && !matches!(current, SolveResult::MultipleSolutions(_))
        invariant
            Board::<NUM_CELLS, LENGTH, BOX_WIDTH, BOX_HEIGHT>::geometry_ok(),
            ok == acceptance(rules),
            start == old(board)@,
            n == NUM_CELLS as int,
            side == LENGTH as int,
            crate::cells_wf(start, n, side),
            first_unfilled_at(start, index as int),
            ok(start),
            1 <= guess <= LENGTH + 1,
            board@.len() == start.len(),
            forall|j: int| 0 <= j < start.len() && j != index ==> board@[j] == start[j],
            current.covers(ok, start, index as int, guess as int),
            current matches SolveResult::MultipleSolutions(b) ==> b@ == carried(ok, n, side, start),
        decreases LENGTH + 1 - guess,
    {
        board.put(index, Cell::Filled(guess as u8));
        proof {
            lemma_fill_decreases(start, index as int, guess as u8);
            assert(board@ =~= start.update(index as int, Cell::Filled(guess as u8)));
        }
        let sub = solve(board, rules);
        current = merge(current, sub, Ghost(ok), Ghost(start), Ghost(index as int), Ghost(guess as int));
        guess += 1;
    }
    board.put(index, Cell::Unfilled);
    proof {
        assert(board@ =~= start);
        if !(current is MultipleSolutions) {
            lemma_covers_all(current, ok, start, index as int, guess as int);
        }
    }
    current
}

/// The completions of `start` under the rule `ok`.
pub open spec fn solution_set(ok: Acceptance, num_cells: int, side: int, start: Seq<Cell>) -> Set<
    Seq<Cell>,
> {
    Set::new(|goal: Seq<Cell>| is_solution(ok, num_cells, side, start, goal))
}

/// The cell `c` says what the grids of `seen` hold at position `i`: a filled cell stands for
/// the cell that all of them hold there, an empty one for two of them that differ there.
pub open spec fn cell_summarises(c: Cell, seen: Set<Seq<Cell>>, i: int) -> bool {
    match c {
        Cell::Filled(_) => forall|g: Seq<Cell>| #[trigger] seen.contains(g) ==> g[i] == c,
        Cell::Unfilled => exists|g: Seq<Cell>, h: Seq<Cell>|
            #[trigger] seen.contains(g) && #[trigger] seen.contains(h) && g[i] != h[i],
    }
}

/// `acc` is the grid of what the grids of `seen` have in common: nothing where `seen` is
/// empty; else the grid that holds at each position the cell that all of them hold there,
/// and an empty cell where two of them differ.
pub open spec fn summarises(acc: Option<Seq<Cell>>, seen: Set<Seq<Cell>>, num_cells: int) -> bool {
    match acc {
        None => forall|g: Seq<Cell>| !#[trigger] seen.contains(g),
        Some(a) => {
            &&& a.len() == num_cells
            &&& exists|g: Seq<Cell>| #[trigger] seen.contains(g)
            &&& forall|i: int| 0 <= i < num_cells ==> cell_summarises(#[trigger] a[i], seen, i)
        },
    }
}

/// The cells of the grid that `acc` holds, if it holds one.
pub open spec fn cells_of<
    const NUM_CELLS: usize,
    const LENGTH: usize,
    const BOX_WIDTH: usize,
    const BOX_HEIGHT: usize,
>(acc: Option<Board<NUM_CELLS, LENGTH, BOX_WIDTH, BOX_HEIGHT>>) -> Option<Seq<Cell>> {
    match acc {
        None => None,
        Some(b) => Some(b@),
    }
}

/// The completions of `start` with a value below `guess` at position `index`.
spec fn solutions_below(
    ok: Acceptance,
    num_cells: int,
    side: int,
    start: Seq<Cell>,
    index: int,
    guess: int,
) -> Set<Seq<Cell>> {
    Set::new(
        |goal: Seq<Cell>|
            is_solution(ok, num_cells, side, start, goal) && value_at(goal, index) < guess,
    )
}

/// The completions with a value up to `guess` at the first empty cell are those with a
/// smaller value there and those of the grid with `guess` there.
proof fn lemma_solutions_below_step(
    ok: Acceptance,
    num_cells: int,
    side: int,
    start: Seq<Cell>,
    index: int,
    guess: int,
)
    requires
        first_unfilled_at(start, index),
        ok(start),
        1 <= guess <= 255,
    ensures
        solutions_below(ok, num_cells, side, start, index, guess + 1) == solutions_below(
            ok,
            num_cells,
            side,
            start,
            index,
            guess,
        ).union(
            solution_set(ok, num_cells, side, start.update(index, Cell::Filled(guess as u8))),
        ),
{
    let filled = Cell::Filled(guess as u8);
    let next = start.update(index, filled);
    let whole = solutions_below(ok, num_cells, side, start, index, guess + 1);
    let parts = solutions_below(ok, num_cells, side, start, index, guess).union(
        solution_set(ok, num_cells, side, next),
    );
    assert forall|goal: Seq<Cell>| whole.contains(goal) <==> parts.contains(goal) by {
        if is_solution(ok, num_cells, side, start, goal) && value_at(goal, index) == guess {
            lemma_solution_descends(ok, num_cells, side, start, index, goal);
            assert(goal[index] == filled);
        }
        if is_solution(ok, num_cells, side, next, goal) {
            lemma_solution_ascends(ok, num_cells, side, start, index, filled, goal);
        }
    }
    assert(whole =~= parts);
}

/// The completions with a value below 1 at the first empty cell are none, and those with a
/// value up to the side length there are all.
proof fn lemma_solutions_below_ends(
    ok: Acceptance,
    num_cells: int,
    side: int,
    start: Seq<Cell>,
    index: int,
)
    requires
        first_unfilled_at(start, index),
    ensures
        solutions_below(ok, num_cells, side, start, index, 1) == Set::<Seq<Cell>>::empty(),
        solutions_below(ok, num_cells, side, start, index, side + 1) == solution_set(
            ok,
            num_cells,
            side,
            start,
        ),
{
    let none = solutions_below(ok, num_cells, side, start, index, 1);
    let all = solutions_below(ok, num_cells, side, start, index, side + 1);
    assert forall|goal: Seq<Cell>| is_solution(ok, num_cells, side, start, goal) implies 1
        <= value_at(goal, index) <= side by {
        lemma_solution_descends(ok, num_cells, side, start, index, goal);
    }
    assert(none =~= Set::<Seq<Cell>>::empty());
    assert(all =~= solution_set(ok, num_cells, side, start));
}

/// Takes one more full grid into the grid of what the grids seen so far have in common:
/// every cell in which the two differ becomes empty.
fn absorb<
    const NUM_CELLS: usize,
    const LENGTH: usize,
    const BOX_WIDTH: usize,
    const BOX_HEIGHT: usize,
>(
    acc: &mut Board<NUM_CELLS, LENGTH, BOX_WIDTH, BOX_HEIGHT>,
    found: &Board<NUM_CELLS, LENGTH, BOX_WIDTH, BOX_HEIGHT>,
    Ghost(seen): Ghost<Set<Seq<Cell>>>,
)
    requires
        old(acc).wf(),
        found.wf(),
        is_full(found@),
        summarises(Some(old(acc)@), seen, NUM_CELLS as int),
    ensures
        final(acc).wf(),
        summarises(Some(final(acc)@), seen.insert(found@), NUM_CELLS as int),
{
    let ghost more = seen.insert(found@);
    let ghost before = acc@;
    let ghost witness = choose|g: Seq<Cell>| seen.contains(g);
    let mut i: usize = 0;
    while i < NUM_CELLS
        invariant
            i <= NUM_CELLS,
            acc.wf(),
            found.wf(),
            is_full(found@),
            more == seen.insert(found@),
            seen.contains(witness),
            before.len() == NUM_CELLS,
            forall|j: int| 0 <= j < NUM_CELLS ==> cell_summarises(#[trigger] before[j], seen, j),
            forall|j: int| i <= j < NUM_CELLS ==> acc@[j] == before[j],
            forall|j: int| 0 <= j < i ==> cell_summarises(#[trigger] acc@[j], more, j),
        decreases NUM_CELLS - i,
    {
        let ghost held = acc@;
        let ghost at = i as int;
        assert(cell_summarises(before[at], seen, at));
        assert(found@[at] != Cell::Unfilled);
        if acc.cell(i) != found.cell(i) {
            acc.put(i, Cell::Unfilled);
            proof {
                if before[at] == Cell::Unfilled {
                    let (g, h) = choose|g: Seq<Cell>, h: Seq<Cell>|
                        #[trigger] seen.contains(g) && #[trigger] seen.contains(h) && g[at] != h[at];
                    assert(more.contains(g) && more.contains(h) && g[at] != h[at]);
                } else {
                    assert(witness[at] == before[at]);
                    assert(more.contains(witness) && more.contains(found@) && witness[at]
                        != found@[at]);
                }
                assert(cell_summarises(acc@[at], more, at));
            }
        } else {
            proof {
                assert forall|g: Seq<Cell>| #[trigger] more.contains(g) implies g[at] == acc@[at] by {
                    if g != found@ {
                        assert(seen.contains(g));
                    }
                }
                assert(cell_summarises(acc@[at], more, at));
            }
        }
        proof {
            assert forall|j: int| 0 <= j < i + 1 implies cell_summarises(
                #[trigger] acc@[j],
                more,
                j,
            ) by {
                if j < i {
                    assert(acc@[j] == held[j]);
                    assert(cell_summarises(held[j], more, j));
                }
            }
        }
        i += 1;
    }
    assert(more.contains(found@));
}

/// Searches all completions of the grid and takes each into `acc`, the grid of what the
/// completions seen so far have in common. The grid is as before when it returns.
fn derive_recursive<
    R: PuzzleRules<NUM_CELLS, LENGTH, BOX_WIDTH, BOX_HEIGHT>,
    const NUM_CELLS: usize,
    const LENGTH: usize,
    const BOX_WIDTH: usize,
    const BOX_HEIGHT: usize,
>(
    board: &mut Board<NUM_CELLS, LENGTH, BOX_WIDTH, BOX_HEIGHT>,
    rules: &R,
    acc: &mut Option<Board<NUM_CELLS, LENGTH, BOX_WIDTH, BOX_HEIGHT>>,
    Ghost(seen): Ghost<Set<Seq<Cell>>>,
)
    requires
        Board::<NUM_CELLS, LENGTH, BOX_WIDTH, BOX_HEIGHT>::geometry_ok(),
        old(board).wf(),
        *old(acc) matches Some(a) ==> a.wf(),
        summarises(cells_of(*old(acc)), seen, NUM_CELLS as int),
    ensures
        final(board)@ == old(board)@,
        *final(acc) matches Some(a) ==> a.wf(),
        summarises(
            cells_of(*final(acc)),
            seen.union(solution_set(acceptance(rules), NUM_CELLS as int, LENGTH as int, old(board)@)),
            NUM_CELLS as int,
        ),
    decreases unfilled_count(old(board)@),
{
    let ghost ok = acceptance(rules);
    let ghost start = board@;
    let ghost n = NUM_CELLS as int;
    let ghost side = LENGTH as int;
    let ghost found = solution_set(ok, n, side, start);
    if !rules.is_valid(board) {
        proof {
            assert forall|goal: Seq<Cell>| !found.contains(goal) by {
                lemma_refused_has_none(ok, n, side, start, goal);
            }
            assert(seen.union(found) =~= seen);
        }
        return ;
    }
    // Find an empty cell.
    let index = match board.first_unfilled() {
        None => {
            proof {
                assert forall|goal: Seq<Cell>| found.contains(goal) <==> goal == start by {
                    lemma_full_is_own_solution(ok, n, side, start, goal);
                }
                assert(seen.union(found) =~= seen.insert(start));
            }
            match acc {
                None => {
                    proof {
                        assert(seen =~= Set::<Seq<Cell>>::empty());
                        assert(seen.insert(start).contains(start));
                        assert forall|i: int| 0 <= i < n implies cell_summarises(
                            #[trigger] start[i],
                            seen.insert(start),
                            i,
                        ) by {}
                    }
                    *acc = Some(board.clone());
                },
                Some(acc) => {
                    absorb(acc, board, Ghost(seen));
                },
            }
            return ;
        },
        Some(v) => v,
    };
    let mut guess: usize = 1;
    proof {
        lemma_solutions_below_ends(ok, n, side, start, index as int);
        assert(seen.union(solutions_below(ok, n, side, start, index as int, 1)) =~= seen);
    }
    while guess <= LENGTH
        invariant
            Board::<NUM_CELLS, LENGTH, BOX_WIDTH, BOX_HEIGHT>::geometry_ok(),
            ok == acceptance(rules),
            start == old(board)@,
            n == NUM_CELLS as int,
            side == LENGTH as int,
            crate::cells_wf(start, n, side),
            first_unfilled_at(start, index as int),
            ok(start),
            1 <= guess <= LENGTH + 1,
            board@.len() == start.len(),
            forall|j: int| 0 <= j < start.len() && j != index ==> board@[j] == start[j],
            *acc matches Some(a) ==> a.wf(),
            summarises(
                cells_of(*acc),
                seen.union(solutions_below(ok, n, side, start, index as int, guess as int)),
                n,
            ),
        decreases LENGTH + 1 - guess,
    {
        board.put(index, Cell::Filled(guess as u8));
        proof {
            lemma_fill_decreases(start, index as int, guess as u8);
            assert(board@ =~= start.update(index as int, Cell::Filled(guess as u8)));
            lemma_solutions_below_step(ok, n, side, start, index as int, guess as int);
        }
        let ghost so_far = seen.union(
            solutions_below(ok, n, side, start, index as int, guess as int),
        );
        derive_recursive(board, rules, acc, Ghost(so_far));
        proof {
            assert(so_far.union(solution_set(ok, n, side, board@)) =~= seen.union(
                solutions_below(ok, n, side, start, index as int, guess + 1),
            ));
        }
        guess += 1;
    }
    // Make sure we exit this function with the board unchanged.
    board.put(index, Cell::Unfilled);
    proof {
        assert(board@ =~= start);
        lemma_solutions_below_ends(ok, n, side, start, index as int);
    }
}

/// Searches all completions of the grid and returns the grid of what they have in common:
/// at each position the value that every completion holds there, and an empty cell where
/// two completions differ. Returns nothing where the grid has no completion. The grid is as
/// before when it returns.
pub fn derive<
    R: PuzzleRules<NUM_CELLS, LENGTH, BOX_WIDTH, BOX_HEIGHT>,
    const NUM_CELLS: usize,
    const LENGTH: usize,
    const BOX_WIDTH: usize,
    const BOX_HEIGHT: usize,
>(board: &mut Board<NUM_CELLS, LENGTH, BOX_WIDTH, BOX_HEIGHT>, rules: &R) -> (common: Option<
    Board<NUM_CELLS, LENGTH, BOX_WIDTH, BOX_HEIGHT>,
>)
    requires
        Board::<NUM_CELLS, LENGTH, BOX_WIDTH, BOX_HEIGHT>::geometry_ok(),
        old(board).wf(),
    ensures
        final(board)@ == old(board)@,
        common matches Some(a) ==> a.wf(),
        summarises(
            cells_of(common),
            solution_set(acceptance(rules), NUM_CELLS as int, LENGTH as int, old(board)@),
            NUM_CELLS as int,
        ),
{
    let ghost none = Set::<Seq<Cell>>::empty();
    let ghost all = solution_set(acceptance(rules), NUM_CELLS as int, LENGTH as int, board@);
    let mut acc = None;
    derive_recursive(board, rules, &mut acc, Ghost(none));
    proof {
        assert(none.union(all) =~= all);
    }
    acc
}

/// The completions of `start` that hold the value `v` at position `index`, which is its
/// first empty cell.
pub open spec fn branch_set(
    ok: Acceptance,
    num_cells: int,
    side: int,
    start: Seq<Cell>,
    index: int,
    v: u8,
) -> Set<Seq<Cell>> {
    solution_set(ok, num_cells, side, start.update(index, Cell::Filled(v)))
}

/// Where none of the values `tried` leads to a completion when put in the first empty cell,
/// and every value of the side is among them, the grid has no completion.
pub proof fn lemma_every_branch_without_solution(
    ok: Acceptance,
    num_cells: int,
    side: int,
    start: Seq<Cell>,
    index: int,
    tried: Seq<u8>,
)
    requires
        first_unfilled_at(start, index),
        forall|v: u8| 1 <= v <= side ==> tried.contains(v),
        forall|j: int|
            0 <= j < tried.len() ==> branch_set(ok, num_cells, side, start, index, #[trigger] tried[j])
                == Set::<Seq<Cell>>::empty(),
    ensures
        solution_set(ok, num_cells, side, start) == Set::<Seq<Cell>>::empty(),
{
    let all = solution_set(ok, num_cells, side, start);
    assert forall|goal: Seq<Cell>| !all.contains(goal) by {
        if all.contains(goal) {
            lemma_solution_descends(ok, num_cells, side, start, index, goal);
            let v = value_at(goal, index) as u8;
            assert(tried.contains(v));
            let j = choose|j: int| 0 <= j < tried.len() && tried[j] == v;
            assert(goal[index] == Cell::Filled(tried[j]));
            assert(branch_set(ok, num_cells, side, start, index, tried[j]).contains(goal));
        }
    }
    assert(all =~= Set::<Seq<Cell>>::empty());
}

/// The values `1..=side` in an order that the generator decides.
pub(crate) fn shuffled_values(side: usize, rng: &mut ThreadRng) -> (values: Vec<u8>)
    requires
        side <= 255,
    ensures
        values@.len() == side,
        forall|k: int| 0 <= k < values@.len() ==> 1 <= #[trigger] values@[k] <= side,
        forall|v: u8| 1 <= v <= side ==> values@.contains(v),
{
    let mut values: Vec<u8> = Vec::new();
    let mut v: usize = 1;
    while v <= side
        invariant
            side <= 255,
            1 <= v <= side + 1,
            values@.len() == v - 1,
            forall|k: int| 0 <= k < values@.len() ==> #[trigger] values@[k] == k + 1,
        decreases side + 1 - v,
    {
        values.push(v as u8);
        v += 1;
    }
    let ghost sorted = values@;
    crate::chance::shuffle(&mut values, rng);
    proof {
        sorted.to_multiset_ensures();
        values@.to_multiset_ensures();
        assert forall|k: int| 0 <= k < values@.len() implies 1 <= #[trigger] values@[k] <= side by {
            let w = values@[k];
            assert(values@.contains(w));
            assert(values@.to_multiset().count(w) > 0);
            assert(sorted.to_multiset().count(w) > 0);
            assert(sorted.contains(w));
            let j = choose|j: int| 0 <= j < sorted.len() && sorted[j] == w;
            assert(sorted[j] == j + 1);
        }
        assert forall|w: u8| 1 <= w <= side implies values@.contains(w) by {
            assert(sorted[w - 1] == w);
            assert(sorted.contains(w));
            assert(sorted.to_multiset().count(w) > 0);
            assert(values@.to_multiset().count(w) > 0);
        }
    }
    values
}

/// Searches for one completion of the grid, filling the first empty cell with each value in
/// an order that the thread's generator decides, and returns the first that it finds.
/// Returns nothing where the grid has no completion. The grid is as before when it returns.
pub fn solve_one<
    R: PuzzleRules<NUM_CELLS, LENGTH, BOX_WIDTH, BOX_HEIGHT>,
    const NUM_CELLS: usize,
    const LENGTH: usize,
    const BOX_WIDTH: usize,
    const BOX_HEIGHT: usize,
>(board: &mut Board<NUM_CELLS, LENGTH, BOX_WIDTH, BOX_HEIGHT>, rules: &R) -> (found: Option<
    Board<NUM_CELLS, LENGTH, BOX_WIDTH, BOX_HEIGHT>,
>)
    requires
        Board::<NUM_CELLS, LENGTH, BOX_WIDTH, BOX_HEIGHT>::geometry_ok(),
        old(board).wf(),
    ensures
        final(board)@ == old(board)@,
        found matches Some(b) ==> b.wf() && is_solution(
            acceptance(rules),
            NUM_CELLS as int,
            LENGTH as int,
            old(board)@,
            b@,
        ),
        found is None <==> solution_set(
            acceptance(rules),
            NUM_CELLS as int,
            LENGTH as int,
            old(board)@,
        ) == Set::<Seq<Cell>>::empty(),
{
    let mut rng = rand::thread_rng();
    solve_one_with(board, rules, &mut rng)
}

/// Searches for one completion of the grid as `solve_one` does, with the generator `rng`.
pub fn solve_one_with<
    R: PuzzleRules<NUM_CELLS, LENGTH, BOX_WIDTH, BOX_HEIGHT>,
    const NUM_CELLS: usize,
    const LENGTH: usize,
    const BOX_WIDTH: usize,
    const BOX_HEIGHT: usize,
>(
    board: &mut Board<NUM_CELLS, LENGTH, BOX_WIDTH, BOX_HEIGHT>,
    rules: &R,
    rng: &mut ThreadRng,
) -> (found: Option<Board<NUM_CELLS, LENGTH, BOX_WIDTH, BOX_HEIGHT>>)
    requires
        Board::<NUM_CELLS, LENGTH, BOX_WIDTH, BOX_HEIGHT>::geometry_ok(),
        old(board).wf(),
    ensures
        final(board)@ == old(board)@,
        found matches Some(b) ==> b.wf() && is_solution(
            acceptance(rules),
            NUM_CELLS as int,
            LENGTH as int,
            old(board)@,
            b@,
        ),
        found is None <==> solution_set(
            acceptance(rules),
            NUM_CELLS as int,
            LENGTH as int,
            old(board)@,
        ) == Set::<Seq<Cell>>::empty(),
    decreases unfilled_count(old(board)@), 1nat,
{
    let ghost ok = acceptance(rules);
    let ghost start = board@;
    let ghost n = NUM_CELLS as int;
    let ghost side = LENGTH as int;
    let ghost all = solution_set(ok, n, side, start);
    if !rules.is_valid(board) {
        proof {
            assert forall|goal: Seq<Cell>| !all.contains(goal) by {
                lemma_refused_has_none(ok, n, side, start, goal);
            }
            assert(all =~= Set::<Seq<Cell>>::empty());
        }
        return None;
    }
    // Find an empty cell.
    let index = match board.first_unfilled() {
        None => {
            proof {
                lemma_full_is_own_solution(ok, n, side, start, start);
                assert(all.contains(start));
            }
            return Some(board.clone());
        },
        Some(v) => v,
    };
    let options = shuffled_values(LENGTH, rng);
    let found = first_in_order(board, rules, index, &options, rng);
    proof {
        if found is None {
            lemma_every_branch_without_solution(ok, n, side, start, index as int, options@);
        } else {
            assert(all.contains(found->Some_0@));
        }
    }
    found
}

/// Fills the first empty cell, at `index`, with each of `options` in turn, searches for a
/// completion of each grid so had as `solve_one_with` does, and returns the first that it
/// finds: a completion with the first of `options` at `index` that leads to one. Returns
/// nothing where none of `options` leads to a completion. The grid is as before when it
/// returns.
pub fn first_in_order<
    R: PuzzleRules<NUM_CELLS, LENGTH, BOX_WIDTH, BOX_HEIGHT>,
    const NUM_CELLS: usize,
    const LENGTH: usize,
    const BOX_WIDTH: usize,
    const BOX_HEIGHT: usize,
>(
    board: &mut Board<NUM_CELLS, LENGTH, BOX_WIDTH, BOX_HEIGHT>,
    rules: &R,
    index: usize,
    options: &Vec<u8>,
    rng: &mut ThreadRng,
) -> (found: Option<Board<NUM_CELLS, LENGTH, BOX_WIDTH, BOX_HEIGHT>>)
    requires
        Board::<NUM_CELLS, LENGTH, BOX_WIDTH, BOX_HEIGHT>::geometry_ok(),
        old(board).wf(),
        first_unfilled_at(old(board)@, index as int),
        rules.accepts(old(board)@),
        forall|j: int| 0 <= j < options@.len() ==> 1 <= #[trigger] options@[j] <= LENGTH,
    ensures
        final(board)@ == old(board)@,
        match found {
            Some(b) => {
                &&& b.wf()
                &&& is_solution(acceptance(rules), NUM_CELLS as int, LENGTH as int, old(board)@, b@)
                &&& exists|k: int|
                    {
                        &&& 0 <= k < options@.len()
                        &&& b@[index as int] == Cell::Filled(#[trigger] options@[k])
                        &&& forall|j: int|
                            0 <= j < k ==> branch_set(
                                acceptance(rules),
                                NUM_CELLS as int,
                                LENGTH as int,
                                old(board)@,
                                index as int,
                                #[trigger] options@[j],
                            ) == Set::<Seq<Cell>>::empty()
                    }
            },
            None => forall|j: int|
                0 <= j < options@.len() ==> branch_set(
                    acceptance(rules),
                    NUM_CELLS as int,
                    LENGTH as int,
                    old(board)@,
                    index as int,
                    #[trigger] options@[j],
                ) == Set::<Seq<Cell>>::empty(),
        },
    decreases unfilled_count(old(board)@), 0nat,
{
    let ghost ok = acceptance(rules);
    let ghost start = board@;
    let ghost n = NUM_CELLS as int;
    let ghost side = LENGTH as int;
    let mut k: usize = 0;
    while k < options.len()
        invariant
            Board::<NUM_CELLS, LENGTH, BOX_WIDTH, BOX_HEIGHT>::geometry_ok(),
            ok == acceptance(rules),
            start == old(board)@,
            n == NUM_CELLS as int,
            side == LENGTH as int,
            crate::cells_wf(start, n, side),
            first_unfilled_at(start, index as int),
            ok(start),
            k <= options@.len(),
            forall|j: int| 0 <= j < options@.len() ==> 1 <= #[trigger] options@[j] <= side,
            board@.len() == start.len(),
            forall|j: int| 0 <= j < start.len() && j != index ==> board@[j] == start[j],
            forall|j: int|
                0 <= j < k ==> branch_set(ok, n, side, start, index as int, #[trigger] options@[j])
                    == Set::<Seq<Cell>>::empty(),
        decreases options@.len() - k,
    {
        let guess = options[k];
        board.put(index, Cell::Filled(guess));
        proof {
            lemma_fill_decreases(start, index as int, guess);
            assert(board@ =~= start.update(index as int, Cell::Filled(guess)));
        }
        match solve_one_with(board, rules, rng) {
            None => (),
            Some(b) => {
                proof {
                    lemma_solution_ascends(
                        ok,
                        n,
                        side,
                        start,
                        index as int,
                        Cell::Filled(guess),
                        b@,
                    );
                }
                board.put(index, Cell::Unfilled);
                assert(board@ =~= start);
                return Some(b);
            },
        }
        k += 1;
    }
    // Make sure we exit this function with the board unchanged if we did not find a solution.
    board.put(index, Cell::Unfilled);
    assert(board@ =~= start);
    None
}

} // verus!
