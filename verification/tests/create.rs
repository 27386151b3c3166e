use sudoku::create::{
    create_puzzle_from, create_puzzle_solution, create_puzzle_solution_recursive, try_removal,
    PuzzleCreateError,
};
use sudoku::rules::{ClassicSudoku, PuzzleRules};
use sudoku::solve::{solve, SolveResult};
use sudoku::{Board, Cell};

#[test]
fn test_create_solution() {
    let rules = ClassicSudoku {};
    let board: Board<81, 9, 3, 3> = create_puzzle_solution(&rules).unwrap();
    assert!(rules.is_valid(&board));
}

#[test]
fn created_solution_is_full() {
    let rules = ClassicSudoku {};
    let board: Board<16, 4, 2, 2> = create_puzzle_solution(&rules).unwrap();
    assert!(board.first_unfilled().is_none());
    let mut rng = rand::thread_rng();
    let mut start: Board<16, 4, 2, 2> = "1200000000000000".parse().unwrap();
    let found = create_puzzle_solution_recursive(&mut start, &rules, &mut rng).unwrap();
    assert!(rules.is_valid(&found));
    assert!(found.first_unfilled().is_none());
    assert_eq!(found.cell(0), Cell::Filled(1));
    assert_eq!(found.cell(1), Cell::Filled(2));
    assert_eq!(start.serialize(), "1200000000000000");
}

#[test]
fn created_solutions_differ() {
    let rules = ClassicSudoku {};
    let mut seen: Vec<String> = Vec::new();
    for _ in 0..20 {
        let board: Board<16, 4, 2, 2> = create_puzzle_solution(&rules).unwrap();
        let text = board.serialize();
        if !seen.contains(&text) {
            seen.push(text);
        }
    }
    assert!(seen.len() > 1);
}

#[test]
fn puzzle_keeps_its_solution_and_is_minimal() {
    let rules = ClassicSudoku {};
    let solved: Board<16, 4, 2, 2> = "1234341221434321".parse().unwrap();
    let mut puzzle = solved.clone();
    assert_eq!(create_puzzle_from(&mut puzzle, &rules), Ok(()));
    assert_eq!(solve(&mut puzzle, &rules), SolveResult::UniqueSolution(solved.clone()));
    let mut filled = 0;
    for i in 0..16 {
        match puzzle.cell(i) {
            Cell::Unfilled => (),
            c => {
                assert_eq!(c, solved.cell(i));
                filled += 1;
                let mut text: Vec<char> = puzzle.serialize().chars().collect();
                text[i] = '0';
                let text: String = text.into_iter().collect();
                let mut without: Board<16, 4, 2, 2> = text.parse().unwrap();
                assert!(matches!(solve(&mut without, &rules), SolveResult::MultipleSolutions(_)));
            }
        }
    }
    assert!(filled < 16);
    assert!(filled >= 4);
}

#[test]
fn puzzle_from_grid_of_side_six() {
    let rules = ClassicSudoku {};
    let solved: Board<36, 6, 3, 2> = "123456456123231564564231312645645312".parse().unwrap();
    let mut puzzle = solved.clone();
    assert_eq!(create_puzzle_from(&mut puzzle, &rules), Ok(()));
    assert!(puzzle.first_unfilled().is_some());
    assert_eq!(solve(&mut puzzle, &rules), SolveResult::UniqueSolution(solved));
}

#[test]
fn puzzle_from_grid_without_completion() {
    let rules = ClassicSudoku {};
    let mut board: Board<16, 4, 2, 2> = "1100000000000000".parse().unwrap();
    assert_eq!(create_puzzle_from(&mut board, &rules), Err(PuzzleCreateError::NoSolution));
    assert_eq!(board.serialize(), "1100000000000000");
}

#[test]
fn puzzle_from_grid_with_many_completions() {
    let rules = ClassicSudoku {};
    let mut board: Board<16, 4, 2, 2> = Board::unfilled();
    assert_eq!(create_puzzle_from(&mut board, &rules), Err(PuzzleCreateError::MultipleSolutions));
    assert_eq!(board, Board::unfilled());
}

#[test]
fn error_messages() {
    assert_eq!(PuzzleCreateError::NoSolution.message(), "No solution");
    assert_eq!(PuzzleCreateError::MultipleSolutions.message(), "Multiple solutions");
}

#[test]
fn removal_of_one_cell() {
    let rules = ClassicSudoku {};
    let mut board: Board<16, 4, 2, 2> = "1234341221434321".parse().unwrap();
    assert_eq!(try_removal(&mut board, &rules, 0), Ok(true));
    assert_eq!(board.serialize(), "0234341221434321");
    assert_eq!(try_removal(&mut board, &rules, 15), Ok(true));
    assert_eq!(board.serialize(), "0234341221434320");
    // Without the 1 in the third row the two lower rows can be filled in two ways.
    let mut board: Board<16, 4, 2, 2> = "1234341221400000".parse().unwrap();
    assert_eq!(try_removal(&mut board, &rules, 9), Ok(false));
    assert_eq!(board.serialize(), "1234341221400000");
    let mut board: Board<16, 4, 2, 2> = "1100000000000000".parse().unwrap();
    assert_eq!(try_removal(&mut board, &rules, 5), Err(PuzzleCreateError::NoSolution));
    assert_eq!(board.serialize(), "1100000000000000");
}
