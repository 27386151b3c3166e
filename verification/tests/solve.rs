use sudoku::rules::{ClassicSudoku, KnightsRestrictionSudoku, PuzzleRules};
use sudoku::solve::{first_in_order, solve, solve_one, solve_one_with, SolveResult};
use sudoku::Cell;
use sudoku::Board;

fn with_digit(text: &str, position: usize, digit: char) -> String {
    let mut chars: Vec<char> = text.chars().collect();
    chars[position] = digit;
    chars.into_iter().collect()
}

#[test]
fn test_unique_solution() {
    // From https://raw.githubusercontent.com/maxbergmark/sudoku-solver/master/data-sets/hard_sudokus_solved.txt.
    let mut puzzle: Board<81, 9, 3, 3> =
        "000075400000000008080190000300001060000000034000068170204000603900000020530200000"
            .parse()
            .unwrap();
    let solved: Board<81, 9, 3, 3> =
        "693875412145632798782194356357421869816957234429368175274519683968743521531286947"
            .parse()
            .unwrap();
    assert_eq!(
        solve(&mut puzzle, &ClassicSudoku {}),
        SolveResult::UniqueSolution(solved)
    );
}

#[test]
fn test_multiple_solutions() {
    let mut puzzle: Board<81, 9, 3, 3> = Board::unfilled();
    assert!(matches!(
        solve(&mut puzzle, &ClassicSudoku {}),
        SolveResult::MultipleSolutions(_)
    ));
}

#[test]
fn test_no_solutions() {
    let mut puzzle: Board<81, 9, 3, 3> = "1".repeat(81).parse().unwrap();
    assert!(matches!(
        solve(&mut puzzle, &ClassicSudoku {}),
        SolveResult::NoSolution
    ));
}

#[test]
fn test_unique_solution_solve_one() {
    // From https://raw.githubusercontent.com/maxbergmark/sudoku-solver/master/data-sets/hard_sudokus_solved.txt.
    let mut puzzle: Board<81, 9, 3, 3> =
        "693875412000000008080190000300001060000000034000068170204000603900000020530200000"
            .parse()
            .unwrap();
    let solved: Board<81, 9, 3, 3> =
        "693875412145632798782194356357421869816957234429368175274519683968743521531286947"
            .parse()
            .unwrap();
    assert_eq!(solve_one(&mut puzzle, &ClassicSudoku {}), Some(solved));
}

#[test]
fn test_derive_solution() {
    let solved: Board<81, 9, 3, 3> =
        "693875412145632798782194356357421869816957234429368175274519683968743521531286947"
            .parse()
            .unwrap();
    let mut missing: Board<81, 9, 3, 3> =
        "093875412145632798782194356357421869816957234429368175274519683968743521531286947"
            .parse()
            .unwrap();
    assert_eq!(sudoku::solve::derive(&mut missing, &ClassicSudoku {}), Some(solved));
}

#[test]
fn test_derive_no_unique_solution() {
    let text = "050971624946823157007654983000549768465387219789162005090715006634298571571436892";
    let mut missing: Board<81, 9, 3, 3> = text.parse().unwrap();
    let still_missing = missing.clone();
    assert_eq!(
        sudoku::solve::derive(&mut missing, &KnightsRestrictionSudoku {}),
        Some(still_missing)
    );
    // Disambiguate the left side.
    let text = with_digit(text, 56, '8');
    let mut missing: Board<81, 9, 3, 3> = text.parse().unwrap();
    let still_missing: Board<81, 9, 3, 3> =
        "853971624946823157127654983312549768465387219789162005298715006634298571571436892"
            .parse()
            .unwrap();
    assert_eq!(
        sudoku::solve::derive(&mut missing, &KnightsRestrictionSudoku {}),
        Some(still_missing)
    );
    let text = with_digit(&text, 51, '4');
    let mut missing: Board<81, 9, 3, 3> = text.parse().unwrap();
    let finished: Board<81, 9, 3, 3> =
        "853971624946823157127654983312549768465387219789162435298715346634298571571436892"
            .parse()
            .unwrap();
    assert_eq!(
        sudoku::solve::derive(&mut missing, &KnightsRestrictionSudoku {}),
        Some(finished)
    );
}

#[test]
fn test_knights_move() {
    // https://logic-masters.de/Raetselportal/Raetsel/zeigen.php?id=0005HX with some digits filled in for speed.
    let mut puzzle: Board<81, 9, 3, 3> =
        "894562371000403000006000500010000020008000700020000030009000200000206000452789613"
            .parse()
            .unwrap();
    let solution: Board<81, 9, 3, 3> =
        "894562371275413896136978542513697428948321765627845139369154287781236954452789613"
            .parse()
            .unwrap();
    assert_eq!(
        solve(&mut puzzle, &KnightsRestrictionSudoku {}),
        SolveResult::UniqueSolution(solution)
    );
}

#[test]
fn solve_leaves_the_grid_as_it_was() {
    let text = "000075400000000008080190000300001060000000034000068170204000603900000020530200000";
    let mut puzzle: Board<81, 9, 3, 3> = text.parse().unwrap();
    solve(&mut puzzle, &ClassicSudoku {});
    assert_eq!(puzzle.serialize(), text);
    let mut empty: Board<16, 4, 2, 2> = Board::unfilled();
    solve(&mut empty, &ClassicSudoku {});
    assert_eq!(empty, Board::unfilled());
    let found = solve_one(&mut empty, &ClassicSudoku {});
    assert!(found.is_some());
    assert_eq!(empty, Board::unfilled());
    sudoku::solve::derive(&mut empty, &ClassicSudoku {});
    assert_eq!(empty, Board::unfilled());
}

#[test]
fn solve_on_a_solved_grid_returns_it() {
    let solved: Board<81, 9, 3, 3> =
        "693875412145632798782194356357421869816957234429368175274519683968743521531286947"
            .parse()
            .unwrap();
    let mut board = solved.clone();
    assert_eq!(
        solve(&mut board, &ClassicSudoku {}),
        SolveResult::UniqueSolution(solved.clone())
    );
    assert_eq!(solve_one(&mut board, &ClassicSudoku {}), Some(solved.clone()));
    assert_eq!(sudoku::solve::derive(&mut board, &ClassicSudoku {}), Some(solved));
}

#[test]
fn solve_counts_two_completions() {
    let mut board: Board<16, 4, 2, 2> = "1234341220400000".parse().unwrap();
    let first: Board<16, 4, 2, 2> = "1234341221434321".parse().unwrap();
    let second: Board<16, 4, 2, 2> = "1234341223414123".parse().unwrap();
    match solve(&mut board, &ClassicSudoku {}) {
        SolveResult::MultipleSolutions(b) => assert_eq!(b, second),
        other => panic!("{:?}", other),
    }
    let found = solve_one(&mut board, &ClassicSudoku {}).unwrap();
    assert!(found == first || found == second);
    let common: Board<16, 4, 2, 2> = "1234341220404020".parse().unwrap();
    assert_eq!(sudoku::solve::derive(&mut board, &ClassicSudoku {}), Some(common));
}

#[test]
fn derive_keeps_what_all_completions_share() {
    let mut board: Board<16, 4, 2, 2> = "1234341200000000".parse().unwrap();
    let common = sudoku::solve::derive(&mut board, &ClassicSudoku {}).unwrap();
    assert_eq!(common.serialize(), "1234341200000000");
    let mut forced: Board<16, 4, 2, 2> = "1234341221000000".parse().unwrap();
    let common = sudoku::solve::derive(&mut forced, &ClassicSudoku {}).unwrap();
    assert_eq!(common.serialize(), "1234341221434321");
}

#[test]
fn no_completion_gives_nothing() {
    let mut board: Board<16, 4, 2, 2> = "1100000000000000".parse().unwrap();
    assert_eq!(solve(&mut board, &ClassicSudoku {}), SolveResult::NoSolution);
    assert_eq!(solve_one(&mut board, &ClassicSudoku {}), None);
    assert_eq!(sudoku::solve::derive(&mut board, &ClassicSudoku {}), None);
    // Valid as it stands, but the last cell of the first row has no value left.
    let mut stuck: Board<16, 4, 2, 2> = "1230000400000000".parse().unwrap();
    assert!(ClassicSudoku {}.is_valid(&stuck));
    assert_eq!(solve(&mut stuck, &ClassicSudoku {}), SolveResult::NoSolution);
    assert_eq!(solve_one(&mut stuck, &ClassicSudoku {}), None);
    assert_eq!(sudoku::solve::derive(&mut stuck, &ClassicSudoku {}), None);
}

#[test]
fn solve_one_finds_different_completions() {
    let mut seen: Vec<String> = Vec::new();
    for _ in 0..20 {
        let mut board: Board<16, 4, 2, 2> = Board::unfilled();
        let found = solve_one(&mut board, &ClassicSudoku {}).unwrap();
        assert!(ClassicSudoku {}.is_valid(&found));
        assert!(found.first_unfilled().is_none());
        let text = found.serialize();
        if !seen.contains(&text) {
            seen.push(text);
        }
    }
    assert!(seen.len() > 1);
}

#[test]
fn first_in_order_takes_the_first_value_that_leads_on() {
    let rules = ClassicSudoku {};
    let mut rng = rand::thread_rng();
    let mut empty: Board<16, 4, 2, 2> = Board::unfilled();
    let found = first_in_order(&mut empty, &rules, 0, &vec![4, 3, 2, 1], &mut rng).unwrap();
    assert_eq!(found.cell(0), Cell::Filled(4));
    assert!(rules.is_valid(&found));
    assert_eq!(found.first_unfilled(), None);
    assert_eq!(empty, Board::unfilled());
    // A 2 in the first cell repeats the 2 beside it.
    let mut board: Board<16, 4, 2, 2> = "0200000000000000".parse().unwrap();
    let found = first_in_order(&mut board, &rules, 0, &vec![2, 3, 1], &mut rng).unwrap();
    assert_eq!(found.cell(0), Cell::Filled(3));
    assert_eq!(found.cell(1), Cell::Filled(2));
    assert_eq!(first_in_order(&mut board, &rules, 0, &vec![2], &mut rng), None);
    assert_eq!(first_in_order(&mut board, &rules, 0, &vec![], &mut rng), None);
    assert_eq!(board.serialize(), "0200000000000000");
}

#[test]
fn solve_one_with_a_generator() {
    let rules = ClassicSudoku {};
    let mut rng = rand::thread_rng();
    let mut board: Board<16, 4, 2, 2> = "1234341221000000".parse().unwrap();
    let solved: Board<16, 4, 2, 2> = "1234341221434321".parse().unwrap();
    assert_eq!(solve_one_with(&mut board, &rules, &mut rng), Some(solved));
    let mut stuck: Board<16, 4, 2, 2> = "1230000400000000".parse().unwrap();
    assert_eq!(solve_one_with(&mut stuck, &rules, &mut rng), None);
}
