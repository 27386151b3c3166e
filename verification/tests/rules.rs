use sudoku::rules::{
    count_10s, is_add_10, Both, ClassicSudoku, EvenOddNeighbors, KingsMove,
    KnightsRestrictionSudoku, Miracle, ParityMask, PuzzleRules,
};
use sudoku::rules::util::{
    is_valid_classic, passes_even_odd_constraint, passes_kings_move_constraint,
    passes_knights_move_constraint, passes_nonconsecutive_constraint,
};
use sudoku::solve::{solve, SolveResult};
use sudoku::Board;

fn all_ones() -> Board<81, 9, 3, 3> {
    "1".repeat(81).parse().unwrap()
}

#[test]
fn test_even_odd_valid() {
    let board: Board<81, 9, 3, 3> =
        "132547698547698123698123574321456789874931256965872341419765832783214965256389417"
            .parse()
            .unwrap();
    let invalid: Board<81, 9, 3, 3> = all_ones();
    let rule = EvenOddNeighbors {};
    assert!(rule.is_valid(&board));
    assert!(!rule.is_valid(&invalid));
}

#[test]
fn test_even_odd_solve() {
    let mut puzzle: Board<81, 9, 3, 3> =
        "000000698000090100000000000000006089004000050000070000000700000700000900000300000"
            .parse()
            .unwrap();
    let solution: Board<81, 9, 3, 3> =
        "132547698547698123698123574321456789874931256965872341419765832783214965256389417"
            .parse()
            .unwrap();
    assert_eq!(
        solve(&mut puzzle, &EvenOddNeighbors {}),
        SolveResult::UniqueSolution(solution)
    );
}

#[test]
fn test_parity_mask_valid() {
    let puzzle: Board<81, 9, 3, 3> =
        "000000698000090100000000000000006089004000050000070000000700000700000900000300000"
            .parse()
            .unwrap();
    let solution: Board<81, 9, 3, 3> =
        "132547698547698123698123574321456789874931256965872341419765832783214965256389417"
            .parse()
            .unwrap();
    let empty = Board::unfilled();
    let invalid = all_ones();
    let mask: ParityMask<81, 9, 3, 3> =
        "112121212121212121212121112121212121212111212121212121211121212121212121212121211"
            .parse()
            .unwrap();
    assert!(mask.is_valid(&puzzle));
    assert!(mask.is_valid(&solution));
    assert!(mask.is_valid(&empty));
    assert!(!mask.is_valid(&invalid));
}

#[test]
fn parity_mask_rejects_wrong_parity() {
    let mask: ParityMask<16, 4, 2, 2> = "1200000000000000".parse().unwrap();
    let fits: Board<16, 4, 2, 2> = "3400000000000000".parse().unwrap();
    let odd_on_even: Board<16, 4, 2, 2> = "1300000000000000".parse().unwrap();
    let repeats: Board<16, 4, 2, 2> = "3430000000000000".parse().unwrap();
    assert!(mask.is_valid(&fits));
    assert!(!mask.is_valid(&odd_on_even));
    assert!(!mask.is_valid(&repeats));
}

#[test]
fn parity_mask_parse_errors() {
    assert!("12".parse::<ParityMask<16, 4, 2, 2>>().is_err());
    assert!("1200000000000005".parse::<ParityMask<16, 4, 2, 2>>().is_err());
}

#[test]
fn classic_finds_repeat_in_row_column_and_box() {
    let fine: Board<16, 4, 2, 2> = "1234341221434321".parse().unwrap();
    let row: Board<16, 4, 2, 2> = "1001000000000000".parse().unwrap();
    let column: Board<16, 4, 2, 2> = "1000000000001000".parse().unwrap();
    let in_box: Board<16, 4, 2, 2> = "1000010000000000".parse().unwrap();
    let apart: Board<16, 4, 2, 2> = "1000000001000000".parse().unwrap();
    assert!(is_valid_classic(&fine));
    assert!(!is_valid_classic(&row));
    assert!(!is_valid_classic(&column));
    assert!(!is_valid_classic(&in_box));
    assert!(is_valid_classic(&apart));
    assert!(is_valid_classic(&Board::<16, 4, 2, 2>::unfilled()));
}

#[test]
fn classic_on_boxes_that_are_not_square() {
    // Boxes three wide and two high: positions 0 and 8 share the first box, 0 and 9 too,
    // 0 and 10 do not; 0 and 15 lie in different boxes, rows and columns.
    let same_box: Board<36, 6, 3, 2> =
        "100000001000000000000000000000000000".parse().unwrap();
    let next_box: Board<36, 6, 3, 2> =
        "100000000010000000000000000000000000".parse().unwrap();
    let below: Board<36, 6, 3, 2> =
        "100000000000010000000000000000000000".parse().unwrap();
    let last: Board<36, 6, 3, 2> =
        "100000000000000000000000000000000001".parse().unwrap();
    assert!(!is_valid_classic(&same_box));
    assert!(is_valid_classic(&next_box));
    assert!(is_valid_classic(&below));
    assert!(is_valid_classic(&last));
    let solved: Board<36, 6, 3, 2> =
        "123456456123231564564231312645645312".parse().unwrap();
    assert!(is_valid_classic(&solved));
}

#[test]
fn knights_move_constraint() {
    let clash: Board<16, 4, 2, 2> = "1000001000000000".parse().unwrap();
    let clash_up: Board<16, 4, 2, 2> = "0000000101000000".parse().unwrap();
    let two_down: Board<16, 4, 2, 2> = "0100000020000000".parse().unwrap();
    let two_down_same: Board<16, 4, 2, 2> = "0200000020000000".parse().unwrap();
    let diagonal: Board<16, 4, 2, 2> = "1000010000000000".parse().unwrap();
    assert!(!passes_knights_move_constraint(&clash));
    assert!(!passes_knights_move_constraint(&clash_up));
    assert!(passes_knights_move_constraint(&two_down));
    assert!(!passes_knights_move_constraint(&two_down_same));
    assert!(passes_knights_move_constraint(&diagonal));
    // Two rows down and two columns left is no knight's move, nor is three rows down.
    let wraps: Board<16, 4, 2, 2> = "0001000001000000".parse().unwrap();
    assert!(passes_knights_move_constraint(&wraps));
    let around: Board<16, 4, 2, 2> = "0001000000001000".parse().unwrap();
    assert!(passes_knights_move_constraint(&around));
}

#[test]
fn kings_move_constraint() {
    let diagonal: Board<16, 4, 2, 2> = "1000010000000000".parse().unwrap();
    let other_diagonal: Board<16, 4, 2, 2> = "0010010000000000".parse().unwrap();
    let beside: Board<16, 4, 2, 2> = "1100000000000000".parse().unwrap();
    let around: Board<16, 4, 2, 2> = "0001100000000000".parse().unwrap();
    assert!(!passes_kings_move_constraint(&diagonal));
    assert!(!passes_kings_move_constraint(&other_diagonal));
    assert!(passes_kings_move_constraint(&beside));
    assert!(passes_kings_move_constraint(&around));
    assert!(!KingsMove {}.is_valid(&diagonal));
    assert!(KingsMove {}.is_valid(&beside));
}

#[test]
fn nonconsecutive_constraint() {
    let beside: Board<16, 4, 2, 2> = "1200000000000000".parse().unwrap();
    let below: Board<16, 4, 2, 2> = "3000400000000000".parse().unwrap();
    let two_apart: Board<16, 4, 2, 2> = "1300000000000000".parse().unwrap();
    let diagonal: Board<16, 4, 2, 2> = "1000020000000000".parse().unwrap();
    let around: Board<16, 4, 2, 2> = "0001200000000000".parse().unwrap();
    assert!(!passes_nonconsecutive_constraint(&beside));
    assert!(!passes_nonconsecutive_constraint(&below));
    assert!(passes_nonconsecutive_constraint(&two_apart));
    assert!(passes_nonconsecutive_constraint(&diagonal));
    assert!(passes_nonconsecutive_constraint(&around));
    assert!(!Miracle {}.is_valid(&beside));
    assert!(Miracle {}.is_valid(&two_apart));
    let repeat: Board<16, 4, 2, 2> = "1001000000000000".parse().unwrap();
    assert!(!Miracle {}.is_valid(&repeat));
}

#[test]
fn even_odd_constraint() {
    let evens: Board<16, 4, 2, 2> = "2400000000000000".parse().unwrap();
    let evens_below: Board<16, 4, 2, 2> = "0200040000000000".parse().unwrap();
    let mixed: Board<16, 4, 2, 2> = "2100000000000000".parse().unwrap();
    let diagonal: Board<16, 4, 2, 2> = "2000040000000000".parse().unwrap();
    assert!(!passes_even_odd_constraint(&evens));
    assert!(!passes_even_odd_constraint(&evens_below));
    assert!(passes_even_odd_constraint(&mixed));
    assert!(passes_even_odd_constraint(&diagonal));
}

#[test]
fn both_rules_together() {
    let rule = Both { first: KingsMove {}, second: ClassicSudoku {} };
    let diagonal: Board<16, 4, 2, 2> = "1000000000000100".parse().unwrap();
    let touching: Board<16, 4, 2, 2> = "0100001000000000".parse().unwrap();
    let repeat: Board<16, 4, 2, 2> = "1001000000000000".parse().unwrap();
    assert!(rule.is_valid(&diagonal));
    assert!(ClassicSudoku {}.is_valid(&touching));
    assert!(!rule.is_valid(&touching));
    assert!(!rule.is_valid(&repeat));
}

#[test]
fn knights_rule_includes_classic() {
    let repeat: Board<16, 4, 2, 2> = "1001000000000000".parse().unwrap();
    let clash: Board<16, 4, 2, 2> = "1000001000000000".parse().unwrap();
    let fine: Board<16, 4, 2, 2> = "1000000000000001".parse().unwrap();
    assert!(!KnightsRestrictionSudoku {}.is_valid(&repeat));
    assert!(!KnightsRestrictionSudoku {}.is_valid(&clash));
    assert!(KnightsRestrictionSudoku {}.is_valid(&fine));
}

#[test]
fn count_10s_counts_right_and_down() {
    let solved: Board<81, 9, 3, 3> =
        "693875412145632798782194356357421869816957234429368175274519683968743521531286947"
            .parse()
            .unwrap();
    assert_eq!(count_10s(&solved), 12);
    let empty: Board<81, 9, 3, 3> = Board::unfilled();
    assert_eq!(count_10s(&empty), 0);
    let one: Board<16, 4, 2, 2> = "1000000000000000".parse().unwrap();
    assert_eq!(count_10s(&one), 2);
    let corner: Board<16, 4, 2, 2> = "0000000000000001".parse().unwrap();
    assert_eq!(count_10s(&corner), 0);
    let pair: Board<16, 4, 2, 2> = "1200000000000000".parse().unwrap();
    assert_eq!(count_10s(&pair), 3);
}

#[test]
fn is_add_10_on_pairs() {
    let board: Board<81, 9, 3, 3> =
        "460370000000000000000000000000000000000000000000000000000000000000000000000000000"
            .parse()
            .unwrap();
    assert!(is_add_10(&board, 0, 1));
    assert!(is_add_10(&board, 1, 0));
    assert!(is_add_10(&board, 3, 4));
    assert!(!is_add_10(&board, 0, 3));
    assert!(is_add_10(&board, 0, 2));
    assert!(is_add_10(&board, 2, 5));
}
