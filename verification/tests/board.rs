use sudoku::{Board, Cell, ParseError};

#[test]
fn unfilled_has_every_cell_empty() {
    let board: Board<81, 9, 3, 3> = Board::unfilled();
    assert_eq!(board.len(), 81);
    for i in 0..81 {
        assert_eq!(board.cell(i), Cell::Unfilled);
    }
    assert_eq!(board.first_unfilled(), Some(0));
    assert_eq!(board.serialize(), "0".repeat(81));
}

#[test]
fn parse_reads_digits() {
    let board: Board<16, 4, 2, 2> = Board::parse("1234000000000040").unwrap();
    assert_eq!(board.cell(0), Cell::Filled(1));
    assert_eq!(board.cell(3), Cell::Filled(4));
    assert_eq!(board.cell(4), Cell::Unfilled);
    assert_eq!(board.cell(14), Cell::Filled(4));
    assert_eq!(board.first_unfilled(), Some(4));
}

#[test]
fn parse_then_serialize_gives_the_text_back() {
    let text = "000075400000000008080190000300001060000000034000068170204000603900000020530200000";
    let board: Board<81, 9, 3, 3> = text.parse().unwrap();
    assert_eq!(board.serialize(), text);
    let board: Board<16, 4, 2, 2> = "1234341221434321".parse().unwrap();
    assert_eq!(board.serialize(), "1234341221434321");
    assert_eq!(board.first_unfilled(), None);
}

#[test]
fn serialize_then_parse_gives_the_grid_back() {
    let board: Board<16, 4, 2, 2> = "1034000021400001".parse().unwrap();
    let again: Board<16, 4, 2, 2> = board.serialize().parse().unwrap();
    assert_eq!(again, board);
    assert_eq!(board.clone(), board);
}

#[test]
fn parse_rejects_wrong_length() {
    assert!(Board::<16, 4, 2, 2>::parse("").is_err());
    assert!(Board::<16, 4, 2, 2>::parse("123434122143432").is_err());
    assert!(Board::<16, 4, 2, 2>::parse("12343412214343211").is_err());
    assert!("0".repeat(80).parse::<Board<81, 9, 3, 3>>().is_err());
}

#[test]
fn parse_rejects_characters_that_are_no_digit() {
    assert!(Board::<16, 4, 2, 2>::parse("123434122143432a").is_err());
    assert!(Board::<16, 4, 2, 2>::parse("12343412 1434321").is_err());
    assert!(Board::<16, 4, 2, 2>::parse("1234341221434\u{e9}1").is_err());
    assert!(Board::<16, 4, 2, 2>::parse("123434122143432\u{663}").is_err());
    assert!(Board::<16, 4, 2, 2>::parse("/234341221434321").is_err());
    assert!(Board::<16, 4, 2, 2>::parse(":234341221434321").is_err());
}

#[test]
fn parse_rejects_digits_above_the_side() {
    assert!(Board::<16, 4, 2, 2>::parse("1234341221434325").is_err());
    assert!(Board::<16, 4, 2, 2>::parse("9000000000000000").is_err());
    assert!(Board::<16, 4, 2, 2>::parse("4000000000000000").is_ok());
}

#[test]
fn parse_error_message() {
    let error: ParseError = Board::<16, 4, 2, 2>::parse("x").unwrap_err();
    assert_eq!(error.message(), "Parse error");
}

#[test]
fn values_above_nine_are_written_in_decimal() {
    let mut board: Board<100, 10, 5, 2> = Board::unfilled();
    match sudoku::solve::solve(&mut board, &sudoku::rules::ClassicSudoku {}) {
        sudoku::solve::SolveResult::MultipleSolutions(found) => {
            assert_eq!(found.cell(9), Cell::Filled(10));
            let text = found.serialize();
            assert_eq!(text.len(), 110);
            assert!(text.starts_with("12345678910"));
            assert!(text.parse::<Board<100, 10, 5, 2>>().is_err());
        }
        other => panic!("{:?}", other),
    }
}
