use vstd::prelude::*;
use vstd::string::*;
use crate::Cell;

verus! {

/// The character that stands for the digit `d`.
pub open spec fn digit_char(d: int) -> char {
    (d + 48) as u8 as char
}

/// The cell that the character `c` stands for in a grid of side `side`, if it stands for one:
/// `0` for an empty cell, another digit up to `side` for a cell with that value.
pub open spec fn cell_of_char(c: char, side: int) -> Option<Cell> {
    let d = c as int - 48;
    if 0 <= d <= 9 && d <= side {
        if d == 0 {
            Some(Cell::Unfilled)
        } else {
            Some(Cell::Filled(d as u8))
        }
    } else {
        None
    }
}

/// Whether `text` is a grid of `num_cells` cells and side `side`.
pub open spec fn parses(text: Seq<char>, num_cells: int, side: int) -> bool {
    &&& text.len() == num_cells
    &&& forall|i: int| 0 <= i < text.len() ==> cell_of_char(#[trigger] text[i], side) is Some
}

/// The cells that `text` stands for.
pub open spec fn parsed(text: Seq<char>, side: int) -> Seq<Cell> {
    Seq::new(text.len(), |i: int| cell_of_char(text[i], side).unwrap())
}

/// The decimal digits of `v`, most significant first.
pub open spec fn decimal(v: nat) -> Seq<char>
    decreases v,
{
    if v < 10 {
        seq![digit_char(v as int)]
    } else {
        decimal(v / 10).push(digit_char((v % 10) as int))
    }
}

/// The text of one cell.
pub open spec fn cell_text(c: Cell) -> Seq<char> {
    match c {
        Cell::Unfilled => seq!['0'],
        Cell::Filled(v) => decimal(v as nat),
    }
}

/// The text of a grid: the texts of its cells, one after the other.
pub open spec fn board_text(cells: Seq<Cell>) -> Seq<char>
    decreases cells.len(),
{
    if cells.len() == 0 {
        Seq::empty()
    } else {
        board_text(cells.drop_last()) + cell_text(cells.last())
    }
}

/// A text that is a grid holds ASCII characters only.
pub proof fn lemma_parses_is_ascii(text: Seq<char>, num_cells: int, side: int)
    requires
        parses(text, num_cells, side),
    ensures
        vstd::utf8::is_ascii_chars(text),
{
    assert forall|i: int| 0 <= i < text.len() implies '\0' <= #[trigger] text[i] <= '\u{7f}' by {
        assert(cell_of_char(text[i], side) is Some);
    }
}

/// Writing down the grid that a text stands for gives the text back.
pub proof fn lemma_parse_then_serialize(text: Seq<char>, num_cells: int, side: int)
    requires
        parses(text, num_cells, side),
    ensures
        board_text(parsed(text, side)) == text,
    decreases text.len(),
{
    let cells = parsed(text, side);
    if text.len() == 0 {
        assert(board_text(cells) =~= text);
    } else {
        let head = text.drop_last();
        assert(parses(head, num_cells - 1, side)) by {
            assert forall|i: int| 0 <= i < head.len() implies cell_of_char(
                #[trigger] head[i],
                side,
            ) is Some by {
                assert(head[i] == text[i]);
            }
        }
        lemma_parse_then_serialize(head, num_cells - 1, side);
        assert(cells.drop_last() =~= parsed(head, side));
        let c = text.last();
        assert(cell_of_char(c, side) is Some);
        assert(cell_text(cells.last()) =~= seq![c]) by {
            let d = c as int - 48;
            assert(digit_char(d) == c);
            reveal_with_fuel(decimal, 1);
        }
        assert(board_text(cells) =~= text);
    }
}

/// Reading the text of a grid whose values are single digits gives the grid back.
pub proof fn lemma_serialize_then_parse(cells: Seq<Cell>, side: int)
    requires
        0 <= side <= 9,
        forall|i: int| 0 <= i < cells.len() ==> crate::cell_in_range(#[trigger] cells[i], side),
    ensures
        parses(board_text(cells), cells.len() as int, side),
        parsed(board_text(cells), side) == cells,
    decreases cells.len(),
{
    if cells.len() == 0 {
        assert(parsed(board_text(cells), side) =~= cells);
    } else {
        let head = cells.drop_last();
        lemma_serialize_then_parse(head, side);
        let c = cells.last();
        assert(crate::cell_in_range(c, side));
        let t = cell_text(c);
        assert(t.len() == 1 && cell_of_char(t[0], side) == Some(c)) by {
            reveal_with_fuel(decimal, 1);
            match c {
                Cell::Unfilled => {
                    assert(t[0] == '0');
                    assert('0' as int == 48);
                },
                Cell::Filled(v) => {
                    assert(t =~= seq![digit_char(v as int)]);
                    assert(digit_char(v as int) as int == v + 48);
                },
            }
        }
        let whole = board_text(cells);
        assert(whole =~= board_text(head) + t);
        assert forall|i: int| 0 <= i < whole.len() implies cell_of_char(
            #[trigger] whole[i],
            side,
        ) is Some by {
            if i < head.len() {
                assert(whole[i] == board_text(head)[i]);
            }
        }
        assert forall|i: int| 0 <= i < cells.len() implies parsed(whole, side)[i] == cells[i] by {
            if i < head.len() {
                assert(whole[i] == board_text(head)[i]);
                assert(parsed(board_text(head), side)[i] == head[i]);
            }
        }
        assert(parsed(whole, side) =~= cells);
    }
}

/// Appends the character of the digit `d`.
pub(crate) fn append_digit(text: &mut String, d: u8)
    requires
        d < 10,
    ensures
        final(text)@ == old(text)@.push(digit_char(d as int)),
{
    proof {
        reveal_strlit("0");
        reveal_strlit("1");
        reveal_strlit("2");
        reveal_strlit("3");
        reveal_strlit("4");
        reveal_strlit("5");
        reveal_strlit("6");
        reveal_strlit("7");
        reveal_strlit("8");
        reveal_strlit("9");
    }
    let digit: &str = match d {
        0 => "0",
        1 => "1",
        2 => "2",
        3 => "3",
        4 => "4",
        5 => "5",
        6 => "6",
        7 => "7",
        8 => "8",
        _ => "9",
    };
    assert(digit@ =~= seq![digit_char(d as int)]);
    text.append(digit);
    assert(text@ =~= old(text)@.push(digit_char(d as int)));
}

/// Appends the decimal digits of `v`.
pub(crate) fn append_decimal(text: &mut String, v: u8)
    ensures
        final(text)@ == old(text)@ + decimal(v as nat),
{
    proof {
        reveal_with_fuel(decimal, 3);
    }
    if v >= 100 {
        append_digit(text, v / 100);
        append_digit(text, (v / 10) % 10);
        append_digit(text, v % 10);
        assert(text@ =~= old(text)@ + decimal(v as nat));
    } else if v >= 10 {
        append_digit(text, v / 10);
        append_digit(text, v % 10);
        assert(text@ =~= old(text)@ + decimal(v as nat));
    } else {
        append_digit(text, v);
        assert(text@ =~= old(text)@ + decimal(v as nat));
    }
}

} // verus!
