use samegame::board::Board;
use samegame::codec::ParseError;

fn flat(b: &Board) -> Vec<u8> {
    let mut v = Vec::new();
    for x in 0..b.width() {
        for y in 0..b.height() {
            v.push(b.at(x, y));
        }
    }
    v
}

#[test]
fn header_must_hold_two_integers() {
    assert_eq!(Board::parse(b"".as_ref()).unwrap_err(), ParseError::Format);
    assert_eq!(Board::parse(b"4\n".as_ref()).unwrap_err(), ParseError::Format);
    assert_eq!(
        Board::parse(b"x 3\n000\n000\n000\n".as_ref()).unwrap_err(),
        ParseError::Format
    );
    assert_eq!(
        Board::parse(b"4 3 9\n0123\n1234\n2345\n".as_ref()).unwrap_err(),
        ParseError::Format
    );
}

#[test]
fn dimensions_must_be_positive() {
    assert_eq!(Board::parse(b"0 3\n".as_ref()).unwrap_err(), ParseError::Format);
    assert_eq!(Board::parse(b"3 0\n".as_ref()).unwrap_err(), ParseError::Format);
}

#[test]
fn rows_reject_foreign_characters() {
    assert_eq!(
        Board::parse(b"2 2\n16\n23\n".as_ref()).unwrap_err(),
        ParseError::InvalidCell
    );
    assert_eq!(
        Board::parse(b"2 2\na1\n23\n".as_ref()).unwrap_err(),
        ParseError::InvalidCell
    );
}

#[test]
fn missing_rows_are_incomplete() {
    assert_eq!(
        Board::parse(b"2 2\n11\n".as_ref()).unwrap_err(),
        ParseError::IncompleteInput
    );
    assert_eq!(
        Board::parse(b"2 2\n".as_ref()).unwrap_err(),
        ParseError::IncompleteInput
    );
}

#[test]
fn short_rows_leave_empty_cells_and_extras_are_ignored() {
    let board = Board::parse(b"3 2\n12\n345extra\nmore lines\n".as_ref()).unwrap();
    assert_eq!(flat(&board), [3, 1, 4, 2, 5, 0]);
}

#[test]
fn crlf_line_endings_are_accepted() {
    let a = Board::parse(b"2 2\r\n12\r\n34\r\n".as_ref()).unwrap();
    let b = Board::parse(b"2 2\n12\n34\n".as_ref()).unwrap();
    assert_eq!(flat(&a), flat(&b));
}

#[test]
fn encode_writes_the_save_format() {
    let board = Board::parse(b"2 2\n12\n34\n".as_ref()).unwrap();
    assert_eq!(board.encode(), b"2 2\n12\n34\n");
}

#[test]
fn encode_then_parse_round_trips() {
    let board = Board::parse(b"4 3\n2102\n1154\n5135\n".as_ref()).unwrap();
    let reparsed = Board::parse(&board.encode()).unwrap();
    assert_eq!(reparsed.width(), board.width());
    assert_eq!(reparsed.height(), board.height());
    assert_eq!(flat(&reparsed), flat(&board));

    let random_board = Board::random(7, 5);
    let reparsed2 = Board::parse(&random_board.encode()).unwrap();
    assert_eq!(flat(&reparsed2), flat(&random_board));
}
