use samegame::board::Board;

/// The flat cell buffer, column-major, bottom-to-top within each column.
fn flat(b: &Board) -> Vec<u8> {
    let mut v = Vec::new();
    for x in 0..b.width() {
        for y in 0..b.height() {
            v.push(b.at(x, y));
        }
    }
    v
}

#[test]
fn random() {
    let board = Board::random(3, 14);
    assert_eq!(board.width(), 3);
    assert_eq!(board.height(), 14);
    assert!(flat(&board).iter().all(|color| (1..=5).contains(color)));
}

#[test]
fn parse() {
    let board = Board::parse(
        b"\
4 3
0123
1234
2345
"
        .as_ref(),
    )
    .unwrap();
    assert_eq!(board.width(), 4);
    assert_eq!(board.height(), 3);
    assert_eq!(flat(&board), [2, 1, 0, 3, 2, 1, 4, 3, 2, 5, 4, 3]);
}

#[test]
fn component() {
    let mut board = Board::parse(
        b"\
4 3
2102
1154
5135
"
        .as_ref(),
    )
    .unwrap();

    assert_eq!(board.calc_component(0, 0), []);
    let mut comp = board.calc_component(0, 1);
    comp.sort();
    assert_eq!(comp, [(0, 1), (1, 0), (1, 1), (1, 2)]);
    assert!(!board.is_finished());

    assert_eq!(board.erase_component(0, 0), 0);
    assert_eq!(board.erase_component(3, 0), 0);
    assert_eq!(board.erase_component(1, 1), 4);
    assert_eq!(flat(&board), [5, 2, 0, 3, 5, 0, 5, 4, 2, 0, 0, 0]);
    assert!(board.is_finished());
}

#[test]
fn random_is_not_constant() {
    // 100 independent draws from five colors are essentially never all equal.
    let board = Board::random(10, 10);
    let cells = flat(&board);
    assert!(cells.iter().any(|&c| c != cells[0]));
}

#[test]
fn erase_on_empty_cell_changes_nothing() {
    let mut board = Board::parse(b"2 2\n00\n12\n".as_ref()).unwrap();
    let before = flat(&board);
    assert_eq!(board.at(0, 1), 0);
    assert_eq!(board.erase_component(0, 1), 0);
    assert_eq!(flat(&board), before);
}

#[test]
fn erase_on_singleton_changes_nothing() {
    let mut board = Board::parse(b"2 2\n12\n34\n".as_ref()).unwrap();
    let before = flat(&board);
    assert_eq!(board.erase_component(0, 0), 0);
    assert_eq!(board.erase_component(1, 1), 0);
    assert_eq!(flat(&board), before);
}

#[test]
fn one_wide_column_erases_fully() {
    let mut board = Board::parse(b"1 3\n2\n2\n2\n".as_ref()).unwrap();
    let mut comp = board.calc_component(0, 0);
    comp.sort();
    assert_eq!(comp, [(0, 0), (0, 1), (0, 2)]);
    assert!(!board.is_finished());
    assert_eq!(board.erase_component(0, 1), 3);
    assert_eq!(flat(&board), [0, 0, 0]);
    assert!(board.is_finished());
}

#[test]
fn gravity_and_compaction_after_erase() {
    // Erasing the 3s drops the 1 in the middle column, then the emptied
    // column compacts away.
    let mut board = Board::parse(b"3 2\n131\n232\n".as_ref()).unwrap();
    assert_eq!(board.erase_component(1, 0), 2);
    assert_eq!(flat(&board), [2, 1, 2, 1, 0, 0]);
}

#[test]
fn floating_tile_falls_after_erase() {
    // Removing the three 1s leaves the 2 floating at the top of its column;
    // it falls, and the emptied left column compacts away.
    let mut board = Board::parse(b"2 2\n12\n11\n".as_ref()).unwrap();
    assert_eq!(board.erase_component(0, 0), 3);
    assert_eq!(flat(&board), [2, 0, 0, 0]);
}

#[test]
fn finished_on_empty_board() {
    let board = Board::parse(b"2 2\n00\n00\n".as_ref()).unwrap();
    assert!(board.is_finished());
}

#[test]
fn repeated_erasure_terminates() {
    let mut board = Board::random(8, 8);
    let mut guard = 0;
    while !board.is_finished() {
        let mut erased = false;
        'outer: for x in 0..board.width() {
            for y in 0..board.height() {
                if board.erase_component(x, y) > 0 {
                    erased = true;
                    break 'outer;
                }
            }
        }
        if !erased {
            panic!("unfinished board with nothing erasable");
        }
        guard += 1;
        assert!(guard <= 64, "erasure did not terminate");
    }
}
