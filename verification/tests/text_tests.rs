use mine_deduction::board::Board;
use mine_deduction::geometry::{cell_position, square_origin, PlaceError, ScreenLayout};
use mine_deduction::grid::MinesweeperCell;
use mine_deduction::rules::KnownSquares;
use mine_deduction::text::{board_text, known_squares_rows};

#[test]
fn text_of_a_board() {
    let mut board = Board { rows: vec![MinesweeperCell::Empty; 25], size: 5 };
    board.rows[0] = MinesweeperCell::Number(3);
    board.rows[6] = MinesweeperCell::Mine;
    board.rows[7] = MinesweeperCell::Question;
    board.rows[24] = MinesweeperCell::Number(11);
    assert_eq!(board_text(&board), "3    \n F?  \n     \n     \n    B\n");
    assert_eq!(board.cell_at(7), MinesweeperCell::Question);
    let ragged = Board { rows: vec![MinesweeperCell::Number(1); 4], size: 3 };
    assert_eq!(board_text(&ragged), "111\n1\n");
    let none = Board { rows: vec![], size: 3 };
    assert_eq!(board_text(&none), "");
}

#[test]
fn picture_of_an_outcome() {
    let mut known = KnownSquares::new();
    known.mines.insert(0);
    known.mines.insert(7);
    known.safe.insert(7);
    known.safe.insert(24);
    known.mines.insert(99);
    assert_eq!(known_squares_rows(&known, 5), vec!["X____", "__O__", "_____", "_____", "____O"]);
    assert_eq!(known_squares_rows(&known, 0), Vec::<String>::new());
    let mut more = KnownSquares::new();
    more.safe.insert(1);
    more.mines.insert(2);
    known.absorb(&more);
    assert_eq!(known_squares_rows(&known, 3), vec!["XOX", "___", "_O_"]);
}

#[test]
fn places_of_cells() {
    let screen =
        ScreenLayout { eight_top_left: (640, 309), seven_top_left: (685, 354), square_size: (88, 88) };
    assert_eq!(square_origin(&screen, 8, 0, 0), Ok((640, 309)));
    assert_eq!(square_origin(&screen, 8, 7, 2), Ok((640 + 7 * 88, 309 + 2 * 88)));
    assert_eq!(square_origin(&screen, 7, 1, 6), Ok((685 + 88, 354 + 6 * 88)));
    assert_eq!(square_origin(&screen, 6, 0, 5), Ok((640 + 88, 309 + 88 + 5 * 88)));
    assert_eq!(square_origin(&screen, 5, 4, 0), Ok((685 + 88 + 4 * 88, 354 + 88)));
    assert_eq!(square_origin(&screen, 8, 8, 0), Err(PlaceError::InvalidX));
    assert_eq!(square_origin(&screen, 8, 9, 9), Err(PlaceError::InvalidX));
    assert_eq!(square_origin(&screen, 8, 0, 8), Err(PlaceError::InvalidY));
    assert_eq!(square_origin(&screen, 4, 0, 0), Err(PlaceError::BadBoardSize));
    assert_eq!(square_origin(&screen, 9, 8, 8), Err(PlaceError::BadBoardSize));
    assert_eq!(square_origin(&screen, 0, 0, 0), Err(PlaceError::InvalidX));
    let far = ScreenLayout {
        eight_top_left: (i32::MAX, 0),
        seven_top_left: (0, i32::MIN),
        square_size: (1, -1),
    };
    assert_eq!(square_origin(&far, 8, 0, 0), Ok((i32::MAX, 0)));
    assert_eq!(square_origin(&far, 8, 1, 0), Err(PlaceError::OffScreen));
    assert_eq!(square_origin(&far, 6, 0, 0), Err(PlaceError::OffScreen));
    assert_eq!(square_origin(&far, 7, 0, 0), Ok((0, i32::MIN)));
    assert_eq!(square_origin(&far, 7, 0, 1), Err(PlaceError::OffScreen));
    assert_eq!(cell_position(27, 8), (3, 3));
    assert_eq!(cell_position(7, 8), (7, 0));
    assert_eq!(cell_position(24, 5), (4, 4));
}
