use mine_deduction::algorithms::{
    connected_solver, cross_solver, quad_solver, vanilla_solver, Solver,
};
use mine_deduction::board::Board;
use mine_deduction::generation::{
    add_connected_mines, add_q_spaces, add_zone_for_number_v, add_zone_for_number_x, total_mines,
    total_mines_standard,
};
use mine_deduction::grid::MinesweeperCell;
use mine_deduction::rules::SolveError;
use std::collections::HashSet;

fn around(size: usize, index: usize) -> Vec<usize> {
    let (row, col) = ((index / size) as i64, (index % size) as i64);
    let mut out = Vec::new();
    for dr in -1..=1i64 {
        for dc in -1..=1i64 {
            let (r, c) = (row + dr, col + dc);
            if (dr, dc) != (0, 0) && r >= 0 && c >= 0 && r < size as i64 && c < size as i64 {
                out.push(r as usize * size + c as usize);
            }
        }
    }
    out
}

fn along_cross(size: usize, index: usize) -> Vec<usize> {
    let (row, col) = ((index / size) as i64, (index % size) as i64);
    let mut out = Vec::new();
    for (dr, dc) in [(-1, 0), (-2, 0), (1, 0), (2, 0), (0, -1), (0, -2), (0, 1), (0, 2)] {
        let (r, c): (i64, i64) = (row + dr, col + dc);
        if r >= 0 && c >= 0 && r < size as i64 && c < size as i64 {
            out.push(r as usize * size + c as usize);
        }
    }
    out
}

/// A board that shows the clues of `revealed` and the flags of `flagged` over a
/// layout of mines.
fn board_of(
    size: usize,
    mines: &[usize],
    revealed: &[usize],
    flagged: &[usize],
    neighbours: fn(usize, usize) -> Vec<usize>,
) -> Board {
    let mut rows = vec![MinesweeperCell::Empty; size * size];
    for &cell in revealed {
        assert!(!mines.contains(&cell));
        let clue = neighbours(size, cell).iter().filter(|n| mines.contains(n)).count();
        rows[cell] = MinesweeperCell::Number(clue);
    }
    for &cell in flagged {
        assert!(mines.contains(&cell));
        rows[cell] = MinesweeperCell::Mine;
    }
    Board { rows, size }
}

fn set(cells: &[usize]) -> HashSet<usize> {
    cells.iter().copied().collect()
}

const MINES: [usize; 10] = [0, 1, 2, 5, 7, 10, 11, 12, 20, 24];

#[test]
fn table_of_mines() {
    assert_eq!(total_mines(5), Some(10));
    assert_eq!(total_mines(6), Some(14));
    assert_eq!(total_mines(7), Some(20));
    assert_eq!(total_mines(8), Some(26));
    assert_eq!(total_mines(4), None);
    assert_eq!(total_mines(9), None);
}

#[test]
fn a_clue_gives_a_zone_over_its_unrevealed_neighbours() {
    let board = board_of(5, &MINES, &[6, 18], &[5], around);
    let zones = add_zone_for_number_v(&board).unwrap();
    assert_eq!(zones.len(), 2);
    assert_eq!(zones[0].cells(), &vec![2, 1, 0, 7, 12, 11, 10]);
    assert_eq!(zones[0].counts(), &vec![7]);
    assert_eq!(zones[1].cells(), &vec![14, 13, 12, 19, 17, 24, 23, 22]);
    assert_eq!(zones[1].counts(), &vec![2]);
    let total = total_mines_standard(&board).unwrap();
    assert_eq!(total.len(), 1);
    assert_eq!(total[0].cells().len(), 22);
    assert_eq!(total[0].counts(), &vec![9]);
}

#[test]
fn a_clue_with_too_many_flags_is_a_fault() {
    let mut board = board_of(5, &MINES, &[6], &[0, 1, 2], around);
    board.rows[6] = MinesweeperCell::Number(2);
    assert_eq!(add_zone_for_number_v(&board).err(), Some(SolveError::TooManyFlags));
    assert_eq!(vanilla_solver().try_known_squares(&board).err(), Some(SolveError::TooManyFlags));
    let mut crowded = Board { rows: vec![MinesweeperCell::Mine; 25], size: 5 };
    crowded.rows[3] = MinesweeperCell::Empty;
    assert_eq!(total_mines_standard(&crowded).err(), Some(SolveError::TooManyFlags));
}

#[test]
fn a_board_of_another_size_is_a_fault() {
    for size in [0usize, 1, 4, 9] {
        let board = Board { rows: vec![MinesweeperCell::Empty; size * size], size };
        assert_eq!(vanilla_solver().try_known_squares(&board).err(), Some(SolveError::BadBoardSize));
        assert_eq!(total_mines_standard(&board).err(), Some(SolveError::BadBoardSize));
    }
    let short = Board { rows: vec![MinesweeperCell::Empty; 24], size: 5 };
    assert_eq!(quad_solver().try_known_squares(&short).err(), Some(SolveError::BadBoardSize));
}

#[test]
fn full_and_empty_clues_are_read_off() {
    let board = board_of(5, &MINES, &[6, 18, 23], &[], around);
    let known = vanilla_solver().get_known_squares(&board);
    assert!(known.mines.is_superset(&set(&[0, 1, 2, 5, 7, 10, 11, 12])));
    for cell in &known.mines {
        assert!(MINES.contains(cell), "{} is no mine", cell);
    }
    for cell in &known.safe {
        assert!(!MINES.contains(cell), "{} is a mine", cell);
    }
}

#[test]
fn the_same_board_gives_the_same_answer() {
    let board = board_of(5, &MINES, &[3, 6, 8, 13, 16, 18, 23], &[0, 24], around);
    let first = vanilla_solver().get_known_squares(&board);
    let second = vanilla_solver().get_known_squares(&board);
    assert_eq!(first.mines, second.mines);
    assert_eq!(first.safe, second.safe);
    let third = vanilla_solver().try_known_squares(&board).unwrap();
    assert_eq!(first.mines, third.mines);
    assert_eq!(first.safe, third.safe);
}

#[test]
fn nothing_false_is_deduced() {
    let layouts: [&[usize]; 3] = [
        &MINES,
        &[3, 4, 8, 9, 13, 14, 15, 16, 21, 22],
        &[0, 4, 6, 8, 12, 16, 18, 20, 24, 2],
    ];
    for mines in layouts {
        let safe: Vec<usize> = (0..25).filter(|c| !mines.contains(c)).collect();
        for skip in 0..safe.len() {
            let revealed: Vec<usize> =
                safe.iter().copied().enumerate().filter(|(k, _)| k % 3 != skip % 3).map(|(_, c)| c).collect();
            let flagged = [mines[skip % mines.len()]];
            let board = board_of(5, mines, &revealed, &flagged, around);
            let known = vanilla_solver().try_known_squares(&board).unwrap();
            assert!(known.mines.iter().all(|c| mines.contains(c)));
            assert!(known.safe.iter().all(|c| !mines.contains(c)));
            assert!(known.mines.iter().chain(known.safe.iter()).all(|&c| {
                board.rows[c] == MinesweeperCell::Empty
            }));
        }
    }
}

#[test]
fn overlapping_clues_are_combined() {
    // 1 2 1 over three unrevealed cells: the middle clue sees both outer cells.
    let mut rows = vec![MinesweeperCell::Number(0); 25];
    let mines = [0usize, 2, 15, 16, 17, 18, 19, 20, 21, 22];
    for cell in [0usize, 1, 2, 20, 21, 22, 23, 24, 15, 16, 17, 18, 19] {
        rows[cell] = MinesweeperCell::Empty;
    }
    for cell in [15usize, 16, 17, 18, 19, 20, 21, 22] {
        rows[cell] = MinesweeperCell::Mine;
    }
    let mut board = Board { rows, size: 5 };
    for cell in 0..25usize {
        if let MinesweeperCell::Number(_) = board.rows[cell] {
            let clue = around(5, cell).iter().filter(|n| mines.contains(n)).count();
            board.rows[cell] = MinesweeperCell::Number(clue);
        }
    }
    let known = vanilla_solver().get_known_squares(&board);
    assert_eq!(known.mines, set(&[0, 2]));
    assert_eq!(known.safe, set(&[1, 23, 24]));
}

#[test]
fn blocks_of_four_hold_a_mine() {
    let mut board = Board { rows: vec![MinesweeperCell::Number(0); 25], size: 5 };
    board.rows[0] = MinesweeperCell::Empty;
    board.rows[7] = MinesweeperCell::Empty;
    board.rows[8] = MinesweeperCell::Empty;
    board.rows[24] = MinesweeperCell::Mine;
    let zones = add_q_spaces(&board).unwrap();
    let cells: Vec<Vec<usize>> = zones.iter().map(|z| z.cells().clone()).collect();
    assert_eq!(cells, vec![vec![0], vec![7], vec![7], vec![7, 8], vec![7, 8], vec![8], vec![8]]);
    assert!(zones.iter().all(|z| z.counts() == &vec![1, 2, 3, 4]));
}

#[test]
fn quad_solver_marks_the_last_cell_of_a_block() {
    let mines: Vec<usize> = vec![0, 2, 4, 10, 12, 14, 20, 22, 24, 6];
    let revealed: Vec<usize> = (0..25).filter(|c| !mines.contains(c) && *c != 18).collect();
    let flagged = [2usize, 4, 10, 14, 20, 22, 24, 6];
    let board = board_of(5, &mines, &revealed, &flagged, around);
    let known = quad_solver().get_known_squares(&board);
    assert_eq!(known.mines, set(&[0, 12]));
    assert_eq!(known.safe, set(&[18]));
}

#[test]
fn cross_solver_counts_along_the_cross() {
    let mines: Vec<usize> = vec![0, 1, 2, 3, 4, 5, 9, 10, 14, 22];
    let board = board_of(5, &mines, &[12, 7], &[], along_cross);
    let zones = add_zone_for_number_x(&board).unwrap();
    assert_eq!(zones.len(), 2);
    assert_eq!(zones[0].cells(), &vec![2, 8, 9, 6, 5, 17]);
    assert_eq!(zones[0].counts(), &vec![3]);
    assert_eq!(zones[1].cells(), &vec![2, 13, 14, 11, 10, 17, 22]);
    assert_eq!(zones[1].counts(), &vec![4]);
    let known = cross_solver().get_known_squares(&board);
    assert!(known.mines.iter().all(|c| mines.contains(c)));
    assert!(known.safe.iter().all(|c| !mines.contains(c)));
}

#[test]
fn a_lonely_flag_has_a_mine_beside_it() {
    let mines: Vec<usize> = vec![0, 1, 12, 13, 20, 21, 23, 24, 3, 4];
    let mut board = board_of(5, &mines, &[6, 7, 8, 16, 17, 18, 11], &[12], around);
    let zones = add_connected_mines(&board).unwrap();
    assert_eq!(zones.len(), 1);
    assert_eq!(zones[0].cells(), &vec![13]);
    assert_eq!(zones[0].counts(), &vec![1]);
    let known = connected_solver().get_known_squares(&board);
    assert!(known.mines.contains(&13));
    assert!(known.mines.iter().all(|c| mines.contains(c)));
    assert!(known.safe.iter().all(|c| !mines.contains(c)));
    board.rows[13] = MinesweeperCell::Number(1);
    assert_eq!(add_connected_mines(&board).err(), Some(SolveError::IsolatedMine));
    assert_eq!(connected_solver().try_known_squares(&board).err(), Some(SolveError::IsolatedMine));
}

#[test]
fn zones_that_cannot_both_hold_are_a_fault() {
    let mut board = Board { rows: vec![MinesweeperCell::Number(0); 25], size: 5 };
    board.rows[0] = MinesweeperCell::Empty;
    board.rows[1] = MinesweeperCell::Number(1);
    for cell in 15..25 {
        board.rows[cell] = MinesweeperCell::Mine;
    }
    // The clue at 1 says that cell 0 is a mine, the clue at 5 that it is not.
    assert_eq!(
        vanilla_solver().try_known_squares(&board).err(),
        Some(SolveError::SubsetHasOnlyLargerValues)
    );
}
