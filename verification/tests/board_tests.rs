use mine_deduction::board::{
    all_cells, cell_to_char, cells_left, is_square_id_black, Board, BoardIndexable,
};
use mine_deduction::grid::{MinesweeperCell, NextToPolicy};

fn blank(size: usize) -> Board {
    Board { rows: vec![MinesweeperCell::Empty; size * size], size }
}

#[test]
fn correct_next_to() {
    let board = Board { rows: vec![MinesweeperCell::Empty; 64], size: 8 };
    for i in 0..64 {
        assert_eq!(
            board.get_next_to(i, NextToPolicy::EightAround).len(),
            {
                match i {
                    0 | 7 | 56 | 63 => 3,
                    1..=6 | 8 | 16 | 24 | 32 | 40 | 48 | 15 | 23 | 31 | 39 | 47 | 55 | 57..=62 => 5,
                    _ => 8,
                }
            },
            "testing: {}",
            i
        )
    }
}

#[test]
fn correct_next_to_x() {
    let board = Board { rows: vec![MinesweeperCell::Empty; 25], size: 5 };
    for i in 0..25 {
        println!("{}", i);
        assert_eq!(
            board.get_next_to(i, NextToPolicy::XScape).len(),
            {
                match i {
                    0 | 4 | 20 | 24 => 4,
                    1 | 3 | 5 | 9 | 15 | 19 | 21 | 23 => 5,
                    2 | 10 | 14 | 22 => 6,
                    6 | 8 | 16 | 18 => 6,
                    7 | 11 | 13 | 17 => 7,
                    12 => 8,
                    _ => panic!("die"),
                }
            },
            "testing: {} val {:?}",
            i,
            board.get_next_to(i, NextToPolicy::XScape)
        )
    }
}

#[test]
fn eight_around_of_corners_and_centre() {
    let board = blank(8);
    assert_eq!(board.get_next_to(0, NextToPolicy::EightAround), vec![1, 9, 8]);
    assert_eq!(board.get_next_to(7, NextToPolicy::EightAround), vec![6, 15, 14]);
    assert_eq!(
        board.get_next_to(27, NextToPolicy::EightAround),
        vec![20, 19, 18, 28, 26, 36, 35, 34]
    );
    assert_eq!(board.get_next_to_eight_around(63), vec![55, 54, 62]);
}

#[test]
fn neighbours_never_wrap_round_a_row() {
    let board = blank(5);
    for index in 0..25usize {
        for policy in [NextToPolicy::EightAround, NextToPolicy::XScape, NextToPolicy::XSmall] {
            for other in board.get_next_to(index, policy) {
                let dr = (other / 5) as i64 - (index / 5) as i64;
                let dc = (other % 5) as i64 - (index % 5) as i64;
                assert!(other < 25 && other != index);
                assert!(dr.abs() <= 2 && dc.abs() <= 2);
                if policy != NextToPolicy::EightAround {
                    assert!(dr == 0 || dc == 0);
                }
                if policy != NextToPolicy::XScape {
                    assert!(dr.abs() <= 1 && dc.abs() <= 1);
                }
            }
        }
    }
}

#[test]
fn cross_scape_lists_near_before_far() {
    let board = blank(5);
    assert_eq!(board.get_next_to_x(12), vec![7, 2, 13, 14, 11, 10, 17, 22]);
    assert_eq!(board.get_next_to_x(0), vec![1, 2, 5, 10]);
    assert_eq!(board.get_next_to_x(6), vec![1, 7, 8, 5, 11, 16]);
    assert_eq!(board.get_next_to_x(24), vec![19, 14, 23, 22]);
}

#[test]
fn small_cross_has_four_at_most() {
    let board = blank(6);
    assert_eq!(board.get_next_to_x_small(0), vec![1, 6]);
    assert_eq!(board.get_next_to_x_small(5), vec![4, 11]);
    assert_eq!(board.get_next_to_x_small(14), vec![8, 15, 13, 20]);
    assert_eq!(board.get_next_to(35, NextToPolicy::XSmall), vec![29, 34]);
}

#[test]
fn counts_unrevealed_and_flagged() {
    let mut board = blank(5);
    board.rows[1] = MinesweeperCell::Mine;
    board.rows[5] = MinesweeperCell::Number(2);
    board.rows[6] = MinesweeperCell::Question;
    board.rows[7] = MinesweeperCell::Mine;
    let around = board.get_next_to(0, NextToPolicy::EightAround);
    assert_eq!(board.empty_and_mine_count(&around), (vec![], 1));
    let around = board.get_next_to(6, NextToPolicy::EightAround);
    assert_eq!(board.empty_and_mine_count(&around), (vec![2, 0, 12, 11, 10], 2));
    assert_eq!(board.empty_and_mine_count(&vec![1, 1, 7, 3]), (vec![3], 3));
    assert_eq!(cells_left(&board), 21);
    assert_eq!(all_cells(&board).len(), 25);
}

#[test]
fn colours_of_odd_and_even_boards() {
    assert!(is_square_id_black(0, 5));
    assert!(!is_square_id_black(1, 5));
    assert!(is_square_id_black(6, 5));
    assert!(is_square_id_black(0, 8));
    assert!(!is_square_id_black(8, 8));
    assert!(is_square_id_black(9, 8));
    assert!(!is_square_id_black(7, 8));
    for size in [5usize, 7] {
        for id in 0..size * size {
            assert_eq!(is_square_id_black(id, size), (id / size + id % size) % 2 == 0);
        }
    }
}

#[test]
fn coloured_counts() {
    let mut board = blank(6);
    board.rows[0] = MinesweeperCell::Mine;
    board.rows[1] = MinesweeperCell::Mine;
    board.rows[6] = MinesweeperCell::Mine;
    board.rows[7] = MinesweeperCell::Number(3);
    let around = board.get_next_to(7, NextToPolicy::EightAround);
    assert_eq!(around, vec![2, 1, 0, 8, 6, 14, 13, 12]);
    let (black, white, weighted) = board.black_white_m_minecount(&around);
    assert_eq!(black, vec![2, 14, 12]);
    assert_eq!(white, vec![8, 13]);
    assert_eq!(weighted, 1 + 2 + 2);
    let (black, white, black_mines, white_mines) = board.black_white_split_minecount(&around);
    assert_eq!((black, white), (vec![2, 14, 12], vec![8, 13]));
    assert_eq!((black_mines, white_mines), (1, 2));
}

#[test]
fn characters_of_cells() {
    assert_eq!(cell_to_char(MinesweeperCell::Number(0)), '0');
    assert_eq!(cell_to_char(MinesweeperCell::Number(9)), '9');
    assert_eq!(cell_to_char(MinesweeperCell::Number(10)), 'A');
    assert_eq!(cell_to_char(MinesweeperCell::Number(11)), 'B');
    assert_eq!(cell_to_char(MinesweeperCell::Number(12)), 'C');
    assert_eq!(cell_to_char(MinesweeperCell::Number(13)), 'd');
    assert_eq!(cell_to_char(MinesweeperCell::Number(35)), 'z');
    assert_eq!(cell_to_char(MinesweeperCell::Empty), ' ');
    assert_eq!(cell_to_char(MinesweeperCell::Question), '?');
    assert_eq!(cell_to_char(MinesweeperCell::Mine), 'F');
}

#[test]
fn rows_of_a_board() {
    let mut board = blank(5);
    board.rows[5] = MinesweeperCell::Mine;
    let rows = board.as_rows();
    assert_eq!(rows.len(), 5);
    assert_eq!(rows[1][0], MinesweeperCell::Mine);
    assert!(rows.iter().all(|row| row.len() == 5));
    let ragged = Board { rows: vec![MinesweeperCell::Empty; 7], size: 3 };
    let rows = ragged.as_rows();
    assert_eq!(rows.len(), 3);
    assert_eq!(rows[2].len(), 1);
}
