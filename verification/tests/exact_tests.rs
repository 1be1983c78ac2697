use mine_deduction::algorithms::vanilla_solver;
use mine_deduction::board::Board;
use mine_deduction::grid::MinesweeperCell;
use mine_deduction::linear_programming_solvers::{
    create_b_added_constraint_set, create_constraint_set_b, create_constraint_set_l,
    create_constraint_set_m, create_constraint_set_minecount, create_constraint_set_minecount_b,
    create_constraint_set_n, create_constraint_set_normal_mines, create_constraint_set_q,
    create_constraint_set_v, create_constraint_set_x, create_q_added_constraint_set,
    mines_per_line, total_mines_balanced, Constraint, ConstraintKind, ConstraintSet,
};
use mine_deduction::plus_linear_solvers::{
    create_constraint_set_bl, create_constraint_set_bm, create_constraint_set_bn,
    create_constraint_set_bx, create_constraint_set_ql, create_constraint_set_qm,
    create_constraint_set_qn, create_constraint_set_qx,
};
use mine_deduction::probing::{
    classify, probe_program, Column, IntegerProgram, Optimum, ProbeError, ProbeResult,
    ProbeSession, Sense,
};
use mine_deduction::rules::{KnownSquares, SolveError};
use std::collections::HashSet;

fn around(size: usize, index: usize) -> Vec<usize> {
    let (row, col) = ((index / size) as i64, (index % size) as i64);
    let mut out = Vec::new();
    for dr in -1..=1i64 {
        for dc in -1..=1i64 {
            let (r, c) = (row + dr, col + dc);
            if (dr, dc) != (0, 0) && r >= 0 && c >= 0 && r < size as i64 && c < size as i64 {
                out.push(r as usize * size + c as usize);
            }
        }
    }
    out
}

fn board_of(size: usize, mines: &[usize], revealed: &[usize], flagged: &[usize]) -> Board {
    let mut rows = vec![MinesweeperCell::Empty; size * size];
    for &cell in revealed {
        assert!(!mines.contains(&cell));
        let clue = around(size, cell).iter().filter(|n| mines.contains(n)).count();
        rows[cell] = MinesweeperCell::Number(clue);
    }
    for &cell in flagged {
        assert!(mines.contains(&cell));
        rows[cell] = MinesweeperCell::Mine;
    }
    Board { rows, size }
}

fn set(cells: &[usize]) -> HashSet<usize> {
    cells.iter().copied().collect()
}

/// Whether the rows can still be met when the first `assigned` columns are fixed.
fn may_hold(program: &IntegerProgram, values: &[i128], assigned: usize) -> bool {
    program.rows.iter().all(|row| {
        let (mut low, mut high) = (0i128, 0i128);
        for &(column, factor) in &row.terms {
            if column < assigned {
                low += factor * values[column];
                high += factor * values[column];
            } else {
                let (a, b) = (
                    factor * program.columns[column].lower,
                    factor * program.columns[column].upper,
                );
                low += a.min(b);
                high += a.max(b);
            }
        }
        high >= row.lower && row.upper.map_or(true, |upper| low <= upper)
    })
}

fn search(program: &IntegerProgram, values: &mut Vec<i128>, assigned: usize, sense: Sense) -> Option<i128> {
    if !may_hold(program, values, assigned) {
        return None;
    }
    if assigned == program.columns.len() {
        return Some(program.columns.iter().zip(values.iter()).map(|(c, v)| c.objective * v).sum());
    }
    let Column { lower, upper, .. } = program.columns[assigned];
    let mut best: Option<i128> = None;
    for value in lower..=upper {
        values[assigned] = value;
        if let Some(found) = search(program, values, assigned + 1, sense) {
            best = Some(match (best, sense) {
                (None, _) => found,
                (Some(b), Sense::Maximise) => b.max(found),
                (Some(b), Sense::Minimise) => b.min(found),
            });
            let bound = if sense == Sense::Maximise { 1 } else { 0 };
            if best == Some(bound) {
                break;
            }
        }
    }
    values[assigned] = 0;
    best
}

/// An exact optimiser for the small programs of these tests.
fn optimise(program: &IntegerProgram, sense: Sense) -> Optimum {
    let mut values = vec![0i128; program.columns.len()];
    match search(program, &mut values, 0, sense) {
        Some(value) => Optimum::Optimal(value as i64),
        None => Optimum::NotOptimal,
    }
}

fn run(constraints: ConstraintSet) -> Result<KnownSquares, ProbeError> {
    let mut session = ProbeSession::new(constraints);
    let mut asked = 0;
    while let Some((program, sense)) = session.request() {
        session.answer(optimise(&program, sense))?;
        asked += 1;
        assert!(asked <= 200);
    }
    assert!(session.is_finished());
    Ok(session.finish().unwrap())
}

fn parts(c: &Constraint) -> (ConstraintKind, usize, Vec<usize>, Vec<usize>) {
    (c.kind, c.value, c.cells.clone(), c.cells2.clone())
}

const MINES: [usize; 10] = [0, 1, 2, 5, 7, 10, 11, 12, 20, 24];

#[test]
fn tables_of_quota_boards() {
    assert_eq!([5, 6, 7, 8].map(total_mines_balanced), [Some(10), Some(12), Some(21), Some(24)]);
    assert_eq!([5, 6, 7, 8].map(mines_per_line), [Some(2), Some(2), Some(3), Some(3)]);
    assert_eq!(total_mines_balanced(4), None);
    assert_eq!(mines_per_line(9), None);
}

#[test]
fn standard_set_has_the_total_and_the_clues() {
    let board = board_of(5, &MINES, &[6, 18], &[5]);
    let made = create_constraint_set_v(&board).unwrap();
    assert_eq!(made.boardsize(), 5);
    assert_eq!(made.cells().len(), 22);
    assert!(made.cells().windows(2).all(|w| w[0] < w[1]));
    let list = made.constraints();
    assert_eq!(list.len(), 3);
    assert_eq!(parts(&list[0]), (ConstraintKind::Equality, 9, made.cells().clone(), vec![]));
    assert_eq!(
        parts(&list[1]),
        (ConstraintKind::Equality, 7, vec![2, 1, 0, 7, 12, 11, 10], vec![])
    );
    assert_eq!(
        parts(&list[2]),
        (ConstraintKind::Equality, 2, vec![14, 13, 12, 19, 17, 24, 23, 22], vec![])
    );
    assert_eq!(create_constraint_set_minecount(&board).unwrap().constraints().len(), 1);
    assert_eq!(create_constraint_set_normal_mines(&board).unwrap().constraints().len(), 2);
}

#[test]
fn faults_of_the_builders() {
    let mut board = board_of(5, &MINES, &[6], &[0, 1, 2]);
    board.rows[6] = MinesweeperCell::Number(2);
    assert_eq!(create_constraint_set_v(&board).err(), Some(SolveError::TooManyFlags));
    assert_eq!(create_constraint_set_m(&board).err(), Some(SolveError::TooManyFlags));
    assert_eq!(create_constraint_set_q(&board).err(), Some(SolveError::TooManyFlags));
    assert!(create_constraint_set_l(&board).is_ok());
    assert!(create_constraint_set_n(&board).is_ok());
    let small = Board { rows: vec![MinesweeperCell::Empty; 16], size: 4 };
    assert_eq!(create_constraint_set_v(&small).err(), Some(SolveError::BadBoardSize));
    assert_eq!(create_constraint_set_b(&small).err(), Some(SolveError::BadBoardSize));
    assert_eq!(create_constraint_set_minecount_b(&small).err(), Some(SolveError::BadBoardSize));
    assert_eq!(create_b_added_constraint_set(&small).err(), Some(SolveError::BadBoardSize));
    assert!(create_q_added_constraint_set(&small).is_ok());
    let mut row = Board { rows: vec![MinesweeperCell::Empty; 25], size: 5 };
    for cell in 0..3 {
        row.rows[cell] = MinesweeperCell::Mine;
    }
    assert_eq!(create_b_added_constraint_set(&row).err(), Some(SolveError::TooManyFlags));
    assert_eq!(create_constraint_set_b(&row).err(), Some(SolveError::TooManyFlags));
    assert_eq!(create_constraint_set_bm(&row).err(), Some(SolveError::TooManyFlags));
}

#[test]
fn coloured_clues() {
    let mut board = Board { rows: vec![MinesweeperCell::Empty; 36], size: 6 };
    board.rows[0] = MinesweeperCell::Mine;
    board.rows[1] = MinesweeperCell::Mine;
    board.rows[7] = MinesweeperCell::Number(5);
    let made = create_constraint_set_m(&board).unwrap();
    assert_eq!(made.constraints().len(), 2);
    assert_eq!(made.constraints()[0].value, 12);
    assert_eq!(
        parts(&made.constraints()[1]),
        (ConstraintKind::BlackWhiteEquality, 2, vec![2, 14, 12], vec![8, 6, 13])
    );
    let made = create_constraint_set_n(&board).unwrap();
    assert_eq!(
        parts(&made.constraints()[1]),
        (ConstraintKind::DifferenceOfColors(0), 5, vec![2, 14, 12], vec![8, 6, 13])
    );
    board.rows[6] = MinesweeperCell::Mine;
    let made = create_constraint_set_n(&board).unwrap();
    assert_eq!(
        parts(&made.constraints()[1]),
        (ConstraintKind::DifferenceOfColors(-1), 5, vec![2, 14, 12], vec![8, 13])
    );
}

#[test]
fn clues_that_are_off_by_one() {
    let mut board = Board { rows: vec![MinesweeperCell::Empty; 25], size: 5 };
    board.rows[0] = MinesweeperCell::Number(0);
    board.rows[4] = MinesweeperCell::Number(2);
    board.rows[3] = MinesweeperCell::Mine;
    board.rows[20] = MinesweeperCell::Number(1);
    board.rows[15] = MinesweeperCell::Mine;
    board.rows[21] = MinesweeperCell::Mine;
    let made = create_constraint_set_l(&board).unwrap();
    let list = made.constraints();
    assert_eq!(list.len(), 4);
    assert_eq!(parts(&list[1]), (ConstraintKind::Equality, 1, vec![1, 6, 5], vec![]));
    assert_eq!(parts(&list[2]), (ConstraintKind::OffByOne, 1, vec![9, 8], vec![]));
    assert_eq!(parts(&list[3]), (ConstraintKind::Equality, 0, vec![16], vec![]));
    board.rows[1] = MinesweeperCell::Mine;
    board.rows[5] = MinesweeperCell::Mine;
    assert_eq!(create_constraint_set_l(&board).err(), Some(SolveError::TooManyFlags));
    assert_eq!(create_constraint_set_ql(&board).err(), Some(SolveError::TooManyFlags));
    assert_eq!(create_constraint_set_bl(&board).err(), Some(SolveError::TooManyFlags));
}

#[test]
fn blocks_and_lines() {
    let mut board = Board { rows: vec![MinesweeperCell::Empty; 25], size: 5 };
    board.rows[0] = MinesweeperCell::Mine;
    board.rows[6] = MinesweeperCell::Number(1);
    let quads = create_q_added_constraint_set(&board).unwrap();
    let list = quads.constraints();
    assert_eq!(list.len(), 15);
    assert_eq!(parts(&list[0]), (ConstraintKind::Minimum, 1, vec![5, 10, 11], vec![]));
    assert_eq!(parts(&list[3]), (ConstraintKind::Minimum, 1, vec![1, 2, 7], vec![]));
    assert_eq!(parts(&list[14]), (ConstraintKind::Minimum, 1, vec![18, 19, 23, 24], vec![]));
    let lines = create_b_added_constraint_set(&board).unwrap();
    let list = lines.constraints();
    assert_eq!(list.len(), 10);
    assert_eq!(parts(&list[0]), (ConstraintKind::Equality, 1, vec![1, 2, 3, 4], vec![]));
    assert_eq!(parts(&list[1]), (ConstraintKind::Equality, 1, vec![5, 10, 15, 20], vec![]));
    assert_eq!(parts(&list[2]), (ConstraintKind::Equality, 2, vec![5, 7, 8, 9], vec![]));
    assert_eq!(parts(&list[3]), (ConstraintKind::Equality, 2, vec![1, 11, 16, 21], vec![]));
    let made = create_constraint_set_b(&board).unwrap();
    let list = made.constraints();
    assert_eq!(list.len(), 1 + 1 + 10);
    assert_eq!(parts(&list[0]), (ConstraintKind::Equality, 0, vec![2, 1, 7, 5, 12, 11, 10], vec![]));
    assert_eq!((list[1].kind, list[1].value, list[1].cells.len()), (ConstraintKind::Equality, 9, 23));
    assert_eq!(create_constraint_set_q(&board).unwrap().constraints().len(), 2 + 15);
}

#[test]
fn combined_games_put_the_added_part_last() {
    let mut board = Board { rows: vec![MinesweeperCell::Empty; 25], size: 5 };
    board.rows[12] = MinesweeperCell::Number(4);
    let counts: Vec<usize> = [
        create_constraint_set_x(&board),
        create_constraint_set_qm(&board),
        create_constraint_set_ql(&board),
        create_constraint_set_qn(&board),
        create_constraint_set_qx(&board),
        create_constraint_set_bm(&board),
        create_constraint_set_bl(&board),
        create_constraint_set_bn(&board),
        create_constraint_set_bx(&board),
    ]
    .into_iter()
    .map(|made| made.unwrap().constraints().len())
    .collect();
    assert_eq!(counts, vec![2, 18, 18, 18, 18, 12, 12, 12, 12]);
    let qx = create_constraint_set_qx(&board).unwrap();
    assert_eq!(qx.constraints()[1].cells, vec![7, 2, 13, 14, 11, 10, 17, 22]);
    assert_eq!(qx.constraints()[17].kind, ConstraintKind::Minimum);
    let bn = create_constraint_set_bn(&board).unwrap();
    assert_eq!(bn.constraints()[0].kind, ConstraintKind::DifferenceOfColors(0));
    assert_eq!(bn.constraints()[1].value, 10);
    assert_eq!(bn.constraints()[2].value, 2);
}

#[test]
fn program_of_a_probe() {
    let mut board = Board { rows: vec![MinesweeperCell::Number(0); 25], size: 5 };
    for cell in [0usize, 1, 2, 3] {
        board.rows[cell] = MinesweeperCell::Empty;
    }
    board.rows[4] = MinesweeperCell::Mine;
    board.rows[6] = MinesweeperCell::Number(2);
    board.rows[8] = MinesweeperCell::Number(3);
    let liar = create_constraint_set_l(&board).unwrap();
    assert_eq!(liar.cells(), &vec![0, 1, 2, 3]);
    let program = probe_program(&liar, 2);
    let objectives: Vec<i128> = program.columns.iter().map(|c| c.objective).collect();
    assert_eq!(objectives, vec![0, 0, 1, 0, 0, 0]);
    assert!(program.columns.iter().all(|c| (c.lower, c.upper) == (0, 1)));
    let rows: Vec<(i128, Option<i128>, Vec<(usize, i128)>)> =
        program.rows.iter().map(|r| (r.lower, r.upper, r.terms.clone())).collect();
    assert_eq!(rows[0], (9, Some(9), vec![(0, 1), (1, 1), (2, 1), (3, 1)]));
    assert_eq!(rows[1], (1, Some(1), vec![(1, 1), (0, 1)]));
    assert_eq!(rows[2], (3, Some(3), vec![(2, 1), (1, 1), (0, 1), (4, 2)]));
    assert_eq!(rows[3], (1, Some(1), vec![(3, 1), (2, 1), (1, 1)]));
    assert_eq!(rows[4], (3, Some(3), vec![(3, 1), (2, 1), (5, 2)]));
    assert_eq!(rows[5], (0, Some(0), vec![(3, 1)]));
    assert_eq!(rows.len(), 6);
    let negation = create_constraint_set_n(&board).unwrap();
    let program = probe_program(&negation, 0);
    assert_eq!(program.columns.len(), 4 + negation.constraints().len() - 1);
    assert_eq!(program.columns[0].objective, 1);
    let row = &program.rows[2];
    assert_eq!((row.lower, row.upper), (2, Some(2)));
    assert_eq!(row.terms, vec![(2, 1), (0, 1), (1, -1), (5, 4)]);
    let row = &program.rows[3];
    assert_eq!((row.lower, row.upper), (0, Some(0)));
    assert_eq!(row.terms, vec![(2, 1), (3, -1), (1, -1), (6, 0)]);
    let row = &program.rows[4];
    assert_eq!((row.lower, row.upper), (2, Some(2)));
    assert_eq!(row.terms, vec![(2, 1), (3, -1), (7, 6)]);
}

#[test]
fn meaning_of_the_optima() {
    assert_eq!(classify(0, 0), ProbeResult::Safe);
    assert_eq!(classify(1, 1), ProbeResult::Mine);
    assert_eq!(classify(1, 0), ProbeResult::Unknown);
    assert_eq!(classify(0, 1), ProbeResult::Safe);
}

#[test]
fn a_session_asks_for_the_minimum_only_after_a_maximum_of_one() {
    let board = board_of(5, &MINES, &[6], &[]);
    let mut session = ProbeSession::new(create_constraint_set_v(&board).unwrap());
    let (program, sense) = session.request().unwrap();
    assert_eq!(sense, Sense::Maximise);
    assert_eq!(program.columns[0].objective, 1);
    session.answer(Optimum::Optimal(1)).unwrap();
    let (program, sense) = session.request().unwrap();
    assert_eq!(sense, Sense::Minimise);
    assert_eq!(program.columns[0].objective, 1);
    session.answer(Optimum::Optimal(1)).unwrap();
    assert_eq!(session.known().mines, set(&[0]));
    let (program, sense) = session.request().unwrap();
    assert_eq!(sense, Sense::Maximise);
    assert_eq!((program.columns[0].objective, program.columns[1].objective), (0, 1));
    session.answer(Optimum::Optimal(0)).unwrap();
    assert_eq!(session.known().safe, set(&[1]));
    assert_eq!(session.request().unwrap().1, Sense::Maximise);
    session.answer(Optimum::Optimal(1)).unwrap();
    session.answer(Optimum::Optimal(0)).unwrap();
    assert_eq!(session.request().unwrap().1, Sense::Maximise);
    assert_eq!(session.known().mines, set(&[0]));
    assert_eq!(session.known().safe, set(&[1]));
    assert!(!session.is_finished());
    assert!(session.finish().is_none());
}

#[test]
fn an_answer_without_an_optimum_is_a_fault() {
    let board = board_of(5, &MINES, &[6], &[]);
    let mut session = ProbeSession::new(create_constraint_set_v(&board).unwrap());
    assert_eq!(session.answer(Optimum::NotOptimal), Err(ProbeError::NotOptimal));
    assert_eq!(session.request().unwrap().1, Sense::Maximise);
    let full = Board { rows: vec![MinesweeperCell::Number(0); 25], size: 5 };
    let mut done = ProbeSession::new(create_constraint_set_normal_mines(&full).unwrap());
    assert!(done.is_finished());
    assert!(done.request().is_none());
    assert_eq!(done.answer(Optimum::Optimal(1)), Err(ProbeError::NothingAsked));
    let known = done.finish().unwrap();
    assert!(known.mines.is_empty() && known.safe.is_empty());
    let mut odd = Board { rows: vec![MinesweeperCell::Number(0); 25], size: 5 };
    odd.rows[0] = MinesweeperCell::Empty;
    odd.rows[1] = MinesweeperCell::Number(1);
    assert_eq!(run(create_constraint_set_v(&odd).unwrap()).err(), Some(ProbeError::NotOptimal));
}

#[test]
fn a_puzzle_with_one_solution_is_solved_wholly() {
    let revealed: Vec<usize> = (0..25).filter(|c| !MINES.contains(c)).collect();
    let board = board_of(5, &MINES, &revealed, &[]);
    let known = run(create_constraint_set_v(&board).unwrap()).unwrap();
    assert_eq!(known.mines, set(&MINES));
    assert!(known.safe.is_empty());
    let hidden: Vec<usize> = revealed.iter().copied().filter(|c| ![3usize, 4, 9].contains(c)).collect();
    let board = board_of(5, &MINES, &hidden, &[0, 24]);
    let exact = run(create_constraint_set_v(&board).unwrap()).unwrap();
    assert_eq!(exact.mines, set(&[1, 2, 5, 7, 10, 11, 12, 20]));
    assert_eq!(exact.safe, set(&[3, 4, 9]));
    let rules = vanilla_solver().try_known_squares(&board).unwrap();
    assert!(rules.mines.is_subset(&exact.mines));
    assert!(rules.safe.is_subset(&exact.safe));
}

#[test]
fn the_exact_solver_says_nothing_false() {
    let layouts: [&[usize]; 2] = [&MINES, &[3, 4, 8, 9, 13, 14, 15, 16, 21, 22]];
    for mines in layouts {
        let safe: Vec<usize> = (0..25).filter(|c| !mines.contains(c)).collect();
        for skip in 0..3 {
            let revealed: Vec<usize> =
                safe.iter().copied().enumerate().filter(|(k, _)| k % 3 != skip).map(|(_, c)| c).collect();
            let board = board_of(5, mines, &revealed, &[mines[skip]]);
            let exact = run(create_constraint_set_v(&board).unwrap()).unwrap();
            assert!(exact.mines.iter().all(|c| mines.contains(c)));
            assert!(exact.safe.iter().all(|c| !mines.contains(c)));
            let again = run(create_constraint_set_v(&board).unwrap()).unwrap();
            assert_eq!((&exact.mines, &exact.safe), (&again.mines, &again.safe));
            let rules = vanilla_solver().try_known_squares(&board).unwrap();
            assert!(rules.mines.is_subset(&exact.mines));
            assert!(rules.safe.is_subset(&exact.safe));
        }
    }
}

#[test]
fn without_clues_nothing_is_known() {
    let blank = Board { rows: vec![MinesweeperCell::Empty; 25], size: 5 };
    let known = run(create_constraint_set_v(&blank).unwrap()).unwrap();
    assert!(known.mines.is_empty() && known.safe.is_empty());
    let mut flagged = Board { rows: vec![MinesweeperCell::Empty; 25], size: 5 };
    for cell in 0..10 {
        flagged.rows[cell] = MinesweeperCell::Mine;
    }
    let known = run(create_constraint_set_minecount(&flagged).unwrap()).unwrap();
    assert!(known.mines.is_empty());
    assert_eq!(known.safe, (10..25).collect::<HashSet<usize>>());
    let mut marked = Board { rows: vec![MinesweeperCell::Question; 25], size: 5 };
    for cell in 0..10 {
        marked.rows[cell * 2] = MinesweeperCell::Empty;
    }
    let known = run(create_constraint_set_minecount(&marked).unwrap()).unwrap();
    assert_eq!(known.mines, (0..10).map(|c| c * 2).collect::<HashSet<usize>>());
    assert!(known.safe.is_empty());
}

/// Two mines in every row and column, and a mine in every block of four.
const QUOTA_MINES: [usize; 10] = [1, 3, 5, 7, 11, 14, 15, 18, 22, 24];

fn is_black(size: usize, cell: usize) -> bool {
    if size % 2 == 1 {
        cell % 2 == 0
    } else {
        (cell / size + cell % size) % 2 == 0
    }
}

/// A board on which each cell of `revealed` shows what `clue` makes of the mines
/// on black and on white cells round it.
fn board_with(
    size: usize,
    mines: &[usize],
    revealed: &[usize],
    flagged: &[usize],
    clue: fn(usize, usize, usize) -> usize,
) -> Board {
    let mut board = board_of(size, mines, revealed, flagged);
    for &cell in revealed {
        let near: Vec<usize> = around(size, cell).into_iter().filter(|n| mines.contains(n)).collect();
        let black = near.iter().filter(|n| is_black(size, **n)).count();
        board.rows[cell] = MinesweeperCell::Number(clue(cell, black, near.len() - black));
    }
    board
}

fn assert_true_of(known: &KnownSquares, mines: &[usize], board: &Board) {
    assert!(known.mines.iter().all(|c| mines.contains(c)), "{:?}", known);
    assert!(known.safe.iter().all(|c| !mines.contains(c)), "{:?}", known);
    assert!(known.mines.iter().chain(known.safe.iter()).all(|&c| board.rows[c] == MinesweeperCell::Empty));
}

#[test]
fn every_game_is_probed_without_a_false_word() {
    let quota_mines = QUOTA_MINES;
    let hidden = [2usize, 9, 16, 20];
    let builders: [(fn(&Board) -> Result<ConstraintSet, SolveError>, fn(usize, usize, usize) -> usize); 11] = [
        (create_constraint_set_v, |_, b, w| b + w),
        (create_constraint_set_q, |_, b, w| b + w),
        (create_constraint_set_b, |_, b, w| b + w),
        (create_constraint_set_m, |_, b, w| b + 2 * w),
        (create_constraint_set_qm, |_, b, w| b + 2 * w),
        (create_constraint_set_bm, |_, b, w| b + 2 * w),
        (create_constraint_set_l, |c, b, w| if c % 2 == 0 || b + w == 0 { b + w + 1 } else { b + w - 1 }),
        (create_constraint_set_ql, |c, b, w| if c % 2 == 1 || b + w == 0 { b + w + 1 } else { b + w - 1 }),
        (create_constraint_set_bl, |_, b, w| b + w + 1),
        (create_constraint_set_n, |_, b, w| b.abs_diff(w)),
        (create_constraint_set_bn, |_, b, w| b.abs_diff(w)),
    ];
    for (k, (builder, clue)) in builders.into_iter().enumerate() {
        let revealed: Vec<usize> =
            (0..25).filter(|c| !quota_mines.contains(c) && !hidden.contains(c)).collect();
        let flagged = [quota_mines[k % 10], quota_mines[(k + 3) % 10]];
        let board = board_with(5, &quota_mines, &revealed, &flagged, clue);
        let known = run(builder(&board).unwrap()).unwrap();
        assert_true_of(&known, &quota_mines, &board);
        let again = run(builder(&board).unwrap()).unwrap();
        assert_eq!((&known.mines, &known.safe), (&again.mines, &again.safe));
    }
}

#[test]
fn quotas_settle_what_clues_leave_open() {
    let flagged: Vec<usize> = QUOTA_MINES.iter().copied().filter(|c| ![22usize, 24].contains(c)).collect();
    let board = board_of(5, &QUOTA_MINES, &[], &flagged);
    let plain = run(create_constraint_set_minecount_b(&board).unwrap()).unwrap();
    assert!(plain.mines.is_empty() && plain.safe.is_empty());
    let known = run(create_constraint_set_b(&board).unwrap()).unwrap();
    assert_eq!(known.mines, set(&[22, 24]));
    assert_eq!(known.safe.len(), 15);
}

#[test]
fn cross_games_are_probed() {
    let mines = QUOTA_MINES;
    let mut board = Board { rows: vec![MinesweeperCell::Empty; 25], size: 5 };
    for cell in [6usize, 12, 16] {
        let near = [(-1i64, 0i64), (-2, 0), (1, 0), (2, 0), (0, -1), (0, -2), (0, 1), (0, 2)]
            .iter()
            .map(|(dr, dc)| ((cell / 5) as i64 + dr, (cell % 5) as i64 + dc))
            .filter(|(r, c)| (0..5).contains(r) && (0..5).contains(c))
            .filter(|(r, c)| mines.contains(&((r * 5 + c) as usize)))
            .count();
        board.rows[cell] = MinesweeperCell::Number(near);
    }
    assert_eq!(board.rows[12], MinesweeperCell::Number(4));
    for cell in [1usize, 3, 5] {
        board.rows[cell] = MinesweeperCell::Mine;
    }
    for builder in [create_constraint_set_x, create_constraint_set_qx] {
        let known = run(builder(&board).unwrap()).unwrap();
        assert_true_of(&known, &mines, &board);
    }
    board.rows[12] = MinesweeperCell::Number(0);
    assert_eq!(run(create_constraint_set_x(&board).unwrap()).err(), Some(ProbeError::NotOptimal));
}

#[test]
fn blocks_without_a_cell_left_contradict() {
    let mut quads = Board { rows: vec![MinesweeperCell::Question; 25], size: 5 };
    quads.rows[0] = MinesweeperCell::Empty;
    quads.rows[12] = MinesweeperCell::Empty;
    quads.rows[24] = MinesweeperCell::Empty;
    let made = create_q_added_constraint_set(&quads).unwrap();
    assert_eq!(made.constraints().len(), 16);
    let mut session = ProbeSession::new(made);
    let mut results = Vec::new();
    while let Some((program, sense)) = session.request() {
        let found = optimise(&program, sense);
        results.push((sense, found));
        session.answer(found).unwrap_or(());
        if found == Optimum::NotOptimal {
            break;
        }
    }
    assert_eq!(results, vec![(Sense::Maximise, Optimum::NotOptimal)]);
}
