//! Constraint sets of games that add a mine in every 2x2 block, or quotas of mines
//! for rows and columns, to the clues of another game.

use crate::board::Board;
use crate::grid::NextToPolicy;
use crate::linear_programming_solvers::{
    balanced_set, combine_made, constraint_set, create_constraint_set_cross_mines,
    create_constraint_set_l, create_constraint_set_liar_mines, create_constraint_set_m,
    create_constraint_set_multiple_mines, create_constraint_set_n,
    create_constraint_set_negation_mines, create_constraint_set_x, create_q_added_constraint_set,
    one, parts_balanced, parts_of, set_is, ClueFamily, ConstraintSet, MineTable, Part,
};
use crate::rules::SolveError;
use vstd::prelude::*;

verus! {

/// The constraint set of a game with a mine in every 2x2 block.
fn with_quads(made: Result<ConstraintSet, SolveError>, board: &Board, Ghost(family): Ghost<
    ClueFamily,
>) -> (set: Result<ConstraintSet, SolveError>)
    requires
        board@.complete(),
        set_is(made, constraint_set(parts_of(family), board@)),
    ensures
        set_is(set, constraint_set(parts_of(family) + one(Part::Quads), board@)),
{
    combine_made(
        made,
        create_q_added_constraint_set(board),
        Ghost(board@),
        Ghost(parts_of(family)),
        Ghost(one(Part::Quads)),
    )
}

/// The constraint set of a game with row and column quotas.
fn with_quotas(made: Result<ConstraintSet, SolveError>, board: &Board, Ghost(family): Ghost<
    ClueFamily,
>) -> (set: Result<ConstraintSet, SolveError>)
    requires
        board@.complete(),
        set_is(made, constraint_set(one(Part::Clues(family)), board@)),
    ensures
        set_is(set, constraint_set(parts_balanced(family), board@)),
{
    proof {
        assert(parts_balanced(family) =~= one(Part::Clues(family)) + (one(
            Part::Minecount(MineTable::Balanced),
        ) + one(Part::Lines)));
    }
    let ghost rest = one(Part::Minecount(MineTable::Balanced)) + one(Part::Lines);
    combine_made(
        made,
        balanced_set(board),
        Ghost(board@),
        Ghost(one(Part::Clues(family))),
        Ghost(rest),
    )
}

/// Clues that count white cells twice, and a mine in every 2x2 block.
pub fn create_constraint_set_qm(board: &Board) -> (set: Result<ConstraintSet, SolveError>)
    requires
        board@.complete(),
    ensures
        set_is(set, constraint_set(parts_of(ClueFamily::Multiple) + one(Part::Quads), board@)),
{
    with_quads(create_constraint_set_m(board), board, Ghost(ClueFamily::Multiple))
}

/// Clues that are off by one, and a mine in every 2x2 block.
pub fn create_constraint_set_ql(board: &Board) -> (set: Result<ConstraintSet, SolveError>)
    requires
        board@.complete(),
    ensures
        set_is(set, constraint_set(parts_of(ClueFamily::Liar) + one(Part::Quads), board@)),
{
    with_quads(create_constraint_set_l(board), board, Ghost(ClueFamily::Liar))
}

/// Clues that are differences of colours, and a mine in every 2x2 block.
pub fn create_constraint_set_qn(board: &Board) -> (set: Result<ConstraintSet, SolveError>)
    requires
        board@.complete(),
    ensures
        set_is(set, constraint_set(parts_of(ClueFamily::Negation) + one(Part::Quads), board@)),
{
    with_quads(create_constraint_set_n(board), board, Ghost(ClueFamily::Negation))
}

/// Clues that count along a cross, and a mine in every 2x2 block.
pub fn create_constraint_set_qx(board: &Board) -> (set: Result<ConstraintSet, SolveError>)
    requires
        board@.complete(),
    ensures
        set_is(
            set,
            constraint_set(
                parts_of(ClueFamily::Plain(NextToPolicy::XScape)) + one(Part::Quads),
                board@,
            ),
        ),
{
    with_quads(
        create_constraint_set_x(board),
        board,
        Ghost(ClueFamily::Plain(NextToPolicy::XScape)),
    )
}

/// Clues that count white cells twice, with row and column quotas.
pub fn create_constraint_set_bm(board: &Board) -> (set: Result<ConstraintSet, SolveError>)
    requires
        board@.complete(),
    ensures
        set_is(set, constraint_set(parts_balanced(ClueFamily::Multiple), board@)),
{
    with_quotas(create_constraint_set_multiple_mines(board), board, Ghost(ClueFamily::Multiple))
}

/// Clues that are off by one, with row and column quotas.
pub fn create_constraint_set_bl(board: &Board) -> (set: Result<ConstraintSet, SolveError>)
    requires
        board@.complete(),
    ensures
        set_is(set, constraint_set(parts_balanced(ClueFamily::Liar), board@)),
{
    with_quotas(create_constraint_set_liar_mines(board), board, Ghost(ClueFamily::Liar))
}

/// Clues that are differences of colours, with row and column quotas.
pub fn create_constraint_set_bn(board: &Board) -> (set: Result<ConstraintSet, SolveError>)
    requires
        board@.complete(),
    ensures
        set_is(set, constraint_set(parts_balanced(ClueFamily::Negation), board@)),
{
    with_quotas(create_constraint_set_negation_mines(board), board, Ghost(ClueFamily::Negation))
}

/// Clues that count along a cross, with row and column quotas.
pub fn create_constraint_set_bx(board: &Board) -> (set: Result<ConstraintSet, SolveError>)
    requires
        board@.complete(),
    ensures
        set_is(set, constraint_set(parts_balanced(ClueFamily::Plain(NextToPolicy::XScape)), board@)),
{
    with_quotas(
        create_constraint_set_cross_mines(board),
        board,
        Ghost(ClueFamily::Plain(NextToPolicy::XScape)),
    )
}

} // verus!
