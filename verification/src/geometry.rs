//! Where the cells of a board lie: by column and row on the board, and by pixel on
//! a screen on which the board is drawn.

use vstd::prelude::*;

verus! {

/// How a board is drawn on the screen: the place of the first cell of a board of
/// side 8 and of side 7, and the distance from one cell to the next. A board of
/// side 6 begins one cell further right and down than one of side 8, a board of
/// side 5 one cell further than one of side 7.
#[derive(Copy, Clone, Debug)]
pub struct ScreenLayout {
    pub eight_top_left: (i32, i32),
    pub seven_top_left: (i32, i32),
    pub square_size: (i32, i32),
}

/// Why a cell has no place on the screen.
#[derive(Copy, Clone, Debug, PartialEq, Eq, Structural)]
pub enum PlaceError {
    /// The column is not on the board.
    InvalidX,
    /// The row is not on the board.
    InvalidY,
    /// The side of the board is not one of 5, 6, 7, 8.
    BadBoardSize,
    /// The place does not fit the numbers that the screen is measured in.
    OffScreen,
}

/// The column and the row of a cell.
pub fn cell_position(index: usize, board_size: usize) -> (at: (usize, usize))
    requires
        board_size > 0,
    ensures
        at.0 == index % board_size,
        at.1 == index / board_size,
{
    (index % board_size, index / board_size)
}

/// Where along one axis the first cell of a board lies.
pub open spec fn first_cell(eight: int, seven: int, step: int, board_size: int) -> Option<int> {
    if board_size == 8 {
        Some(eight)
    } else if board_size == 7 {
        Some(seven)
    } else if board_size == 6 {
        Some(eight + step)
    } else if board_size == 5 {
        Some(seven + step)
    } else {
        None
    }
}

/// The place of a cell on the screen, or why it has none. The faults are looked
/// for in the order: column, row, side of the board, size of the numbers.
pub open spec fn place_of(layout: ScreenLayout, board_size: int, x: int, y: int) -> Result<
    (int, int),
    PlaceError,
> {
    if x >= board_size {
        Err(PlaceError::InvalidX)
    } else if y >= board_size {
        Err(PlaceError::InvalidY)
    } else {
        match (
            first_cell(
                layout.eight_top_left.0 as int,
                layout.seven_top_left.0 as int,
                layout.square_size.0 as int,
                board_size,
            ),
            first_cell(
                layout.eight_top_left.1 as int,
                layout.seven_top_left.1 as int,
                layout.square_size.1 as int,
                board_size,
            ),
        ) {
            (Some(left), Some(top)) => {
                let px = left + x * layout.square_size.0;
                let py = top + y * layout.square_size.1;
                if i32::MIN <= px <= i32::MAX && i32::MIN <= py <= i32::MAX {
                    Ok((px, py))
                } else {
                    Err(PlaceError::OffScreen)
                }
            },
            _ => Err(PlaceError::BadBoardSize),
        }
    }
}

/// Where along one axis a cell lies, if the number fits.
fn along(eight: i32, seven: i32, step: i32, board_size: usize, at: usize) -> (place: Option<i32>)
    requires
        5 <= board_size <= 8,
        at < board_size,
    ensures
        match first_cell(eight as int, seven as int, step as int, board_size as int) {
            Some(first) => (place matches Some(p) ==> p == first + at * step) && (place is None
                ==> !(i32::MIN <= first + at * step <= i32::MAX)),
            None => false,
        },
{
    let first: i64 = match board_size {
        8 => eight as i64,
        7 => seven as i64,
        6 => eight as i64 + step as i64,
        _ => seven as i64 + step as i64,
    };
    assert(-0x8000_0000 * 8 <= at * step <= 0x7fff_ffff * 8) by (nonlinear_arith)
        requires
            0 <= at < 8,
            -0x8000_0000 <= step <= 0x7fff_ffff,
    ;
    let place = first + at as i64 * step as i64;
    if place < i32::MIN as i64 || place > i32::MAX as i64 {
        None
    } else {
        Some(place as i32)
    }
}

/// The place on the screen of the cell in column `square_x` and row `square_y`.
pub fn square_origin(layout: &ScreenLayout, board_size: usize, square_x: usize, square_y: usize) -> (place:
    Result<(i32, i32), PlaceError>)
    ensures
        match place_of(*layout, board_size as int, square_x as int, square_y as int) {
            Ok(at) => place matches Ok(p) && p.0 == at.0 && p.1 == at.1,
            Err(e) => place == Err::<(i32, i32), PlaceError>(e),
        },
{
    if square_x >= board_size {
        return Err(PlaceError::InvalidX);
    }
    if square_y >= board_size {
        return Err(PlaceError::InvalidY);
    }
    if board_size < 5 || board_size > 8 {
        return Err(PlaceError::BadBoardSize);
    }
    let x = along(
        layout.eight_top_left.0,
        layout.seven_top_left.0,
        layout.square_size.0,
        board_size,
        square_x,
    );
    let y = along(
        layout.eight_top_left.1,
        layout.seven_top_left.1,
        layout.square_size.1,
        board_size,
        square_y,
    );
    match (x, y) {
        (Some(px), Some(py)) => Ok((px, py)),
        _ => Err(PlaceError::OffScreen),
    }
}

} // verus!
