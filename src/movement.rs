use vstd::prelude::*;

verus! {

pub const GRID_WIDTH: u8 = 8;
pub const GRID_HEIGHT: u8 = 8;

/// A cell of the grid: `(x, y)`.
pub type Coords = (u8, u8);

#[derive(Clone, Copy, Debug, PartialEq, Eq)]
pub enum Direction {
    Up,
    Down,
    Left,
    Right,
}

/// The cells off the border: `[1, GRID_WIDTH - 2] x [1, GRID_HEIGHT - 2]`.
pub open spec fn interior(c: Coords) -> bool {
    &&& 1 <= c.0 <= GRID_WIDTH - 2
    &&& 1 <= c.1 <= GRID_HEIGHT - 2
}

/// Whether a step in `d` from `c` stays off the border.
pub open spec fn may_step(c: Coords, d: Direction) -> bool {
    match d {
        Direction::Up => c.1 > 1,
        Direction::Down => c.1 < GRID_HEIGHT - 2,
        Direction::Left => c.0 > 1,
        Direction::Right => c.0 < GRID_WIDTH - 2,
    }
}

/// One step in `d`, or no step where it would reach the border.
pub open spec fn stepped(c: Coords, d: Direction) -> Coords {
    if !may_step(c, d) {
        c
    } else {
        match d {
            Direction::Up => (c.0, (c.1 - 1) as u8),
            Direction::Down => (c.0, (c.1 + 1) as u8),
            Direction::Left => ((c.0 - 1) as u8, c.1),
            Direction::Right => ((c.0 + 1) as u8, c.1),
        }
    }
}

/// The direction numbered `i` in the order up, down, left, right.
pub open spec fn direction_of(i: usize) -> Direction {
    if i == 0 {
        Direction::Up
    } else if i == 1 {
        Direction::Down
    } else if i == 2 {
        Direction::Left
    } else {
        Direction::Right
    }
}

pub fn coords_after_move(coords: Coords, dir: Direction) -> (r: Coords)
    ensures
        r == stepped(coords, dir),
{
    let (mut x, mut y) = (coords.0, coords.1);
    match dir {
        Direction::Up => {
            if y > 1 {
                y = y - 1;
            }
        },
        Direction::Down => {
            if y < GRID_HEIGHT - 2 {
                y = y + 1;
            }
        },
        Direction::Left => {
            if x > 1 {
                x = x - 1;
            }
        },
        Direction::Right => {
            if x < GRID_WIDTH - 2 {
                x = x + 1;
            }
        },
    }
    (x, y)
}

pub fn can_move_in_dir(coords: Coords, dir: Direction) -> (r: bool)
    ensures
        r == may_step(coords, dir),
{
    match dir {
        Direction::Up => coords.1 > 1,
        Direction::Down => coords.1 < GRID_HEIGHT - 2,
        Direction::Left => coords.0 > 1,
        Direction::Right => coords.0 < GRID_WIDTH - 2,
    }
}

pub fn direction_from_index(i: usize) -> (r: Direction)
    ensures
        r == direction_of(i),
{
    if i == 0 {
        Direction::Up
    } else if i == 1 {
        Direction::Down
    } else if i == 2 {
        Direction::Left
    } else {
        Direction::Right
    }
}

/// A step never leaves the interior of the grid.
pub proof fn lemma_step_stays_interior(c: Coords, d: Direction)
    requires
        interior(c),
    ensures
        interior(stepped(c, d)),
{
}

} // verus!
