use vstd::prelude::*;

verus! {

/// One of the four sides of a cell.
#[derive(Debug, Clone, Copy, PartialEq, Eq, Structural)]
pub enum Direction {
    Up,
    Right,
    Down,
    Left,
}

/// Index of a direction: Up 0, Right 1, Down 2, Left 3.
pub open spec fn direction_index(d: Direction) -> int {
    match d {
        Direction::Up => 0,
        Direction::Right => 1,
        Direction::Down => 2,
        Direction::Left => 3,
    }
}

/// The direction with index `i` (taken modulo the four directions).
pub open spec fn direction_of_index(i: int) -> Direction {
    if i == 0 {
        Direction::Up
    } else if i == 1 {
        Direction::Right
    } else if i == 2 {
        Direction::Down
    } else {
        Direction::Left
    }
}

/// Horizontal step of a direction: x grows to the right.
pub open spec fn direction_dx(d: Direction) -> int {
    match d {
        Direction::Right => 1,
        Direction::Left => -1,
        _ => 0,
    }
}

/// Vertical step of a direction: y grows downwards.
pub open spec fn direction_dy(d: Direction) -> int {
    match d {
        Direction::Down => 1,
        Direction::Up => -1,
        _ => 0,
    }
}

/// The direction that points back.
pub open spec fn opposite_spec(d: Direction) -> Direction {
    match d {
        Direction::Up => Direction::Down,
        Direction::Right => Direction::Left,
        Direction::Down => Direction::Up,
        Direction::Left => Direction::Right,
    }
}

impl Direction {
    /// The index of the direction in `all_directions()`.
    pub fn to_index(self) -> (r: usize)
        ensures
            r == direction_index(self),
            r < 4,
    {
        match self {
            Direction::Up => 0,
            Direction::Right => 1,
            Direction::Down => 2,
            Direction::Left => 3,
        }
    }

    /// The direction with the given index.
    pub fn from_index(index: usize) -> (r: Direction)
        requires
            index < 4,
        ensures
            r == direction_of_index(index as int),
            direction_index(r) == index,
    {
        if index == 0 {
            Direction::Up
        } else if index == 1 {
            Direction::Right
        } else if index == 2 {
            Direction::Down
        } else {
            Direction::Left
        }
    }

    /// The direction that points back.
    pub fn opposite(self) -> (r: Direction)
        ensures
            r == opposite_spec(self),
    {
        match self {
            Direction::Up => Direction::Down,
            Direction::Right => Direction::Left,
            Direction::Down => Direction::Up,
            Direction::Left => Direction::Right,
        }
    }
}

/// The four directions, in index order.
pub fn all_directions() -> (r: [Direction; 4])
    ensures
        forall|i: int| 0 <= i < 4 ==> r[i] == direction_of_index(i) && direction_index(r[i]) == i,
{
    [Direction::Up, Direction::Right, Direction::Down, Direction::Left]
}

/// Going one way and then back is a step of zero, and the index round-trips.
pub proof fn lemma_direction_facts(d: Direction)
    ensures
        direction_dx(opposite_spec(d)) == -direction_dx(d),
        direction_dy(opposite_spec(d)) == -direction_dy(d),
        opposite_spec(opposite_spec(d)) == d,
        direction_of_index(direction_index(d)) == d,
        0 <= direction_index(d) < 4,
{
}

} // verus!
