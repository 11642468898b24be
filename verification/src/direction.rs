use vstd::prelude::*;

verus! {

/// One of the four cardinal directions a track segment can connect to.
#[derive(Clone, Copy, Debug, PartialEq, Eq, Structural)]
pub enum Direction {
    North,
    South,
    West,
    East,
}

/// The direction opposite to `d`.
pub open spec fn spec_opposite(d: Direction) -> Direction {
    match d {
        Direction::North => Direction::South,
        Direction::South => Direction::North,
        Direction::West => Direction::East,
        Direction::East => Direction::West,
    }
}

/// The unit offset of a step travelling in direction `d`, as (dx, dy):
/// north decreases y, south increases y, west decreases x, east increases x.
pub open spec fn spec_offset(d: Direction) -> (int, int) {
    match d {
        Direction::North => (0, -1),
        Direction::South => (0, 1),
        Direction::West => (-1, 0),
        Direction::East => (1, 0),
    }
}

impl Direction {
    /// The unit vector of a step in this direction.
    pub fn offset(self) -> (r: (isize, isize))
        ensures
            (r.0 as int, r.1 as int) == spec_offset(self),
    {
        match self {
            Direction::North => (0, -1),
            Direction::South => (0, 1),
            Direction::West => (-1, 0),
            Direction::East => (1, 0),
        }
    }

    /// The opposite direction.
    pub fn opposite(self) -> (r: Direction)
        ensures
            r == spec_opposite(self),
    {
        match self {
            Direction::North => Direction::South,
            Direction::South => Direction::North,
            Direction::West => Direction::East,
            Direction::East => Direction::West,
        }
    }
}

} // verus!
