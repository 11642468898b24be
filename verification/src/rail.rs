use vstd::prelude::*;

use crate::direction::spec_opposite;
use crate::direction::Direction;

verus! {

/// A track segment: each of the six orientations connects exactly two of
/// the four cardinal directions.
#[derive(Clone, Copy, Default, Debug, PartialEq, Eq, Structural)]
pub enum Rail {
    #[default]
    NW,
    SW,
    NE,
    SE,
    WE,
    NS,
}

/// The pair of directions that segment `rail` connects.
pub open spec fn spec_directions(rail: Rail) -> (Direction, Direction) {
    match rail {
        Rail::NW => (Direction::North, Direction::West),
        Rail::SW => (Direction::South, Direction::West),
        Rail::NE => (Direction::North, Direction::East),
        Rail::SE => (Direction::South, Direction::East),
        Rail::WE => (Direction::West, Direction::East),
        Rail::NS => (Direction::North, Direction::South),
    }
}

/// Whether segment `rail` points toward direction `d`, that is, whether `d`
/// is one of the two directions the segment connects.
pub open spec fn spec_points(rail: Rail, d: Direction) -> bool {
    spec_directions(rail).0 == d || spec_directions(rail).1 == d
}

/// Given a direction `d` that `rail` connects, the other direction it connects.
pub open spec fn spec_other(rail: Rail, d: Direction) -> Direction {
    if spec_directions(rail).0 == d {
        spec_directions(rail).1
    } else {
        spec_directions(rail).0
    }
}

/// The display glyph of a cell: one of six segment glyphs, or a middle dot
/// for an empty cell.
pub open spec fn spec_glyph(cell: Option<Rail>) -> char {
    match cell {
        Some(Rail::NW) => '\u{2518}',
        Some(Rail::SW) => '\u{2510}',
        Some(Rail::NE) => '\u{2514}',
        Some(Rail::SE) => '\u{250c}',
        Some(Rail::WE) => '-',
        Some(Rail::NS) => '|',
        None => '\u{b7}',
    }
}

impl Rail {
    /// The successor of this segment in the fixed enumeration order
    /// NW, SW, NE, SE, WE, NS (cyclically).
    pub fn cycle_next(&self) -> (r: Self)
        ensures
            r == (match *self {
                Rail::NW => Rail::SW,
                Rail::SW => Rail::NE,
                Rail::NE => Rail::SE,
                Rail::SE => Rail::WE,
                Rail::WE => Rail::NS,
                Rail::NS => Rail::NW,
            }),
    {
        match self {
            Rail::NW => Rail::SW,
            Rail::SW => Rail::NE,
            Rail::NE => Rail::SE,
            Rail::SE => Rail::WE,
            Rail::WE => Rail::NS,
            Rail::NS => Rail::NW,
        }
    }

    /// Whether this segment is the last one of the enumeration order.
    pub fn cycle_finished(&self) -> (r: bool)
        ensures
            r == (*self == Rail::NS),
    {
        *self == Rail::NS
    }

    /// Whether this segment points north.
    pub fn points_up(&self) -> (r: bool)
        ensures
            r == spec_points(*self, Direction::North),
    {
        matches!(self, Rail::NW | Rail::NE | Rail::NS)
    }

    /// Whether this segment points south.
    pub fn points_down(&self) -> (r: bool)
        ensures
            r == spec_points(*self, Direction::South),
    {
        matches!(self, Rail::SW | Rail::SE | Rail::NS)
    }

    /// Whether this segment points west.
    pub fn points_left(&self) -> (r: bool)
        ensures
            r == spec_points(*self, Direction::West),
    {
        matches!(self, Rail::NW | Rail::SW | Rail::WE)
    }

    /// Whether this segment points east.
    pub fn points_right(&self) -> (r: bool)
        ensures
            r == spec_points(*self, Direction::East),
    {
        matches!(self, Rail::NE | Rail::SE | Rail::WE)
    }

    /// The pair of directions this segment connects.
    pub fn directions(&self) -> (r: (Direction, Direction))
        ensures
            r == spec_directions(*self),
    {
        match self {
            Rail::NW => (Direction::North, Direction::West),
            Rail::SW => (Direction::South, Direction::West),
            Rail::NE => (Direction::North, Direction::East),
            Rail::SE => (Direction::South, Direction::East),
            Rail::WE => (Direction::West, Direction::East),
            Rail::NS => (Direction::North, Direction::South),
        }
    }

    /// Given one of the two directions this segment connects, the other one.
    pub fn points_other(&self, direction: Direction) -> (r: Direction)
        requires
            spec_points(*self, direction),
        ensures
            r == spec_other(*self, direction),
    {
        let directions = self.directions();
        if directions.0 == direction {
            directions.1
        } else {
            directions.0
        }
    }

    /// Whether a path travelling in `direction` can enter this segment:
    /// the segment must point back toward where the path comes from.
    pub fn points_to(&self, direction: Direction) -> (r: bool)
        ensures
            r == spec_points(*self, spec_opposite(direction)),
    {
        match direction {
            Direction::North => self.points_down(),
            Direction::South => self.points_up(),
            Direction::West => self.points_right(),
            Direction::East => self.points_left(),
        }
    }

    /// The display glyph of this segment.
    pub fn glyph(&self) -> (r: char)
        ensures
            r == spec_glyph(Some(*self)),
    {
        match self {
            Rail::NW => '\u{2518}',
            Rail::SW => '\u{2510}',
            Rail::NE => '\u{2514}',
            Rail::SE => '\u{250c}',
            Rail::WE => '-',
            Rail::NS => '|',
        }
    }
}

} // verus!
