use solver::{Direction, Rail};

#[test]
fn directions_of_each_rail() {
    assert_eq!(Rail::NW.directions(), (Direction::North, Direction::West));
    assert_eq!(Rail::SW.directions(), (Direction::South, Direction::West));
    assert_eq!(Rail::NE.directions(), (Direction::North, Direction::East));
    assert_eq!(Rail::SE.directions(), (Direction::South, Direction::East));
    assert_eq!(Rail::WE.directions(), (Direction::West, Direction::East));
    assert_eq!(Rail::NS.directions(), (Direction::North, Direction::South));
}

#[test]
fn pointing_predicates() {
    assert!(Rail::NW.points_up());
    assert!(Rail::NE.points_up());
    assert!(Rail::NS.points_up());
    assert!(!Rail::SW.points_up());
    assert!(Rail::SW.points_down());
    assert!(Rail::SE.points_down());
    assert!(Rail::NS.points_down());
    assert!(!Rail::WE.points_down());
    assert!(Rail::NW.points_left());
    assert!(Rail::SW.points_left());
    assert!(Rail::WE.points_left());
    assert!(!Rail::NE.points_left());
    assert!(Rail::NE.points_right());
    assert!(Rail::SE.points_right());
    assert!(Rail::WE.points_right());
    assert!(!Rail::NW.points_right());
}

#[test]
fn points_other_swaps_the_pair() {
    assert_eq!(Rail::NW.points_other(Direction::North), Direction::West);
    assert_eq!(Rail::NW.points_other(Direction::West), Direction::North);
    assert_eq!(Rail::WE.points_other(Direction::West), Direction::East);
    assert_eq!(Rail::WE.points_other(Direction::East), Direction::West);
    assert_eq!(Rail::NS.points_other(Direction::South), Direction::North);
}

#[test]
fn points_to_receives_from_opposite() {
    // A path travelling north enters a cell from the south, so the segment
    // there must point south.
    assert!(Rail::SW.points_to(Direction::North));
    assert!(Rail::SE.points_to(Direction::North));
    assert!(Rail::NS.points_to(Direction::North));
    assert!(!Rail::NW.points_to(Direction::North));
    assert!(Rail::NW.points_to(Direction::South));
    assert!(Rail::NE.points_to(Direction::West));
    assert!(!Rail::NE.points_to(Direction::East));
    assert!(Rail::WE.points_to(Direction::West));
}

#[test]
fn cycle_order() {
    assert_eq!(Rail::NW.cycle_next(), Rail::SW);
    assert_eq!(Rail::SW.cycle_next(), Rail::NE);
    assert_eq!(Rail::NE.cycle_next(), Rail::SE);
    assert_eq!(Rail::SE.cycle_next(), Rail::WE);
    assert_eq!(Rail::WE.cycle_next(), Rail::NS);
    assert_eq!(Rail::NS.cycle_next(), Rail::NW);
    assert!(Rail::NS.cycle_finished());
    assert!(!Rail::NW.cycle_finished());
}

#[test]
fn default_rail_is_first_in_cycle() {
    assert_eq!(Rail::default(), Rail::NW);
}

#[test]
fn rail_glyphs() {
    assert_eq!(Rail::NW.glyph(), '\u{2518}');
    assert_eq!(Rail::SW.glyph(), '\u{2510}');
    assert_eq!(Rail::NE.glyph(), '\u{2514}');
    assert_eq!(Rail::SE.glyph(), '\u{250c}');
    assert_eq!(Rail::WE.glyph(), '-');
    assert_eq!(Rail::NS.glyph(), '|');
}

#[test]
fn direction_offsets() {
    assert_eq!(Direction::North.offset(), (0, -1));
    assert_eq!(Direction::South.offset(), (0, 1));
    assert_eq!(Direction::West.offset(), (-1, 0));
    assert_eq!(Direction::East.offset(), (1, 0));
}

#[test]
fn direction_opposites() {
    assert_eq!(Direction::North.opposite(), Direction::South);
    assert_eq!(Direction::South.opposite(), Direction::North);
    assert_eq!(Direction::West.opposite(), Direction::East);
    assert_eq!(Direction::East.opposite(), Direction::West);
}
