//! Tile flags and the closed catalog of obstacle kinds.

use vstd::prelude::*;

verus! {

/// Set on every tile that cannot be entered.
pub const COLLIDES_FLAG: u8 = 0x80;

/// Set on a tile that holds a blizzard drifting towards row 0.
pub const NORTH_FLAG: u8 = 0x01;

/// Set on a tile that holds a blizzard drifting towards the last column.
pub const EAST_FLAG: u8 = 0x02;

/// Set on a tile that holds a blizzard drifting towards the last row.
pub const SOUTH_FLAG: u8 = 0x04;

/// Set on a tile that holds a blizzard drifting towards column 0.
pub const WEST_FLAG: u8 = 0x08;

/// The six kinds of tile that a map may spell out.
#[derive(Clone, Copy, Debug, PartialEq, Eq, Structural)]
pub enum ObstacleType {
    Empty,
    Wall,
    North,
    East,
    South,
    West,
}

impl ObstacleType {
    /// The character that spells this kind in a map.
    pub open spec fn symbol(self) -> char {
        match self {
            ObstacleType::Empty => '.',
            ObstacleType::Wall => '#',
            ObstacleType::North => '^',
            ObstacleType::East => '>',
            ObstacleType::South => 'v',
            ObstacleType::West => '<',
        }
    }

    /// The flags of a tile that holds exactly this kind.
    pub open spec fn flags(self) -> u8 {
        match self {
            ObstacleType::Empty => 0u8,
            ObstacleType::Wall => COLLIDES_FLAG,
            ObstacleType::North => COLLIDES_FLAG | NORTH_FLAG,
            ObstacleType::East => COLLIDES_FLAG | EAST_FLAG,
            ObstacleType::South => COLLIDES_FLAG | SOUTH_FLAG,
            ObstacleType::West => COLLIDES_FLAG | WEST_FLAG,
        }
    }

    /// The direction bit of a blizzard kind, and no bit for the two still kinds.
    pub open spec fn heading(self) -> u8 {
        match self {
            ObstacleType::Empty => 0u8,
            ObstacleType::Wall => 0u8,
            ObstacleType::North => NORTH_FLAG,
            ObstacleType::East => EAST_FLAG,
            ObstacleType::South => SOUTH_FLAG,
            ObstacleType::West => WEST_FLAG,
        }
    }

    /// Whether this kind is one of the four blizzards.
    pub open spec fn is_mover(self) -> bool {
        self.heading() != 0
    }

    /// The kind that a character spells, if it spells one.
    pub open spec fn of_symbol(c: char) -> Option<ObstacleType> {
        if c == '.' {
            Some(ObstacleType::Empty)
        } else if c == '#' {
            Some(ObstacleType::Wall)
        } else if c == '^' {
            Some(ObstacleType::North)
        } else if c == '>' {
            Some(ObstacleType::East)
        } else if c == 'v' {
            Some(ObstacleType::South)
        } else if c == '<' {
            Some(ObstacleType::West)
        } else {
            None
        }
    }

    pub fn tile_char(self) -> (c: char)
        ensures
            c == self.symbol(),
    {
        match self {
            ObstacleType::Empty => '.',
            ObstacleType::Wall => '#',
            ObstacleType::North => '^',
            ObstacleType::East => '>',
            ObstacleType::South => 'v',
            ObstacleType::West => '<',
        }
    }

    pub fn tile_flags(self) -> (f: u8)
        ensures
            f == self.flags(),
    {
        match self {
            ObstacleType::Empty => 0u8,
            ObstacleType::Wall => COLLIDES_FLAG,
            ObstacleType::North => COLLIDES_FLAG | NORTH_FLAG,
            ObstacleType::East => COLLIDES_FLAG | EAST_FLAG,
            ObstacleType::South => COLLIDES_FLAG | SOUTH_FLAG,
            ObstacleType::West => COLLIDES_FLAG | WEST_FLAG,
        }
    }

    /// Looks a character up in the catalog.
    pub fn from_char(c: char) -> (kind: Option<ObstacleType>)
        ensures
            kind == Self::of_symbol(c),
    {
        if c == '.' {
            Some(ObstacleType::Empty)
        } else if c == '#' {
            Some(ObstacleType::Wall)
        } else if c == '^' {
            Some(ObstacleType::North)
        } else if c == '>' {
            Some(ObstacleType::East)
        } else if c == 'v' {
            Some(ObstacleType::South)
        } else if c == '<' {
            Some(ObstacleType::West)
        } else {
            None
        }
    }
}

/// The flags that a map character leaves on its tile: those of the kind it
/// spells, and none where it spells no kind.
pub open spec fn flags_of_symbol(c: char) -> u8 {
    match ObstacleType::of_symbol(c) {
        Some(kind) => kind.flags(),
        None => 0u8,
    }
}

/// How many of the four direction bits a tile carries.
pub open spec fn mover_count(tile: u8) -> nat {
    let north: nat = if tile & NORTH_FLAG != 0 { 1 } else { 0 };
    let east: nat = if tile & EAST_FLAG != 0 { 1 } else { 0 };
    let south: nat = if tile & SOUTH_FLAG != 0 { 1 } else { 0 };
    let west: nat = if tile & WEST_FLAG != 0 { 1 } else { 0 };
    north + east + south + west
}

/// The character that shows a tile: `.` for a tile that does not collide, `#`
/// for a bare wall, the blizzard's own symbol where there is one, and the
/// count where several overlap.
pub open spec fn glyph(tile: u8) -> char {
    if tile & COLLIDES_FLAG != COLLIDES_FLAG {
        '.'
    } else if mover_count(tile) == 0 {
        '#'
    } else if mover_count(tile) == 1 {
        if tile & NORTH_FLAG != 0 {
            '^'
        } else if tile & EAST_FLAG != 0 {
            '>'
        } else if tile & SOUTH_FLAG != 0 {
            'v'
        } else {
            '<'
        }
    } else if mover_count(tile) == 2 {
        '2'
    } else if mover_count(tile) == 3 {
        '3'
    } else {
        '4'
    }
}

/// Computes the character that shows a tile.
pub fn tile_glyph(tile: u8) -> (c: char)
    ensures
        c == glyph(tile),
{
    if tile & COLLIDES_FLAG != COLLIDES_FLAG {
        return '.';
    }
    let north: u8 = if tile & NORTH_FLAG != 0 { 1 } else { 0 };
    let east: u8 = if tile & EAST_FLAG != 0 { 1 } else { 0 };
    let south: u8 = if tile & SOUTH_FLAG != 0 { 1 } else { 0 };
    let west: u8 = if tile & WEST_FLAG != 0 { 1 } else { 0 };
    let count: u8 = north + east + south + west;
    if count == 0 {
        '#'
    } else if count == 1 {
        if north == 1 {
            '^'
        } else if east == 1 {
            '>'
        } else if south == 1 {
            'v'
        } else {
            '<'
        }
    } else if count == 2 {
        '2'
    } else if count == 3 {
        '3'
    } else {
        '4'
    }
}

} // verus!
