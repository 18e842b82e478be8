//! One tile of the grid: four wall bits and a visited bit packed in a byte.

use vstd::prelude::*;

verus! {

/// Wall on the north side of a tile.
pub const NORTH: u8 = 0b01000;

/// Wall on the south side of a tile.
pub const SOUTH: u8 = 0b00100;

/// Wall on the west side of a tile.
pub const WEST: u8 = 0b00010;

/// Wall on the east side of a tile.
pub const EAST: u8 = 0b00001;

/// A tile with all four walls standing and the visited bit clear.
pub const FULL: u8 = 0b01111;

/// Set once the walk has entered the tile.
pub const VISITED: u8 = 0b10000;

/// `mask` is one of the four wall bits.
pub open spec fn is_side(mask: u8) -> bool {
    mask == NORTH || mask == SOUTH || mask == WEST || mask == EAST
}

/// The side that faces `mask` from the neighbouring tile.
pub open spec fn opposite(mask: u8) -> u8 {
    if mask == NORTH {
        SOUTH
    } else if mask == SOUTH {
        NORTH
    } else if mask == WEST {
        EAST
    } else {
        WEST
    }
}

/// The wall `mask` of `tile` stands.
pub open spec fn has_wall(tile: u8, mask: u8) -> bool {
    tile & mask != 0
}

/// The walk has entered `tile`.
pub open spec fn is_visited(tile: u8) -> bool {
    tile & VISITED != 0
}

/// `tile` with the wall `mask` taken down.
pub open spec fn without_wall(tile: u8, mask: u8) -> u8 {
    tile & !mask
}

/// `tile` with the visited bit set.
pub open spec fn entered(tile: u8) -> u8 {
    tile | VISITED
}

/// All four walls of `tile` stand.
pub open spec fn walled_in(tile: u8) -> bool {
    has_wall(tile, NORTH) && has_wall(tile, SOUTH) && has_wall(tile, WEST) && has_wall(tile, EAST)
}

/// A full tile has every wall and has not been entered.
pub proof fn lemma_full_tile()
    ensures
        walled_in(FULL),
        !is_visited(FULL),
{
    assert(0b01111u8 & 0b01000u8 != 0) by (bit_vector);
    assert(0b01111u8 & 0b00100u8 != 0) by (bit_vector);
    assert(0b01111u8 & 0b00010u8 != 0) by (bit_vector);
    assert(0b01111u8 & 0b00001u8 != 0) by (bit_vector);
    assert(0b01111u8 & 0b10000u8 == 0) by (bit_vector);
}

/// Taking down one wall clears that bit and leaves the other four bits as they were.
pub proof fn lemma_without_wall(tile: u8, mask: u8)
    requires
        is_side(mask),
    ensures
        !has_wall(without_wall(tile, mask), mask),
        mask != NORTH ==> has_wall(without_wall(tile, mask), NORTH) == has_wall(tile, NORTH),
        mask != SOUTH ==> has_wall(without_wall(tile, mask), SOUTH) == has_wall(tile, SOUTH),
        mask != WEST ==> has_wall(without_wall(tile, mask), WEST) == has_wall(tile, WEST),
        mask != EAST ==> has_wall(without_wall(tile, mask), EAST) == has_wall(tile, EAST),
        is_visited(without_wall(tile, mask)) == is_visited(tile),
{
    let t = tile;
    if mask == NORTH {
        assert((t & !0b01000u8) & 0b01000u8 == 0 && (t & !0b01000u8) & 0b00100u8 == t & 0b00100u8
            && (t & !0b01000u8) & 0b00010u8 == t & 0b00010u8 && (t & !0b01000u8) & 0b00001u8 == t
            & 0b00001u8 && (t & !0b01000u8) & 0b10000u8 == t & 0b10000u8) by (bit_vector);
    } else if mask == SOUTH {
        assert((t & !0b00100u8) & 0b00100u8 == 0 && (t & !0b00100u8) & 0b01000u8 == t & 0b01000u8
            && (t & !0b00100u8) & 0b00010u8 == t & 0b00010u8 && (t & !0b00100u8) & 0b00001u8 == t
            & 0b00001u8 && (t & !0b00100u8) & 0b10000u8 == t & 0b10000u8) by (bit_vector);
    } else if mask == WEST {
        assert((t & !0b00010u8) & 0b00010u8 == 0 && (t & !0b00010u8) & 0b01000u8 == t & 0b01000u8
            && (t & !0b00010u8) & 0b00100u8 == t & 0b00100u8 && (t & !0b00010u8) & 0b00001u8 == t
            & 0b00001u8 && (t & !0b00010u8) & 0b10000u8 == t & 0b10000u8) by (bit_vector);
    } else {
        assert((t & !0b00001u8) & 0b00001u8 == 0 && (t & !0b00001u8) & 0b01000u8 == t & 0b01000u8
            && (t & !0b00001u8) & 0b00100u8 == t & 0b00100u8 && (t & !0b00001u8) & 0b00010u8 == t
            & 0b00010u8 && (t & !0b00001u8) & 0b10000u8 == t & 0b10000u8) by (bit_vector);
    }
}

/// Entering a tile sets the visited bit and leaves the four walls as they were.
pub proof fn lemma_entered(tile: u8)
    ensures
        is_visited(entered(tile)),
        has_wall(entered(tile), NORTH) == has_wall(tile, NORTH),
        has_wall(entered(tile), SOUTH) == has_wall(tile, SOUTH),
        has_wall(entered(tile), WEST) == has_wall(tile, WEST),
        has_wall(entered(tile), EAST) == has_wall(tile, EAST),
{
    let t = tile;
    assert((t | 0b10000u8) & 0b10000u8 != 0 && (t | 0b10000u8) & 0b01000u8 == t & 0b01000u8 && (t
        | 0b10000u8) & 0b00100u8 == t & 0b00100u8 && (t | 0b10000u8) & 0b00010u8 == t & 0b00010u8
        && (t | 0b10000u8) & 0b00001u8 == t & 0b00001u8) by (bit_vector);
}

/// Entering a tile that has been entered changes nothing.
pub proof fn lemma_entered_again(tile: u8)
    requires
        is_visited(tile),
    ensures
        entered(tile) == tile,
{
    let t = tile;
    assert(t & 0b10000u8 != 0 ==> t | 0b10000u8 == t) by (bit_vector);
}

/// The compass side of a tile on which a wall may stand.
#[derive(Clone, Copy, Debug, PartialEq, Eq, Structural)]
pub enum Direction {
    North,
    South,
    West,
    East,
}

impl Direction {
    /// The wall bit that stands for this side.
    pub open spec fn bit(self) -> u8 {
        match self {
            Direction::North => NORTH,
            Direction::South => SOUTH,
            Direction::West => WEST,
            Direction::East => EAST,
        }
    }

    /// The wall bit that stands for this side.
    pub fn mask(self) -> (m: u8)
        ensures
            m == self.bit(),
            is_side(m),
    {
        match self {
            Direction::North => NORTH,
            Direction::South => SOUTH,
            Direction::West => WEST,
            Direction::East => EAST,
        }
    }
}

} // verus!
