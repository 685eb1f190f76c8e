//! Map tiles and item kinds.
use vstd::prelude::*;

verus! {

/// The code stored in a map grid for a wall.
pub const WALL: u8 = 0;
/// The code stored in a map grid for walkable floor.
pub const FLOOR: u8 = 1;
/// The code stored in a map grid for a door.
pub const DOOR: u8 = 2;
/// The code stored in a map grid for the level exit.
pub const EXIT: u8 = 3;

/// A map tile. Its code in a grid is its position in this list, from 0.
#[derive(Debug, Clone, Copy, PartialEq, Eq, Structural)]
pub enum Tile {
    Wall,
    Floor,
    Door,
    Exit,
}

/// The tile that a grid code stands for; unknown codes read as walls.
pub open spec fn tile_of_code(v: u8) -> Tile {
    if v == FLOOR {
        Tile::Floor
    } else if v == DOOR {
        Tile::Door
    } else if v == EXIT {
        Tile::Exit
    } else {
        Tile::Wall
    }
}

/// The grid code of a tile.
pub open spec fn code_of_tile(t: Tile) -> u8 {
    match t {
        Tile::Wall => WALL,
        Tile::Floor => FLOOR,
        Tile::Door => DOOR,
        Tile::Exit => EXIT,
    }
}

impl Tile {
    /// Reads a grid code: 0 wall, 1 floor, 2 door, 3 exit, anything else a wall.
    pub fn from_u8(v: u8) -> (t: Tile)
        ensures
            t == tile_of_code(v),
    {
        match v {
            0 => Tile::Wall,
            1 => Tile::Floor,
            2 => Tile::Door,
            3 => Tile::Exit,
            _ => Tile::Wall,
        }
    }

    /// The grid code of this tile.
    pub fn code(self) -> (v: u8)
        ensures
            v == code_of_tile(self),
            tile_of_code(v) == self,
    {
        match self {
            Tile::Wall => WALL,
            Tile::Floor => FLOOR,
            Tile::Door => DOOR,
            Tile::Exit => EXIT,
        }
    }
}

/// Reading back the code of a tile gives the tile.
pub proof fn lemma_tile_code_roundtrip(t: Tile)
    ensures
        tile_of_code(code_of_tile(t)) == t,
{
}

/// The kind of a pickup lying on the map.
#[derive(Debug, Clone, Copy, PartialEq, Eq, Structural)]
pub enum ItemKind {
    Health,
    Ammo,
    Emerald,
}

} // verus!
