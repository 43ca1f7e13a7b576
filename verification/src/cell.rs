//! One square of the board.

use vstd::prelude::*;
use crate::map::GameMap;

verus! {

/// What stands on a square.
#[derive(Clone, Copy, PartialEq, Eq, Structural, Debug)]
pub enum CellType {
    /// Open ground.
    Empty,
    /// Impassable; never owned.
    Mountains,
    /// Grows like a capital, but can change hands any number of times.
    City,
    /// A player's capital. Losing it eliminates the player.
    General,
}

impl Default for CellType {
    fn default() -> (t: Self)
        ensures
            t == CellType::Empty,
    {
        CellType::Empty
    }
}

/// The state of one square: who holds it, with how many units, what stands
/// on it, and what a viewer remembers of it.
#[derive(Clone, Copy, PartialEq, Eq, Structural, Debug)]
pub struct GameCell {
    /// Units standing on the square.
    pub army_size: i64,
    /// The player who holds the square, if any.
    pub owner: Option<usize>,
    /// What stands on the square now.
    pub cell_type: CellType,
    /// Scratch mark of a search: the square is known to belong to the searcher.
    pub is_friend: bool,
    /// What the viewer last saw standing on the square.
    pub last_seen_type: CellType,
    /// The turn at which the viewer last saw the square.
    pub last_update_time: u32,
}

impl Default for GameCell {
    fn default() -> (c: Self)
        ensures
            c == GameCell::blank(),
    {
        GameCell {
            army_size: 0,
            owner: None,
            cell_type: CellType::Empty,
            is_friend: false,
            last_seen_type: CellType::Empty,
            last_update_time: 0,
        }
    }
}

impl GameCell {
    /// The square nobody has touched or seen: empty ground without units.
    pub open spec fn blank() -> GameCell {
        GameCell {
            army_size: 0,
            owner: None,
            cell_type: CellType::Empty,
            is_friend: false,
            last_seen_type: CellType::Empty,
            last_update_time: 0,
        }
    }

    pub open spec fn spec_is_empty_not_owned(&self) -> bool {
        self.cell_type == CellType::Empty && self.owner is None
    }

    /// Open ground that nobody holds.
    #[verifier::when_used_as_spec(spec_is_empty_not_owned)]
    pub fn is_empty_not_owned(&self) -> (b: bool)
        ensures
            b == (self.cell_type == CellType::Empty && self.owner is None),
    {
        self.cell_type == CellType::Empty && self.owner.is_none()
    }

    pub open spec fn spec_city_or_general(&self) -> bool {
        self.cell_type == CellType::City || self.cell_type == CellType::General
    }

    /// Whether the square is one of the two kinds that grow every other turn.
    #[verifier::when_used_as_spec(spec_city_or_general)]
    pub fn city_or_general(&self) -> (b: bool)
        ensures
            b == (self.cell_type == CellType::City || self.cell_type == CellType::General),
    {
        self.cell_type == CellType::City || self.cell_type == CellType::General
    }

    /// The army that an attacker who sets out on turn `turn` meets on the
    /// square after `path_len` steps. A city or a capital is taken to have
    /// grown by one unit for each step and for each turn since it was last
    /// seen; other squares are taken as they were seen.
    pub open spec fn spec_army_after_time(&self, turn: u32, path_len: int) -> int {
        self.army_size + if self.city_or_general() {
            path_len + (turn - self.last_update_time)
        } else {
            0
        }
    }

    /// The army expected on the square after `path_len` steps, as seen from
    /// the turn of `map`. See [`GameCell::spec_army_after_time`].
    pub fn army_after_time(&self, map: &GameMap, path_len: i64) -> (army: i64)
        requires
            self.city_or_general() ==> self.last_update_time <= map.turn,
            self.city_or_general() ==> path_len + (map.turn - self.last_update_time) <= i64::MAX,
            i64::MIN <= self.spec_army_after_time(map.turn, path_len as int) <= i64::MAX,
        ensures
            army == self.spec_army_after_time(map.turn, path_len as int),
    {
        match self.cell_type {
            CellType::City | CellType::General => {
                let waited: u32 = map.turn - self.last_update_time;
                let waited: i64 = waited as i64;
                self.army_size + (path_len + waited)
            },
            CellType::Empty | CellType::Mountains => self.army_size,
        }
    }
}

} // verus!
