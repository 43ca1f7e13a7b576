//! Dealing a new map: mountains, one capital for each player, cities.

use vstd::prelude::*;
use crate::board::{dealt, Board};
use crate::cell::{CellType, GameCell};
use crate::connectivity::{
    connected, lemma_open_grid_connected, lemma_same_ground, passable,
};
use crate::laws::lemma_capitals_kept;
use crate::map::GameMap;
use crate::random::{random_below, random_i64, random_u32};

verus! {

/// Of a hundred squares, as many become mountains, if the ground allows it.
pub const MOUNTAIN_PERCENT: u32 = 15;

/// Of a hundred squares of open ground, as many become cities.
pub const CITY_PERCENT: u32 = 5;

/// The smallest and the largest garrison a city is dealt.
pub const CITY_ARMY_MIN: i64 = 20;

pub const CITY_ARMY_MAX: i64 = 50;

impl GameMap {
    /// The map of `n` rows and `m` columns of open ground that nobody holds,
    /// for `players_num` players, before the first move.
    pub fn new_blank(n: usize, m: usize, players_num: usize) -> (map: GameMap)
        ensures
            map.wf(),
            map.n == n,
            map.m == m,
            map.players_num == players_num,
            map.curr_color == 0,
            map.turn == 0,
            forall|y: int, x: int| map@.inside(y, x) ==> map@.cell(y, x) == GameCell::blank(),
    {
        let map = GameMap {
            n,
            m,
            players_num,
            curr_color: 0,
            turn: 0,
            grid: vec![vec![GameCell::default(); m]; n],
        };
        assert forall|y: int, x: int| map@.inside(y, x) implies map@.cell(y, x)
            == GameCell::blank() by {
            assert(map@.grid[y] == map.grid@[y]@);
        }
        map
    }

    /// Replaces the square `(y, x)`.
    pub fn set_cell(&mut self, y: usize, x: usize, cell: GameCell)
        requires
            old(self).wf(),
            old(self)@.inside(y as int, x as int),
        ensures
            final(self)@ == old(self)@.put(y as int, x as int, cell),
            final(self).wf(),
    {
        let ghost before = self@;
        assert(self@.grid[y as int] == self.grid@[y as int]@);
        self.grid[y][x] = cell;
        proof {
            assert(self@.grid[y as int] == self.grid@[y as int]@);
            assert forall|r: int| 0 <= r < self.n implies (#[trigger] self@.grid[r]).len()
                == self.m by {
                assert(before.grid[r].len() == self.m);
            }
            assert forall|r: int| 0 <= r < self.n implies #[trigger] self@.grid[r]
                =~= before.put(y as int, x as int, cell).grid[r] by {}
            assert(self@.grid =~= before.put(y as int, x as int, cell).grid);
        }
    }

    /// Raises a mountain on `(y, x)` if the passable ground still hangs
    /// together with it; if not, the square is left as open ground. Says
    /// whether the mountain stands.
    pub fn try_place_mountain(&mut self, y: usize, x: usize) -> (stands: bool)
        requires
            old(self).wf(),
            old(self)@.inside(y as int, x as int),
        ensures
            stands == connected(old(self)@.with_type(y as int, x as int, CellType::Mountains).grid),
            final(self)@ == old(self)@.with_type(
                y as int,
                x as int,
                if stands {
                    CellType::Mountains
                } else {
                    CellType::Empty
                },
            ),
            final(self).wf(),
    {
        let ghost before = self@;
        assert(self@.grid[y as int] == self.grid@[y as int]@);
        let mut cell = self.grid[y][x];
        cell.cell_type = CellType::Mountains;
        self.set_cell(y, x, cell);
        assert forall|r: int| 0 <= r < self.n implies (#[trigger] self.grid@[r])@.len()
            == self.m by {
            assert(self@.grid[r] == self.grid@[r]@);
        }
        let stands = Self::is_connected(self.n, self.m, &self.grid);
        if !stands {
            cell.cell_type = CellType::Empty;
            self.set_cell(y, x, cell);
            assert(self@.grid =~~= before.with_type(y as int, x as int, CellType::Empty).grid);
        }
        stands
    }

    /// The squares of open ground that nobody holds: each of them once, in
    /// reading order.
    pub fn free_cells(&self) -> (free: Vec<(usize, usize)>)
        requires
            self.wf(),
        ensures
            forall|i: int|
                0 <= i < free@.len() ==> self@.inside(
                    (#[trigger] free@[i]).0 as int,
                    free@[i].1 as int,
                ) && self@.cell(free@[i].0 as int, free@[i].1 as int).is_empty_not_owned(),
            forall|y: int, x: int|
                self@.inside(y, x) && (#[trigger] self@.cell(y, x)).is_empty_not_owned()
                    ==> free@.contains((y as usize, x as usize)),
            forall|i: int, j: int|
                0 <= i < j < free@.len() ==> Board::reads_before(
                    (#[trigger] free@[i]).0 as int,
                    free@[i].1 as int,
                    (#[trigger] free@[j]).0 as int,
                    free@[j].1 as int,
                ),
    {
        let mut free: Vec<(usize, usize)> = Vec::new();
        let mut y: usize = 0;
        while y < self.n
            invariant
                self.wf(),
                y <= self.n,
                forall|i: int|
                    0 <= i < free@.len() ==> self@.inside(
                        (#[trigger] free@[i]).0 as int,
                        free@[i].1 as int,
                    ) && self@.cell(free@[i].0 as int, free@[i].1 as int).is_empty_not_owned(),
                forall|r: int, c: int|
                    0 <= r < y && 0 <= c < self.m && (#[trigger] self@.cell(
                        r,
                        c,
                    )).is_empty_not_owned() ==> free@.contains((r as usize, c as usize)),
                forall|i: int| 0 <= i < free@.len() ==> (#[trigger] free@[i]).0 < y,
                forall|i: int, j: int|
                    0 <= i < j < free@.len() ==> Board::reads_before(
                        (#[trigger] free@[i]).0 as int,
                        free@[i].1 as int,
                        (#[trigger] free@[j]).0 as int,
                        free@[j].1 as int,
                    ),
            decreases self.n - y,
        {
            let mut x: usize = 0;
            while x < self.m
                invariant
                    self.wf(),
                    y < self.n,
                    x <= self.m,
                    forall|i: int|
                        0 <= i < free@.len() ==> self@.inside(
                            (#[trigger] free@[i]).0 as int,
                            free@[i].1 as int,
                        ) && self@.cell(
                            free@[i].0 as int,
                            free@[i].1 as int,
                        ).is_empty_not_owned(),
                    forall|r: int, c: int|
                        0 <= r < y && 0 <= c < self.m && (#[trigger] self@.cell(
                            r,
                            c,
                        )).is_empty_not_owned() ==> free@.contains((r as usize, c as usize)),
                    forall|c: int|
                        0 <= c < x && (#[trigger] self@.cell(y as int, c)).is_empty_not_owned()
                            ==> free@.contains((y, c as usize)),
                    forall|i: int|
                        0 <= i < free@.len() ==> Board::reads_before(
                            (#[trigger] free@[i]).0 as int,
                            free@[i].1 as int,
                            y as int,
                            x as int,
                        ),
                    forall|i: int, j: int|
                        0 <= i < j < free@.len() ==> Board::reads_before(
                            (#[trigger] free@[i]).0 as int,
                            free@[i].1 as int,
                            (#[trigger] free@[j]).0 as int,
                            free@[j].1 as int,
                        ),
                decreases self.m - x,
            {
                assert(self@.grid[y as int] == self.grid@[y as int]@);
                if self.grid[y][x].is_empty_not_owned() {
                    let ghost listed = free@;
                    free.push((y, x));
                    proof {
                        assert(free@[listed.len() as int] == (y, x));
                        assert forall|p: (usize, usize)| listed.contains(p) implies free@.contains(
                            p,
                        ) by {
                            let i = choose|i: int| 0 <= i < listed.len() && listed[i] == p;
                            assert(free@[i] == p);
                        }
                        assert forall|i: int| 0 <= i < listed.len() implies free@[i]
                            == listed[i] by {}
                    }
                }
                x += 1;
            }
            y += 1;
        }
        free
    }

    /// Raises a mountain on `(y, x)` if `roll`, a number drawn from 0 to 99,
    /// is below [`MOUNTAIN_PERCENT`] and the passable ground still hangs
    /// together with the mountain. A roll that is low enough but would part
    /// the ground leaves open ground on the square; a higher roll leaves the
    /// map as it is. Says whether the mountain stands.
    pub fn roll_mountain(&mut self, y: usize, x: usize, roll: u32) -> (stands: bool)
        requires
            old(self).wf(),
            old(self)@.inside(y as int, x as int),
        ensures
            stands == (roll < MOUNTAIN_PERCENT && connected(
                old(self)@.with_type(y as int, x as int, CellType::Mountains).grid,
            )),
            final(self)@ == if roll < MOUNTAIN_PERCENT {
                old(self)@.with_type(
                    y as int,
                    x as int,
                    if stands {
                        CellType::Mountains
                    } else {
                        CellType::Empty
                    },
                )
            } else {
                old(self)@
            },
            final(self).wf(),
    {
        if roll < MOUNTAIN_PERCENT {
            self.try_place_mountain(y, x)
        } else {
            false
        }
    }

    /// Gives the player `id` a capital with one unit on the square that
    /// `free` lists in place `pick`. Where `free` has no such place (it is
    /// empty, or `pick` is beyond its end) nothing is placed and the map
    /// stays as it is. Says whether the capital was placed.
    pub fn place_capital(&mut self, id: usize, free: &Vec<(usize, usize)>, pick: usize) -> (placed:
        bool)
        requires
            old(self).wf(),
            forall|i: int|
                0 <= i < free@.len() ==> old(self)@.inside(
                    (#[trigger] free@[i]).0 as int,
                    free@[i].1 as int,
                ),
        ensures
            placed == (pick < free@.len()),
            placed ==> final(self)@ == old(self)@.put(
                free@[pick as int].0 as int,
                free@[pick as int].1 as int,
                (GameCell {
                    owner: Some(id),
                    cell_type: CellType::General,
                    army_size: 1,
                    ..old(self)@.cell(free@[pick as int].0 as int, free@[pick as int].1 as int)
                }),
            ),
            !placed ==> final(self)@ == old(self)@,
            final(self).wf(),
    {
        if pick >= free.len() {
            return false;
        }
        let (y, x) = free[pick];
        assert(self@.grid[y as int] == self.grid@[y as int]@);
        let mut cell = self.grid[y][x];
        cell.owner = Some(id);
        cell.cell_type = CellType::General;
        cell.army_size = 1;
        self.set_cell(y, x, cell);
        true
    }

    /// Whether `(y, x)` becomes a city on `roll`, a number drawn from 0 to
    /// 99: the roll is below [`CITY_PERCENT`] and the square is open ground
    /// that nobody holds.
    pub fn wants_city(&self, y: usize, x: usize, roll: u32) -> (b: bool)
        requires
            self.wf(),
            self@.inside(y as int, x as int),
        ensures
            b == (roll < CITY_PERCENT && self@.cell(y as int, x as int).is_empty_not_owned()),
    {
        assert(self@.grid[y as int] == self.grid@[y as int]@);
        roll < CITY_PERCENT && self.grid[y][x].is_empty_not_owned()
    }

    /// Founds a city with `garrison` units on `(y, x)` if the square is open
    /// ground that nobody holds; another square stays as it is. Says whether
    /// the city was founded.
    pub fn place_city(&mut self, y: usize, x: usize, garrison: i64) -> (placed: bool)
        requires
            old(self).wf(),
            old(self)@.inside(y as int, x as int),
        ensures
            placed == old(self)@.cell(y as int, x as int).is_empty_not_owned(),
            final(self)@ == if placed {
                old(self)@.put(
                    y as int,
                    x as int,
                    (GameCell {
                        cell_type: CellType::City,
                        army_size: garrison,
                        ..old(self)@.cell(y as int, x as int)
                    }),
                )
            } else {
                old(self)@
            },
            final(self).wf(),
    {
        assert(self@.grid[y as int] == self.grid@[y as int]@);
        let mut cell = self.grid[y][x];
        if !cell.is_empty_not_owned() {
            return false;
        }
        cell.cell_type = CellType::City;
        cell.army_size = garrison;
        self.set_cell(y, x, cell);
        true
    }

    /// Deals a map of `n` rows and `m` columns for `k` players.
    ///
    /// The dice are rolled and each number is handed to the step that it
    /// decides. Square by square, a number from 0 to 99 goes to
    /// [`GameMap::roll_mountain`]. Then each player in turn is given a
    /// capital by [`GameMap::place_capital`], on a place drawn from the list
    /// of [`GameMap::free_cells`]. Then, square by square, a number from 0 to
    /// 99 goes to [`GameMap::wants_city`], and where a city is wanted a
    /// garrison drawn from [`CITY_ARMY_MIN`] to [`CITY_ARMY_MAX`] goes to
    /// [`GameMap::place_city`]. Cities and capitals are passable, so they
    /// part nothing.
    ///
    /// The dice decide how much open ground the mountains leave. No map is
    /// dealt where a capital is not placed: where a player finds the list of
    /// free squares empty. That is so from the first player on a map without
    /// squares. Whatever the dice show, a map that is dealt is as
    /// [`Board::is_fresh`] says.
    pub fn new_random(n: usize, m: usize, k: usize) -> (made: Option<GameMap>)
        ensures
            made matches Some(map) ==> map@.is_fresh(n, m, k),
            k == 0 ==> made is Some,
            k >= 1 && (n == 0 || m == 0) ==> made is None,
    {
        let mut map = GameMap::new_blank(n, m, k);
        proof {
            assert forall|p: (int, int)| 0 <= p.0 < n && 0 <= p.1 < m implies passable(
                map@.grid,
                p,
            ) by {
                assert(map@.cell(p.0, p.1) == GameCell::blank());
            }
            lemma_open_grid_connected(map@.grid, n as int, m as int);
        }
        let mut y: usize = 0;
        while y < n
            invariant
                y <= n,
                map.wf(),
                map.n == n,
                map.m == m,
                map.players_num == k,
                map.curr_color == 0,
                map.turn == 0,
                connected(map@.grid),
                forall|r: int, c: int| map@.inside(r, c) ==> dealt(#[trigger] map@.cell(r, c), 0),
                forall|r: int, c: int|
                    map@.inside(r, c) ==> (#[trigger] map@.cell(r, c)).cell_type
                        != CellType::City,
                forall|r: int, c: int|
                    map@.inside(r, c) && y <= r ==> #[trigger] map@.cell(r, c)
                        == GameCell::blank(),
            decreases n - y,
        {
            let mut x: usize = 0;
            while x < m
                invariant
                    y < n,
                    x <= m,
                    map.wf(),
                    map.n == n,
                    map.m == m,
                    map.players_num == k,
                    map.curr_color == 0,
                    map.turn == 0,
                    connected(map@.grid),
                    forall|r: int, c: int|
                        map@.inside(r, c) ==> dealt(#[trigger] map@.cell(r, c), 0),
                    forall|r: int, c: int|
                        map@.inside(r, c) ==> (#[trigger] map@.cell(r, c)).cell_type
                            != CellType::City,
                    forall|r: int, c: int|
                        map@.inside(r, c) && (y < r || (y == r && x <= c)) ==> #[trigger] map@.cell(
                            r,
                            c,
                        ) == GameCell::blank(),
                decreases m - x,
            {
                let ghost before = map@;
                let roll = random_u32(0, 99);
                let stands = map.roll_mountain(y, x, roll);
                proof {
                    assert(before.cell(y as int, x as int) == GameCell::blank());
                    if !stands {
                        assert(map@.grid =~~= before.grid);
                    }
                    assert forall|r: int, c: int| map@.inside(r, c) implies dealt(
                        #[trigger] map@.cell(r, c),
                        0,
                    ) && map@.cell(r, c).cell_type != CellType::City && (y < r || (y == r && x
                        < c) ==> map@.cell(r, c) == GameCell::blank()) by {
                        if !(r == y && c == x) {
                            assert(map@.cell(r, c) == before.cell(r, c));
                        }
                    }
                }
                x += 1;
            }
            y += 1;
        }
        let mut id: usize = 0;
        while id < k
            invariant
                id <= k,
                id > 0 ==> n > 0 && m > 0,
                map.wf(),
                map.n == n,
                map.m == m,
                map.players_num == k,
                map.curr_color == 0,
                map.turn == 0,
                connected(map@.grid),
                forall|r: int, c: int| map@.inside(r, c) ==> dealt(#[trigger] map@.cell(r, c), id),
                forall|r: int, c: int|
                    map@.inside(r, c) ==> (#[trigger] map@.cell(r, c)).cell_type
                        != CellType::City,
                forall|j: usize| j < id ==> #[trigger] map@.has_one_capital(j),
            decreases k - id,
        {
            let free = map.free_cells();
            let pick = if free.len() > 0 {
                random_below(free.len())
            } else {
                0
            };
            let ghost before = map@;
            if !map.place_capital(id, &free, pick) {
                return None;
            }
            let ghost (y, x) = (free@[pick as int].0 as int, free@[pick as int].1 as int);
            proof {
                assert(before.inside(y, x));
                assert(before.cell(y, x).is_empty_not_owned());
                assert(dealt(before.cell(y, x), id));
                assert forall|r: int, c: int| map@.inside(r, c) implies dealt(
                    #[trigger] map@.cell(r, c),
                    (id + 1) as usize,
                ) && map@.cell(r, c).cell_type != CellType::City by {
                    if !(r == y && c == x) {
                        assert(map@.cell(r, c) == before.cell(r, c));
                        assert(dealt(before.cell(r, c), id));
                    }
                }
                assert forall|p: (int, int)| passable(before.grid, p) == passable(
                    map@.grid,
                    p,
                ) by {
                    if before.inside(p.0, p.1) && !(p.0 == y && p.1 == x) {
                        assert(map@.cell(p.0, p.1) == before.cell(p.0, p.1));
                    }
                }
                lemma_same_ground(before.grid, map@.grid);
                assert forall|j: usize| j < id + 1 implies #[trigger] map@.has_one_capital(j) by {
                    if j < id {
                        assert forall|r: int, c: int|
                            before.is_capital_of(r, c, j) == map@.is_capital_of(r, c, j) by {
                            if before.inside(r, c) && !(r == y && c == x) {
                                assert(map@.cell(r, c) == before.cell(r, c));
                            }
                        }
                        lemma_capitals_kept(before, map@, j);
                    } else {
                        assert(map@.is_capital_of(y, x, id));
                        assert forall|r: int, c: int| #[trigger]
                            map@.is_capital_of(r, c, id) implies r == y && c == x by {
                            if !(r == y && c == x) {
                                assert(map@.cell(r, c) == before.cell(r, c));
                                assert(dealt(before.cell(r, c), id));
                            }
                        }
                    }
                }
            }
            id += 1;
        }
        let mut y: usize = 0;
        while y < n
            invariant
                y <= n,
                k > 0 ==> n > 0 && m > 0,
                map.wf(),
                map.n == n,
                map.m == m,
                map.players_num == k,
                map.curr_color == 0,
                map.turn == 0,
                connected(map@.grid),
                forall|r: int, c: int| map@.inside(r, c) ==> dealt(#[trigger] map@.cell(r, c), k),
                forall|j: usize| j < k ==> #[trigger] map@.has_one_capital(j),
            decreases n - y,
        {
            let mut x: usize = 0;
            while x < m
                invariant
                    y < n,
                    x <= m,
                    map.wf(),
                    map.n == n,
                    map.m == m,
                    map.players_num == k,
                    map.curr_color == 0,
                    map.turn == 0,
                    connected(map@.grid),
                    forall|r: int, c: int|
                        map@.inside(r, c) ==> dealt(#[trigger] map@.cell(r, c), k),
                    forall|j: usize| j < k ==> #[trigger] map@.has_one_capital(j),
                decreases m - x,
            {
                let roll = random_u32(0, 99);
                if map.wants_city(y, x, roll) {
                    let ghost before = map@;
                    let garrison = random_i64(CITY_ARMY_MIN, CITY_ARMY_MAX);
                    map.place_city(y, x, garrison);
                    proof {
                        assert(dealt(before.cell(y as int, x as int), k));
                        assert forall|r: int, c: int| map@.inside(r, c) implies dealt(
                            #[trigger] map@.cell(r, c),
                            k,
                        ) by {
                            if !(r == y && c == x) {
                                assert(map@.cell(r, c) == before.cell(r, c));
                            }
                        }
                        assert forall|p: (int, int)| passable(before.grid, p) == passable(
                            map@.grid,
                            p,
                        ) by {
                            if before.inside(p.0, p.1) && !(p.0 == y && p.1 == x) {
                                assert(map@.cell(p.0, p.1) == before.cell(p.0, p.1));
                            }
                        }
                        lemma_same_ground(before.grid, map@.grid);
                        assert forall|j: usize| j < k implies #[trigger] map@.has_one_capital(
                            j,
                        ) by {
                            assert forall|r: int, c: int|
                                before.is_capital_of(r, c, j) == map@.is_capital_of(r, c, j) by {
                                if before.inside(r, c) && !(r == y && c == x) {
                                    assert(map@.cell(r, c) == before.cell(r, c));
                                }
                            }
                            lemma_capitals_kept(before, map@, j);
                        }
                    }
                }
                x += 1;
            }
            y += 1;
        }
        Some(map)
    }
}

} // verus!
