//! The computer player: it keeps its own picture of the map, as the fog
//! lets it see, and looks for the conquest that pays best.

use vstd::prelude::*;
use crate::board::Board;
use crate::cell::{CellType, GameCell};
use crate::map::{GameMap, Move};
use crate::random::{random_choice, random_u32};
use crate::search::{explore, rows_of_paths, VertexData};
use crate::target::Target;

verus! {

/// What a square is worth as a target when nobody holds it and it is open
/// ground.
pub const FREE_EMPTY_WORTH: u64 = 6;

/// What a city is worth that nobody holds.
pub const FREE_CITY_WORTH: u64 = 250;

/// What open ground of an enemy is worth.
pub const ENEMY_EMPTY_WORTH: u64 = 100;

/// What a city of an enemy is worth.
pub const ENEMY_CITY_WORTH: u64 = 1500;

/// What the capital of an enemy is worth: more than anything else at any
/// distance on a map that can be searched.
pub const ENEMY_GENERAL_WORTH: u64 = 1_000_000_000_000_000_000;

/// What the square is worth as a target to the player `viewer` in turn
/// `turn`, if it is a target at all. A mountain is none, nor a square marked
/// as a friend's, nor one that is not known as of this turn, nor one of the
/// viewer's own.
pub open spec fn worth(c: GameCell, viewer: usize, turn: u32) -> Option<u64> {
    if c.cell_type == CellType::Mountains || c.is_friend || c.last_update_time != turn {
        None
    } else if c.owner is None {
        match c.cell_type {
            CellType::City => Some(FREE_CITY_WORTH),
            _ => Some(FREE_EMPTY_WORTH),
        }
    } else if c.owner != Some(viewer) {
        match c.cell_type {
            CellType::City => Some(ENEMY_CITY_WORTH),
            CellType::General => Some(ENEMY_GENERAL_WORTH),
            _ => Some(ENEMY_EMPTY_WORTH),
        }
    } else {
        None
    }
}

/// A computer player that searches for paths. Its map is its own picture of
/// the game, and the colour of that map is the player's own.
#[derive(Debug)]
pub struct PathFinderBot {
    pub map: GameMap,
}

impl Default for PathFinderBot {
    /// A player with the map that has no squares.
    fn default() -> (bot: Self)
        ensures
            bot.map.wf(),
            bot.map.n == 0,
            bot.map.m == 0,
            bot.map.players_num == 0,
            bot.map.curr_color == 0,
            bot.map.turn == 0,
    {
        PathFinderBot { map: GameMap::default() }
    }
}

impl PathFinderBot {
    /// A player of colour `color` for the game on `map`, who has seen nothing
    /// yet: the picture has the size, the players and the turn of `map`, and
    /// every square of it is open ground.
    pub fn from_map(map: &GameMap, color: usize) -> (bot: Self)
        ensures
            bot.map.wf(),
            bot.map.n == map.n,
            bot.map.m == map.m,
            bot.map.players_num == map.players_num,
            bot.map.turn == map.turn,
            bot.map.curr_color == color,
            forall|y: int, x: int|
                bot.map@.inside(y, x) ==> bot.map@.cell(y, x) == GameCell::blank(),
    {
        let mut picture = GameMap::new_blank(map.n, map.m, map.players_num);
        let ghost blank = picture@;
        picture.curr_color = color;
        picture.turn = map.turn;
        assert forall|y: int, x: int| picture@.inside(y, x) implies picture@.cell(y, x)
            == GameCell::blank() by {
            assert(picture@.cell(y, x) == blank.cell(y, x));
        }
        PathFinderBot { map: picture }
    }

    /// The table of the search over `map` from `start`. See
    /// [`Board::is_search_result`].
    pub fn find_paths(&self, map: &GameMap, start: (usize, usize)) -> (paths: Vec<
        Vec<VertexData>,
    >)
        requires
            map.wf(),
            map@.inside(start.0 as int, start.1 as int),
            map@.searchable(),
        ensures
            map@.is_search_result(start, rows_of_paths(paths)),
            forall|y: int, x: int|
                map@.inside(y, x) && #[trigger] crate::search::reached(rows_of_paths(paths), y, x)
                    ==> rows_of_paths(paths)[y][x].dist < map.n * map.m,
    {
        explore(map, start).nodes
    }

    /// What the square `coords` of `map` is worth as a target, if it is one.
    /// The square counts as known if it was seen in the turn of the player's
    /// own picture. See [`worth`].
    pub fn eval_target_cell(&self, map: &GameMap, coords: (usize, usize)) -> (value: Option<u64>)
        requires
            map.wf(),
            map@.inside(coords.0 as int, coords.1 as int),
            map@.cell(coords.0 as int, coords.1 as int).cell_type == CellType::General
                ==> map@.cell(coords.0 as int, coords.1 as int).owner is Some,
        ensures
            value == worth(
                map@.cell(coords.0 as int, coords.1 as int),
                map.curr_color,
                self.map.turn,
            ),
    {
        assert(map@.grid[coords.0 as int] == map.grid@[coords.0 as int]@);
        let cell = map.grid[coords.0][coords.1];
        if cell.cell_type == CellType::Mountains || cell.is_friend || cell.last_update_time
            != self.map.turn {
            return None;
        }
        if cell.owner.is_none() {
            match cell.cell_type {
                CellType::City => Some(FREE_CITY_WORTH),
                _ => Some(FREE_EMPTY_WORTH),
            }
        } else if cell.owner != Some(map.curr_color) {
            match cell.cell_type {
                CellType::City => Some(ENEMY_CITY_WORTH),
                CellType::General => Some(ENEMY_GENERAL_WORTH),
                _ => Some(ENEMY_EMPTY_WORTH),
            }
        } else {
            None
        }
    }

    /// The legal moves of the player on its picture, in reading order. See
    /// [`Board::valid_moves`]; [`Board::lemma_valid_moves`] shows that these
    /// are the moves of which [`GameMap::is_a_valid_move`] approves.
    pub fn get_all_moves(&self) -> (moves: Vec<Move>)
        requires
            self.map.wf(),
        ensures
            moves@ == self.map@.valid_moves(),
    {
        self.map.list_moves(true)
    }

    /// One of the legal moves of the player, drawn by chance; none if there
    /// is none.
    pub fn get_random_move(&self) -> (mv: Option<Move>)
        requires
            self.map.wf(),
        ensures
            mv is None <==> self.map@.valid_moves().len() == 0,
            mv matches Some(m) ==> self.map@.is_a_valid_move(m),
    {
        let moves = self.get_all_moves();
        let mv = random_choice(&moves);
        proof {
            if let Some(m) = mv {
                self.map@.lemma_valid_moves(m);
            }
        }
        mv
    }
}

impl Board {
    /// The search from `origin` finds no target.
    pub open spec fn no_target_from(self, origin: (usize, usize)) -> bool {
        exists|found: Seq<Seq<VertexData>>|
            #![trigger self.is_search_result(origin, found)]
            self.is_search_result(origin, found) && forall|y: int, x: int|
                !#[trigger] self.is_target(origin, found, y, x)
    }

    /// `picks` tells how the target was chosen over the squares `origins`,
    /// one after the other, with `tables` as the tables of the searches from
    /// them: nothing is picked at first, and each square's table is weighed
    /// against the pick before it (see [`Board::is_best_so_far`]) and gives
    /// the next.
    pub open spec fn is_choice(
        self,
        origins: Seq<(usize, usize)>,
        tables: Seq<Seq<Seq<VertexData>>>,
        picks: Seq<Option<Target>>,
    ) -> bool {
        &&& tables.len() == origins.len()
        &&& picks.len() == origins.len() + 1
        &&& picks[0] is None
        &&& forall|i: int|
            0 <= i < origins.len() ==> self.is_search_result(origins[i], #[trigger] tables[i])
                && self.is_best_so_far(
                origins[i],
                tables[i],
                picks[i],
                picks[i + 1],
                self.n as int,
                0,
            )
    }

    /// `mv` is what the search decides on: the first step towards the
    /// target chosen over some squares that rank first to attack from, and
    /// no move if no target is chosen.
    pub open spec fn decides(self, mv: Option<Move>) -> bool {
        exists|
            origins: Seq<(usize, usize)>,
            tables: Seq<Seq<Seq<VertexData>>>,
            picks: Seq<Option<Target>>,
        |
            #![trigger self.is_choice(origins, tables, picks)]
            self.ranks_first(origins) && self.is_choice(origins, tables, picks) && mv
                == match picks.last() {
                Some(t) => Some(t.first),
                None => None,
            }
    }

    /// The player can decide on this picture: it is well formed and can be
    /// searched, and every capital on it has an owner.
    pub open spec fn playable(self) -> bool {
        &&& self.wf()
        &&& self.searchable()
        &&& self.capitals_owned()
    }
}

impl PathFinderBot {
    /// The best target for the armies on `origins`: the squares are searched
    /// from in the order given, and a later one takes the pick only with a
    /// target that scores higher. The first step towards the pick is a
    /// legal move.
    pub fn choose_target(&self, origins: &Vec<(usize, usize)>) -> (pick: Option<Target>)
        requires
            self.map@.playable(),
            forall|i: int|
                0 <= i < origins@.len() ==> self.map@.inside(
                    (#[trigger] origins@[i]).0 as int,
                    origins@[i].1 as int,
                ),
        ensures
            exists|tables: Seq<Seq<Seq<VertexData>>>, picks: Seq<Option<Target>>|
                #![trigger self.map@.is_choice(origins@, tables, picks)]
                self.map@.is_choice(origins@, tables, picks) && picks.last() == pick,
            pick matches Some(t) ==> t.dist >= 1 && self.map@.is_a_valid_move(t.first)
                && origins@.contains(t.first.from),
            pick is None ==> forall|i: int|
                0 <= i < origins@.len() ==> self.map@.no_target_from(#[trigger] origins@[i]),
    {
        let ghost board = self.map@;
        let ghost mut tables: Seq<Seq<Seq<VertexData>>> = Seq::empty();
        let ghost mut picks: Seq<Option<Target>> = seq![None];
        let mut pick: Option<Target> = None;
        let mut i: usize = 0;
        while i < origins.len()
            invariant
                i <= origins@.len(),
                board == self.map@,
                board.playable(),
                forall|j: int|
                    0 <= j < origins@.len() ==> board.inside(
                        (#[trigger] origins@[j]).0 as int,
                        origins@[j].1 as int,
                    ),
                tables.len() == i,
                picks.len() == i + 1,
                picks[0] is None,
                picks[i as int] == pick,
                forall|j: int|
                    0 <= j < i ==> board.is_search_result(origins@[j], #[trigger] tables[j])
                        && board.is_best_so_far(
                        origins@[j],
                        tables[j],
                        picks[j],
                        picks[j + 1],
                        board.n as int,
                        0,
                    ),
                pick matches Some(t) ==> t.dist >= 1 && board.is_a_valid_move(t.first)
                    && origins@.contains(t.first.from),
                pick is None ==> forall|j: int|
                    0 <= j < i ==> board.no_target_from(#[trigger] origins@[j]),
            decreases origins@.len() - i,
        {
            let origin = origins[i];
            let paths = self.find_paths(&self.map, origin);
            let ghost found = rows_of_paths(paths);
            let ghost before = pick;
            let ghost old_tables = tables;
            let ghost old_picks = picks;
            pick = self.best_target(origin, &paths, pick);
            proof {
                tables = old_tables.push(found);
                picks = old_picks.push(pick);
                assert forall|j: int| 0 <= j < i + 1 implies board.is_search_result(
                    origins@[j],
                    #[trigger] tables[j],
                ) && board.is_best_so_far(
                    origins@[j],
                    tables[j],
                    picks[j],
                    picks[j + 1],
                    board.n as int,
                    0,
                ) by {
                    if j < i {
                        assert(tables[j] == old_tables[j]);
                        assert(picks[j] == old_picks[j]);
                        assert(picks[j + 1] == old_picks[j + 1]);
                    }
                }
                if let Some(t) = pick {
                    if pick != before {
                        assert(t.first.from == origin);
                    }
                }
                if pick is None {
                    assert(before is None);
                    assert forall|y: int, x: int| !#[trigger] board.is_target(
                        origin,
                        found,
                        y,
                        x,
                    ) by {
                        if board.is_target(origin, found, y, x) {
                            assert(Board::reads_before(y, x, board.n as int, 0));
                            assert(board.target_at(origin, found, y, x).beats(before));
                        }
                    }
                    assert(board.is_search_result(origin, found));
                    assert(board.no_target_from(origin));
                }
            }
            i += 1;
        }
        proof {
            assert(tables.len() == origins@.len());
            assert(picks.last() == pick);
            assert(board.is_choice(origins@, tables, picks));
        }
        pick
    }
}

/// A computer player: it is asked for its move when its turn comes, and is
/// shown the map after each round.
pub trait Bot {
    /// The player's picture of the game.
    spec fn picture(&self) -> Board;

    /// The move of the player, if it has one. `strength` is the chance, in
    /// a hundred, that the player thinks before it moves.
    fn get_best_move(&mut self, strength: u32) -> (mv: Option<Move>)
        requires
            old(self).picture().playable(),
        ensures
            final(self).picture() == old(self).picture(),
            mv matches Some(m) ==> old(self).picture().is_a_valid_move(m),
    ;

    /// Brings the player's picture up to date from the true map.
    fn update_from_map(&mut self, map: &GameMap)
        requires
            old(self).picture().wf(),
            map.wf(),
            old(self).picture().covers(map@),
        ensures
            final(self).picture() == old(self).picture().update_from(map@),
    ;
}

impl Bot for PathFinderBot {
    open spec fn picture(&self) -> Board {
        self.map@
    }

    /// With a chance of `strength` in a hundred the player searches: from
    /// the squares that [`PathFinderBot::pick_origins`] ranks first, for the
    /// target that [`PathFinderBot::choose_target`] picks, and moves the
    /// first step towards it; it does not move if there is no target. Else
    /// it makes a legal move drawn by chance, if there is one.
    ///
    /// Whatever the dice show: what comes back is what the search decides
    /// on, or a legal move, or nothing where there is no legal move. So a
    /// move that comes back is legal, and where there is no legal move none
    /// comes back. If none comes back although there is a legal move, then
    /// the search found no target from some squares that rank first. With a
    /// strength of a hundred or more the player always searches; with a
    /// strength of zero it never does.
    fn get_best_move(&mut self, strength: u32) -> (mv: Option<Move>)
        ensures
            old(self).map@.decides(mv) || (mv matches Some(m) && old(self).map@.is_a_valid_move(m))
                || (mv is None && old(self).map@.valid_moves().len() == 0),
            old(self).map@.valid_moves().len() == 0 ==> mv is None,
            strength >= 100 ==> old(self).map@.decides(mv),
            strength == 0 ==> (mv is None <==> old(self).map@.valid_moves().len() == 0),
            mv is None && old(self).map@.valid_moves().len() > 0 ==> exists|
                origins: Seq<(usize, usize)>,
            |
                #![trigger old(self).map@.ranks_first(origins)]
                old(self).map@.ranks_first(origins) && forall|i: int|
                    0 <= i < origins.len() ==> old(self).map@.no_target_from(
                        #[trigger] origins[i],
                    ),
    {
        if random_u32(0, 99) >= strength {
            return self.get_random_move();
        }
        let origins = self.pick_origins();
        let pick = self.choose_target(&origins);
        proof {
            let (tables, picks) = choose|
                tables: Seq<Seq<Seq<VertexData>>>,
                picks: Seq<Option<Target>>,
            |
                #![trigger self.map@.is_choice(origins@, tables, picks)]
                self.map@.is_choice(origins@, tables, picks) && picks.last() == pick;
            assert(self.map@.ranks_first(origins@) && self.map@.is_choice(origins@, tables, picks));
        }
        match pick {
            Some(t) => {
                proof {
                    self.map@.lemma_valid_moves(t.first);
                }
                Some(t.first)
            },
            None => None,
        }
    }

    /// The picture is brought up to date as [`GameMap::update_from`] says.
    /// If a player can decide on `map`, it can decide on the new picture.
    fn update_from_map(&mut self, map: &GameMap)
        ensures
            map@.playable() ==> final(self).map@.playable(),
    {
        proof {
            if map@.playable() {
                crate::laws::law_update_keeps_playable(self.map@, map@);
            }
        }
        self.map.update_from(map);
    }
}

} // verus!
