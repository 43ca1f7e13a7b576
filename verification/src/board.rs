//! The rules of the game, stated over a mathematical picture of the map.
//!
//! [`Board`] is what a [`crate::map::GameMap`] stands for: the same counters,
//! with the grid as a sequence of rows. Every rule is a function here, and
//! the executable map promises to follow it.

use vstd::prelude::*;
use crate::cell::{CellType, GameCell};
use crate::map::Move;

verus! {

/// The distance between two coordinates on one axis.
pub open spec fn gap(a: usize, b: usize) -> int {
    if a <= b {
        b - a
    } else {
        a - b
    }
}

/// Whether a square, were it held at the start of `turn`, gains a unit then:
/// every square on each fiftieth turn, cities and capitals on each even one.
pub open spec fn grows(c: GameCell, turn: u32) -> bool {
    c.owner is Some && (turn % 50 == 0 || (c.city_or_general() && turn % 2 == 0))
}

/// The square after the growth of `turn`.
pub open spec fn grown(c: GameCell, turn: u32) -> GameCell {
    if grows(c, turn) {
        GameCell { army_size: (c.army_size + 1) as i64, ..c }
    } else {
        c
    }
}

/// What a player is told of a square that lies in the fog: no units, no
/// owner, and a mountain where a mountain or a city stands. What the viewer
/// remembers of the square stays.
pub open spec fn fogged(c: GameCell) -> GameCell {
    GameCell {
        army_size: 0,
        owner: None,
        cell_type: if c.cell_type == CellType::Mountains || c.cell_type == CellType::City {
            CellType::Mountains
        } else {
            CellType::Empty
        },
        is_friend: false,
        last_seen_type: c.last_seen_type,
        last_update_time: c.last_update_time,
    }
}

/// The square where a step from `(y, x)` in direction `d` ends. The four
/// directions are, in order: up, left, right, down.
pub open spec fn step(y: int, x: int, d: int) -> (int, int) {
    if d == 0 {
        (y - 1, x)
    } else if d == 1 {
        (y, x - 1)
    } else if d == 2 {
        (y, x + 1)
    } else {
        (y + 1, x)
    }
}

/// The move that takes the step `d` from `(y, x)`.
pub open spec fn step_move(y: int, x: int, d: int) -> Move {
    Move { from: (y as usize, x as usize), to: (step(y, x, d).0 as usize, step(y, x, d).1 as usize) }
}

/// A square as it is dealt at the start of a game among `k` players: never
/// seen by anyone; open ground and mountains bare, a city unowned with 20 to
/// 50 units, a capital with one unit and one of the players as its owner.
pub open spec fn dealt(c: GameCell, k: usize) -> bool {
    &&& !c.is_friend
    &&& c.last_seen_type == CellType::Empty
    &&& c.last_update_time == 0
    &&& match c.cell_type {
        CellType::Empty | CellType::Mountains => c.army_size == 0 && c.owner is None,
        CellType::City => 20 <= c.army_size <= 50 && c.owner is None,
        CellType::General => c.army_size == 1 && (c.owner matches Some(id) && id < k),
    }
}

/// The state of a game: the counters of a map and its grid, row by row.
pub struct Board {
    pub n: usize,
    pub m: usize,
    pub players_num: usize,
    pub curr_color: usize,
    pub turn: u32,
    pub grid: Seq<Seq<GameCell>>,
}

impl Board {
    /// The grid has `n` rows of `m` squares.
    pub open spec fn wf(self) -> bool {
        &&& self.grid.len() == self.n
        &&& forall|y: int| 0 <= y < self.n ==> (#[trigger] self.grid[y]).len() == self.m
    }

    pub open spec fn inside(self, y: int, x: int) -> bool {
        0 <= y < self.n && 0 <= x < self.m
    }

    pub open spec fn cell(self, y: int, x: int) -> GameCell {
        self.grid[y][x]
    }

    /// `(y, x)` comes before `(ty, tx)` in reading order: row by row from
    /// the top, and from left to right within a row.
    pub open spec fn reads_before(y: int, x: int, ty: int, tx: int) -> bool {
        y < ty || (y == ty && x < tx)
    }

    /// The board with one square replaced.
    pub open spec fn put(self, y: int, x: int, c: GameCell) -> Board {
        Board { grid: self.grid.update(y, self.grid[y].update(x, c)), ..self }
    }

    /// The board with a square of another kind on `(y, x)`.
    pub open spec fn with_type(self, y: int, x: int, t: CellType) -> Board {
        self.put(y, x, GameCell { cell_type: t, ..self.cell(y, x) })
    }

    /// The board with `f` applied to every square.
    pub open spec fn map_cells(self, f: spec_fn(GameCell) -> GameCell) -> Board {
        Board {
            grid: Seq::new(
                self.grid.len(),
                |y: int| Seq::new(self.grid[y].len(), |x: int| f(self.grid[y][x])),
            ),
            ..self
        }
    }

    // ----- legality -----

    /// The move may become legal: its ends are neighbours on the board and
    /// neither is remembered as a mountain.
    pub open spec fn could_become_a_valid_move(self, mv: Move) -> bool {
        &&& self.inside(mv.from.0 as int, mv.from.1 as int)
        &&& self.inside(mv.to.0 as int, mv.to.1 as int)
        &&& mv.adjacent()
        &&& self.cell(mv.from.0 as int, mv.from.1 as int).last_seen_type != CellType::Mountains
        &&& self.cell(mv.to.0 as int, mv.to.1 as int).last_seen_type != CellType::Mountains
    }

    /// The square can send an army out: the player to move holds it with more
    /// than one unit.
    pub open spec fn can_leave(self, y: int, x: int) -> bool {
        let c = self.cell(y, x);
        &&& c.army_size > 1
        &&& c.cell_type != CellType::Mountains
        &&& c.owner == Some(self.curr_color)
    }

    /// The move is legal now: a step between neighbours, out of a square that
    /// can send an army and is known as of this turn, onto a square that is
    /// no mountain.
    pub open spec fn is_a_valid_move(self, mv: Move) -> bool {
        &&& self.inside(mv.from.0 as int, mv.from.1 as int)
        &&& self.inside(mv.to.0 as int, mv.to.1 as int)
        &&& mv.adjacent()
        &&& self.can_leave(mv.from.0 as int, mv.from.1 as int)
        &&& self.cell(mv.to.0 as int, mv.to.1 as int).cell_type != CellType::Mountains
        &&& self.cell(mv.from.0 as int, mv.from.1 as int).last_update_time == self.turn
    }

    // ----- turns -----

    /// The growth of the next turn overflows nothing.
    pub open spec fn can_next_turn(self) -> bool {
        &&& self.turn < u32::MAX
        &&& forall|y: int, x: int|
            self.inside(y, x) && grows(#[trigger] self.cell(y, x), (self.turn + 1) as u32)
                ==> self.cell(y, x).army_size < i64::MAX
    }

    /// A new turn begins: the counter goes up and the squares that grow on
    /// that turn gain a unit each.
    pub open spec fn next_turn(self) -> Board {
        let t = (self.turn + 1) as u32;
        Board { turn: t, ..self.map_cells(|c: GameCell| grown(c, t)) }
    }

    /// Passing the move on overflows nothing.
    pub open spec fn can_skip_turn(self) -> bool {
        &&& self.curr_color < usize::MAX
        &&& self.curr_color + 1 >= self.players_num ==> self.can_next_turn()
    }

    /// The move passes to the next player; after the last player a new turn
    /// begins with the first.
    pub open spec fn skip_turn(self) -> Board {
        if self.curr_color + 1 >= self.players_num {
            Board { curr_color: 0, ..self }.next_turn()
        } else {
            Board { curr_color: (self.curr_color + 1) as usize, ..self }
        }
    }

    // ----- combat -----

    /// Every square of `player` goes to `new_owner`.
    pub open spec fn destroy_player(self, player: usize, new_owner: Option<usize>) -> Board {
        self.map_cells(
            |c: GameCell|
                if c.owner == Some(player) {
                    GameCell { owner: new_owner, ..c }
                } else {
                    c
                },
        )
    }

    /// The units that leave the source of the move: all but one.
    pub open spec fn force(self, mv: Move) -> int {
        self.cell(mv.from.0 as int, mv.from.1 as int).army_size - 1
    }

    /// The move takes its destination: the two ends differ in owner and the
    /// force is larger than the army it meets.
    pub open spec fn captures(self, mv: Move) -> bool {
        let src = self.cell(mv.from.0 as int, mv.from.1 as int);
        let dst = self.cell(mv.to.0 as int, mv.to.1 as int);
        dst.owner != src.owner && dst.army_size - self.force(mv) < 0
    }

    /// The board after the armies of the move have met, before the move
    /// passes on. The source keeps one unit. Onto a square of the same owner
    /// the force is added. Against another owner it is subtracted; if more
    /// than the defenders came, the square changes hands with what is left of
    /// the force, and a capital that falls becomes a city and hands all its
    /// owner's squares to the attacker.
    pub open spec fn resolve(self, mv: Move) -> Board {
        let (y1, x1) = (mv.from.0 as int, mv.from.1 as int);
        let (y2, x2) = (mv.to.0 as int, mv.to.1 as int);
        let src = self.cell(y1, x1);
        let dst = self.cell(y2, x2);
        let force = self.force(mv);
        let left = GameCell { army_size: 1, ..src };
        if dst.owner == src.owner {
            let joined = GameCell { army_size: (dst.army_size + force) as i64, ..dst };
            self.put(y1, x1, left).put(y2, x2, joined)
        } else if dst.army_size - force >= 0 {
            let held = GameCell { army_size: (dst.army_size - force) as i64, ..dst };
            self.put(y1, x1, left).put(y2, x2, held)
        } else if dst.cell_type == CellType::General {
            let taken = GameCell {
                army_size: (force - dst.army_size) as i64,
                owner: src.owner,
                cell_type: CellType::City,
                ..dst
            };
            let swept = match dst.owner {
                Some(loser) => self.destroy_player(loser, src.owner),
                None => self,
            };
            swept.put(y1, x1, left).put(y2, x2, taken)
        } else {
            let taken = GameCell {
                army_size: (force - dst.army_size) as i64,
                owner: src.owner,
                ..dst
            };
            self.put(y1, x1, left).put(y2, x2, taken)
        }
    }

    /// The armies of the move can meet: both ends lie on the board, a
    /// capital that falls has an owner, and no army leaves the range of its
    /// number.
    pub open spec fn can_resolve(self, mv: Move) -> bool {
        let src = self.cell(mv.from.0 as int, mv.from.1 as int);
        let dst = self.cell(mv.to.0 as int, mv.to.1 as int);
        let force = self.force(mv);
        &&& self.inside(mv.from.0 as int, mv.from.1 as int)
        &&& self.inside(mv.to.0 as int, mv.to.1 as int)
        &&& i64::MIN <= force
        &&& dst.owner == src.owner ==> i64::MIN <= dst.army_size + force <= i64::MAX
        &&& dst.owner != src.owner ==> -i64::MAX <= dst.army_size - force <= i64::MAX
        &&& self.captures(mv) && dst.cell_type == CellType::General ==> dst.owner is Some
    }

    /// The move can be made: its armies can meet, and the move can be
    /// passed on after that.
    pub open spec fn can_make_move(self, mv: Move) -> bool {
        self.can_resolve(mv) && self.resolve(mv).can_skip_turn()
    }

    /// The board after the move: the armies meet, then the move passes on.
    pub open spec fn make_move(self, mv: Move) -> Board {
        self.resolve(mv).skip_turn()
    }

    /// The board as the keeper of the game leaves it when a round is over:
    /// every square is known as of this turn.
    pub open spec fn stamp_turn(self) -> Board {
        self.map_cells(|c: GameCell| GameCell { last_update_time: self.turn, ..c })
    }

    /// The board after the player to move has given an answer: the
    /// move is made if it is legal; if it is not, or if there is none, the
    /// move is passed on.
    pub open spec fn play(self, answer: Option<Move>) -> Board {
        match answer {
            Some(mv) if self.is_a_valid_move(mv) => self.make_move(mv),
            _ => self.skip_turn(),
        }
    }

    // ----- fog of war -----

    /// The player `id` sees the square: the square or one of the eight
    /// squares around it is the player's own.
    pub open spec fn is_visible_to(self, y: usize, x: usize, id: usize) -> bool {
        exists|ny: int, nx: int|
            self.inside(ny, nx) && -1 <= ny - y <= 1 && -1 <= nx - x <= 1
                && (#[trigger] self.cell(ny, nx)).owner == Some(id)
    }

    /// The square as the player `id` is shown it: as it is where the player
    /// sees it, and behind the fog elsewhere.
    pub open spec fn get_with_fog(self, y: usize, x: usize, id: usize) -> GameCell {
        if self.is_visible_to(y, x, id) {
            self.cell(y as int, x as int)
        } else {
            fogged(self.cell(y as int, x as int))
        }
    }

    /// One square of a viewer's picture, brought up to date from the true
    /// board `other`. A square in view is copied and stamped with the turn.
    /// A square in the fog keeps what the viewer remembered, if the viewer
    /// ever saw it, and else is remembered as the fog shows it.
    pub open spec fn refreshed(self, other: Board, y: usize, x: usize) -> GameCell {
        let shown = other.get_with_fog(y, x, self.curr_color);
        let known = self.cell(y as int, x as int);
        if other.is_visible_to(y, x, self.curr_color) {
            GameCell { last_update_time: other.turn, last_seen_type: shown.cell_type, ..shown }
        } else if known.last_update_time > 0 {
            GameCell {
                last_update_time: known.last_update_time,
                last_seen_type: known.last_seen_type,
                ..shown
            }
        } else {
            GameCell { last_seen_type: shown.cell_type, ..shown }
        }
    }

    /// A viewer's picture after it is brought up to date from the true board
    /// `other`: the counters of `other`, the viewer's own colour, and every
    /// square refreshed.
    pub open spec fn update_from(self, other: Board) -> Board {
        Board {
            curr_color: self.curr_color,
            grid: Seq::new(
                other.n as nat,
                |y: int| Seq::new(other.m as nat, |x: int| self.refreshed(other, y as usize, x as usize)),
            ),
            ..other
        }
    }

    /// The picture has a square wherever `other` has one that its viewer
    /// does not see: there the picture is asked what it remembers.
    pub open spec fn covers(self, other: Board) -> bool {
        forall|y: usize, x: usize|
            other.inside(y as int, x as int) && !(#[trigger] other.is_visible_to(
                y,
                x,
                self.curr_color,
            )) ==> self.inside(y as int, x as int)
    }

    // ----- the moves on offer -----

    /// The step `d` out of `(y, x)` is open: the square can send an army and
    /// the step ends on the board, on a square that is no mountain.
    pub open spec fn is_open_step(self, y: int, x: int, d: int) -> bool {
        let (ny, nx) = step(y, x, d);
        &&& self.inside(y, x)
        &&& self.can_leave(y, x)
        &&& self.inside(ny, nx)
        &&& self.cell(ny, nx).cell_type != CellType::Mountains
    }

    /// The step is listed: it is open and, where only what is known as of
    /// this turn counts, its source is so known.
    pub open spec fn lists(self, y: int, x: int, d: int, current_only: bool) -> bool {
        self.is_open_step(y, x, d) && (current_only ==> self.cell(y, x).last_update_time
            == self.turn)
    }

    /// The listed moves out of `(y, x)` among its first `d` directions.
    pub open spec fn moves_of_cell(self, y: int, x: int, d: int, current_only: bool) -> Seq<Move>
        decreases d,
    {
        if d <= 0 {
            Seq::empty()
        } else {
            let before = self.moves_of_cell(y, x, d - 1, current_only);
            if self.lists(y, x, d - 1, current_only) {
                before.push(step_move(y, x, d - 1))
            } else {
                before
            }
        }
    }

    /// The listed moves out of the first `x` squares of row `y`.
    pub open spec fn moves_of_row(self, y: int, x: int, current_only: bool) -> Seq<Move>
        decreases x,
    {
        if x <= 0 {
            Seq::empty()
        } else {
            self.moves_of_row(y, x - 1, current_only) + self.moves_of_cell(
                y,
                x - 1,
                4,
                current_only,
            )
        }
    }

    /// The listed moves out of the first `y` rows.
    pub open spec fn moves_of_rows(self, y: int, current_only: bool) -> Seq<Move>
        decreases y,
    {
        if y <= 0 {
            Seq::empty()
        } else {
            self.moves_of_rows(y - 1, current_only) + self.moves_of_row(
                y - 1,
                self.m as int,
                current_only,
            )
        }
    }

    /// The open moves of the player to move: square by square in reading
    /// order, and out of each square up, left, right, down.
    pub open spec fn get_all_moves(self) -> Seq<Move> {
        self.moves_of_rows(self.n as int, false)
    }

    /// The legal moves of the player to move, in the same order.
    pub open spec fn valid_moves(self) -> Seq<Move> {
        self.moves_of_rows(self.n as int, true)
    }

    // ----- capitals -----

    /// The capital of the player `id` stands on `(y, x)`.
    pub open spec fn is_capital_of(self, y: int, x: int, id: usize) -> bool {
        &&& self.inside(y, x)
        &&& self.cell(y, x).cell_type == CellType::General
        &&& self.cell(y, x).owner == Some(id)
    }

    /// The player `id` has a capital, and only one.
    pub open spec fn has_one_capital(self, id: usize) -> bool {
        exists|y: int, x: int|
            #![trigger self.is_capital_of(y, x, id)]
            self.is_capital_of(y, x, id) && forall|r: int, c: int| #[trigger]
                self.is_capital_of(r, c, id) ==> r == y && c == x
    }

    /// Every capital has an owner.
    pub open spec fn capitals_owned(self) -> bool {
        forall|y: int, x: int|
            self.inside(y, x) && (#[trigger] self.cell(y, x)).cell_type == CellType::General
                ==> self.cell(y, x).owner is Some
    }

    /// The player `id` holds no square.
    pub open spec fn holds_nothing(self, id: usize) -> bool {
        forall|y: int, x: int|
            self.inside(y, x) ==> (#[trigger] self.cell(y, x)).owner != Some(id)
    }

    /// The board of a game that is about to begin, for `k` players on `n`
    /// rows and `m` columns: the first player is to move in turn 0, the
    /// passable ground hangs together, every square is as it is dealt, and
    /// every player has one capital.
    pub open spec fn is_fresh(self, n: usize, m: usize, k: usize) -> bool {
        &&& self.wf()
        &&& self.n == n
        &&& self.m == m
        &&& self.players_num == k
        &&& self.curr_color == 0
        &&& self.turn == 0
        &&& crate::connectivity::connected(self.grid)
        &&& forall|y: int, x: int| self.inside(y, x) ==> dealt(#[trigger] self.cell(y, x), k)
        &&& forall|id: usize| id < k ==> #[trigger] self.has_one_capital(id)
    }
}

} // verus!
