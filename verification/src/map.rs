//! The map of a game and what can be done with it.

use vstd::prelude::*;
use crate::board::{gap, grown, grows, step, Board};
use crate::cell::{CellType, GameCell};

verus! {

/// A step of an army from one square to a neighbour, as `(row, column)`
/// pairs. A move knows nothing of a map: whether it is legal is asked of the
/// map it is to be made on.
#[derive(Clone, Copy, Debug)]
pub struct Move {
    pub from: (usize, usize),
    pub to: (usize, usize),
}

impl Move {
    pub fn new(y1: usize, x1: usize, y2: usize, x2: usize) -> (mv: Move)
        ensures
            mv == (Move { from: (y1, x1), to: (y2, x2) }),
    {
        Move { from: (y1, x1), to: (y2, x2) }
    }

    /// The two ends are neighbours: one step apart along one axis.
    pub open spec fn adjacent(self) -> bool {
        gap(self.from.0, self.to.0) + gap(self.from.1, self.to.1) == 1
    }

    /// Whether the two ends are neighbours.
    pub fn is_adjacent(&self) -> (b: bool)
        ensures
            b == self.adjacent(),
    {
        let (y1, x1) = self.from;
        let (y2, x2) = self.to;
        if y1 == y2 {
            (x1 < x2 && x2 - x1 == 1) || (x2 < x1 && x1 - x2 == 1)
        } else if x1 == x2 {
            (y1 < y2 && y2 - y1 == 1) || (y2 < y1 && y1 - y2 == 1)
        } else {
            false
        }
    }
}

/// The totals of one player.
#[derive(Clone, Copy, PartialEq, Eq, Structural, Debug)]
pub struct PlayerStatistics {
    pub total_army: i32,
    pub total_fields: i32,
}

impl Default for PlayerStatistics {
    fn default() -> (s: Self)
        ensures
            s.total_army == 0,
            s.total_fields == 0,
    {
        PlayerStatistics { total_army: 0, total_fields: 0 }
    }
}

/// The rows of a grid as sequences.
pub open spec fn rows_of(grid: Vec<Vec<GameCell>>) -> Seq<Seq<GameCell>> {
    Seq::new(grid@.len(), |y: int| grid@[y]@)
}

/// The map of a game: `n` rows of `m` squares, the number of players, the
/// player to move and the turn.
#[derive(Debug)]
pub struct GameMap {
    pub n: usize,
    pub m: usize,
    pub players_num: usize,
    pub curr_color: usize,
    pub turn: u32,
    pub grid: Vec<Vec<GameCell>>,
}

impl View for GameMap {
    type V = Board;

    open spec fn view(&self) -> Board {
        Board {
            n: self.n,
            m: self.m,
            players_num: self.players_num,
            curr_color: self.curr_color,
            turn: self.turn,
            grid: rows_of(self.grid),
        }
    }
}

impl Clone for GameMap {
    fn clone(&self) -> (copy: Self)
        ensures
            copy@ == self@,
    {
        let copy = GameMap {
            n: self.n,
            m: self.m,
            players_num: self.players_num,
            curr_color: self.curr_color,
            turn: self.turn,
            grid: self.grid.clone(),
        };
        proof {
            assert forall|y: int| 0 <= y < self.grid@.len() implies #[trigger] copy@.grid[y]
                =~= self@.grid[y] by {}
            assert(copy@.grid =~= self@.grid);
        }
        copy
    }
}

impl Default for GameMap {
    /// The map without squares and without players.
    fn default() -> (map: Self)
        ensures
            map.wf(),
            map.n == 0,
            map.m == 0,
            map.players_num == 0,
            map.curr_color == 0,
            map.turn == 0,
    {
        GameMap { n: 0, m: 0, players_num: 0, curr_color: 0, turn: 0, grid: Vec::new() }
    }
}

impl GameMap {
    /// The grid has `n` rows of `m` squares.
    pub open spec fn wf(&self) -> bool {
        self@.wf()
    }

    /// Whether the grid has `n` rows of `m` squares.
    pub fn is_well_formed(&self) -> (b: bool)
        ensures
            b == self.wf(),
    {
        if self.grid.len() != self.n {
            return false;
        }
        let mut y: usize = 0;
        while y < self.n
            invariant
                y <= self.n,
                self.grid@.len() == self.n,
                forall|k: int| 0 <= k < y ==> (#[trigger] self@.grid[k]).len() == self.m,
            decreases self.n - y,
        {
            if self.grid[y].len() != self.m {
                assert(self@.grid[y as int].len() != self.m);
                return false;
            }
            y += 1;
        }
        true
    }

    /// Whether the move may become legal. See
    /// [`Board::could_become_a_valid_move`].
    pub fn could_become_a_valid_move(&self, m: Move) -> (b: bool)
        requires
            self.wf(),
        ensures
            b == self@.could_become_a_valid_move(m),
    {
        let Move { from: (y1, x1), to: (y2, x2) } = m;
        if y1 >= self.n || x1 >= self.m || y2 >= self.n || x2 >= self.m || !m.is_adjacent() {
            return false;
        }
        assert(self@.grid[y1 as int] == self.grid@[y1 as int]@);
        assert(self@.grid[y2 as int] == self.grid@[y2 as int]@);
        let from = self.grid[y1][x1];
        let to = self.grid[y2][x2];
        from.last_seen_type != CellType::Mountains && to.last_seen_type != CellType::Mountains
    }

    /// Whether the move is legal now. See [`Board::is_a_valid_move`].
    pub fn is_a_valid_move(&self, m: Move) -> (b: bool)
        requires
            self.wf(),
        ensures
            b == self@.is_a_valid_move(m),
    {
        let Move { from: (y1, x1), to: (y2, x2) } = m;
        if y1 >= self.n || x1 >= self.m || y2 >= self.n || x2 >= self.m || !m.is_adjacent() {
            return false;
        }
        assert(self@.grid[y1 as int] == self.grid@[y1 as int]@);
        assert(self@.grid[y2 as int] == self.grid@[y2 as int]@);
        let from = self.grid[y1][x1];
        let to = self.grid[y2][x2];
        from.army_size > 1 && from.cell_type != CellType::Mountains && from.owner == Some(
            self.curr_color,
        ) && to.cell_type != CellType::Mountains && from.last_update_time == self.turn
    }

    /// Replaces every square by what `f` makes of its place and of what
    /// stands on it, square by square in reading order.
    fn change_cells<F: Fn(usize, usize, GameCell) -> GameCell>(&mut self, f: F)
        requires
            old(self).wf(),
            forall|y: usize, x: usize|
                old(self)@.inside(y as int, x as int) ==> #[trigger] call_requires(
                    f,
                    (y, x, old(self)@.cell(y as int, x as int)),
                ),
        ensures
            final(self).wf(),
            final(self).n == old(self).n,
            final(self).m == old(self).m,
            final(self).players_num == old(self).players_num,
            final(self).curr_color == old(self).curr_color,
            final(self).turn == old(self).turn,
            forall|y: usize, x: usize|
                old(self)@.inside(y as int, x as int) ==> #[trigger] call_ensures(
                    f,
                    (y, x, old(self)@.cell(y as int, x as int)),
                    final(self)@.cell(y as int, x as int),
                ),
    {
        let ghost before = self@;
        let n = self.n;
        let m = self.m;
        let mut y: usize = 0;
        while y < n
            invariant
                y <= n,
                before.wf(),
                self.n == n == before.n,
                self.m == m == before.m,
                self.turn == before.turn,
                self.players_num == before.players_num,
                self.curr_color == before.curr_color,
                self.wf(),
                forall|r: usize, c: usize|
                    before.inside(r as int, c as int) ==> #[trigger] call_requires(
                        f,
                        (r, c, before.cell(r as int, c as int)),
                    ),
                forall|r: usize, c: usize|
                    r < y && c < m ==> #[trigger] call_ensures(
                        f,
                        (r, c, before.cell(r as int, c as int)),
                        self@.cell(r as int, c as int),
                    ),
                forall|r: int, c: int|
                    y <= r < n && 0 <= c < m ==> #[trigger] self@.cell(r, c) == before.cell(r, c),
            decreases n - y,
        {
            let mut x: usize = 0;
            while x < m
                invariant
                    y < n,
                    x <= m,
                    before.wf(),
                    self.n == n == before.n,
                    self.m == m == before.m,
                    self.turn == before.turn,
                    self.players_num == before.players_num,
                    self.curr_color == before.curr_color,
                    self.wf(),
                    forall|r: usize, c: usize|
                        before.inside(r as int, c as int) ==> #[trigger] call_requires(
                            f,
                            (r, c, before.cell(r as int, c as int)),
                        ),
                    forall|r: usize, c: usize|
                        (r < y && c < m) || (r == y && c < x) ==> #[trigger] call_ensures(
                            f,
                            (r, c, before.cell(r as int, c as int)),
                            self@.cell(r as int, c as int),
                        ),
                    forall|r: int, c: int|
                        (y < r < n && 0 <= c < m) || (r == y && x <= c < m)
                            ==> #[trigger] self@.cell(r, c) == before.cell(r, c),
                decreases m - x,
            {
                let ghost mid = self@;
                assert(self@.grid[y as int] == self.grid@[y as int]@);
                assert(mid.cell(y as int, x as int) == before.cell(y as int, x as int));
                assert(before.inside(y as int, x as int));
                let cell = f(y, x, self.grid[y][x]);
                self.grid[y][x] = cell;
                proof {
                    assert(self@.grid[y as int] == self.grid@[y as int]@);
                    assert forall|r: int| 0 <= r < n implies (#[trigger] self@.grid[r]).len()
                        == m by {
                        assert(mid.grid[r].len() == m);
                    }
                    assert forall|r: int, c: int|
                        0 <= r < n && 0 <= c < m && !(r == y && c == x) implies #[trigger] self@.cell(
                        r,
                        c,
                    ) == mid.cell(r, c) by {}
                    assert(self@.cell(y as int, x as int) == cell);
                }
                x += 1;
            }
            y += 1;
        }
    }

    /// A new turn begins. See [`Board::next_turn`].
    pub fn next_turn(&mut self)
        requires
            old(self).wf(),
            old(self)@.can_next_turn(),
        ensures
            final(self)@ == old(self)@.next_turn(),
            final(self).wf(),
    {
        let ghost before = self@;
        self.turn += 1;
        let turn = self.turn;
        let grow = |y: usize, x: usize, c: GameCell| -> (r: GameCell)
            requires
                grows(c, turn) ==> c.army_size < i64::MAX,
            ensures
                r == grown(c, turn),
            {
                let mut cell = c;
                if cell.owner.is_some() && (turn % 50 == 0 || cell.city_or_general() && turn % 2
                    == 0) {
                    cell.army_size += 1;
                }
                cell
            };
        proof {
            assert forall|y: usize, x: usize|
                self@.inside(y as int, x as int) implies #[trigger] call_requires(
                grow,
                (y, x, self@.cell(y as int, x as int)),
            ) by {
                assert(self@.cell(y as int, x as int) == before.cell(y as int, x as int));
            }
        }
        let ghost mid = self@;
        self.change_cells(grow);
        proof {
            let after = before.next_turn();
            assert forall|r: int| 0 <= r < self.n implies #[trigger] self@.grid[r]
                =~= after.grid[r] by {
                assert forall|c: int| 0 <= c < self.m implies self@.grid[r][c]
                    == after.grid[r][c] by {
                    assert(mid.cell(r, c) == before.cell(r, c));
                    assert(call_ensures(
                        grow,
                        (r as usize, c as usize, mid.cell(r, c)),
                        self@.cell(r, c),
                    ));
                }
            }
            assert(self@.grid =~= after.grid);
        }
    }

    /// Every square of `player_id` goes to `new_owner`. See
    /// [`Board::destroy_player`].
    pub fn destroy_player(&mut self, player_id: usize, new_owner: Option<usize>)
        requires
            old(self).wf(),
        ensures
            final(self)@ == old(self)@.destroy_player(player_id, new_owner),
            final(self).wf(),
    {
        let ghost before = self@;
        let hand_over = |y: usize, x: usize, c: GameCell| -> (r: GameCell)
            ensures
                r == if c.owner == Some(player_id) {
                    GameCell { owner: new_owner, ..c }
                } else {
                    c
                },
            {
                let mut cell = c;
                if cell.owner == Some(player_id) {
                    cell.owner = new_owner;
                }
                cell
            };
        self.change_cells(hand_over);
        proof {
            let after = before.destroy_player(player_id, new_owner);
            assert forall|r: int| 0 <= r < self.n implies #[trigger] self@.grid[r]
                =~= after.grid[r] by {
                assert forall|c: int| 0 <= c < self.m implies self@.grid[r][c]
                    == after.grid[r][c] by {
                    assert(call_ensures(
                        hand_over,
                        (r as usize, c as usize, before.cell(r, c)),
                        self@.cell(r, c),
                    ));
                }
            }
            assert(self@.grid =~= after.grid);
        }
    }

    /// The move passes to the next player. See [`Board::skip_turn`].
    pub fn skip_turn(&mut self)
        requires
            old(self).wf(),
            old(self)@.can_skip_turn(),
        ensures
            final(self)@ == old(self)@.skip_turn(),
            final(self).wf(),
    {
        self.curr_color += 1;
        if self.curr_color >= self.players_num {
            self.curr_color = 0;
            proof {
                let first = self@;
                assert(first == (Board { curr_color: 0, ..old(self)@ }));
                assert forall|y: int, x: int|
                    first.inside(y, x) && grows(
                        #[trigger] first.cell(y, x),
                        (first.turn + 1) as u32,
                    ) implies first.cell(y, x).army_size < i64::MAX by {
                    assert(first.cell(y, x) == old(self)@.cell(y, x));
                }
            }
            self.next_turn();
        }
    }

    /// Lets the armies of the move meet, without passing the move on. See
    /// [`Board::resolve`].
    pub fn resolve(&mut self, game_move: Move)
        requires
            old(self).wf(),
            old(self)@.can_resolve(game_move),
        ensures
            final(self)@ == old(self)@.resolve(game_move),
            final(self).wf(),
    {
        let ghost before = self@;
        let Move { from: (y1, x1), to: (y2, x2) } = game_move;
        assert(self@.grid[y1 as int] == self.grid@[y1 as int]@);
        assert(self@.grid[y2 as int] == self.grid@[y2 as int]@);
        let mut cell1 = self.grid[y1][x1];
        let mut cell2 = self.grid[y2][x2];
        if cell2.owner == cell1.owner {
            cell2.army_size += cell1.army_size - 1;
        } else {
            cell2.army_size -= cell1.army_size - 1;
            if cell2.army_size < 0 {
                cell2.army_size = -cell2.army_size;
                if cell2.cell_type == CellType::General {
                    match cell2.owner {
                        Some(loser) => self.destroy_player(loser, cell1.owner),
                        None => {},
                    }
                    cell2.cell_type = CellType::City;
                }
                cell2.owner = cell1.owner;
            }
        }
        cell1.army_size = 1;
        let ghost swept = self@;
        assert(self@.grid[y1 as int] == self.grid@[y1 as int]@);
        self.grid[y1][x1] = cell1;
        proof {
            assert(self@.grid[y1 as int] == self.grid@[y1 as int]@);
            assert forall|r: int| 0 <= r < self.n implies (#[trigger] self@.grid[r]).len()
                == self.m by {
                assert(swept.grid[r].len() == self.m);
            }
            assert forall|r: int| 0 <= r < self.n implies #[trigger] self@.grid[r]
                =~= swept.put(y1 as int, x1 as int, cell1).grid[r] by {}
            assert(self@.grid =~= swept.put(y1 as int, x1 as int, cell1).grid);
        }
        let ghost left = self@;
        assert(self@.grid[y2 as int] == self.grid@[y2 as int]@);
        self.grid[y2][x2] = cell2;
        proof {
            assert(self@.grid[y2 as int] == self.grid@[y2 as int]@);
            assert forall|r: int| 0 <= r < self.n implies (#[trigger] self@.grid[r]).len()
                == self.m by {
                assert(left.grid[r].len() == self.m);
            }
            assert forall|r: int| 0 <= r < self.n implies #[trigger] self@.grid[r]
                =~= left.put(y2 as int, x2 as int, cell2).grid[r] by {}
            assert(self@.grid =~= left.put(y2 as int, x2 as int, cell2).grid);
            assert(self@ == before.resolve(game_move));
        }
    }

    /// Makes the move and passes the turn on. See [`Board::make_move`] and,
    /// for how the armies meet, [`Board::resolve`].
    pub fn make_move(&mut self, game_move: Move)
        requires
            old(self).wf(),
            old(self)@.can_make_move(game_move),
        ensures
            final(self)@ == old(self)@.make_move(game_move),
            final(self).wf(),
    {
        self.resolve(game_move);
        self.skip_turn();
    }

    /// Takes the answer of the player to move: makes the move if it is
    /// legal, and passes the move on if it is not or if there is none. Says
    /// whether the move was made. See [`Board::play`].
    pub fn play(&mut self, answer: Option<Move>) -> (made: bool)
        requires
            old(self).wf(),
            old(self)@.can_skip_turn(),
            answer matches Some(mv) ==> old(self)@.is_a_valid_move(mv) ==> old(
                self,
            )@.can_make_move(mv),
        ensures
            made == (answer matches Some(mv) && old(self)@.is_a_valid_move(mv)),
            final(self)@ == old(self)@.play(answer),
            final(self).wf(),
    {
        match answer {
            Some(mv) => {
                if self.is_a_valid_move(mv) {
                    self.make_move(mv);
                    true
                } else {
                    self.skip_turn();
                    false
                }
            },
            None => {
                self.skip_turn();
                false
            },
        }
    }

    /// Marks every square as known as of this turn. See
    /// [`Board::stamp_turn`].
    pub fn stamp_turn(&mut self)
        requires
            old(self).wf(),
        ensures
            final(self)@ == old(self)@.stamp_turn(),
            final(self).wf(),
    {
        let ghost before = self@;
        let turn = self.turn;
        let stamp = |y: usize, x: usize, c: GameCell| -> (r: GameCell)
            ensures
                r == (GameCell { last_update_time: turn, ..c }),
            {
                let mut cell = c;
                cell.last_update_time = turn;
                cell
            };
        self.change_cells(stamp);
        proof {
            let after = before.stamp_turn();
            assert forall|r: int| 0 <= r < self.n implies #[trigger] self@.grid[r]
                =~= after.grid[r] by {
                assert forall|c: int| 0 <= c < self.m implies self@.grid[r][c]
                    == after.grid[r][c] by {
                    assert(call_ensures(
                        stamp,
                        (r as usize, c as usize, before.cell(r, c)),
                        self@.cell(r, c),
                    ));
                }
            }
            assert(self@.grid =~= after.grid);
        }
    }

    /// Whether the player `id` sees the square `(y, x)`. See
    /// [`Board::is_visible_to`].
    pub fn is_visible_to(&self, y: usize, x: usize, id: usize) -> (b: bool)
        requires
            self.wf(),
        ensures
            b == self@.is_visible_to(y, x, id),
    {
        let (y_lo, y_hi) = window(y, self.n);
        let (x_lo, x_hi) = window(x, self.m);
        let mut ny = y_lo;
        while ny < y_hi
            invariant
                self.wf(),
                y_lo <= ny,
                y_hi <= self.n,
                x_hi <= self.m,
                y_lo + 1 >= y,
                x_lo + 1 >= x,
                y_hi <= y + 2,
                x_hi <= x + 2,
                forall|r: int, c: int|
                    y_lo <= r < ny && x_lo <= c < x_hi ==> (#[trigger] self@.cell(r, c)).owner
                        != Some(id),
            decreases y_hi - ny,
        {
            let mut nx = x_lo;
            while nx < x_hi
                invariant
                    self.wf(),
                    y_lo <= ny < y_hi,
                    y_hi <= self.n,
                    x_lo <= nx,
                    x_hi <= self.m,
                    y_lo + 1 >= y,
                    x_lo + 1 >= x,
                    y_hi <= y + 2,
                    x_hi <= x + 2,
                    forall|r: int, c: int|
                        y_lo <= r < ny && x_lo <= c < x_hi ==> (#[trigger] self@.cell(
                            r,
                            c,
                        )).owner != Some(id),
                    forall|c: int|
                        x_lo <= c < nx ==> (#[trigger] self@.cell(ny as int, c)).owner != Some(
                            id,
                        ),
                decreases x_hi - nx,
            {
                assert(self@.grid[ny as int] == self.grid@[ny as int]@);
                if self.grid[ny][nx].owner == Some(id) {
                    assert(self@.inside(ny as int, nx as int) && self@.cell(
                        ny as int,
                        nx as int,
                    ).owner == Some(id));
                    return true;
                }
                nx += 1;
            }
            ny += 1;
        }
        assert forall|r: int, c: int|
            self@.inside(r, c) && -1 <= r - y <= 1 && -1 <= c - x <= 1 implies (#[trigger] self@.cell(
            r,
            c,
        )).owner != Some(id) by {
            assert(y_lo <= r < y_hi && x_lo <= c < x_hi);
        }
        false
    }

    /// The square `(y, x)` as the player `id` is shown it. See
    /// [`Board::get_with_fog`].
    pub fn get_with_fog(&self, y: usize, x: usize, id: usize) -> (cell: GameCell)
        requires
            self.wf(),
            self@.inside(y as int, x as int),
        ensures
            cell == self@.get_with_fog(y, x, id),
            self@.is_visible_to(y, x, id) ==> cell == self@.cell(y as int, x as int),
            !self@.is_visible_to(y, x, id) ==> {
                &&& cell.army_size == 0
                &&& cell.owner is None
                &&& !cell.is_friend
                &&& cell.cell_type == if self@.cell(y as int, x as int).cell_type
                    == CellType::Mountains || self@.cell(y as int, x as int).cell_type
                    == CellType::City {
                    CellType::Mountains
                } else {
                    CellType::Empty
                }
            },
            cell.last_seen_type == self@.cell(y as int, x as int).last_seen_type,
            cell.last_update_time == self@.cell(y as int, x as int).last_update_time,
    {
        assert(self@.grid[y as int] == self.grid@[y as int]@);
        let cell = self.grid[y][x];
        if self.is_visible_to(y, x, id) {
            return cell;
        }
        if cell.cell_type == CellType::Mountains || cell.cell_type == CellType::City {
            GameCell {
                army_size: 0,
                owner: None,
                cell_type: CellType::Mountains,
                is_friend: false,
                last_seen_type: cell.last_seen_type,
                last_update_time: cell.last_update_time,
            }
        } else {
            GameCell {
                army_size: 0,
                owner: None,
                cell_type: CellType::Empty,
                is_friend: false,
                last_seen_type: cell.last_seen_type,
                last_update_time: cell.last_update_time,
            }
        }
    }

    /// Brings a viewer's picture up to date from the true map `other`. The
    /// viewer is the player whose colour the picture carries, and the picture
    /// keeps that colour. See [`Board::update_from`] and, for one square,
    /// [`Board::refreshed`].
    pub fn update_from(&mut self, other: &GameMap)
        requires
            old(self).wf(),
            other.wf(),
            old(self)@.covers(other@),
        ensures
            final(self)@ == old(self)@.update_from(other@),
            final(self).wf(),
    {
        let ghost before = self@;
        let ghost truth = other@;
        let old_grid = self.grid.clone();
        let old_color = self.curr_color;
        *self = other.clone();
        self.curr_color = old_color;
        let turn = self.turn;
        assert(old_grid@.len() == before.n);
        assert forall|r: int| 0 <= r < before.n implies (#[trigger] old_grid@[r])@
            == before.grid[r] by {}
        let known: Ghost<Board> = Ghost(before);
        let refresh = |y: usize, x: usize, c: GameCell| -> (r: GameCell)
            requires
                other@.inside(y as int, x as int),
            ensures
                r == known@.refreshed(other@, y, x),
            {
                let visible = other.is_visible_to(y, x, old_color);
                let mut cell = other.get_with_fog(y, x, old_color);
                proof {
                    if !visible {
                        assert(known@.inside(y as int, x as int));
                        assert(old_grid@[y as int]@ == known@.grid[y as int]);
                    }
                }
                if visible {
                    cell.last_update_time = turn;
                    cell.last_seen_type = cell.cell_type;
                } else if old_grid[y][x].last_update_time > 0 {
                    cell.last_update_time = old_grid[y][x].last_update_time;
                    cell.last_seen_type = old_grid[y][x].last_seen_type;
                } else {
                    cell.last_seen_type = cell.cell_type;
                }
                cell
            };
        let ghost mid = self@;
        self.change_cells(refresh);
        proof {
            let after = before.update_from(truth);
            assert forall|r: int| 0 <= r < self.n implies #[trigger] self@.grid[r]
                =~= after.grid[r] by {
                assert forall|c: int| 0 <= c < self.m implies self@.grid[r][c]
                    == after.grid[r][c] by {
                    assert(call_ensures(
                        refresh,
                        (r as usize, c as usize, mid.cell(r, c)),
                        self@.cell(r, c),
                    ));
                }
            }
            assert(self@.grid =~= after.grid);
        }
    }

    /// The listed moves of the player to move, in reading order. See
    /// [`Board::moves_of_rows`].
    pub(crate) fn list_moves(&self, current_only: bool) -> (moves: Vec<Move>)
        requires
            self.wf(),
        ensures
            moves@ == self@.moves_of_rows(self.n as int, current_only),
    {
        let mut all_moves: Vec<Move> = Vec::new();
        let mut y: usize = 0;
        while y < self.n
            invariant
                self.wf(),
                y <= self.n,
                all_moves@ == self@.moves_of_rows(y as int, current_only),
            decreases self.n - y,
        {
            let ghost rows = all_moves@;
            let mut x: usize = 0;
            while x < self.m
                invariant
                    self.wf(),
                    y < self.n,
                    x <= self.m,
                    rows == self@.moves_of_rows(y as int, current_only),
                    all_moves@ == rows + self@.moves_of_row(y as int, x as int, current_only),
                decreases self.m - x,
            {
                let ghost row = all_moves@;
                assert(self@.grid[y as int] == self.grid@[y as int]@);
                let from = self.grid[y][x];
                let ready = from.army_size > 1 && from.cell_type != CellType::Mountains
                    && from.owner == Some(self.curr_color) && (!current_only
                    || from.last_update_time == self.turn);
                let mut d: usize = 0;
                while d < 4
                    invariant
                        self.wf(),
                        y < self.n,
                        x < self.m,
                        d <= 4,
                        ready == (self@.can_leave(y as int, x as int) && (current_only
                            ==> self@.cell(y as int, x as int).last_update_time == self.turn)),
                        all_moves@ == row + self@.moves_of_cell(
                            y as int,
                            x as int,
                            d as int,
                            current_only,
                        ),
                    decreases 4 - d,
                {
                    if ready {
                        match step_within(self.n, self.m, y, x, d) {
                            Some((ny, nx)) => {
                                assert(self@.grid[ny as int] == self.grid@[ny as int]@);
                                if self.grid[ny][nx].cell_type != CellType::Mountains {
                                    all_moves.push(Move::new(y, x, ny, nx));
                                    assert(all_moves@ =~= row + self@.moves_of_cell(
                                        y as int,
                                        x as int,
                                        d as int + 1,
                                        current_only,
                                    ));
                                }
                            },
                            None => {},
                        }
                    }
                    d += 1;
                }
                assert(all_moves@ =~= rows + self@.moves_of_row(
                    y as int,
                    x as int + 1,
                    current_only,
                ));
                x += 1;
            }
            y += 1;
        }
        all_moves
    }

    /// The open moves of the player to move: out of every square that the
    /// player holds with more than one unit, onto every neighbour that is no
    /// mountain. See
    /// [`Board::get_all_moves`].
    pub fn get_all_moves(&self) -> (moves: Vec<Move>)
        requires
            self.wf(),
        ensures
            moves@ == self@.get_all_moves(),
    {
        self.list_moves(false)
    }
}

/// The part of `0..len` that lies within one step of `c`, as a half-open
/// range.
fn window(c: usize, len: usize) -> (r: (usize, usize))
    ensures
        r.0 == if c > 0 { c - 1 } else { 0 },
        r.1 == if len > 0 && c < len - 1 { c + 2 } else { len as int },
{
    let lo = if c > 0 {
        c - 1
    } else {
        0
    };
    let hi = if len > 0 && c < len - 1 {
        c + 2
    } else {
        len
    };
    (lo, hi)
}

/// The square one step from `(y, x)` in direction `d`, if it lies on a grid
/// of `n` rows and `m` columns.
pub(crate) fn step_within(n: usize, m: usize, y: usize, x: usize, d: usize) -> (to: Option<
    (usize, usize),
>)
    requires
        d < 4,
    ensures
        to is Some <==> {
            let (ny, nx) = step(y as int, x as int, d as int);
            0 <= ny < n && 0 <= nx < m
        },
        to matches Some(p) ==> (p.0 as int, p.1 as int) == step(y as int, x as int, d as int),
{
    if d == 0 {
        if y > 0 && y - 1 < n && x < m {
            Some((y - 1, x))
        } else {
            None
        }
    } else if d == 1 {
        if x > 0 && x - 1 < m && y < n {
            Some((y, x - 1))
        } else {
            None
        }
    } else if d == 2 {
        if x < usize::MAX && x + 1 < m && y < n {
            Some((y, x + 1))
        } else {
            None
        }
    } else {
        if y < usize::MAX && y + 1 < n && x < m {
            Some((y + 1, x))
        } else {
            None
        }
    }
}

} // verus!
