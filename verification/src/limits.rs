//! Whether a map is within the limits that the rules ask of it. A caller
//! who cannot prove it can ask.

use vstd::prelude::*;
use crate::board::grows;
use crate::cell::CellType;
use crate::map::{GameMap, Move};
use crate::search::{INF, MAX_CELLS};

verus! {

impl GameMap {
    /// Whether a new turn can begin. See [`crate::board::Board::can_next_turn`].
    pub fn can_next_turn(&self) -> (b: bool)
        requires
            self.wf(),
        ensures
            b == self@.can_next_turn(),
    {
        if self.turn == u32::MAX {
            return false;
        }
        let turn = self.turn + 1;
        let mut y: usize = 0;
        while y < self.n
            invariant
                self.wf(),
                y <= self.n,
                turn == self.turn + 1,
                forall|r: int, c: int|
                    0 <= r < y && 0 <= c < self.m && grows(#[trigger] self@.cell(r, c), turn)
                        ==> self@.cell(r, c).army_size < i64::MAX,
            decreases self.n - y,
        {
            let mut x: usize = 0;
            while x < self.m
                invariant
                    self.wf(),
                    y < self.n,
                    x <= self.m,
                    turn == self.turn + 1,
                    forall|r: int, c: int|
                        0 <= r < y && 0 <= c < self.m && grows(#[trigger] self@.cell(r, c), turn)
                            ==> self@.cell(r, c).army_size < i64::MAX,
                    forall|c: int|
                        0 <= c < x && grows(#[trigger] self@.cell(y as int, c), turn) ==> self@.cell(
                            y as int,
                            c,
                        ).army_size < i64::MAX,
                decreases self.m - x,
            {
                assert(self@.grid[y as int] == self.grid@[y as int]@);
                let cell = self.grid[y][x];
                if cell.owner.is_some() && (turn % 50 == 0 || cell.city_or_general() && turn % 2
                    == 0) && cell.army_size == i64::MAX {
                    assert(self@.inside(y as int, x as int) && grows(
                        self@.cell(y as int, x as int),
                        turn,
                    ));
                    return false;
                }
                x += 1;
            }
            y += 1;
        }
        true
    }

    /// Whether the move can be passed on. See
    /// [`crate::board::Board::can_skip_turn`].
    pub fn can_skip_turn(&self) -> (b: bool)
        requires
            self.wf(),
        ensures
            b == self@.can_skip_turn(),
    {
        if self.curr_color == usize::MAX {
            return false;
        }
        if self.curr_color + 1 < self.players_num {
            return true;
        }
        self.can_next_turn()
    }

    /// Whether the armies of the move can meet. See
    /// [`crate::board::Board::can_resolve`].
    pub fn can_resolve(&self, mv: Move) -> (b: bool)
        requires
            self.wf(),
        ensures
            b == self@.can_resolve(mv),
    {
        let Move { from: (y1, x1), to: (y2, x2) } = mv;
        if y1 >= self.n || x1 >= self.m || y2 >= self.n || x2 >= self.m {
            return false;
        }
        assert(self@.grid[y1 as int] == self.grid@[y1 as int]@);
        assert(self@.grid[y2 as int] == self.grid@[y2 as int]@);
        let src = self.grid[y1][x1];
        let dst = self.grid[y2][x2];
        if src.army_size == i64::MIN {
            return false;
        }
        let force: i128 = src.army_size as i128 - 1;
        let low: i128 = i64::MIN as i128;
        let high: i128 = i64::MAX as i128;
        if dst.owner == src.owner {
            let sum: i128 = dst.army_size as i128 + force;
            low <= sum && sum <= high
        } else {
            let rest: i128 = dst.army_size as i128 - force;
            if rest <= low || rest > high {
                return false;
            }
            !(rest < 0 && dst.cell_type == CellType::General && dst.owner.is_none())
        }
    }

    /// Whether the move can be made. See
    /// [`crate::board::Board::can_make_move`].
    pub fn can_make_move(&self, mv: Move) -> (b: bool)
        requires
            self.wf(),
        ensures
            b == self@.can_make_move(mv),
    {
        if !self.can_resolve(mv) {
            return false;
        }
        let mut probe = self.clone();
        probe.resolve(mv);
        probe.can_skip_turn()
    }

    /// Whether a player can decide on the map. See
    /// [`crate::board::Board::playable`].
    pub fn is_playable(&self) -> (b: bool)
        ensures
            b == self@.playable(),
    {
        if !self.is_well_formed() {
            return false;
        }
        if self.n > 0 && self.m > 0 {
            let ghost cap = MAX_CELLS as int;
            let ghost rows = self.n as int;
            let ghost cols = self.m as int;
            proof {
                vstd::arithmetic::div_mod::lemma_fundamental_div_mod(cap, cols);
                vstd::arithmetic::div_mod::lemma_mod_bound(cap, cols);
            }
            if self.n > MAX_CELLS / self.m {
                assert(rows * cols > cap) by (nonlinear_arith)
                    requires
                        cols > 0,
                        rows >= cap / cols + 1,
                        cap == cols * (cap / cols) + cap % cols,
                        0 <= cap % cols < cols,
                ;
                return false;
            }
            assert(rows * cols <= cap) by (nonlinear_arith)
                requires
                    cols > 0,
                    0 <= rows <= cap / cols,
                    cap == cols * (cap / cols) + cap % cols,
                    0 <= cap % cols < cols,
            ;
        } else {
            assert(self.n * self.m == 0) by (nonlinear_arith)
                requires
                    self.n == 0 || self.m == 0,
            ;
        }
        let mut y: usize = 0;
        while y < self.n
            invariant
                self.wf(),
                y <= self.n,
                self.n * self.m <= MAX_CELLS,
                forall|r: int, c: int|
                    0 <= r < y && 0 <= c < self.m ==> {
                        let k = #[trigger] self@.cell(r, c);
                        &&& -INF <= k.army_size <= INF
                        &&& k.city_or_general() ==> k.last_update_time <= self.turn
                        &&& k.cell_type == CellType::General ==> k.owner is Some
                    },
            decreases self.n - y,
        {
            let mut x: usize = 0;
            while x < self.m
                invariant
                    self.wf(),
                    y < self.n,
                    x <= self.m,
                    self.n * self.m <= MAX_CELLS,
                    forall|r: int, c: int|
                        0 <= r < y && 0 <= c < self.m ==> {
                            let k = #[trigger] self@.cell(r, c);
                            &&& -INF <= k.army_size <= INF
                            &&& k.city_or_general() ==> k.last_update_time <= self.turn
                            &&& k.cell_type == CellType::General ==> k.owner is Some
                        },
                    forall|c: int|
                        0 <= c < x ==> {
                            let k = #[trigger] self@.cell(y as int, c);
                            &&& -INF <= k.army_size <= INF
                            &&& k.city_or_general() ==> k.last_update_time <= self.turn
                            &&& k.cell_type == CellType::General ==> k.owner is Some
                        },
                decreases self.m - x,
            {
                assert(self@.grid[y as int] == self.grid@[y as int]@);
                let cell = self.grid[y][x];
                if cell.army_size < -INF || cell.army_size > INF || (cell.city_or_general()
                    && cell.last_update_time > self.turn) || (cell.cell_type == CellType::General
                    && cell.owner.is_none()) {
                    assert(self@.inside(y as int, x as int));
                    let ghost k = self@.cell(y as int, x as int);
                    assert(!(-INF <= k.army_size <= INF && (k.city_or_general()
                        ==> k.last_update_time <= self.turn) && (k.cell_type
                        == CellType::General ==> k.owner is Some)));
                    return false;
                }
                x += 1;
            }
            y += 1;
        }
        true
    }
}

} // verus!
