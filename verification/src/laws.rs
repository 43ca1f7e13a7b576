//! What follows from the rules: statements about several moves, about every
//! board, or about one rule in the light of another.

use vstd::prelude::*;
use crate::board::{grown, grows, Board};
use crate::cell::{CellType, GameCell};
use crate::map::Move;

verus! {

impl Board {
    /// The board after the move has been passed on `k` times.
    pub open spec fn skips(self, k: nat) -> Board
        decreases k,
    {
        if k == 0 {
            self
        } else {
            self.skips((k - 1) as nat).skip_turn()
        }
    }

    /// The player to move is the last of the round.
    pub open spec fn closes_round(self) -> bool {
        self.curr_color + 1 >= self.players_num
    }

    /// The move that is made now ends the round, and the square `(y, x)`
    /// gains a unit in the turn that begins.
    pub open spec fn grows_next(self, y: int, x: int) -> bool {
        self.closes_round() && grows(self.cell(y, x), (self.turn + 1) as u32)
    }

    /// What the viewer remembers of the square shows a mountain only where
    /// one stands.
    pub open spec fn memory_fits(self, y: int, x: int) -> bool {
        self.cell(y, x).last_seen_type == CellType::Mountains ==> self.cell(y, x).cell_type
            == CellType::Mountains
    }
}

/// A square of a board with one square replaced.
pub proof fn lemma_put_cell(b: Board, y: int, x: int, c: GameCell, r: int, k: int)
    requires
        b.wf(),
        b.inside(y, x),
        b.inside(r, k),
    ensures
        b.put(y, x, c).wf(),
        b.put(y, x, c).cell(r, k) == if (r, k) == (y, x) {
            c
        } else {
            b.cell(r, k)
        },
{
}

/// A square of a board after the move has been passed on: grown if that
/// began a new turn, and as it was if not.
pub proof fn lemma_skip_cell(b: Board, r: int, k: int)
    requires
        b.wf(),
        b.inside(r, k),
    ensures
        b.skip_turn().cell(r, k) == if b.closes_round() {
            grown(b.cell(r, k), (b.turn + 1) as u32)
        } else {
            b.cell(r, k)
        },
        b.skip_turn().n == b.n,
        b.skip_turn().m == b.m,
{
}

/// While a round lasts, the players move in turn and the turn stands.
proof fn lemma_skips_within_round(b: Board, j: nat)
    requires
        b.curr_color == 0,
        j < b.players_num,
    ensures
        b.skips(j).curr_color == j,
        b.skips(j).turn == b.turn,
        b.skips(j).players_num == b.players_num,
        b.skips(j).grid == b.grid,
    decreases j,
{
    if j > 0 {
        lemma_skips_within_round(b, (j - 1) as nat);
    }
}

/// A round is as many moves as there are players: when the first player is
/// to move and the move is passed on once for each player, the first player
/// is to move again and one turn has gone by; before that, the players
/// come in turn, and the turn and the grid stand.
pub proof fn law_round_cadence(b: Board)
    requires
        b.players_num >= 1,
        b.curr_color == 0,
        b.turn < u32::MAX,
    ensures
        b.skips(b.players_num as nat).curr_color == 0,
        b.skips(b.players_num as nat).turn == b.turn + 1,
        forall|j: nat|
            j < b.players_num ==> (#[trigger] b.skips(j)).curr_color == j && b.skips(j).turn
                == b.turn && b.skips(j).grid == b.grid,
{
    lemma_skips_within_round(b, (b.players_num - 1) as nat);
    assert forall|j: nat| j < b.players_num implies (#[trigger] b.skips(j)).curr_color == j
        && b.skips(j).turn == b.turn && b.skips(j).grid == b.grid by {
        lemma_skips_within_round(b, j);
    }
}

/// After the move is passed on, the player to move is one of the players.
pub proof fn law_player_in_range(b: Board)
    requires
        b.players_num >= 1,
    ensures
        b.skip_turn().curr_color < b.players_num,
{
}

/// A legal move is one that may become legal, where the memory of its two
/// ends shows no mountain that is not there.
pub proof fn law_valid_could_become(b: Board, mv: Move)
    requires
        b.is_a_valid_move(mv),
        b.memory_fits(mv.from.0 as int, mv.from.1 as int),
        b.memory_fits(mv.to.0 as int, mv.to.1 as int),
    ensures
        b.could_become_a_valid_move(mv),
{
}

/// On a picture that has just been brought up to date, every legal move is
/// one that may become legal: the viewer sees both its ends, and
/// remembers what is seen.
pub proof fn law_valid_could_become_after_update(viewer: Board, truth: Board, mv: Move)
    requires
        viewer.wf(),
        truth.wf(),
        viewer.update_from(truth).is_a_valid_move(mv),
    ensures
        viewer.update_from(truth).could_become_a_valid_move(mv),
{
    let now = viewer.update_from(truth);
    let id = viewer.curr_color;
    let (y1, x1) = (mv.from.0 as int, mv.from.1 as int);
    let (y2, x2) = (mv.to.0 as int, mv.to.1 as int);
    assert(now.cell(y1, x1) == viewer.refreshed(truth, mv.from.0, mv.from.1));
    assert(now.cell(y2, x2) == viewer.refreshed(truth, mv.to.0, mv.to.1));
    assert(truth.is_visible_to(mv.from.0, mv.from.1, id));
    assert(truth.cell(y1, x1).owner == Some(id));
    assert(truth.inside(y1, x1) && -1 <= y1 - y2 <= 1 && -1 <= x1 - x2 <= 1);
    assert(truth.is_visible_to(mv.to.0, mv.to.1, id));
}

impl Board {
    /// The move is a step on the board between two squares, and if it takes
    /// a capital, that capital has an owner.
    pub open spec fn is_step(self, mv: Move) -> bool {
        &&& self.wf()
        &&& self.inside(mv.from.0 as int, mv.from.1 as int)
        &&& self.inside(mv.to.0 as int, mv.to.1 as int)
        &&& mv.adjacent()
        &&& self.takes_capital(mv) ==> self.cell(mv.to.0 as int, mv.to.1 as int).owner is Some
    }

    /// The move takes a capital.
    pub open spec fn takes_capital(self, mv: Move) -> bool {
        self.captures(mv) && self.cell(mv.to.0 as int, mv.to.1 as int).cell_type
            == CellType::General
    }

    /// Who holds the square `(y, x)` once the armies of the move have met:
    /// the owner of the army holds the square that it takes and, with a
    /// capital, every square of the player who held it; every other square
    /// keeps its owner.
    pub open spec fn owner_after(self, mv: Move, y: int, x: int) -> Option<usize> {
        let src = self.cell(mv.from.0 as int, mv.from.1 as int);
        let dst = self.cell(mv.to.0 as int, mv.to.1 as int);
        if self.captures(mv) && ((y, x) == (mv.to.0 as int, mv.to.1 as int) || (
        self.takes_capital(mv) && self.cell(y, x).owner == dst.owner)) {
            src.owner
        } else {
            self.cell(y, x).owner
        }
    }

    /// What stands on the square `(y, x)` once the armies of the move have
    /// met: a city where a capital was taken, and else what stood there.
    pub open spec fn kind_after(self, mv: Move, y: int, x: int) -> CellType {
        if self.takes_capital(mv) && (y, x) == (mv.to.0 as int, mv.to.1 as int) {
            CellType::City
        } else {
            self.cell(y, x).cell_type
        }
    }

    /// The units on the end of the move once its armies have met, as a
    /// number without bounds: the sum on a square of the same side, and else
    /// the difference of the force and the defenders, whichever is larger.
    pub open spec fn army_after(self, mv: Move) -> int {
        let src = self.cell(mv.from.0 as int, mv.from.1 as int);
        let dst = self.cell(mv.to.0 as int, mv.to.1 as int);
        if dst.owner == src.owner {
            dst.army_size + self.force(mv)
        } else if self.captures(mv) {
            self.force(mv) - dst.army_size
        } else {
            dst.army_size - self.force(mv)
        }
    }
}

/// Square by square, the board after the armies of a move have met: the
/// source keeps one unit, the end holds [`Board::army_after`] units if that
/// many fit in its number, owners and kinds are as [`Board::owner_after`]
/// and [`Board::kind_after`] say, and nothing else changes.
pub proof fn lemma_resolve_cells(b: Board, mv: Move, y: int, x: int)
    requires
        b.is_step(mv),
        b.inside(y, x),
    ensures
        b.resolve(mv).wf(),
        b.resolve(mv).n == b.n,
        b.resolve(mv).m == b.m,
        b.resolve(mv).players_num == b.players_num,
        b.resolve(mv).curr_color == b.curr_color,
        b.resolve(mv).turn == b.turn,
        b.resolve(mv).cell(y, x).owner == b.owner_after(mv, y, x),
        b.resolve(mv).cell(y, x).cell_type == b.kind_after(mv, y, x),
        b.resolve(mv).cell(y, x).is_friend == b.cell(y, x).is_friend,
        b.resolve(mv).cell(y, x).last_seen_type == b.cell(y, x).last_seen_type,
        b.resolve(mv).cell(y, x).last_update_time == b.cell(y, x).last_update_time,
        b.resolve(mv).cell(y, x).army_size == if (y, x) == (mv.from.0 as int, mv.from.1 as int) {
            1i64
        } else if (y, x) == (mv.to.0 as int, mv.to.1 as int) {
            b.army_after(mv) as i64
        } else {
            b.cell(y, x).army_size
        },
{
    let (y1, x1) = (mv.from.0 as int, mv.from.1 as int);
    let (y2, x2) = (mv.to.0 as int, mv.to.1 as int);
    let src = b.cell(y1, x1);
    let dst = b.cell(y2, x2);
    let left = GameCell { army_size: 1, ..src };
    let met = b.resolve(mv);
    let base = if b.takes_capital(mv) {
        b.destroy_player(dst.owner->0, src.owner)
    } else {
        b
    };
    assert(base.wf());
    let placed = met.cell(y2, x2);
    let mid = base.put(y1, x1, left);
    lemma_put_cell(base, y1, x1, left, y, x);
    lemma_put_cell(base, y1, x1, left, y2, x2);
    assert(met == mid.put(y2, x2, placed)) by {
        lemma_put_cell(mid, y2, x2, placed, y2, x2);
    }
    lemma_put_cell(mid, y2, x2, placed, y, x);
    lemma_put_cell(mid, y2, x2, placed, y2, x2);
}

/// A move changes owners and kinds as its armies decide, and the turn
/// that may begin after it changes neither: the owner of the army holds the
/// square that it takes and, with a capital, every square of the player who
/// held it; a capital that is taken becomes a city; every other square
/// keeps its owner and its kind.
pub proof fn law_move_owners_and_kinds(b: Board, mv: Move)
    requires
        b.is_step(mv),
    ensures
        forall|y: int, x: int|
            b.inside(y, x) ==> (#[trigger] b.make_move(mv).cell(y, x)).owner == b.owner_after(
                mv,
                y,
                x,
            ) && b.make_move(mv).cell(y, x).cell_type == b.kind_after(mv, y, x),
{
    assert forall|y: int, x: int| b.inside(y, x) implies (#[trigger] b.make_move(mv).cell(
        y,
        x,
    )).owner == b.owner_after(mv, y, x) && b.make_move(mv).cell(y, x).cell_type
        == b.kind_after(mv, y, x) by {
        lemma_resolve_cells(b, mv, y, x);
        lemma_skip_cell(b.resolve(mv), y, x);
    }
}

/// The square that an army leaves keeps one unit, its owner and its kind,
/// whatever the army meets. This is so wherever the turn that may begin with
/// the next player does not add a unit to the square: in the middle of a
/// round always.
pub proof fn law_source_keeps_one(b: Board, mv: Move)
    requires
        b.is_step(mv),
        !b.grows_next(mv.from.0 as int, mv.from.1 as int),
    ensures
        b.make_move(mv).cell(mv.from.0 as int, mv.from.1 as int) == (GameCell {
            army_size: 1,
            ..b.cell(mv.from.0 as int, mv.from.1 as int)
        }),
{
    lemma_resolve_cells(b, mv, mv.from.0 as int, mv.from.1 as int);
    lemma_skip_cell(b.resolve(mv), mv.from.0 as int, mv.from.1 as int);
}

/// When an army moves onto a square of its own side, none is lost: the
/// square holds what it held and all of the army but the one unit that
/// stays behind, and keeps its owner and its kind; between them the two
/// squares hold as many units as before. This is so where the sum fits in
/// the number of the square, and where the turn that may begin with the
/// next player does not add a unit: in the middle of a round always.
pub proof fn law_same_owner_move(b: Board, mv: Move)
    requires
        b.is_step(mv),
        b.cell(mv.from.0 as int, mv.from.1 as int).owner == b.cell(
            mv.to.0 as int,
            mv.to.1 as int,
        ).owner,
        i64::MIN <= b.cell(mv.to.0 as int, mv.to.1 as int).army_size + b.cell(
            mv.from.0 as int,
            mv.from.1 as int,
        ).army_size - 1 <= i64::MAX,
    ensures
        b.resolve(mv).cell(mv.to.0 as int, mv.to.1 as int).army_size == b.cell(
            mv.to.0 as int,
            mv.to.1 as int,
        ).army_size + b.cell(mv.from.0 as int, mv.from.1 as int).army_size - 1,
        b.resolve(mv).cell(mv.from.0 as int, mv.from.1 as int).army_size == 1,
        !b.grows_next(mv.to.0 as int, mv.to.1 as int) ==> b.make_move(mv).cell(
            mv.to.0 as int,
            mv.to.1 as int,
        ) == (GameCell {
            army_size: (b.cell(mv.to.0 as int, mv.to.1 as int).army_size + b.cell(
                mv.from.0 as int,
                mv.from.1 as int,
            ).army_size - 1) as i64,
            ..b.cell(mv.to.0 as int, mv.to.1 as int)
        }),
        !b.grows_next(mv.from.0 as int, mv.from.1 as int) && !b.grows_next(
            mv.to.0 as int,
            mv.to.1 as int,
        ) ==> b.make_move(mv).cell(mv.from.0 as int, mv.from.1 as int).army_size + b.make_move(
            mv,
        ).cell(mv.to.0 as int, mv.to.1 as int).army_size == b.cell(
            mv.from.0 as int,
            mv.from.1 as int,
        ).army_size + b.cell(mv.to.0 as int, mv.to.1 as int).army_size,
{
    lemma_resolve_cells(b, mv, mv.from.0 as int, mv.from.1 as int);
    lemma_resolve_cells(b, mv, mv.to.0 as int, mv.to.1 as int);
    lemma_skip_cell(b.resolve(mv), mv.from.0 as int, mv.from.1 as int);
    lemma_skip_cell(b.resolve(mv), mv.to.0 as int, mv.to.1 as int);
}

/// When an army moves onto a square of another side with more units than
/// it meets there, it takes the square: the square goes to the owner of the
/// army, with what is left of the force. This is so wherever the turn that
/// may begin with the next player does not add a unit to the square: in the
/// middle of a round always. A capital that is taken becomes a city, and
/// with it every square of the player who held it goes to the owner of the
/// army, so that the player is left with none. Where no capital is taken,
/// the square keeps its kind, and every other square its owner.
pub proof fn law_capture(b: Board, mv: Move)
    requires
        b.is_step(mv),
        b.captures(mv),
        b.cell(mv.to.0 as int, mv.to.1 as int).army_size >= 0,
    ensures
        b.make_move(mv).cell(mv.to.0 as int, mv.to.1 as int).owner == b.cell(
            mv.from.0 as int,
            mv.from.1 as int,
        ).owner,
        b.resolve(mv).cell(mv.to.0 as int, mv.to.1 as int).army_size == b.force(mv) - b.cell(
            mv.to.0 as int,
            mv.to.1 as int,
        ).army_size,
        !b.resolve(mv).grows_next(mv.to.0 as int, mv.to.1 as int) ==> b.make_move(mv).cell(
            mv.to.0 as int,
            mv.to.1 as int,
        ).army_size == b.force(mv) - b.cell(mv.to.0 as int, mv.to.1 as int).army_size,
        b.make_move(mv).cell(mv.from.0 as int, mv.from.1 as int).owner == b.cell(
            mv.from.0 as int,
            mv.from.1 as int,
        ).owner,
        !b.takes_capital(mv) ==> {
            &&& b.make_move(mv).cell(mv.to.0 as int, mv.to.1 as int).cell_type == b.cell(
                mv.to.0 as int,
                mv.to.1 as int,
            ).cell_type
            &&& forall|y: int, x: int|
                b.inside(y, x) && (y, x) != (mv.to.0 as int, mv.to.1 as int) ==> (
                #[trigger] b.make_move(mv).cell(y, x)).owner == b.cell(y, x).owner
        },
        b.takes_capital(mv) ==> {
            &&& b.make_move(mv).cell(mv.to.0 as int, mv.to.1 as int).cell_type == CellType::City
            &&& forall|y: int, x: int|
                b.inside(y, x) && (#[trigger] b.cell(y, x)).owner == b.cell(
                    mv.to.0 as int,
                    mv.to.1 as int,
                ).owner ==> b.make_move(mv).cell(y, x).owner == b.cell(
                    mv.from.0 as int,
                    mv.from.1 as int,
                ).owner
            &&& b.make_move(mv).holds_nothing(b.cell(mv.to.0 as int, mv.to.1 as int).owner->0)
        },
{
    let (y1, x1) = (mv.from.0 as int, mv.from.1 as int);
    let (y2, x2) = (mv.to.0 as int, mv.to.1 as int);
    let after = b.make_move(mv);
    law_move_owners_and_kinds(b, mv);
    lemma_resolve_cells(b, mv, y2, x2);
    lemma_skip_cell(b.resolve(mv), y2, x2);
    assert(after.cell(y1, x1).owner == b.owner_after(mv, y1, x1));
    assert(after.cell(y2, x2).owner == b.owner_after(mv, y2, x2));
    if b.takes_capital(mv) {
        let loser = b.cell(y2, x2).owner->0;
        assert forall|y: int, x: int| after.inside(y, x) implies (#[trigger] after.cell(
            y,
            x,
        )).owner != Some(loser) by {
            lemma_skip_cell(b.resolve(mv), y, x);
            assert(after.cell(y, x).owner == b.owner_after(mv, y, x));
        }
        assert forall|y: int, x: int|
            b.inside(y, x) && (#[trigger] b.cell(y, x)).owner == b.cell(
                y2,
                x2,
            ).owner implies after.cell(y, x).owner == b.cell(y1, x1).owner by {
            assert(after.cell(y, x).owner == b.owner_after(mv, y, x));
        }
    } else {
        assert forall|y: int, x: int| b.inside(y, x) && (y, x) != (y2, x2) implies (
        #[trigger] after.cell(y, x)).owner == b.cell(y, x).owner by {
            assert(after.cell(y, x).owner == b.owner_after(mv, y, x));
        }
    }
}

/// A picture brought up to date from a board that a player can decide on
/// is one that a player can decide on.
pub proof fn law_update_keeps_playable(viewer: Board, truth: Board)
    requires
        truth.playable(),
    ensures
        viewer.update_from(truth).playable(),
{
    let now = viewer.update_from(truth);
    assert forall|y: int, x: int| now.inside(y, x) implies {
        let c = #[trigger] now.cell(y, x);
        &&& -crate::search::INF <= c.army_size <= crate::search::INF
        &&& c.city_or_general() ==> c.last_update_time <= now.turn
        &&& c.cell_type == CellType::General ==> c.owner is Some
    } by {
        assert(now.cell(y, x) == viewer.refreshed(truth, y as usize, x as usize));
        let t = truth.cell(y, x);
        assert(-crate::search::INF <= t.army_size <= crate::search::INF);
    }
}

/// Two tables of the search from one square agree up to a distance: where
/// either has a square within `k` steps, both have it at the same distance
/// with the same army.
proof fn lemma_tables_agree_within(
    b: Board,
    start: (usize, usize),
    f: Seq<Seq<crate::search::VertexData>>,
    g: Seq<Seq<crate::search::VertexData>>,
    k: int,
)
    requires
        b.is_search_result(start, f),
        b.is_search_result(start, g),
        b.inside(start.0 as int, start.1 as int),
        -1 <= k < crate::search::INF,
    ensures
        forall|y: int, x: int|
            #![trigger f[y][x]]
            #![trigger g[y][x]]
            b.inside(y, x) && (f[y][x].dist <= k || g[y][x].dist <= k) ==> f[y][x].dist
                == g[y][x].dist && f[y][x].value == g[y][x].value,
    decreases k + 1,
{
    if k >= 0 {
        lemma_tables_agree_within(b, start, f, g, k - 1);
        assert forall|y: int, x: int|
            #![trigger f[y][x]]
            #![trigger g[y][x]]
            b.inside(y, x) && (f[y][x].dist <= k || g[y][x].dist <= k) implies f[y][x].dist
            == g[y][x].dist && f[y][x].value == g[y][x].value by {
            if (y, x) != (start.0 as int, start.1 as int) {
                if f[y][x].dist <= k {
                    lemma_table_follows(b, start, f, g, k, y, x);
                    lemma_table_follows(b, start, g, f, k, y, x);
                } else {
                    lemma_table_follows(b, start, g, f, k, y, x);
                    lemma_table_follows(b, start, f, g, k, y, x);
                }
            }
        }
    } else {
        assert forall|y: int, x: int|
            #![trigger f[y][x]]
            #![trigger g[y][x]]
            b.inside(y, x) && (f[y][x].dist <= k || g[y][x].dist <= k) implies f[y][x].dist
            == g[y][x].dist && f[y][x].value == g[y][x].value by {
            if (y, x) != (start.0 as int, start.1 as int) {
                if crate::search::reached(f, y, x) {
                    b.lemma_reached_has_parent(start, f, y, x);
                }
                if crate::search::reached(g, y, x) {
                    b.lemma_reached_has_parent(start, g, y, x);
                }
            }
        }
    }
}

/// Where two tables agree within `k - 1` steps, a square that one has at
/// `k` steps or fewer the other has no further and with no smaller an army.
proof fn lemma_table_follows(
    b: Board,
    start: (usize, usize),
    f: Seq<Seq<crate::search::VertexData>>,
    g: Seq<Seq<crate::search::VertexData>>,
    k: int,
    y: int,
    x: int,
)
    requires
        b.is_search_result(start, f),
        b.is_search_result(start, g),
        b.inside(start.0 as int, start.1 as int),
        b.inside(y, x),
        (y, x) != (start.0 as int, start.1 as int),
        0 <= k < crate::search::INF,
        f[y][x].dist <= k,
        forall|r: int, c: int|
            #![trigger f[r][c]]
            #![trigger g[r][c]]
            b.inside(r, c) && (f[r][c].dist <= k - 1 || g[r][c].dist <= k - 1) ==> f[r][c].dist
                == g[r][c].dist && f[r][c].value == g[r][c].value,
    ensures
        g[y][x].dist <= f[y][x].dist,
        g[y][x].dist == f[y][x].dist ==> g[y][x].value >= f[y][x].value,
        g[y][x].dist < f[y][x].dist ==> false,
{
    let v = f[y][x];
    assert(crate::search::reached(f, y, x));
    b.lemma_reached_has_parent(start, f, y, x);
    assert(b.led_from_parent(f, y, x));
    let (py, px) = (v.parent.0 as int, v.parent.1 as int);
    let d = choose|d: int|
        0 <= d < 4 && #[trigger] crate::board::step(py, px, d) == (y, x) && b.can_step(py, px, d);
    assert(f[py][px].dist == v.dist - 1);
    assert(g[py][px].dist == f[py][px].dist && g[py][px].value == f[py][px].value);
    assert(b.settled(g, py, px, d));
    assert(crate::search::reached(g, py, px));
    if g[y][x].dist < v.dist {
        assert(crate::search::reached(g, y, x));
        b.lemma_reached_has_parent(start, g, y, x);
        assert(g[y][x].dist <= k - 1);
    }
}

/// The table of a search is one: any two tables of the search from one
/// square hold the same distance and the same army for every square. (They
/// may name different parents where two ways are equally good.)
pub proof fn law_search_result_is_unique(
    b: Board,
    start: (usize, usize),
    f: Seq<Seq<crate::search::VertexData>>,
    g: Seq<Seq<crate::search::VertexData>>,
)
    requires
        b.is_search_result(start, f),
        b.is_search_result(start, g),
        b.inside(start.0 as int, start.1 as int),
    ensures
        forall|y: int, x: int|
            #![trigger f[y][x]]
            #![trigger g[y][x]]
            b.inside(y, x) ==> f[y][x].dist == g[y][x].dist && f[y][x].value == g[y][x].value,
{
    assert forall|y: int, x: int|
        #![trigger f[y][x]]
        #![trigger g[y][x]]
        b.inside(y, x) implies f[y][x].dist == g[y][x].dist && f[y][x].value
        == g[y][x].value by {
        if crate::search::reached(f, y, x) {
            lemma_tables_agree_within(b, start, f, g, f[y][x].dist as int);
        } else if crate::search::reached(g, y, x) {
            lemma_tables_agree_within(b, start, f, g, g[y][x].dist as int);
        } else if (y, x) != (start.0 as int, start.1 as int) {
            assert(f[y][x] == crate::search::untouched(y, x));
            assert(g[y][x] == crate::search::untouched(y, x));
        }
    }
}

/// A board is told apart from another only by `is_capital_of`: where the
/// two agree on it for a player, that player has one capital on both or on
/// neither.
pub proof fn lemma_capitals_kept(b1: Board, b2: Board, id: usize)
    requires
        forall|y: int, x: int| b1.is_capital_of(y, x, id) == b2.is_capital_of(y, x, id),
        b1.has_one_capital(id),
    ensures
        b2.has_one_capital(id),
{
    let (y, x) = choose|y: int, x: int|
        #![trigger b1.is_capital_of(y, x, id)]
        b1.is_capital_of(y, x, id) && forall|r: int, c: int| #[trigger]
            b1.is_capital_of(r, c, id) ==> r == y && c == x;
    assert(b2.is_capital_of(y, x, id));
    assert forall|r: int, c: int| #[trigger] b2.is_capital_of(r, c, id) implies r == y && c
        == x by {
        assert(b1.is_capital_of(r, c, id));
    }
}

/// A move leaves every player the capital that player had, but for the
/// player whose capital it takes: where each of the two had one capital, the
/// one who took it still has one, and the other has none and holds nothing.
/// No square but a capital that is taken becomes or stops being a capital.
pub proof fn law_capitals_after_move(b: Board, mv: Move, id: usize)
    requires
        b.is_step(mv),
        b.has_one_capital(id),
        b.takes_capital(mv) ==> b.has_one_capital(b.cell(mv.to.0 as int, mv.to.1 as int).owner->0),
    ensures
        b.captures(mv) && b.is_capital_of(mv.to.0 as int, mv.to.1 as int, id) ==> b.make_move(
            mv,
        ).holds_nothing(id) && forall|y: int, x: int|
            !#[trigger] b.make_move(mv).is_capital_of(y, x, id),
        !(b.captures(mv) && b.is_capital_of(mv.to.0 as int, mv.to.1 as int, id)) ==> b.make_move(
            mv,
        ).has_one_capital(id),
        forall|y: int, x: int|
            b.inside(y, x) && !(b.takes_capital(mv) && (y, x) == (mv.to.0 as int, mv.to.1 as int))
                ==> ((#[trigger] b.make_move(mv).cell(y, x)).cell_type == CellType::General) == (
            b.cell(y, x).cell_type == CellType::General),
{
    let (y2, x2) = (mv.to.0 as int, mv.to.1 as int);
    let dst = b.cell(y2, x2);
    let after = b.make_move(mv);
    law_move_owners_and_kinds(b, mv);
    assert forall|y: int, x: int| b.inside(y, x) implies after.cell(y, x).owner
        == b.owner_after(mv, y, x) && after.cell(y, x).cell_type == b.kind_after(mv, y, x) by {
        assert(after.cell(y, x).owner == b.owner_after(mv, y, x));
    }
    if b.captures(mv) && b.is_capital_of(y2, x2, id) {
        assert forall|y: int, x: int| after.inside(y, x) implies (#[trigger] after.cell(
            y,
            x,
        )).owner != Some(id) by {
            assert(after.cell(y, x).owner == b.owner_after(mv, y, x));
        }
        assert forall|y: int, x: int| !#[trigger] after.is_capital_of(y, x, id) by {
            if after.inside(y, x) {
                assert(after.cell(y, x).owner != Some(id));
            }
        }
    } else {
        assert forall|y: int, x: int| b.is_capital_of(y, x, id) == after.is_capital_of(
            y,
            x,
            id,
        ) by {
            if b.inside(y, x) {
                assert(after.cell(y, x).owner == b.owner_after(mv, y, x));
                if b.takes_capital(mv) {
                    let loser = dst.owner->0;
                    assert(b.is_capital_of(y2, x2, loser));
                    if b.cell(y, x).owner == Some(loser) && b.cell(y, x).cell_type
                        == CellType::General {
                        assert(b.is_capital_of(y, x, loser));
                    }
                }
            }
        }
        lemma_capitals_kept(b, after, id);
    }
}

} // verus!
