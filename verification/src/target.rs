//! Choosing what to attack: the squares that a search has reached, weighed
//! by what they are worth and how far they are.

use vstd::prelude::*;
use crate::board::Board;
use crate::bot::{worth, PathFinderBot};
use crate::map::Move;
use crate::search::{reached, rows_of_paths, VertexData, INF};

verus! {

/// A square picked as a target: what it is worth, how many steps it is from
/// the square where the army stands, and the first of those steps.
#[derive(Clone, Copy, Debug)]
pub struct Target {
    pub coords: (usize, usize),
    pub worth: u64,
    pub dist: i64,
    pub first: Move,
}

impl Target {
    /// The score of a target is its worth divided by its distance. This one
    /// scores higher than `other`.
    #[verifier::opaque]
    pub open spec fn outscores(self, other: Target) -> bool {
        self.worth * other.dist > other.worth * self.dist
    }

    /// This target scores higher than the best so far, if there is one.
    pub open spec fn beats(self, best: Option<Target>) -> bool {
        match best {
            None => true,
            Some(b) => self.outscores(b),
        }
    }
}

/// Whether a target of worth `worth` at `dist` steps scores higher than the
/// best so far.
pub fn scores_higher(worth: u64, dist: i64, best: &Option<Target>) -> (b: bool)
    requires
        dist >= 0,
        best matches Some(t) ==> t.dist >= 0,
    ensures
        b == match *best {
            None => true,
            Some(t) => worth * t.dist > t.worth * dist,
        },
        forall|c: Target| c.worth == worth && c.dist == dist ==> b == #[trigger] c.beats(*best),
{
    reveal(Target::outscores);
    match best {
        None => true,
        Some(t) => {
            assert(worth * t.dist <= u128::MAX && t.worth * dist <= u128::MAX)
                by (nonlinear_arith)
                requires
                    0 <= worth <= u64::MAX,
                    0 <= t.worth <= u64::MAX,
                    0 <= dist <= i64::MAX,
                    0 <= t.dist <= i64::MAX,
            ;
            let mine: u128 = (worth as u128) * (t.dist as u128);
            let theirs: u128 = (t.worth as u128) * (dist as u128);
            mine > theirs
        },
    }
}

/// Scoring higher carries over: what outscores `b` outscores whatever does
/// not outscore `b`.
pub proof fn lemma_outscores_carries(a: Target, b: Target, c: Target)
    requires
        a.dist >= 1,
        b.dist >= 1,
        c.dist >= 1,
        a.outscores(b),
        !c.outscores(b),
    ensures
        a.outscores(c),
        !c.outscores(a),
{
    reveal(Target::outscores);
    let (wa, wb, wc) = (a.worth as int, b.worth as int, c.worth as int);
    let (da, db, dc) = (a.dist as int, b.dist as int, c.dist as int);
    assert(wa * dc > wc * da) by (nonlinear_arith)
        requires
            wa * db > wb * da,
            wc * db <= wb * dc,
            da >= 1,
            db >= 1,
            dc >= 1,
            wa >= 0,
            wb >= 0,
            wc >= 0,
    {
        assert(wa * db * dc > wb * da * dc);
        assert(wc * db * da <= wb * dc * da);
        assert(wb * da * dc == wb * dc * da);
        assert(wa * dc * db > wc * da * db);
    }
}

/// No target scores higher than itself.
pub proof fn lemma_never_outscores_itself(a: Target)
    ensures
        !a.outscores(a),
{
    reveal(Target::outscores);
}

/// Of two targets, at most one scores higher than the other.
pub proof fn lemma_outscores_one_way(a: Target, b: Target)
    requires
        a.outscores(b),
    ensures
        !b.outscores(a),
{
    reveal(Target::outscores);
}

/// The capital of an enemy, wherever a search can have found it, scores
/// higher than any target that is no such capital, however near.
pub proof fn law_capital_outscores(capital: Target, other: Target)
    requires
        capital.worth == crate::bot::ENEMY_GENERAL_WORTH,
        1 <= capital.dist <= crate::search::MAX_CELLS,
        other.worth <= crate::bot::ENEMY_CITY_WORTH,
        1 <= other.dist,
    ensures
        capital.outscores(other),
{
    reveal(Target::outscores);
    assert(capital.worth * other.dist > other.worth * capital.dist) by (nonlinear_arith)
        requires
            capital.worth == 1_000_000_000_000_000_000,
            1 <= capital.dist <= 100_000_000,
            0 <= other.worth <= 1500,
            1 <= other.dist,
    ;
}

/// The first square on the way from `origin` to `t` in the table of a
/// search: the one among `t` and those before it whose parent is `origin`.
pub open spec fn hop(found: Seq<Seq<VertexData>>, origin: (usize, usize), t: (usize, usize)) -> (
    usize,
    usize,
)
    decreases found[t.0 as int][t.1 as int].dist,
{
    let v = found[t.0 as int][t.1 as int];
    let p = found[v.parent.0 as int][v.parent.1 as int];
    if v.parent != origin && 0 <= p.dist < v.dist {
        hop(found, origin, v.parent)
    } else {
        t
    }
}

impl Board {
    /// What the square `(y, x)` is as a target for the army on `origin`.
    pub open spec fn target_at(
        self,
        origin: (usize, usize),
        found: Seq<Seq<VertexData>>,
        y: int,
        x: int,
    ) -> Target {
        Target {
            coords: (y as usize, x as usize),
            worth: worth(self.cell(y, x), self.curr_color, self.turn)->0,
            dist: found[y][x].dist,
            first: Move { from: origin, to: hop(found, origin, (y as usize, x as usize)) },
        }
    }

    /// The square `(y, x)` is a target for the army on `origin`: the search
    /// from there has reached it, it is worth something, and the first step
    /// towards it is a legal move.
    pub open spec fn is_target(
        self,
        origin: (usize, usize),
        found: Seq<Seq<VertexData>>,
        y: int,
        x: int,
    ) -> bool {
        &&& self.inside(y, x)
        &&& (y, x) != (origin.0 as int, origin.1 as int)
        &&& reached(found, y, x)
        &&& worth(self.cell(y, x), self.curr_color, self.turn) is Some
        &&& self.is_a_valid_move(self.target_at(origin, found, y, x).first)
    }

    /// `pick` is the best target among the first `rows` rows and, of the row
    /// after them, the first `cols` squares, given the best from elsewhere,
    /// `best`: it is `best` unless a target among these squares scores higher
    /// than `best`; if one does, it is the target among them that scores
    /// highest, and of several that score the same the first in reading
    /// order.
    pub open spec fn is_best_so_far(
        self,
        origin: (usize, usize),
        found: Seq<Seq<VertexData>>,
        best: Option<Target>,
        pick: Option<Target>,
        rows: int,
        cols: int,
    ) -> bool {
        if forall|y: int, x: int|
            Self::reads_before(y, x, rows, cols) && self.is_target(origin, found, y, x)
                ==> !(#[trigger] self.target_at(origin, found, y, x)).beats(best) {
            pick == best
        } else {
            exists|ty: int, tx: int|
                {
                    &&& Self::reads_before(ty, tx, rows, cols)
                    &&& self.is_target(origin, found, ty, tx)
                    &&& pick == Some(#[trigger] self.target_at(origin, found, ty, tx))
                    &&& self.target_at(origin, found, ty, tx).beats(best)
                    &&& forall|y: int, x: int|
                        Self::reads_before(y, x, rows, cols) && self.is_target(
                            origin,
                            found,
                            y,
                            x,
                        ) ==> {
                            &&& !(#[trigger] self.target_at(origin, found, y, x)).outscores(
                                self.target_at(origin, found, ty, tx),
                            )
                            &&& Self::reads_before(y, x, ty, tx) ==> self.target_at(
                                origin,
                                found,
                                ty,
                                tx,
                            ).outscores(self.target_at(origin, found, y, x))
                        }
                }
        }
    }
}

impl Board {
    /// In the table of a search, a square that has been reached and is not
    /// the start lies on the board at least one step away, and so does its
    /// parent, one step nearer, which is the start or has been reached too.
    pub proof fn lemma_reached_has_parent(
        self,
        origin: (usize, usize),
        found: Seq<Seq<VertexData>>,
        y: int,
        x: int,
    )
        requires
            self.is_search_result(origin, found),
            self.inside(y, x),
            reached(found, y, x),
            (y, x) != (origin.0 as int, origin.1 as int),
        ensures
            found[y][x].dist >= 1,
            found[y][x].value > 1,
            self.inside(found[y][x].parent.0 as int, found[y][x].parent.1 as int),
            found[found[y][x].parent.0 as int][found[y][x].parent.1 as int].dist
                == found[y][x].dist - 1,
            found[y][x].dist == 1 <==> found[y][x].parent == origin,
            self.could_become_a_valid_move(
                Move { from: found[y][x].parent, to: (y as usize, x as usize) },
            ),
    {
        assert(self.led_from_parent(found, y, x));
        let v = found[y][x];
        let (py, px) = (v.parent.0 as int, v.parent.1 as int);
        let d = choose|d: int|
            0 <= d < 4 && #[trigger] crate::board::step(py, px, d) == (y, x) && self.can_step(
                py,
                px,
                d,
            );
        assert(crate::board::step_move(py, px, d) == (Move {
            from: v.parent,
            to: (y as usize, x as usize),
        }));
        if (py, px) != (origin.0 as int, origin.1 as int) {
            assert(reached(found, py, px));
            assert(self.led_from_parent(found, py, px));
        }
    }
}

/// The best so far is the same over two stretches of squares that hold the
/// same squares of the board.
proof fn lemma_scan_row(
    board: Board,
    origin: (usize, usize),
    found: Seq<Seq<VertexData>>,
    best: Option<Target>,
    pick: Option<Target>,
    y: int,
)
    requires
        board.is_best_so_far(origin, found, best, pick, y, board.m as int),
    ensures
        board.is_best_so_far(origin, found, best, pick, y + 1, 0),
{
    let m = board.m as int;
    assert forall|r: int, c: int| board.inside(r, c) implies Board::reads_before(r, c, y, m)
        == Board::reads_before(r, c, y + 1, 0) by {}
    if forall|r: int, c: int|
        Board::reads_before(r, c, y, m) && board.is_target(origin, found, r, c) ==> !(
        #[trigger] board.target_at(origin, found, r, c)).beats(best) {
        assert forall|r: int, c: int|
            Board::reads_before(r, c, y + 1, 0) && board.is_target(
                origin,
                found,
                r,
                c,
            ) implies !(#[trigger] board.target_at(origin, found, r, c)).beats(best) by {
            assert(Board::reads_before(r, c, y, m));
        }
    } else {
        let (ty, tx) = choose|ty: int, tx: int|
            {
                &&& Board::reads_before(ty, tx, y, m)
                &&& board.is_target(origin, found, ty, tx)
                &&& pick == Some(#[trigger] board.target_at(origin, found, ty, tx))
                &&& board.target_at(origin, found, ty, tx).beats(best)
                &&& forall|r: int, c: int|
                    Board::reads_before(r, c, y, m) && board.is_target(origin, found, r, c) ==> {
                        &&& !(#[trigger] board.target_at(origin, found, r, c)).outscores(
                            board.target_at(origin, found, ty, tx),
                        )
                        &&& Board::reads_before(r, c, ty, tx) ==> board.target_at(
                            origin,
                            found,
                            ty,
                            tx,
                        ).outscores(board.target_at(origin, found, r, c))
                    }
            };
        let t = board.target_at(origin, found, ty, tx);
        assert(Board::reads_before(ty, tx, y + 1, 0) && board.is_target(origin, found, ty, tx)
            && t.beats(best));
        assert forall|r: int, c: int|
            Board::reads_before(r, c, y + 1, 0) && board.is_target(origin, found, r, c) implies {
            &&& !(#[trigger] board.target_at(origin, found, r, c)).outscores(t)
            &&& Board::reads_before(r, c, ty, tx) ==> t.outscores(
                board.target_at(origin, found, r, c),
            )
        } by {
            assert(Board::reads_before(r, c, y, m));
        }
    }
}

/// Weighing one more square keeps the best so far: the square takes its
/// place if it is a target that scores higher, and changes nothing if not.
proof fn lemma_scan_step(
    board: Board,
    origin: (usize, usize),
    found: Seq<Seq<VertexData>>,
    best: Option<Target>,
    before: Option<Target>,
    after: Option<Target>,
    y: int,
    x: int,
)
    requires
        forall|r: int, k: int|
            board.is_target(origin, found, r, k) ==> (#[trigger] board.target_at(
                origin,
                found,
                r,
                k,
            )).dist >= 1,
        best matches Some(b) ==> b.dist >= 1,
        board.is_best_so_far(origin, found, best, before, y, x),
        after == if board.is_target(origin, found, y, x) && board.target_at(
            origin,
            found,
            y,
            x,
        ).beats(before) {
            Some(board.target_at(origin, found, y, x))
        } else {
            before
        },
    ensures
        board.is_best_so_far(origin, found, best, after, y, x + 1),
{
    let c = board.target_at(origin, found, y, x);
    let takes = board.is_target(origin, found, y, x) && c.beats(before);
    assert forall|r: int, k: int|
        Board::reads_before(r, k, y, x + 1) <==> Board::reads_before(r, k, y, x) || (r, k) == (
            y,
            x,
        ) by {}
    lemma_never_outscores_itself(c);
    if forall|r: int, k: int|
        Board::reads_before(r, k, y, x) && board.is_target(origin, found, r, k) ==> !(
        #[trigger] board.target_at(origin, found, r, k)).beats(best) {
        assert(before == best);
        if takes {
            assert(Board::reads_before(y, x, y, x + 1) && board.is_target(origin, found, y, x)
                && c.beats(best));
            assert forall|r: int, k: int|
                Board::reads_before(r, k, y, x + 1) && board.is_target(
                    origin,
                    found,
                    r,
                    k,
                ) implies {
                &&& !(#[trigger] board.target_at(origin, found, r, k)).outscores(c)
                &&& Board::reads_before(r, k, y, x) ==> c.outscores(
                    board.target_at(origin, found, r, k),
                )
            } by {
                let s = board.target_at(origin, found, r, k);
                if (r, k) != (y, x) {
                    assert(Board::reads_before(r, k, y, x));
                    assert(!s.beats(best));
                    lemma_outscores_carries(c, best->0, s);
                }
            }
        } else {
            assert forall|r: int, k: int|
                Board::reads_before(r, k, y, x + 1) && board.is_target(
                    origin,
                    found,
                    r,
                    k,
                ) implies !(#[trigger] board.target_at(origin, found, r, k)).beats(best) by {}
        }
    } else {
        let (ty, tx) = choose|ty: int, tx: int|
            {
                &&& Board::reads_before(ty, tx, y, x)
                &&& board.is_target(origin, found, ty, tx)
                &&& before == Some(#[trigger] board.target_at(origin, found, ty, tx))
                &&& board.target_at(origin, found, ty, tx).beats(best)
                &&& forall|r: int, k: int|
                    Board::reads_before(r, k, y, x) && board.is_target(origin, found, r, k) ==> {
                        &&& !(#[trigger] board.target_at(origin, found, r, k)).outscores(
                            board.target_at(origin, found, ty, tx),
                        )
                        &&& Board::reads_before(r, k, ty, tx) ==> board.target_at(
                            origin,
                            found,
                            ty,
                            tx,
                        ).outscores(board.target_at(origin, found, r, k))
                    }
            };
        let t = board.target_at(origin, found, ty, tx);
        assert(Board::reads_before(ty, tx, y, x + 1) && board.is_target(origin, found, ty, tx)
            && t.beats(best));
        if takes {
            assert(c.outscores(t));
            if let Some(b) = best {
                lemma_outscores_one_way(t, b);
                lemma_outscores_carries(c, t, b);
            }
            assert(Board::reads_before(y, x, y, x + 1) && board.is_target(origin, found, y, x)
                && c.beats(best));
            assert forall|r: int, k: int|
                Board::reads_before(r, k, y, x + 1) && board.is_target(
                    origin,
                    found,
                    r,
                    k,
                ) implies {
                &&& !(#[trigger] board.target_at(origin, found, r, k)).outscores(c)
                &&& Board::reads_before(r, k, y, x) ==> c.outscores(
                    board.target_at(origin, found, r, k),
                )
            } by {
                let s = board.target_at(origin, found, r, k);
                if (r, k) != (y, x) {
                    assert(Board::reads_before(r, k, y, x));
                    assert(!s.outscores(t));
                    lemma_outscores_carries(c, t, s);
                }
            }
        } else {
            assert forall|r: int, k: int|
                Board::reads_before(r, k, y, x + 1) && board.is_target(
                    origin,
                    found,
                    r,
                    k,
                ) implies {
                &&& !(#[trigger] board.target_at(origin, found, r, k)).outscores(t)
                &&& Board::reads_before(r, k, ty, tx) ==> t.outscores(
                    board.target_at(origin, found, r, k),
                )
            } by {}
        }
    }
}

impl PathFinderBot {
    /// The first step of the way from `origin` to `target` that the table of
    /// a search from `origin` holds: back from `target`, parent by parent, to
    /// the square whose parent is `origin`. See [`hop`].
    pub fn first_hop(
        &self,
        paths: &Vec<Vec<VertexData>>,
        origin: (usize, usize),
        target: (usize, usize),
    ) -> (mv: Move)
        requires
            self.map@.is_search_result(origin, rows_of_paths(*paths)),
            self.map@.inside(target.0 as int, target.1 as int),
            reached(rows_of_paths(*paths), target.0 as int, target.1 as int),
            target != origin,
        ensures
            mv == (Move { from: origin, to: hop(rows_of_paths(*paths), origin, target) }),
            self.map@.could_become_a_valid_move(mv),
    {
        let ghost board = self.map@;
        let ghost found = rows_of_paths(*paths);
        let mut curr = target;
        loop
            invariant
                board == self.map@,
                found == rows_of_paths(*paths),
                board.is_search_result(origin, found),
                board.inside(curr.0 as int, curr.1 as int),
                reached(found, curr.0 as int, curr.1 as int),
                curr != origin,
                hop(found, origin, curr) == hop(found, origin, target),
            decreases found[curr.0 as int][curr.1 as int].dist,
        {
            proof {
                board.lemma_reached_has_parent(origin, found, curr.0 as int, curr.1 as int);
                assert(found[curr.0 as int] == paths@[curr.0 as int]@);
            }
            let prev = paths[curr.0][curr.1].parent;
            if prev.0 == origin.0 && prev.1 == origin.1 {
                return Move::new(origin.0, origin.1, curr.0, curr.1);
            }
            curr = prev;
        }
    }

    /// The best target after the squares that the search from `origin`
    /// reached have been weighed against `best`, the best from elsewhere.
    ///
    /// `best` stays unless a target of this table scores higher; then the
    /// highest score of the table wins, and among equal scores the first
    /// square in reading order. See [`Board::is_target`] for what counts as
    /// a target and [`Target::outscores`] for the score.
    pub fn best_target(
        &self,
        origin: (usize, usize),
        paths: &Vec<Vec<VertexData>>,
        best: Option<Target>,
    ) -> (pick: Option<Target>)
        requires
            self.map.wf(),
            self.map@.capitals_owned(),
            self.map@.is_search_result(origin, rows_of_paths(*paths)),
            best matches Some(b) ==> b.dist >= 1 && self.map@.is_a_valid_move(b.first),
        ensures
            self.map@.is_best_so_far(
                origin,
                rows_of_paths(*paths),
                best,
                pick,
                self.map.n as int,
                0,
            ),
            pick matches Some(t) ==> t.dist >= 1 && self.map@.is_a_valid_move(t.first),
            pick is None ==> best is None,
    {
        let ghost board = self.map@;
        let ghost found = rows_of_paths(*paths);
        let n = self.map.n;
        let m = self.map.m;
        let mut pick = best;
        let mut y: usize = 0;
        while y < n
            invariant
                y <= n,
                n == self.map.n,
                m == self.map.m,
                board == self.map@,
                found == rows_of_paths(*paths),
                self.map.wf(),
                board.capitals_owned(),
                board.is_search_result(origin, found),
                best matches Some(b) ==> b.dist >= 1,
                board.is_best_so_far(origin, found, best, pick, y as int, 0),
                pick matches Some(t) ==> t.dist >= 1 && board.is_a_valid_move(t.first),
                pick is None ==> best is None,
            decreases n - y,
        {
            let mut x: usize = 0;
            while x < m
                invariant
                    y < n,
                    x <= m,
                    n == self.map.n,
                    m == self.map.m,
                    board == self.map@,
                    found == rows_of_paths(*paths),
                    self.map.wf(),
                    board.capitals_owned(),
                    board.is_search_result(origin, found),
                    best matches Some(b) ==> b.dist >= 1,
                    board.is_best_so_far(origin, found, best, pick, y as int, x as int),
                    pick matches Some(t) ==> t.dist >= 1 && board.is_a_valid_move(t.first),
                    pick is None ==> best is None,
                decreases m - x,
            {
                let ghost before = pick;
                proof {
                    assert(found[y as int] == paths@[y as int]@);
                    assert(board.inside(y as int, x as int));
                    if reached(found, y as int, x as int) && (y, x) != origin {
                        board.lemma_reached_has_parent(origin, found, y as int, x as int);
                    }
                    if !reached(found, y as int, x as int) && (y, x) != origin {
                        assert(found[y as int][x as int] == crate::search::untouched(
                            y as int,
                            x as int,
                        ));
                    }
                }
                let info = paths[y][x];
                if info.value >= 1 && !(y == origin.0 && x == origin.1) && info.parent.0
                    != usize::MAX {
                    assert(reached(found, y as int, x as int));
                    match self.eval_target_cell(&self.map, (y, x)) {
                        Some(worth) => {
                            if scores_higher(worth, info.dist, &pick) {
                                let mv = self.first_hop(paths, origin, (y, x));
                                if self.map.is_a_valid_move(mv) {
                                    pick =
                                    Some(
                                        Target {
                                            coords: (y, x),
                                            worth,
                                            dist: info.dist,
                                            first: mv,
                                        },
                                    );
                                }
                            }
                        },
                        None => {},
                    }
                }
                proof {
                    assert forall|r: int, k: int|
                        board.is_target(origin, found, r, k) implies (#[trigger] board.target_at(
                        origin,
                        found,
                        r,
                        k,
                    )).dist >= 1 by {
                        board.lemma_reached_has_parent(origin, found, r, k);
                    }
                    lemma_scan_step(board, origin, found, best, before, pick, y as int, x as int);
                }
                x += 1;
            }
            proof {
                lemma_scan_row(board, origin, found, best, pick, y as int);
            }
            y += 1;
        }
        pick
    }
}

} // verus!
