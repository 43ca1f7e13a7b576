//! The search for paths of conquest: from one square, breadth first over
//! the map as a viewer knows it, tracking the army that would arrive.

use vstd::prelude::*;
use crate::board::{step, step_move, Board};
use crate::map::Move;

verus! {

/// The distance of a square that the search has not reached.
pub const INF: i64 = 10_000_000_000;

/// The most squares a map may have for a search.
pub const MAX_CELLS: usize = 100_000_000;

/// The parent of a square that has none.
pub open spec fn no_parent() -> (usize, usize) {
    (usize::MAX, usize::MAX)
}

/// What a search knows of one square.
#[derive(Clone, Copy, Debug)]
pub struct VertexData {
    /// The steps from the start; [`INF`] where the search did not come.
    pub dist: i64,
    /// The army that arrives along the best path found.
    pub value: i64,
    /// The square itself.
    pub coords: (usize, usize),
    /// The square before this one on that path.
    pub parent: (usize, usize),
}

impl Default for VertexData {
    fn default() -> (v: Self)
        ensures
            v == (VertexData { dist: 0, value: 0, coords: (0, 0), parent: (0, 0) }),
    {
        VertexData { dist: 0, value: 0, coords: (0, 0), parent: (0, 0) }
    }
}

impl VertexData {
    /// The offer `b` beats what is known: it is shorter, or as short and
    /// arrives with more.
    pub open spec fn beaten_by(self, b: VertexData) -> bool {
        b.dist < self.dist || (b.dist == self.dist && b.value > self.value)
    }

    /// What is known after the offer `b`: its distance, value and parent if it
    /// beats what was known, and what was known if not.
    pub open spec fn merged(self, b: VertexData) -> VertexData {
        if self.beaten_by(b) {
            VertexData { dist: b.dist, value: b.value, coords: self.coords, parent: b.parent }
        } else {
            self
        }
    }

    /// Takes the offer `b` if it beats what is known, and says whether the
    /// square has come nearer, so that it must be looked at again.
    pub fn merge(&mut self, b: VertexData) -> (add_to_queue: bool)
        ensures
            *final(self) == old(self).merged(b),
            add_to_queue == (b.dist < old(self).dist),
    {
        let add_to_queue = b.dist < self.dist;
        if b.dist < self.dist || (b.dist == self.dist && b.value > self.value) {
            self.dist = b.dist;
            self.value = b.value;
            self.parent = b.parent;
        }
        add_to_queue
    }
}

/// The rows of a search's table as sequences.
pub open spec fn rows_of_paths(paths: Vec<Vec<VertexData>>) -> Seq<Seq<VertexData>> {
    Seq::new(paths@.len(), |y: int| paths@[y]@)
}

/// What the table holds of a square that the search has not reached.
pub open spec fn untouched(y: int, x: int) -> VertexData {
    VertexData { dist: INF, value: 0, coords: (y as usize, x as usize), parent: no_parent() }
}

/// The search has reached the square.
pub open spec fn reached(found: Seq<Seq<VertexData>>, y: int, x: int) -> bool {
    found[y][x].dist < INF
}

impl Board {
    /// The map can be searched: it has at most [`MAX_CELLS`] squares, no army
    /// on it is beyond [`INF`] either way, and no city or capital was last
    /// seen in a turn that is yet to come.
    pub open spec fn searchable(self) -> bool {
        &&& self.n * self.m <= MAX_CELLS
        &&& forall|y: int, x: int|
            self.inside(y, x) ==> {
                let c = #[trigger] self.cell(y, x);
                &&& -INF <= c.army_size <= INF
                &&& c.city_or_general() ==> c.last_update_time <= self.turn
            }
    }

    /// The army left of `value` units that take one more step, onto
    /// `(y, x)`, and arrive there `dist` steps from the start: one unit stays
    /// behind, and the army expected on the square joins them if it is the
    /// viewer's own and is fought if not.
    pub open spec fn arrival(self, value: int, y: int, x: int, dist: int) -> int {
        let c = self.cell(y, x);
        if c.owner == Some(self.curr_color) {
            value - 1 + c.spec_army_after_time(self.turn, dist)
        } else {
            value - 1 - c.spec_army_after_time(self.turn, dist)
        }
    }

    /// The search may take the step `d` out of `(y, x)`: both ends lie on the
    /// board and neither is remembered as a mountain.
    pub open spec fn can_step(self, y: int, x: int, d: int) -> bool {
        &&& self.inside(y, x)
        &&& self.inside(step(y, x, d).0, step(y, x, d).1)
        &&& self.could_become_a_valid_move(step_move(y, x, d))
    }

    /// The table's entry for `(y, x)` follows from that of its parent: the
    /// parent is a neighbour on the board with a step to spare, one step
    /// nearer to the start, and the army that arrives is what is left of the
    /// parent's, more than one unit.
    pub open spec fn led_from_parent(self, found: Seq<Seq<VertexData>>, y: int, x: int) -> bool {
        let v = found[y][x];
        let (py, px) = (v.parent.0 as int, v.parent.1 as int);
        let p = found[py][px];
        &&& exists|d: int| 0 <= d < 4 && #[trigger] step(py, px, d) == (y, x) && self.can_step(py, px, d)
        &&& 0 <= p.dist
        &&& p.dist + 1 == v.dist
        &&& p.value > 1
        &&& v.value == self.arrival(p.value as int, y, x, v.dist as int)
        &&& v.value > 1
    }

    /// The step `d` out of `(y, x)` has been tried: if the search reached the
    /// square with more than one unit, may take the step, and would arrive
    /// with more than one unit, then it reached the end of the step, no
    /// further from the start than by this step and, if just as far, with no
    /// fewer units.
    pub open spec fn settled(self, found: Seq<Seq<VertexData>>, y: int, x: int, d: int) -> bool {
        let u = found[y][x];
        let (ny, nx) = step(y, x, d);
        reached(found, y, x) && u.value > 1 && self.can_step(y, x, d) && self.arrival(
            u.value as int,
            ny,
            nx,
            u.dist + 1,
        ) > 1 ==> {
            &&& found[ny][nx].dist <= u.dist + 1
            &&& found[ny][nx].dist == u.dist + 1 ==> found[ny][nx].value >= self.arrival(
                u.value as int,
                ny,
                nx,
                u.dist + 1,
            )
        }
    }

    /// The table has the shape of the board and names each square.
    pub open spec fn table_shape(self, found: Seq<Seq<VertexData>>) -> bool {
        &&& found.len() == self.n
        &&& forall|y: int| 0 <= y < self.n ==> (#[trigger] found[y]).len() == self.m
        &&& forall|y: int, x: int|
            self.inside(y, x) ==> (#[trigger] found[y][x]).coords == (y as usize, x as usize)
    }

    /// `found` is the table of the search from `start`.
    ///
    /// The start is at distance 0 with the army that stands on it. Any other
    /// square is either untouched, or follows from its parent as
    /// [`Board::led_from_parent`] says. Every step out of every square has
    /// been tried as [`Board::settled`] says. Together these fix the
    /// distance and the value of every square: the squares at distance `k + 1`
    /// are those that a step with more than one unit arriving reaches from
    /// distance `k` and no shorter walk does, each with the most that any
    /// such step brings.
    pub open spec fn is_search_result(
        self,
        start: (usize, usize),
        found: Seq<Seq<VertexData>>,
    ) -> bool {
        &&& self.table_shape(found)
        &&& found[start.0 as int][start.1 as int] == VertexData {
            dist: 0,
            value: self.cell(start.0 as int, start.1 as int).army_size,
            coords: start,
            parent: no_parent(),
        }
        &&& forall|y: int, x: int|
            self.inside(y, x) && (y, x) != (start.0 as int, start.1 as int) ==> if reached(
                found,
                y,
                x,
            ) {
                self.led_from_parent(found, y, x)
            } else {
                #[trigger] found[y][x] == untouched(y, x)
            }
        &&& forall|y: int, x: int, d: int|
            self.inside(y, x) && 0 <= d < 4 ==> #[trigger] self.settled(found, y, x, d)
    }
}

/// No army that the search works with is beyond this either way after one
/// step; after `k` steps none is beyond `k + 1` times as much.
pub open spec fn value_step() -> int {
    15_000_000_000
}

/// A search under way: its table, the squares that wait to be looked at, and
/// the places of the squares reached so far.
pub struct Progress {
    pub found: Seq<Seq<VertexData>>,
    pub queue: Seq<(usize, usize)>,
    pub seen: Set<int>,
}

impl Progress {
    pub open spec fn dist(self, p: (usize, usize)) -> int {
        self.found[p.0 as int][p.1 as int].dist as int
    }

    /// The square has been reached and looked at.
    pub open spec fn is_done(self, y: int, x: int) -> bool {
        reached(self.found, y, x) && !self.queue.contains((y as usize, x as usize))
    }
}

impl Board {
    /// The entry of a square other than the start is in order: untouched, or
    /// led from a parent that has been looked at.
    pub open spec fn node_ok(self, p: Progress, y: int, x: int) -> bool {
        if reached(p.found, y, x) {
            &&& self.led_from_parent(p.found, y, x)
            &&& !p.queue.contains(p.found[y][x].parent)
        } else {
            p.found[y][x] == untouched(y, x)
        }
    }

    /// The entry of a reached square is within bounds: fewer steps than
    /// squares reached, and an army within [`value_step`] for each step.
    pub open spec fn node_bounded(self, p: Progress, y: int, x: int) -> bool {
        let v = p.found[y][x];
        &&& 0 <= v.dist < p.seen.len()
        &&& -(v.dist + 1) * value_step() <= v.value <= (v.dist + 1) * value_step()
    }

    /// What holds of a search at every moment.
    pub open spec fn sound(self, start: (usize, usize), p: Progress) -> bool {
        &&& self.wf()
        &&& self.searchable()
        &&& self.table_shape(p.found)
        &&& self.inside(start.0 as int, start.1 as int)
        &&& p.found[start.0 as int][start.1 as int] == VertexData {
            dist: 0,
            value: self.cell(start.0 as int, start.1 as int).army_size,
            coords: start,
            parent: no_parent(),
        }
        &&& forall|y: int, x: int|
            self.inside(y, x) && (y, x) != (start.0 as int, start.1 as int)
                ==> #[trigger] self.node_ok(p, y, x)
        &&& forall|y: int, x: int|
            self.inside(y, x) && reached(p.found, y, x) ==> #[trigger] self.node_bounded(p, y, x)
        &&& forall|i: int|
            0 <= i < p.queue.len() ==> self.inside(
                (#[trigger] p.queue[i]).0 as int,
                p.queue[i].1 as int,
            ) && reached(p.found, p.queue[i].0 as int, p.queue[i].1 as int)
        &&& p.queue.no_duplicates()
        &&& forall|i: int, j: int|
            0 <= i < j < p.queue.len() ==> p.dist(#[trigger] p.queue[i]) <= p.dist(
                #[trigger] p.queue[j],
            )
        &&& forall|k: int| p.seen.contains(k) ==> 0 <= k < self.n * self.m
        &&& forall|y: int, x: int|
            self.inside(y, x) ==> (#[trigger] reached(p.found, y, x) <==> p.seen.contains(
                crate::connectivity::flat(self.m as int, y, x),
            ))
        &&& p.seen.finite()
        &&& p.seen.len() <= self.n * self.m
    }

    /// What holds between two squares being looked at.
    pub open spec fn at_rest(self, start: (usize, usize), p: Progress) -> bool {
        &&& self.sound(start, p)
        &&& p.queue.len() > 0 ==> forall|y: int, x: int|
            self.inside(y, x) && #[trigger] reached(p.found, y, x) ==> {
                &&& p.found[y][x].dist <= p.dist(p.queue[0]) + 1
                &&& p.is_done(y, x) ==> p.found[y][x].dist <= p.dist(p.queue[0])
            }
        &&& forall|y: int, x: int, d: int|
            self.inside(y, x) && 0 <= d < 4 && p.is_done(y, x) ==> #[trigger] self.settled(
                p.found,
                y,
                x,
                d,
            )
    }

    /// What holds while the square `u` is looked at and its first `d` steps
    /// have been tried.
    pub open spec fn expanding(
        self,
        start: (usize, usize),
        p: Progress,
        u: (usize, usize),
        d: int,
    ) -> bool {
        &&& self.sound(start, p)
        &&& self.inside(u.0 as int, u.1 as int)
        &&& p.is_done(u.0 as int, u.1 as int)
        &&& p.found[u.0 as int][u.1 as int].value > 1
        &&& forall|y: int, x: int|
            self.inside(y, x) && #[trigger] reached(p.found, y, x) ==> {
                &&& p.found[y][x].dist <= p.dist(u) + 1
                &&& p.is_done(y, x) ==> p.found[y][x].dist <= p.dist(u)
            }
        &&& forall|i: int| 0 <= i < p.queue.len() ==> p.dist(u) <= p.dist(#[trigger] p.queue[i])
        &&& forall|y: int, x: int, e: int|
            self.inside(y, x) && 0 <= e < 4 && p.is_done(y, x) && ((y, x) != (
                u.0 as int,
                u.1 as int,
            ) || e < d) ==> #[trigger] self.settled(p.found, y, x, e)
    }
}

/// A search that has nothing left to look at has its table complete.
proof fn lemma_search_complete(board: Board, start: (usize, usize), p: Progress)
    requires
        board.at_rest(start, p),
        p.queue.len() == 0,
    ensures
        board.is_search_result(start, p.found),
        forall|y: int, x: int|
            board.inside(y, x) && #[trigger] reached(p.found, y, x) ==> p.found[y][x].dist
                < board.n * board.m,
{
    assert forall|y: int, x: int|
        board.inside(y, x) && #[trigger] reached(p.found, y, x) implies p.found[y][x].dist
        < board.n * board.m by {
        assert(board.node_bounded(p, y, x));
    }
    assert forall|y: int, x: int|
        board.inside(y, x) && (y, x) != (start.0 as int, start.1 as int) implies if reached(
        p.found,
        y,
        x,
    ) {
        board.led_from_parent(p.found, y, x)
    } else {
        #[trigger] p.found[y][x] == untouched(y, x)
    } by {
        assert(board.node_ok(p, y, x));
    }
    assert forall|y: int, x: int, d: int|
        board.inside(y, x) && 0 <= d < 4 implies #[trigger] board.settled(p.found, y, x, d) by {
        if reached(p.found, y, x) {
            assert(p.is_done(y, x));
        }
    }
}

/// Once all four steps out of a square have been tried, the search is at
/// rest again.
proof fn lemma_search_finish(board: Board, start: (usize, usize), p: Progress, u: (usize, usize))
    requires
        board.expanding(start, p, u, 4),
    ensures
        board.at_rest(start, p),
{
    if p.queue.len() > 0 {
        assert(p.dist(u) <= p.dist(p.queue[0]));
    }
}

/// Without a step to take, or with too little to arrive with, the step is
/// tried and nothing changes.
proof fn lemma_search_blocked(
    board: Board,
    start: (usize, usize),
    p: Progress,
    u: (usize, usize),
    d: int,
)
    requires
        board.expanding(start, p, u, d),
        0 <= d < 4,
        !(board.can_step(u.0 as int, u.1 as int, d) && board.arrival(
            p.found[u.0 as int][u.1 as int].value as int,
            step(u.0 as int, u.1 as int, d).0,
            step(u.0 as int, u.1 as int, d).1,
            p.found[u.0 as int][u.1 as int].dist + 1,
        ) > 1),
    ensures
        board.expanding(start, p, u, d + 1),
{
    assert(board.settled(p.found, u.0 as int, u.1 as int, d));
}

/// Taking the next square off the queue keeps what holds at every moment.
proof fn lemma_search_dequeue(board: Board, start: (usize, usize), p: Progress, q: Progress)
    requires
        board.at_rest(start, p),
        p.queue.len() > 0,
        q == (Progress { queue: p.queue.drop_first(), ..p }),
    ensures
        board.sound(start, q),
        !q.queue.contains(p.queue[0]),
        forall|c: (usize, usize)| q.queue.contains(c) ==> p.queue.contains(c),
        forall|c: (usize, usize)| p.queue.contains(c) && c != p.queue[0] ==> q.queue.contains(c),
{
    assert forall|c: (usize, usize)| q.queue.contains(c) implies p.queue.contains(c) by {
        let i = choose|i: int| 0 <= i < q.queue.len() && q.queue[i] == c;
        assert(p.queue[i + 1] == c);
    }
    assert forall|c: (usize, usize)| p.queue.contains(c) && c != p.queue[0] implies q.queue.contains(
        c,
    ) by {
        let i = choose|i: int| 0 <= i < p.queue.len() && p.queue[i] == c;
        assert(q.queue[i - 1] == c);
    }
    if q.queue.contains(p.queue[0]) {
        let i = choose|i: int| 0 <= i < q.queue.len() && q.queue[i] == p.queue[0];
        assert(p.queue[i + 1] == p.queue[0]);
    }
    assert forall|y: int, x: int|
        board.inside(y, x) && (y, x) != (start.0 as int, start.1 as int)
            implies #[trigger] board.node_ok(q, y, x) by {
        assert(board.node_ok(p, y, x));
    }
    assert forall|y: int, x: int|
        board.inside(y, x) && reached(q.found, y, x) implies #[trigger] board.node_bounded(
        q,
        y,
        x,
    ) by {
        assert(board.node_bounded(p, y, x));
    }
    assert forall|i: int| 0 <= i < q.queue.len() implies board.inside(
        (#[trigger] q.queue[i]).0 as int,
        q.queue[i].1 as int,
    ) && reached(q.found, q.queue[i].0 as int, q.queue[i].1 as int) by {
        assert(q.queue[i] == p.queue[i + 1]);
    }
    assert forall|i: int, j: int| 0 <= i < j < q.queue.len() implies q.dist(
        #[trigger] q.queue[i],
    ) <= q.dist(#[trigger] q.queue[j]) by {
        assert(q.queue[i] == p.queue[i + 1]);
        assert(q.queue[j] == p.queue[j + 1]);
    }
    assert forall|i: int, j: int|
        0 <= i < q.queue.len() && 0 <= j < q.queue.len() && i != j implies q.queue[i]
        != q.queue[j] by {
        assert(q.queue[i] == p.queue[i + 1]);
        assert(q.queue[j] == p.queue[j + 1]);
    }
}

/// The square at the head of the queue, taken off it with more than one
/// unit, is ready to have its steps tried.
proof fn lemma_search_pop(board: Board, start: (usize, usize), p: Progress, q: Progress)
    requires
        board.at_rest(start, p),
        p.queue.len() > 0,
        q == (Progress { queue: p.queue.drop_first(), ..p }),
        p.found[p.queue[0].0 as int][p.queue[0].1 as int].value > 1,
    ensures
        board.expanding(start, q, p.queue[0], 0),
{
    let u = p.queue[0];
    lemma_search_dequeue(board, start, p, q);
    assert forall|y: int, x: int|
        board.inside(y, x) && #[trigger] reached(q.found, y, x) implies {
        &&& q.found[y][x].dist <= q.dist(u) + 1
        &&& q.is_done(y, x) ==> q.found[y][x].dist <= q.dist(u)
    } by {
        if q.is_done(y, x) && (y as usize, x as usize) != u {
            assert(p.is_done(y, x));
        }
    }
    assert forall|i: int| 0 <= i < q.queue.len() implies q.dist(u) <= q.dist(
        #[trigger] q.queue[i],
    ) by {
        assert(q.queue[i] == p.queue[i + 1]);
    }
    assert forall|y: int, x: int, e: int|
        board.inside(y, x) && 0 <= e < 4 && q.is_done(y, x) && ((y, x) != (
            u.0 as int,
            u.1 as int,
        ) || e < 0) implies #[trigger] board.settled(q.found, y, x, e) by {
        assert((y as usize, x as usize) != u);
        assert(p.is_done(y, x));
    }
}

/// The square at the head of the queue, taken off it with one unit or
/// less, has no step to try.
proof fn lemma_search_pass(board: Board, start: (usize, usize), p: Progress, q: Progress)
    requires
        board.at_rest(start, p),
        p.queue.len() > 0,
        q == (Progress { queue: p.queue.drop_first(), ..p }),
        p.found[p.queue[0].0 as int][p.queue[0].1 as int].value <= 1,
    ensures
        board.at_rest(start, q),
{
    let u = p.queue[0];
    lemma_search_dequeue(board, start, p, q);
    if q.queue.len() > 0 {
        assert(q.queue[0] == p.queue[1]);
        assert(p.dist(p.queue[0]) <= p.dist(p.queue[1]));
        assert forall|y: int, x: int|
            board.inside(y, x) && #[trigger] reached(q.found, y, x) implies {
            &&& q.found[y][x].dist <= q.dist(q.queue[0]) + 1
            &&& q.is_done(y, x) ==> q.found[y][x].dist <= q.dist(q.queue[0])
        } by {
            if q.is_done(y, x) && (y as usize, x as usize) != u {
                assert(p.is_done(y, x));
            }
        }
    }
    assert forall|y: int, x: int, d: int|
        board.inside(y, x) && 0 <= d < 4 && q.is_done(y, x) implies #[trigger] board.settled(
        q.found,
        y,
        x,
        d,
    ) by {
        if (y as usize, x as usize) != u {
            assert(p.is_done(y, x));
        }
    }
}

/// The army expected on a square of a searchable board, within as many
/// steps as the board has squares, is less than [`value_step`] either way.
proof fn lemma_army_within_step(board: Board, y: int, x: int, dist: int)
    requires
        board.searchable(),
        board.inside(y, x),
        0 <= dist <= MAX_CELLS,
    ensures
        -value_step() < board.cell(y, x).spec_army_after_time(board.turn, dist) < value_step(),
{
}

/// A step that can be taken, with more than one unit arriving, is tried:
/// the offer is merged into the entry of the square where the step ends,
/// and that square joins the queue if it was reached for the first time.
proof fn lemma_search_relax(
    board: Board,
    start: (usize, usize),
    p: Progress,
    q: Progress,
    u: (usize, usize),
    d: int,
    v: (usize, usize),
    offer: VertexData,
)
    requires
        board.expanding(start, p, u, d),
        0 <= d < 4,
        board.can_step(u.0 as int, u.1 as int, d),
        (v.0 as int, v.1 as int) == step(u.0 as int, u.1 as int, d),
        offer.dist == p.dist(u) + 1,
        offer.value == board.arrival(
            p.found[u.0 as int][u.1 as int].value as int,
            v.0 as int,
            v.1 as int,
            p.dist(u) + 1,
        ),
        offer.value > 1,
        offer.parent == u,
        q.found == p.found.update(
            v.0 as int,
            p.found[v.0 as int].update(v.1 as int, p.found[v.0 as int][v.1 as int].merged(offer)),
        ),
        q.queue == if offer.dist < p.dist(v) {
            p.queue.push(v)
        } else {
            p.queue
        },
        q.seen == if offer.dist < p.dist(v) {
            p.seen.insert(crate::connectivity::flat(board.m as int, v.0 as int, v.1 as int))
        } else {
            p.seen
        },
    ensures
        board.expanding(start, q, u, d + 1),
        offer.dist < p.dist(v) ==> q.seen.len() == p.seen.len() + 1,
{
    let (uy, ux) = (u.0 as int, u.1 as int);
    let (vy, vx) = (v.0 as int, v.1 as int);
    let (sy, sx) = (start.0 as int, start.1 as int);
    let was = p.found[vy][vx];
    let now = was.merged(offer);
    let pushed = offer.dist < p.dist(v);
    let m = board.m as int;
    let id = crate::connectivity::flat(m, vy, vx);
    assert(board.inside(vy, vx));
    assert(board.node_bounded(p, uy, ux));
    assert(q.found[vy][vx] == now);
    assert forall|y: int, x: int| board.inside(y, x) && (y, x) != (vy, vx) implies q.found[y][x]
        == p.found[y][x] by {}
    assert(reached(p.found, uy, ux));
    assert(p.seen.len() <= MAX_CELLS);
    // The square where the step ends was reached before, or is reached now.
    if reached(p.found, vy, vx) {
        assert(was.dist <= p.dist(u) + 1);
        assert(!pushed);
        if was.beaten_by(offer) {
            assert(was.dist == p.dist(u) + 1);
            assert(!p.is_done(vy, vx));
            assert(p.queue.contains(v));
            assert((vy, vx) != (sy, sx));
        }
    } else {
        assert((vy, vx) != (sy, sx));
        assert(board.node_ok(p, vy, vx));
        assert(was == untouched(vy, vx));
        assert(pushed);
        assert(!p.seen.contains(id));
        crate::connectivity::lemma_flat_bounds(board.n as int, m, vy, vx);
        crate::connectivity::lemma_one_more_place(p.seen, board.n * board.m, id);
        vstd::set_lib::lemma_int_range(0, board.n * board.m);
        assert(q.seen.subset_of(vstd::set_lib::set_int_range(0, board.n * board.m)));
        vstd::set_lib::lemma_len_subset(
            q.seen,
            vstd::set_lib::set_int_range(0, board.n * board.m),
        );
        assert(!p.queue.contains(v)) by {
            if p.queue.contains(v) {
                let i = choose|i: int| 0 <= i < p.queue.len() && p.queue[i] == v;
                assert(reached(p.found, p.queue[i].0 as int, p.queue[i].1 as int));
            }
        }
    }
    assert(now.dist <= p.dist(u) + 1);
    assert(reached(q.found, vy, vx));
    assert(now != was ==> now == (VertexData {
        dist: offer.dist,
        value: offer.value,
        coords: v,
        parent: u,
    }));
    // What is in the queue.
    assert forall|c: (usize, usize)| p.queue.contains(c) implies q.queue.contains(c) by {
        let i = choose|i: int| 0 <= i < p.queue.len() && p.queue[i] == c;
        assert(q.queue[i] == c);
    }
    assert forall|c: (usize, usize)| q.queue.contains(c) implies p.queue.contains(c) || (pushed
        && c == v) by {
        let i = choose|i: int| 0 <= i < q.queue.len() && q.queue[i] == c;
        if i < p.queue.len() {
            assert(p.queue[i] == c);
        }
    }
    if pushed {
        assert(q.queue[p.queue.len() as int] == v);
        assert(q.queue.contains(v));
    }
    // A square that is done was done before and has not changed.
    assert forall|y: int, x: int| board.inside(y, x) && q.is_done(y, x) implies p.is_done(y, x)
        && q.found[y][x] == p.found[y][x] by {
        if (y, x) == (vy, vx) {
            assert(!pushed);
            assert(p.is_done(vy, vx));
            assert(was.dist <= p.dist(u));
        }
    }
    // The entries.
    assert forall|y: int, x: int|
        board.inside(y, x) && (y, x) != (sy, sx) implies #[trigger] board.node_ok(q, y, x) by {
        assert(board.node_ok(p, y, x));
        if (y, x) == (vy, vx) && now != was {
            assert(step(uy, ux, d) == (y, x) && board.can_step(uy, ux, d));
            assert(q.found[uy][ux] == p.found[uy][ux]);
            assert(board.led_from_parent(q.found, y, x));
            assert(!q.queue.contains(u));
        } else if reached(q.found, y, x) {
            let par = p.found[y][x].parent;
            let (py, px) = (par.0 as int, par.1 as int);
            assert(q.found[y][x] == p.found[y][x]);
            assert(board.led_from_parent(p.found, y, x));
            let e = choose|e: int|
                0 <= e < 4 && #[trigger] step(py, px, e) == (y, x) && board.can_step(py, px, e);
            assert(board.inside(py, px));
            assert(reached(p.found, py, px));
            assert(p.is_done(py, px));
            assert((py, px) != (vy, vx) || now == was);
            assert(q.found[py][px] == p.found[py][px]);
            assert(step(py, px, e) == (y, x) && board.can_step(py, px, e));
            assert(board.led_from_parent(q.found, y, x));
            assert(!q.queue.contains(par));
        } else {
            assert(q.found[y][x] == p.found[y][x]);
        }
    }
    assert forall|y: int, x: int|
        board.inside(y, x) && reached(q.found, y, x) implies #[trigger] board.node_bounded(
        q,
        y,
        x,
    ) by {
        if (y, x) == (vy, vx) && now != was {
            lemma_army_within_step(board, vy, vx, p.dist(u) + 1);
            let from = p.found[uy][ux].value as int;
            let step_max = value_step();
            let far = p.dist(u);
            assert(from - step_max <= now.value <= from + step_max);
            assert(-(far + 1) * step_max <= from <= (far + 1) * step_max);
            assert(-(far + 2) * step_max <= now.value <= (far + 2) * step_max)
                by (nonlinear_arith)
                requires
                    -(far + 1) * step_max <= from <= (far + 1) * step_max,
                    from - step_max <= now.value <= from + step_max,
            ;
            assert(now.dist + 1 == far + 2);
            if !pushed {
                assert(board.node_bounded(p, vy, vx));
            }
            assert(0 <= now.dist < q.seen.len());
        } else {
            assert(reached(p.found, y, x));
            assert(board.node_bounded(p, y, x));
            assert(q.seen.len() >= p.seen.len());
        }
    }
    assert forall|i: int| 0 <= i < q.queue.len() implies board.inside(
        (#[trigger] q.queue[i]).0 as int,
        q.queue[i].1 as int,
    ) && reached(q.found, q.queue[i].0 as int, q.queue[i].1 as int) by {
        if i < p.queue.len() {
            assert(q.queue[i] == p.queue[i]);
            assert(reached(p.found, p.queue[i].0 as int, p.queue[i].1 as int));
        }
    }
    assert forall|i: int, j: int|
        0 <= i < q.queue.len() && 0 <= j < q.queue.len() && i != j implies q.queue[i]
        != q.queue[j] by {
        if i < p.queue.len() && j < p.queue.len() {
            assert(q.queue[i] == p.queue[i] && q.queue[j] == p.queue[j]);
        } else if i < p.queue.len() {
            assert(p.queue[i] == q.queue[i]);
            assert(p.queue.contains(q.queue[i]));
        } else if j < p.queue.len() {
            assert(p.queue[j] == q.queue[j]);
            assert(p.queue.contains(q.queue[j]));
        }
    }
    assert forall|c: (usize, usize)|
        board.inside(c.0 as int, c.1 as int) && reached(p.found, c.0 as int, c.1 as int)
            implies q.dist(c) == p.dist(c) by {}
    assert forall|i: int, j: int| 0 <= i < j < q.queue.len() implies q.dist(
        #[trigger] q.queue[i],
    ) <= q.dist(#[trigger] q.queue[j]) by {
        assert(q.queue[i] == p.queue[i]);
        assert(reached(p.found, p.queue[i].0 as int, p.queue[i].1 as int));
        if j < p.queue.len() {
            assert(q.queue[j] == p.queue[j]);
            assert(reached(p.found, p.queue[j].0 as int, p.queue[j].1 as int));
        } else {
            assert(q.queue[j] == v);
        }
    }
    assert forall|y: int, x: int| board.inside(y, x) implies (#[trigger] reached(q.found, y, x)
        <==> q.seen.contains(crate::connectivity::flat(m, y, x))) by {
        assert(reached(p.found, y, x) <==> p.seen.contains(crate::connectivity::flat(m, y, x)));
        if (y, x) != (vy, vx) && crate::connectivity::flat(m, y, x) == id {
            crate::connectivity::lemma_flat_injective(m, y, x, vy, vx);
        }
    }
    assert(board.sound(start, q));
    // The square being looked at, and the order of the distances.
    assert(q.is_done(uy, ux));
    assert forall|y: int, x: int|
        board.inside(y, x) && #[trigger] reached(q.found, y, x) implies {
        &&& q.found[y][x].dist <= q.dist(u) + 1
        &&& q.is_done(y, x) ==> q.found[y][x].dist <= q.dist(u)
    } by {
        if (y, x) != (vy, vx) {
            assert(reached(p.found, y, x));
        }
    }
    assert forall|i: int| 0 <= i < q.queue.len() implies q.dist(u) <= q.dist(
        #[trigger] q.queue[i],
    ) by {
        if i < p.queue.len() {
            assert(q.queue[i] == p.queue[i]);
            assert(reached(p.found, p.queue[i].0 as int, p.queue[i].1 as int));
        }
    }
    // The steps tried so far.
    assert forall|y: int, x: int, e: int|
        board.inside(y, x) && 0 <= e < 4 && q.is_done(y, x) && ((y, x) != (uy, ux) || e < d
            + 1) implies #[trigger] board.settled(q.found, y, x, e) by {
        assert(p.is_done(y, x) && q.found[y][x] == p.found[y][x]);
        let (ty, tx) = step(y, x, e);
        if (y, x) == (uy, ux) && e == d {
            assert((ty, tx) == (vy, vx));
        } else {
            assert(board.settled(p.found, y, x, e));
            if (ty, tx) == (vy, vx) && now != was && reached(p.found, y, x) && p.found[y][x].value
                > 1 && board.can_step(y, x, e) && board.arrival(
                p.found[y][x].value as int,
                ty,
                tx,
                p.found[y][x].dist + 1,
            ) > 1 {
                assert(board.node_bounded(p, y, x));
                assert(reached(p.found, vy, vx));
            } else if (ty, tx) != (vy, vx) && board.can_step(y, x, e) {
                assert(q.found[ty][tx] == p.found[ty][tx]);
            }
        }
    }
}

/// A search that has only its start in the queue is at rest.
proof fn lemma_search_start(board: Board, start: (usize, usize), p: Progress)
    requires
        board.wf(),
        board.searchable(),
        board.inside(start.0 as int, start.1 as int),
        board.table_shape(p.found),
        p.found[start.0 as int][start.1 as int] == (VertexData {
            dist: 0,
            value: board.cell(start.0 as int, start.1 as int).army_size,
            coords: start,
            parent: no_parent(),
        }),
        forall|y: int, x: int|
            board.inside(y, x) && (y, x) != (start.0 as int, start.1 as int)
                ==> #[trigger] p.found[y][x] == untouched(y, x),
        p.queue == seq![start],
        p.seen == Set::<int>::empty().insert(
            crate::connectivity::flat(board.m as int, start.0 as int, start.1 as int),
        ),
    ensures
        board.at_rest(start, p),
        p.seen.len() == 1,
{
    let (sy, sx) = (start.0 as int, start.1 as int);
    let m = board.m as int;
    crate::connectivity::lemma_flat_bounds(board.n as int, m, sy, sx);
    assert(p.queue[0] == start);
    assert forall|y: int, x: int| board.inside(y, x) && (y, x) != (sy, sx) implies !reached(
        p.found,
        y,
        x,
    ) by {
        assert(p.found[y][x] == untouched(y, x));
    }
    assert forall|y: int, x: int|
        board.inside(y, x) && (y, x) != (sy, sx) implies #[trigger] board.node_ok(p, y, x) by {
        assert(p.found[y][x] == untouched(y, x));
    }
    assert forall|y: int, x: int| board.inside(y, x) implies (#[trigger] reached(p.found, y, x)
        <==> p.seen.contains(crate::connectivity::flat(m, y, x))) by {
        if (y, x) != (sy, sx) {
            assert(p.found[y][x] == untouched(y, x));
            if crate::connectivity::flat(m, y, x) == crate::connectivity::flat(m, sy, sx) {
                crate::connectivity::lemma_flat_injective(m, y, x, sy, sx);
            }
        }
    }
    assert(board.cell(sy, sx).army_size <= INF);
    assert forall|y: int, x: int|
        board.inside(y, x) && reached(p.found, y, x) implies #[trigger] board.node_bounded(
        p,
        y,
        x,
    ) by {}
    assert(board.sound(start, p));
    assert forall|y: int, x: int, d: int|
        board.inside(y, x) && 0 <= d < 4 && p.is_done(y, x) implies #[trigger] board.settled(
        p.found,
        y,
        x,
        d,
    ) by {
        assert((y, x) == (sy, sx));
        assert(p.queue.contains(start));
    }
}

/// The table of a search that has reached nothing.
fn blank_table(n: usize, m: usize) -> (table: Vec<Vec<VertexData>>)
    ensures
        table@.len() == n,
        forall|y: int| 0 <= y < n ==> (#[trigger] table@[y])@.len() == m,
        forall|y: int, x: int| 0 <= y < n && 0 <= x < m ==> table@[y]@[x] == untouched(y, x),
{
    let mut table: Vec<Vec<VertexData>> = Vec::new();
    let mut y: usize = 0;
    while y < n
        invariant
            y <= n,
            table@.len() == y,
            forall|r: int| 0 <= r < y ==> (#[trigger] table@[r])@.len() == m,
            forall|r: int, c: int| 0 <= r < y && 0 <= c < m ==> table@[r]@[c] == untouched(r, c),
        decreases n - y,
    {
        let mut row: Vec<VertexData> = Vec::new();
        let mut x: usize = 0;
        while x < m
            invariant
                x <= m,
                row@.len() == x,
                forall|c: int| 0 <= c < x ==> row@[c] == untouched(y as int, c),
            decreases m - x,
        {
            row.push(
                VertexData { dist: INF, value: 0, coords: (y, x), parent: (usize::MAX, usize::MAX) },
            );
            x += 1;
        }
        table.push(row);
        y += 1;
    }
    table
}

/// What a search brings back: its table, and how many steps it tried.
pub struct Exploration {
    pub nodes: Vec<Vec<VertexData>>,
    pub relaxations: usize,
}

/// Searches the map from `start`, breadth first, and counts the steps it
/// tries.
///
/// A square is looked at once, in the order in which the squares were
/// reached, and only if more than one unit arrives on it. Each of the four
/// steps out of it is tried: a step that the map may allow, with more than
/// one unit arriving at its end, is offered to the square where it ends (see
/// [`VertexData::merge`]). The table that comes back is the one that
/// [`Board::is_search_result`] describes; no square in it is as many steps
/// away as the map has squares, and no more than four steps for each square
/// of the map were tried.
pub fn explore(map: &crate::map::GameMap, start: (usize, usize)) -> (out: Exploration)
    requires
        map.wf(),
        map@.inside(start.0 as int, start.1 as int),
        map@.searchable(),
    ensures
        map@.is_search_result(start, rows_of_paths(out.nodes)),
        forall|y: int, x: int|
            map@.inside(y, x) && #[trigger] reached(rows_of_paths(out.nodes), y, x)
                ==> rows_of_paths(out.nodes)[y][x].dist < map.n * map.m,
        out.relaxations <= 4 * (map.n * map.m),
{
    let n = map.n;
    let m = map.m;
    let ghost board = map@;
    let mut result = blank_table(n, m);
    assert(board.grid[start.0 as int] == map.grid@[start.0 as int]@);
    let ghost blank = result;
    result[start.0][start.1].dist = 0;
    result[start.0][start.1].value = map.grid[start.0][start.1].army_size;
    proof {
        let found = rows_of_paths(result);
        assert forall|y: int| 0 <= y < n implies (#[trigger] found[y]).len() == m by {
            assert(blank@[y]@.len() == m);
        }
        assert forall|y: int, x: int|
            board.inside(y, x) && (y, x) != (start.0 as int, start.1 as int)
                implies #[trigger] found[y][x] == untouched(y, x) by {
            assert(blank@[y]@[x] == untouched(y, x));
        }
        assert(blank@[start.0 as int]@[start.1 as int] == untouched(
            start.0 as int,
            start.1 as int,
        ));
        assert forall|y: int, x: int| board.inside(y, x) implies (#[trigger] found[y][x]).coords
            == (y as usize, x as usize) by {
            assert(blank@[y]@[x] == untouched(y, x));
        }
    }
    let mut queue: std::collections::VecDeque<(usize, usize)> = std::collections::VecDeque::new();
    queue.push_back(start);
    let ghost mut seen: Set<int> = Set::<int>::empty().insert(
        crate::connectivity::flat(m as int, start.0 as int, start.1 as int),
    );
    let mut relaxations: usize = 0;
    proof {
        let p = Progress { found: rows_of_paths(result), queue: queue@, seen };
        assert(queue@ =~= seq![start]);
        lemma_search_start(board, start, p);
    }
    while queue.len() > 0
        invariant
            board == map@,
            n == map.n,
            m == map.m,
            map.wf(),
            board.at_rest(start, Progress { found: rows_of_paths(result), queue: queue@, seen }),
            relaxations + 4 * queue@.len() <= 4 * seen.len(),
        decreases n * m - seen.len(), queue@.len(),
    {
        let ghost waiting = Progress { found: rows_of_paths(result), queue: queue@, seen };
        let (y, x) = queue.pop_front().unwrap();
        let ghost taken = Progress { found: rows_of_paths(result), queue: queue@, seen };
        proof {
            assert(taken.queue =~= waiting.queue.drop_first());
            assert(waiting.queue[0] == (y, x));
            assert(board.inside(y as int, x as int));
            assert(waiting.found[y as int] == result@[y as int]@);
        }
        if result[y][x].value > 1 {
            proof {
                lemma_search_pop(board, start, waiting, taken);
            }
            let mut d: usize = 0;
            while d < 4
                invariant
                    d <= 4,
                    board == map@,
                    n == map.n,
                    m == map.m,
                    map.wf(),
                    board.expanding(
                        start,
                        Progress { found: rows_of_paths(result), queue: queue@, seen },
                        (y, x),
                        d as int,
                    ),
                    relaxations + (4 - d) + 4 * queue@.len() <= 4 * seen.len(),
                    seen.len() >= waiting.seen.len(),
                    seen.len() == waiting.seen.len() ==> queue@.len() < waiting.queue.len(),
                decreases 4 - d,
            {
                let ghost p = Progress { found: rows_of_paths(result), queue: queue@, seen };
                relaxations += 1;
                let ghost mut tried = false;
                proof {
                    assert(p.found[y as int] == result@[y as int]@);
                    assert(board.node_bounded(p, y as int, x as int));
                    assert(reached(p.found, y as int, x as int));
                }
                match crate::map::step_within(n, m, y, x, d) {
                    Some((ny, nx)) => {
                        if map.could_become_a_valid_move(Move::new(y, x, ny, nx)) {
                            proof {
                                assert(board.grid[ny as int] == map.grid@[ny as int]@);
                                assert(board.can_step(y as int, x as int, d as int));
                                lemma_army_within_step(
                                    board,
                                    ny as int,
                                    nx as int,
                                    p.dist((y, x)) + 1,
                                );
                            }
                            let to = map.grid[ny][nx];
                            let new_dist = result[y][x].dist + 1;
                            let army_size = to.army_after_time(map, new_dist);
                            let value_delta = if to.owner == Some(map.curr_color) {
                                army_size
                            } else {
                                -army_size
                            };
                            assert(-(p.dist((y, x)) + 1) * value_step() <= result[y as int][x as int].value
                                <= (p.dist((y, x)) + 1) * value_step());
                            assert((p.dist((y, x)) + 1) * value_step() <= MAX_CELLS
                                * value_step()) by (nonlinear_arith)
                                requires
                                    0 <= p.dist((y, x)) + 1 <= MAX_CELLS,
                            ;
                            let new_value = result[y][x].value - 1 + value_delta;
                            if new_value > 1 {
                                let offer = VertexData {
                                    dist: new_dist,
                                    value: new_value,
                                    coords: (ny, nx),
                                    parent: (y, x),
                                };
                                proof {
                                    assert(p.found[ny as int] == result@[ny as int]@);
                                }
                                let ghost before = result;
                                let add = result[ny][nx].merge(offer);
                                if add {
                                    queue.push_back((ny, nx));
                                    proof {
                                        seen = seen.insert(
                                            crate::connectivity::flat(
                                                m as int,
                                                ny as int,
                                                nx as int,
                                            ),
                                        );
                                    }
                                }
                                proof {
                                    let q = Progress {
                                        found: rows_of_paths(result),
                                        queue: queue@,
                                        seen,
                                    };
                                    let was = p.found[ny as int][nx as int];
                                    assert(result@[ny as int]@[nx as int] == was.merged(offer));
                                    assert forall|r: int| 0 <= r < n implies #[trigger] q.found[r]
                                        =~= p.found.update(
                                        ny as int,
                                        p.found[ny as int].update(nx as int, was.merged(offer)),
                                    )[r] by {
                                        assert(p.found[r] == before@[r]@);
                                    }
                                    assert(q.found =~= p.found.update(
                                        ny as int,
                                        p.found[ny as int].update(nx as int, was.merged(offer)),
                                    ));
                                    lemma_search_relax(
                                        board,
                                        start,
                                        p,
                                        q,
                                        (y, x),
                                        d as int,
                                        (ny, nx),
                                        offer,
                                    );
                                    tried = true;
                                }
                            }
                        }
                    },
                    None => {},
                }
                proof {
                    if !tried {
                        lemma_search_blocked(board, start, p, (y, x), d as int);
                    }
                }
                d += 1;
            }
            proof {
                lemma_search_finish(
                    board,
                    start,
                    Progress { found: rows_of_paths(result), queue: queue@, seen },
                    (y, x),
                );
            }
        } else {
            proof {
                lemma_search_pass(board, start, waiting, taken);
            }
        }
    }
    proof {
        lemma_search_complete(
            board,
            start,
            Progress { found: rows_of_paths(result), queue: queue@, seen },
        );
        assert(4 * seen.len() <= 4 * (n * m));
    }
    Exploration { nodes: result, relaxations }
}

} // verus!
