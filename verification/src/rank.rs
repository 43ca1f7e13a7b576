//! Choosing where to attack from: the squares of the player that hold the
//! largest armies.

use vstd::prelude::*;
use crate::board::Board;
use crate::bot::PathFinderBot;
use crate::cell::{CellType, GameCell};
use crate::random::random_u32;

verus! {

/// The most squares that one decision searches from.
pub const MAX_ORIGINS: usize = 5;

/// Half of `a`, rounded towards zero.
pub open spec fn half_toward_zero(a: int) -> int {
    if a >= 0 {
        a / 2
    } else {
        -((-a) / 2)
    }
}

/// How much an army counts when the squares to attack from are ranked: its
/// size, but for the army on a capital half of what it has beyond ten
/// units, so that the capital is not stripped lightly.
pub open spec fn origin_priority(c: GameCell) -> int {
    if c.cell_type == CellType::General {
        half_toward_zero(c.army_size - 10)
    } else {
        c.army_size as int
    }
}

/// The order of the keys by which the squares are ranked: by the first
/// part, then the second, the third, the fourth.
pub open spec fn key_le(a: (i64, u32, usize, usize), b: (i64, u32, usize, usize)) -> bool {
    ||| a.0 < b.0
    ||| a.0 == b.0 && a.1 < b.1
    ||| a.0 == b.0 && a.1 == b.1 && a.2 < b.2
    ||| a.0 == b.0 && a.1 == b.1 && a.2 == b.2 && a.3 <= b.3
}

/// Some key in the list belongs to the square `(y, x)`.
pub open spec fn has_key_of(keys: Seq<(i64, u32, usize, usize)>, y: int, x: int) -> bool {
    exists|i: int| 0 <= i < keys.len() && (#[trigger] keys[i]).2 == y && keys[i].3 == x
}

impl Board {
    /// The player can attack from the square: it is the player's own, with
    /// more than one unit, and known as of this turn.
    pub open spec fn is_origin(self, y: int, x: int) -> bool {
        &&& self.inside(y, x)
        &&& self.cell(y, x).owner == Some(self.curr_color)
        &&& self.cell(y, x).army_size > 1
        &&& self.cell(y, x).last_update_time == self.turn
    }

    /// The key is that of a square to attack from: the negative of the
    /// square's priority, a number to break ties, and the square.
    pub open spec fn is_key(self, k: (i64, u32, usize, usize)) -> bool {
        self.is_origin(k.2 as int, k.3 as int) && k.0 == -origin_priority(
            self.cell(k.2 as int, k.3 as int),
        )
    }

    /// The squares are the first in rank to attack from: at most
    /// [`MAX_ORIGINS`] squares that the player can attack from, each once,
    /// the higher priority first; and whatever other such square there is,
    /// there are [`MAX_ORIGINS`] of these and it has no higher priority than
    /// any of them.
    pub open spec fn ranks_first(self, origins: Seq<(usize, usize)>) -> bool {
        &&& origins.len() <= MAX_ORIGINS
        &&& forall|i: int|
            0 <= i < origins.len() ==> self.is_origin(
                (#[trigger] origins[i]).0 as int,
                origins[i].1 as int,
            )
        &&& forall|i: int, j: int|
            0 <= i < j < origins.len() ==> origins[i] != origins[j] && origin_priority(
                self.cell((#[trigger] origins[i]).0 as int, origins[i].1 as int),
            ) >= origin_priority(self.cell((#[trigger] origins[j]).0 as int, origins[j].1 as int))
        &&& forall|y: int, x: int|
            #![trigger self.is_origin(y, x)]
            self.is_origin(y, x) && !origins.contains((y as usize, x as usize)) ==> {
                &&& origins.len() == MAX_ORIGINS
                &&& forall|i: int|
                    0 <= i < origins.len() ==> origin_priority(self.cell(y, x)) <= origin_priority(
                        self.cell((#[trigger] origins[i]).0 as int, origins[i].1 as int),
                    )
            }
    }
}

/// `sort_unstable` of the standard library on a list of keys. Nothing of it
/// is proved. Its documentation says that it sorts the slice, and that
/// tuples are ordered part by part: so the list holds afterwards what it
/// held before, each key as often, in ascending order.
#[verifier::external_body]
fn sort_keys(keys: &mut Vec<(i64, u32, usize, usize)>)
    ensures
        final(keys)@.to_multiset() == old(keys)@.to_multiset(),
        forall|i: int, j: int|
            0 <= i < j < final(keys)@.len() ==> key_le(
                #[trigger] final(keys)@[i],
                #[trigger] final(keys)@[j],
            ),
{
    keys.sort_unstable();
}

impl PathFinderBot {
    /// The squares to attack from in this turn: of the squares that the
    /// player holds with more than one unit and knows as of this turn, the
    /// [`MAX_ORIGINS`] first in rank, highest priority first. Among equal
    /// priorities the dice decide. See [`Board::ranks_first`] and
    /// [`origin_priority`].
    pub fn pick_origins(&self) -> (origins: Vec<(usize, usize)>)
        requires
            self.map.wf(),
        ensures
            self.map@.ranks_first(origins@),
    {
        let ghost board = self.map@;
        let n = self.map.n;
        let m = self.map.m;
        let mut start_cells: Vec<(i64, u32, usize, usize)> = Vec::new();
        let mut y: usize = 0;
        while y < n
            invariant
                y <= n,
                n == self.map.n,
                m == self.map.m,
                board == self.map@,
                self.map.wf(),
                forall|i: int| 0 <= i < start_cells@.len() ==> board.is_key(#[trigger] start_cells@[i]),
                forall|i: int| 0 <= i < start_cells@.len() ==> (#[trigger] start_cells@[i]).2 < y,
                forall|i: int, j: int|
                    0 <= i < j < start_cells@.len() ==> (#[trigger] start_cells@[i]).2
                        != (#[trigger] start_cells@[j]).2 || start_cells@[i].3
                        != start_cells@[j].3,
                forall|r: int, c: int|
                    0 <= r < y && #[trigger] board.is_origin(r, c) ==> has_key_of(
                        start_cells@,
                        r,
                        c,
                    ),
            decreases n - y,
        {
            let mut x: usize = 0;
            while x < m
                invariant
                    y < n,
                    x <= m,
                    n == self.map.n,
                    m == self.map.m,
                    board == self.map@,
                    self.map.wf(),
                    forall|i: int|
                        0 <= i < start_cells@.len() ==> board.is_key(#[trigger] start_cells@[i]),
                    forall|i: int|
                        0 <= i < start_cells@.len() ==> (#[trigger] start_cells@[i]).2 < y || (
                        start_cells@[i].2 == y && start_cells@[i].3 < x),
                    forall|i: int, j: int|
                        0 <= i < j < start_cells@.len() ==> (#[trigger] start_cells@[i]).2
                            != (#[trigger] start_cells@[j]).2 || start_cells@[i].3
                            != start_cells@[j].3,
                    forall|r: int, c: int|
                        (0 <= r < y || (r == y && 0 <= c < x)) && #[trigger] board.is_origin(r, c)
                            ==> has_key_of(start_cells@, r, c),
                decreases m - x,
            {
                assert(board.grid[y as int] == self.map.grid@[y as int]@);
                let cell = self.map.grid[y][x];
                let ghost listed = start_cells@;
                if cell.owner == Some(self.map.curr_color) && cell.army_size > 1
                    && cell.last_update_time == self.map.turn {
                    let mut priority = cell.army_size;
                    if cell.cell_type == CellType::General {
                        priority = (priority - 10) / 2;
                    }
                    start_cells.push((-priority, random_u32(0, u32::MAX), y, x));
                    assert(start_cells@[listed.len() as int].2 == y);
                }
                proof {
                    assert forall|r: int, c: int|
                        (0 <= r < y || (r == y && 0 <= c < x + 1)) && #[trigger] board.is_origin(
                            r,
                            c,
                        ) implies has_key_of(start_cells@, r, c) by {
                        if r == y && c == x {
                            assert(start_cells@[listed.len() as int].3 == x);
                        } else {
                            assert(has_key_of(listed, r, c));
                            let i = choose|i: int|
                                0 <= i < listed.len() && (#[trigger] listed[i]).2 == r
                                    && listed[i].3 == c;
                            assert(start_cells@[i] == listed[i]);
                        }
                    }
                    assert forall|i: int| 0 <= i < start_cells@.len() implies board.is_key(
                        #[trigger] start_cells@[i],
                    ) by {
                        if i < listed.len() {
                            assert(start_cells@[i] == listed[i]);
                        }
                    }
                }
                x += 1;
            }
            y += 1;
        }
        let ghost listed = start_cells@;
        sort_keys(&mut start_cells);
        let ghost sorted = start_cells@;
        proof {
            listed.to_multiset_ensures();
            sorted.to_multiset_ensures();
            assert(listed.no_duplicates());
            listed.lemma_multiset_has_no_duplicates();
            sorted.lemma_multiset_has_no_duplicates_conv();
            assert forall|i: int, j: int| 0 <= i < j < sorted.len() implies sorted[i].2
                != sorted[j].2 || sorted[i].3 != sorted[j].3 by {
                assert(sorted.to_multiset().count(sorted[i]) > 0);
                assert(listed.contains(sorted[i]));
                assert(sorted.to_multiset().count(sorted[j]) > 0);
                assert(listed.contains(sorted[j]));
                let a = choose|a: int| 0 <= a < listed.len() && listed[a] == sorted[i];
                let b = choose|b: int| 0 <= b < listed.len() && listed[b] == sorted[j];
                assert(sorted[i] != sorted[j]);
                assert(a != b);
            }
            assert forall|i: int| 0 <= i < sorted.len() implies board.is_key(
                #[trigger] sorted[i],
            ) by {
                assert(sorted.contains(sorted[i]));
                assert(sorted.to_multiset().count(sorted[i]) > 0);
                assert(listed.to_multiset().count(sorted[i]) > 0);
                assert(listed.contains(sorted[i]));
            }
            assert forall|r: int, c: int| #[trigger] board.is_origin(r, c) implies has_key_of(
                sorted,
                r,
                c,
            ) by {
                assert(has_key_of(listed, r, c));
                let i = choose|i: int|
                    0 <= i < listed.len() && (#[trigger] listed[i]).2 == r && listed[i].3 == c;
                assert(listed.contains(listed[i]));
                assert(listed.to_multiset().count(listed[i]) > 0);
                assert(sorted.to_multiset().count(listed[i]) > 0);
                assert(sorted.contains(listed[i]));
                let j = choose|j: int| 0 <= j < sorted.len() && sorted[j] == listed[i];
                assert(sorted[j].2 == r && sorted[j].3 == c);
            }
        }
        let mut origins: Vec<(usize, usize)> = Vec::new();
        let mut i: usize = 0;
        while i < start_cells.len() && i < MAX_ORIGINS
            invariant
                i <= start_cells@.len(),
                i <= MAX_ORIGINS,
                sorted == start_cells@,
                origins@.len() == i,
                forall|j: int|
                    0 <= j < i ==> (#[trigger] origins@[j]) == (sorted[j].2, sorted[j].3),
            decreases start_cells@.len() - i,
        {
            let key = start_cells[i];
            origins.push((key.2, key.3));
            i += 1;
        }
        proof {
            assert forall|j: int| 0 <= j < origins@.len() implies board.is_origin(
                (#[trigger] origins@[j]).0 as int,
                origins@[j].1 as int,
            ) by {
                assert(board.is_key(sorted[j]));
            }
            assert forall|i: int, j: int| 0 <= i < j < origins@.len() implies origins@[i]
                != origins@[j] && origin_priority(
                board.cell((#[trigger] origins@[i]).0 as int, origins@[i].1 as int),
            ) >= origin_priority(
                board.cell((#[trigger] origins@[j]).0 as int, origins@[j].1 as int),
            ) by {
                assert(board.is_key(sorted[i]));
                assert(board.is_key(sorted[j]));
                assert(key_le(sorted[i], sorted[j]));
            }
            assert forall|r: int, c: int|
                #![trigger board.is_origin(r, c)]
                board.is_origin(r, c) && !origins@.contains((r as usize, c as usize)) implies {
                &&& origins@.len() == MAX_ORIGINS
                &&& forall|j: int|
                    0 <= j < origins@.len() ==> origin_priority(board.cell(r, c))
                        <= origin_priority(
                        board.cell((#[trigger] origins@[j]).0 as int, origins@[j].1 as int),
                    )
            } by {
                assert(has_key_of(sorted, r, c));
                let k = choose|k: int|
                    0 <= k < sorted.len() && (#[trigger] sorted[k]).2 == r && sorted[k].3 == c;
                if k < origins@.len() {
                    assert(origins@[k] == (r as usize, c as usize));
                }
                assert(board.is_key(sorted[k]));
                assert forall|j: int| 0 <= j < origins@.len() implies origin_priority(
                    board.cell(r, c),
                ) <= origin_priority(
                    board.cell((#[trigger] origins@[j]).0 as int, origins@[j].1 as int),
                ) by {
                    assert(key_le(sorted[j], sorted[k]));
                    assert(board.is_key(sorted[j]));
                }
            }
        }
        origins
    }
}

} // verus!
