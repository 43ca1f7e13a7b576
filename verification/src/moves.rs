//! Which moves the lists of a board hold.

use vstd::prelude::*;
use crate::board::{step, step_move, Board};
use crate::map::Move;

verus! {

impl Board {
    /// `mv` is the step `d` out of `(y, x)`, and that step is listed.
    pub open spec fn lists_as(self, mv: Move, y: int, x: int, d: int, current_only: bool) -> bool {
        &&& 0 <= d < 4
        &&& self.lists(y, x, d, current_only)
        &&& mv == step_move(y, x, d)
    }
}

/// A move is in one of two lists laid end to end if it is in one of them.
proof fn lemma_contains_either(a: Seq<Move>, b: Seq<Move>, mv: Move)
    ensures
        (a + b).contains(mv) <==> a.contains(mv) || b.contains(mv),
{
    if a.contains(mv) {
        let i = choose|i: int| 0 <= i < a.len() && a[i] == mv;
        assert((a + b)[i] == mv);
    }
    if b.contains(mv) {
        let i = choose|i: int| 0 <= i < b.len() && b[i] == mv;
        assert((a + b)[a.len() + i] == mv);
    }
    if (a + b).contains(mv) {
        let i = choose|i: int| 0 <= i < (a + b).len() && (a + b)[i] == mv;
        if i < a.len() {
            assert(a[i] == mv);
        } else {
            assert(b[i - a.len()] == mv);
        }
    }
}

/// The moves listed for a square are its listed steps.
proof fn lemma_moves_of_cell(board: Board, y: int, x: int, d: int, current_only: bool, mv: Move)
    requires
        0 <= d <= 4,
    ensures
        board.moves_of_cell(y, x, d, current_only).contains(mv) <==> exists|e: int|
            e < d && #[trigger] board.lists_as(mv, y, x, e, current_only),
    decreases d,
{
    if d > 0 {
        lemma_moves_of_cell(board, y, x, d - 1, current_only, mv);
        let before = board.moves_of_cell(y, x, d - 1, current_only);
        let all = board.moves_of_cell(y, x, d, current_only);
        if board.lists(y, x, d - 1, current_only) {
            assert(all == before.push(step_move(y, x, d - 1)));
            assert(all =~= before + seq![step_move(y, x, d - 1)]);
            lemma_contains_either(before, seq![step_move(y, x, d - 1)], mv);
            if mv == step_move(y, x, d - 1) {
                assert(seq![step_move(y, x, d - 1)][0] == mv);
                assert(board.lists_as(mv, y, x, d - 1, current_only));
            }
        }
        if exists|e: int| e < d && #[trigger] board.lists_as(mv, y, x, e, current_only) {
            let e = choose|e: int| e < d && #[trigger] board.lists_as(mv, y, x, e, current_only);
            if e < d - 1 {
                assert(before.contains(mv));
            } else {
                assert(seq![step_move(y, x, d - 1)][0] == mv);
            }
        }
        if all.contains(mv) && !before.contains(mv) {
            assert(board.lists_as(mv, y, x, d - 1, current_only));
        }
    }
}

/// The moves listed for the start of a row are the listed steps of its
/// squares.
proof fn lemma_moves_of_row(board: Board, y: int, x: int, current_only: bool, mv: Move)
    requires
        0 <= x,
    ensures
        board.moves_of_row(y, x, current_only).contains(mv) <==> exists|c: int, e: int|
            0 <= c < x && #[trigger] board.lists_as(mv, y, c, e, current_only),
    decreases x,
{
    if x > 0 {
        lemma_moves_of_row(board, y, x - 1, current_only, mv);
        lemma_moves_of_cell(board, y, x - 1, 4, current_only, mv);
        let before = board.moves_of_row(y, x - 1, current_only);
        let last = board.moves_of_cell(y, x - 1, 4, current_only);
        lemma_contains_either(before, last, mv);
        if last.contains(mv) {
            let e = choose|e: int| e < 4 && #[trigger] board.lists_as(mv, y, x - 1, e, current_only);
            assert(0 <= x - 1 < x && board.lists_as(mv, y, x - 1, e, current_only));
        }
        if exists|c: int, e: int|
            0 <= c < x && #[trigger] board.lists_as(mv, y, c, e, current_only) {
            let (c, e) = choose|c: int, e: int|
                0 <= c < x && #[trigger] board.lists_as(mv, y, c, e, current_only);
            if c < x - 1 {
                assert(before.contains(mv));
            } else {
                assert(e < 4 && board.lists_as(mv, y, x - 1, e, current_only));
                assert(last.contains(mv));
            }
        }
    }
}

/// The moves listed for the first rows are the listed steps of their
/// squares.
proof fn lemma_moves_of_rows(board: Board, y: int, current_only: bool, mv: Move)
    requires
        0 <= y,
    ensures
        board.moves_of_rows(y, current_only).contains(mv) <==> exists|r: int, c: int, e: int|
            0 <= r < y && 0 <= c < board.m && #[trigger] board.lists_as(
                mv,
                r,
                c,
                e,
                current_only,
            ),
    decreases y,
{
    if y > 0 {
        lemma_moves_of_rows(board, y - 1, current_only, mv);
        lemma_moves_of_row(board, y - 1, board.m as int, current_only, mv);
        let before = board.moves_of_rows(y - 1, current_only);
        let last = board.moves_of_row(y - 1, board.m as int, current_only);
        lemma_contains_either(before, last, mv);
        if last.contains(mv) {
            let (c, e) = choose|c: int, e: int|
                0 <= c < board.m && #[trigger] board.lists_as(mv, y - 1, c, e, current_only);
            assert(0 <= y - 1 < y && 0 <= c < board.m && board.lists_as(
                mv,
                y - 1,
                c,
                e,
                current_only,
            ));
        }
        if exists|r: int, c: int, e: int|
            0 <= r < y && 0 <= c < board.m && #[trigger] board.lists_as(
                mv,
                r,
                c,
                e,
                current_only,
            ) {
            let (r, c, e) = choose|r: int, c: int, e: int|
                0 <= r < y && 0 <= c < board.m && #[trigger] board.lists_as(
                    mv,
                    r,
                    c,
                    e,
                    current_only,
                );
            if r < y - 1 {
                assert(before.contains(mv));
            } else {
                assert(0 <= c < board.m && board.lists_as(mv, y - 1, c, e, current_only));
                assert(last.contains(mv));
            }
        }
    }
}

/// A neighbour is reached by one of the four steps.
proof fn lemma_adjacent_is_step(mv: Move)
    requires
        mv.adjacent(),
    ensures
        exists|d: int|
            0 <= d < 4 && #[trigger] step(mv.from.0 as int, mv.from.1 as int, d) == (
                mv.to.0 as int,
                mv.to.1 as int,
            ),
{
    let (y, x) = (mv.from.0 as int, mv.from.1 as int);
    let (ny, nx) = (mv.to.0 as int, mv.to.1 as int);
    if ny == y - 1 {
        assert(step(y, x, 0) == (ny, nx));
    } else if nx == x - 1 {
        assert(step(y, x, 1) == (ny, nx));
    } else if nx == x + 1 {
        assert(step(y, x, 2) == (ny, nx));
    } else {
        assert(step(y, x, 3) == (ny, nx));
    }
}

impl Board {
    /// The list of legal moves holds the legal moves, and nothing else.
    pub proof fn lemma_valid_moves(self, mv: Move)
        ensures
            self.valid_moves().contains(mv) <==> self.is_a_valid_move(mv),
    {
        lemma_moves_of_rows(self, self.n as int, true, mv);
        if self.is_a_valid_move(mv) {
            lemma_adjacent_is_step(mv);
            let (y, x) = (mv.from.0 as int, mv.from.1 as int);
            let d = choose|d: int|
                0 <= d < 4 && #[trigger] step(y, x, d) == (mv.to.0 as int, mv.to.1 as int);
            assert(step_move(y, x, d).from == mv.from);
            assert(step_move(y, x, d).to == mv.to);
            assert(self.lists_as(mv, y, x, d, true));
        }
        if self.valid_moves().contains(mv) {
            let (r, c, e) = choose|r: int, c: int, e: int|
                0 <= r < self.n && 0 <= c < self.m && #[trigger] self.lists_as(mv, r, c, e, true);
            assert(mv.adjacent());
        }
    }

    /// The list of open moves holds the steps between neighbours on the
    /// board, out of a square that can send an army and onto a square that
    /// is no mountain, and nothing else.
    pub proof fn lemma_all_moves(self, mv: Move)
        ensures
            self.get_all_moves().contains(mv) <==> {
                &&& self.inside(mv.from.0 as int, mv.from.1 as int)
                &&& self.inside(mv.to.0 as int, mv.to.1 as int)
                &&& mv.adjacent()
                &&& self.can_leave(mv.from.0 as int, mv.from.1 as int)
                &&& self.cell(mv.to.0 as int, mv.to.1 as int).cell_type
                    != crate::cell::CellType::Mountains
            },
    {
        lemma_moves_of_rows(self, self.n as int, false, mv);
        if self.inside(mv.from.0 as int, mv.from.1 as int) && self.inside(
            mv.to.0 as int,
            mv.to.1 as int,
        ) && mv.adjacent() && self.can_leave(mv.from.0 as int, mv.from.1 as int) && self.cell(
            mv.to.0 as int,
            mv.to.1 as int,
        ).cell_type != crate::cell::CellType::Mountains {
            lemma_adjacent_is_step(mv);
            let (y, x) = (mv.from.0 as int, mv.from.1 as int);
            let d = choose|d: int|
                0 <= d < 4 && #[trigger] step(y, x, d) == (mv.to.0 as int, mv.to.1 as int);
            assert(step_move(y, x, d).from == mv.from);
            assert(step_move(y, x, d).to == mv.to);
            assert(self.lists_as(mv, y, x, d, false));
        }
        if self.get_all_moves().contains(mv) {
            let (r, c, e) = choose|r: int, c: int, e: int|
                0 <= r < self.n && 0 <= c < self.m && #[trigger] self.lists_as(mv, r, c, e, false);
            assert(mv.adjacent());
        }
    }
}

} // verus!
