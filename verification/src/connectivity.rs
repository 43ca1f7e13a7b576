//! What it means for the open ground of a grid to hang together, and the
//! flood fill that decides it.

use vstd::prelude::*;
use vstd::set_lib::{lemma_int_range, lemma_len_subset, set_int_range};
use crate::board::step;
use crate::cell::{CellType, GameCell};
use crate::map::{rows_of, GameMap};

verus! {

/// The square lies on the grid and is no mountain.
pub open spec fn passable(grid: Seq<Seq<GameCell>>, p: (int, int)) -> bool {
    &&& 0 <= p.0 < grid.len()
    &&& 0 <= p.1 < grid[p.0].len()
    &&& grid[p.0][p.1].cell_type != CellType::Mountains
}

/// The two squares share an edge.
pub open spec fn neighbours(a: (int, int), b: (int, int)) -> bool {
    ||| a.0 == b.0 && (a.1 - b.1 == 1 || b.1 - a.1 == 1)
    ||| a.1 == b.1 && (a.0 - b.0 == 1 || b.0 - a.0 == 1)
}

/// A walk over passable squares, each the neighbour of the one before.
pub open spec fn is_path(grid: Seq<Seq<GameCell>>, path: Seq<(int, int)>) -> bool {
    &&& path.len() > 0
    &&& forall|i: int| 0 <= i < path.len() ==> passable(grid, #[trigger] path[i])
    &&& forall|i: int| 0 <= i < path.len() - 1 ==> neighbours(#[trigger] path[i], path[i + 1])
}

/// Some path leads from `a` to `b`.
pub open spec fn linked(grid: Seq<Seq<GameCell>>, a: (int, int), b: (int, int)) -> bool {
    exists|path: Seq<(int, int)>| #[trigger]
        is_path(grid, path) && path.first() == a && path.last() == b
}

/// Every passable square can be walked to from every other.
pub open spec fn connected(grid: Seq<Seq<GameCell>>) -> bool {
    forall|a: (int, int), b: (int, int)|
        passable(grid, a) && passable(grid, b) ==> #[trigger] linked(grid, a, b)
}

/// A passable square is linked to itself.
pub proof fn lemma_linked_self(grid: Seq<Seq<GameCell>>, a: (int, int))
    requires
        passable(grid, a),
    ensures
        linked(grid, a, a),
{
    let path = seq![a];
    assert(is_path(grid, path) && path.first() == a && path.last() == a);
}

/// A path can be taken one step further.
pub proof fn lemma_linked_step(
    grid: Seq<Seq<GameCell>>,
    a: (int, int),
    b: (int, int),
    c: (int, int),
)
    requires
        linked(grid, a, b),
        neighbours(b, c),
        passable(grid, c),
    ensures
        linked(grid, a, c),
{
    let path = choose|path: Seq<(int, int)>| #[trigger]
        is_path(grid, path) && path.first() == a && path.last() == b;
    let longer = path.push(c);
    assert forall|i: int| 0 <= i < longer.len() implies passable(grid, #[trigger] longer[i]) by {
        if i < path.len() {
            assert(longer[i] == path[i]);
        }
    }
    assert forall|i: int| 0 <= i < longer.len() - 1 implies neighbours(
        #[trigger] longer[i],
        longer[i + 1],
    ) by {
        if i < path.len() - 1 {
            assert(longer[i] == path[i] && longer[i + 1] == path[i + 1]);
        }
    }
    assert(is_path(grid, longer) && longer.first() == a && longer.last() == c);
}

/// A path can be walked backwards.
pub proof fn lemma_linked_back(grid: Seq<Seq<GameCell>>, a: (int, int), b: (int, int))
    requires
        linked(grid, a, b),
    ensures
        linked(grid, b, a),
{
    let path = choose|path: Seq<(int, int)>| #[trigger]
        is_path(grid, path) && path.first() == a && path.last() == b;
    let back = Seq::new(path.len(), |i: int| path[path.len() - 1 - i]);
    assert forall|i: int| 0 <= i < back.len() - 1 implies neighbours(
        #[trigger] back[i],
        back[i + 1],
    ) by {
        let j = path.len() - 2 - i;
        assert(neighbours(path[j], path[j + 1]));
    }
    assert(is_path(grid, back) && back.first() == b && back.last() == a);
}

/// Two paths that meet make one.
pub proof fn lemma_linked_through(
    grid: Seq<Seq<GameCell>>,
    a: (int, int),
    b: (int, int),
    c: (int, int),
)
    requires
        linked(grid, a, b),
        linked(grid, b, c),
    ensures
        linked(grid, a, c),
{
    let first = choose|path: Seq<(int, int)>| #[trigger]
        is_path(grid, path) && path.first() == a && path.last() == b;
    let second = choose|path: Seq<(int, int)>| #[trigger]
        is_path(grid, path) && path.first() == b && path.last() == c;
    let whole = first + second.drop_first();
    assert forall|i: int| 0 <= i < whole.len() implies passable(grid, #[trigger] whole[i]) by {
        if i < first.len() {
            assert(whole[i] == first[i]);
        } else {
            assert(whole[i] == second[i - first.len() + 1]);
        }
    }
    assert forall|i: int| 0 <= i < whole.len() - 1 implies neighbours(
        #[trigger] whole[i],
        whole[i + 1],
    ) by {
        if i < first.len() - 1 {
            assert(whole[i] == first[i] && whole[i + 1] == first[i + 1]);
        } else if i == first.len() - 1 {
            assert(whole[i] == second[0]);
            assert(whole[i + 1] == second[1]);
        } else {
            let j = i - first.len() + 1;
            assert(whole[i] == second[j] && whole[i + 1] == second[j + 1]);
        }
    }
    assert(whole.first() == a);
    if second.len() == 1 {
        assert(whole =~= first);
    } else {
        assert(whole.last() == second[second.len() - 1]);
    }
    assert(is_path(grid, whole) && whole.first() == a && whole.last() == c);
}

/// A neighbour is one of the four steps away.
pub proof fn lemma_neighbour_is_step(a: (int, int), b: (int, int))
    requires
        neighbours(a, b),
    ensures
        exists|d: int| 0 <= d < 4 && #[trigger] step(a.0, a.1, d) == b,
{
    if a.0 - b.0 == 1 {
        assert(step(a.0, a.1, 0) == b);
    } else if a.1 - b.1 == 1 {
        assert(step(a.0, a.1, 1) == b);
    } else if b.1 - a.1 == 1 {
        assert(step(a.0, a.1, 2) == b);
    } else {
        assert(step(a.0, a.1, 3) == b);
    }
}

/// The set holds, with each of its squares, every passable square one step
/// away.
pub open spec fn closed_under_steps(grid: Seq<Seq<GameCell>>, area: Set<(int, int)>) -> bool {
    forall|u: (int, int), d: int|
        area.contains(u) && 0 <= d < 4 && passable(grid, #[trigger] step(u.0, u.1, d))
            ==> area.contains(step(u.0, u.1, d))
}

/// A set that is closed under steps holds the whole of a path that starts
/// in it.
proof fn lemma_path_stays(
    grid: Seq<Seq<GameCell>>,
    area: Set<(int, int)>,
    path: Seq<(int, int)>,
    i: int,
)
    requires
        closed_under_steps(grid, area),
        is_path(grid, path),
        area.contains(path.first()),
        0 <= i < path.len(),
    ensures
        area.contains(path[i]),
    decreases i,
{
    if i > 0 {
        lemma_path_stays(grid, area, path, i - 1);
        let u = path[i - 1];
        assert(neighbours(u, path[i - 1 + 1]));
        lemma_neighbour_is_step(u, path[i]);
        let d = choose|d: int| 0 <= d < 4 && #[trigger] step(u.0, u.1, d) == path[i];
        assert(passable(grid, step(u.0, u.1, d)));
    }
}

/// A set that is closed under steps holds whatever is linked to one of its
/// squares.
pub proof fn lemma_closed_holds_linked(
    grid: Seq<Seq<GameCell>>,
    area: Set<(int, int)>,
    a: (int, int),
    b: (int, int),
)
    requires
        closed_under_steps(grid, area),
        area.contains(a),
        linked(grid, a, b),
    ensures
        area.contains(b),
{
    let path = choose|path: Seq<(int, int)>| #[trigger]
        is_path(grid, path) && path.first() == a && path.last() == b;
    lemma_path_stays(grid, area, path, path.len() - 1);
}

/// The place of the square `(y, x)` when the rows of width `m` are laid end
/// to end.
pub open spec fn flat(m: int, y: int, x: int) -> int {
    y * m + x
}

/// A square of an `n` by `m` grid has its place among the first `n * m`.
pub proof fn lemma_flat_bounds(n: int, m: int, y: int, x: int)
    requires
        0 <= y < n,
        0 <= x < m,
    ensures
        0 <= flat(m, y, x) < n * m,
{
    assert(0 <= y * m && y * m + m <= n * m) by (nonlinear_arith)
        requires
            0 <= y < n,
            0 < m,
    ;
}

/// Two squares with one place are one square.
pub proof fn lemma_flat_injective(m: int, y1: int, x1: int, y2: int, x2: int)
    requires
        0 <= x1 < m,
        0 <= x2 < m,
        flat(m, y1, x1) == flat(m, y2, x2),
    ensures
        y1 == y2,
        x1 == x2,
{
    assert(y1 == y2) by (nonlinear_arith)
        requires
            0 <= x1 < m,
            0 <= x2 < m,
            y1 * m + x1 == y2 * m + x2,
    ;
}

/// A set of places below `total` that lacks one of them has fewer than
/// `total` members, and gains one when that place is added.
pub proof fn lemma_one_more_place(seen: Set<int>, total: int, id: int)
    requires
        forall|k: int| seen.contains(k) ==> 0 <= k < total,
        0 <= id < total,
        !seen.contains(id),
    ensures
        seen.finite(),
        seen.insert(id).finite(),
        seen.insert(id).len() == seen.len() + 1,
        seen.len() < total,
{
    lemma_int_range(0, total);
    let all = set_int_range(0, total);
    assert(seen.subset_of(all));
    lemma_len_subset(seen, all);
    assert(seen.insert(id).subset_of(all));
    lemma_len_subset(seen.insert(id), all);
}

/// The squares that a flood fill has marked.
pub open spec fn marked_area(used: Vec<Vec<bool>>) -> Set<(int, int)> {
    Set::new(
        |p: (int, int)| 0 <= p.0 < used@.len() && 0 <= p.1 < used@[p.0]@.len() && used@[p.0]@[p.1],
    )
}

/// The first passable square in reading order, if there is one.
fn first_open(n: usize, m: usize, grid: &Vec<Vec<GameCell>>) -> (start: Option<(usize, usize)>)
    requires
        grid@.len() == n,
        forall|y: int| 0 <= y < n ==> (#[trigger] grid@[y])@.len() == m,
    ensures
        start matches Some(p) ==> passable(rows_of(*grid), (p.0 as int, p.1 as int)),
        start is None ==> forall|p: (int, int)| !passable(rows_of(*grid), p),
{
    let mut y: usize = 0;
    while y < n
        invariant
            y <= n,
            grid@.len() == n,
            forall|r: int| 0 <= r < n ==> (#[trigger] grid@[r])@.len() == m,
            forall|p: (int, int)| 0 <= p.0 < y ==> !passable(rows_of(*grid), p),
        decreases n - y,
    {
        let mut x: usize = 0;
        while x < m
            invariant
                y < n,
                x <= m,
                grid@.len() == n,
                forall|r: int| 0 <= r < n ==> (#[trigger] grid@[r])@.len() == m,
                forall|p: (int, int)| 0 <= p.0 < y ==> !passable(rows_of(*grid), p),
                forall|p: (int, int)| p.0 == y && 0 <= p.1 < x ==> !passable(rows_of(*grid), p),
            decreases m - x,
        {
            if grid[y][x].cell_type != CellType::Mountains {
                return Some((y, x));
            }
            x += 1;
        }
        y += 1;
    }
    None
}

impl GameMap {
    /// Whether the passable squares of the grid hang together: whether each
    /// can be walked to from each other over passable squares, step by step
    /// along the four directions. A grid without passable squares hangs
    /// together.
    pub fn is_connected(n: usize, m: usize, grid: &Vec<Vec<GameCell>>) -> (b: bool)
        requires
            grid@.len() == n,
            forall|y: int| 0 <= y < n ==> (#[trigger] grid@[y])@.len() == m,
        ensures
            b == connected(rows_of(*grid)),
    {
        let ghost land = rows_of(*grid);
        let (sy, sx) = match first_open(n, m, grid) {
            Some(p) => p,
            None => {
                return true;
            },
        };
        let ghost s = (sy as int, sx as int);
        let mut used: Vec<Vec<bool>> = vec![vec![false; m]; n];
        used[sy][sx] = true;
        let mut st: Vec<(usize, usize)> = Vec::new();
        st.push((sy, sx));
        let ghost mut seen: Set<int> = Set::empty().insert(flat(m as int, sy as int, sx as int));
        proof {
            lemma_linked_self(land, s);
            lemma_flat_bounds(n as int, m as int, sy as int, sx as int);
            assert forall|y: int, x: int| 0 <= y < n && 0 <= x < m implies (#[trigger] used@[y]@[x]
                <==> seen.contains(flat(m as int, y, x))) by {
                if seen.contains(flat(m as int, y, x)) {
                    lemma_flat_injective(m as int, y, x, sy as int, sx as int);
                }
            }
            assert(st@[0] == (sy, sx));
        }
        while st.len() > 0
            invariant
                land == rows_of(*grid),
                s == (sy as int, sx as int),
                passable(land, s),
                grid@.len() == n,
                forall|y: int| 0 <= y < n ==> (#[trigger] grid@[y])@.len() == m,
                used@.len() == n,
                forall|y: int| 0 <= y < n ==> (#[trigger] used@[y])@.len() == m,
                used@[sy as int]@[sx as int],
                forall|y: int, x: int|
                    0 <= y < n && 0 <= x < m && #[trigger] used@[y]@[x] ==> linked(
                        land,
                        s,
                        (y, x),
                    ),
                forall|i: int|
                    0 <= i < st@.len() ==> (#[trigger] st@[i]).0 < n && st@[i].1 < m
                        && used@[st@[i].0 as int]@[st@[i].1 as int],
                forall|y: int, x: int, d: int|
                    0 <= y < n && 0 <= x < m && 0 <= d < 4 && used@[y]@[x] && !st@.contains(
                        (y as usize, x as usize),
                    ) && passable(land, #[trigger] step(y, x, d)) ==> used@[step(y, x, d).0]@[step(
                        y,
                        x,
                        d,
                    ).1],
                forall|k: int| seen.contains(k) ==> 0 <= k < n * m,
                forall|y: int, x: int|
                    0 <= y < n && 0 <= x < m ==> (#[trigger] used@[y]@[x] <==> seen.contains(
                        flat(m as int, y, x),
                    )),
                seen.finite(),
                seen.len() <= n * m,
            decreases n * m - seen.len(), st@.len(),
        {
            let ghost seen_before = seen;
            let ghost st_before = st@;
            let (y, x) = st.pop().unwrap();
            proof {
                assert(st_before[st_before.len() - 1] == (y, x));
                assert(st_before =~= st@.push((y, x)));
                assert forall|p: (usize, usize)| p != (y, x) && !st@.contains(p) implies !st_before.contains(
                    p,
                ) by {
                    if st_before.contains(p) {
                        let i = choose|i: int| 0 <= i < st_before.len() && st_before[i] == p;
                        assert(st@[i] == p);
                    }
                }
            }
            let mut d: usize = 0;
            while d < 4
                invariant
                    d <= 4,
                    y < n,
                    x < m,
                    land == rows_of(*grid),
                    s == (sy as int, sx as int),
                    passable(land, s),
                    grid@.len() == n,
                    forall|y: int| 0 <= y < n ==> (#[trigger] grid@[y])@.len() == m,
                    used@.len() == n,
                    forall|y: int| 0 <= y < n ==> (#[trigger] used@[y])@.len() == m,
                    used@[sy as int]@[sx as int],
                    used@[y as int]@[x as int],
                    forall|y: int, x: int|
                        0 <= y < n && 0 <= x < m && #[trigger] used@[y]@[x] ==> linked(
                            land,
                            s,
                            (y, x),
                        ),
                    forall|i: int|
                        0 <= i < st@.len() ==> (#[trigger] st@[i]).0 < n && st@[i].1 < m
                            && used@[st@[i].0 as int]@[st@[i].1 as int],
                    forall|r: int, c: int, e: int|
                        0 <= r < n && 0 <= c < m && 0 <= e < 4 && used@[r]@[c] && !(r == y && c
                            == x) && !st@.contains((r as usize, c as usize)) && passable(
                            land,
                            #[trigger] step(r, c, e),
                        ) ==> used@[step(r, c, e).0]@[step(r, c, e).1],
                    forall|e: int|
                        0 <= e < d && passable(land, #[trigger] step(y as int, x as int, e))
                            ==> used@[step(y as int, x as int, e).0]@[step(
                            y as int,
                            x as int,
                            e,
                        ).1],
                    forall|k: int| seen.contains(k) ==> 0 <= k < n * m,
                    forall|y: int, x: int|
                        0 <= y < n && 0 <= x < m ==> (#[trigger] used@[y]@[x] <==> seen.contains(
                            flat(m as int, y, x),
                        )),
                    seen.finite(),
                    seen.len() <= n * m,
                    seen_before.len() <= seen.len(),
                    seen.len() == seen_before.len() ==> st@.len() < st_before.len(),
                decreases 4 - d,
            {
                match crate::map::step_within(n, m, y, x, d) {
                    Some((ny, nx)) => {
                        if !used[ny][nx] && grid[ny][nx].cell_type != CellType::Mountains {
                            let ghost used_before = used;
                            let ghost st_mid = st@;
                            let ghost seen_mid = seen;
                            st.push((ny, nx));
                            used[ny][nx] = true;
                            proof {
                                let id = flat(m as int, ny as int, nx as int);
                                lemma_flat_bounds(n as int, m as int, ny as int, nx as int);
                                lemma_one_more_place(seen_mid, n * m, id);
                                seen = seen_mid.insert(id);
                                lemma_one_more_place(seen_mid, n * m, id);
                                assert(seen.len() <= n * m) by {
                                    lemma_int_range(0, n * m);
                                    assert(seen.subset_of(set_int_range(0, n * m)));
                                    lemma_len_subset(seen, set_int_range(0, n * m));
                                }
                                assert(passable(land, (ny as int, nx as int)));
                                assert(neighbours((y as int, x as int), (ny as int, nx as int)));
                                lemma_linked_step(
                                    land,
                                    s,
                                    (y as int, x as int),
                                    (ny as int, nx as int),
                                );
                                assert forall|r: int| 0 <= r < n implies (#[trigger] used@[r])@.len()
                                    == m by {
                                    assert(used_before@[r]@.len() == m);
                                }
                                assert forall|r: int, c: int|
                                    0 <= r < n && 0 <= c < m implies (#[trigger] used@[r]@[c]) == (
                                used_before@[r]@[c] || (r == ny && c == nx)) by {}
                                assert forall|r: int, c: int|
                                    0 <= r < n && 0 <= c < m implies (#[trigger] used@[r]@[c]
                                    <==> seen.contains(flat(m as int, r, c))) by {
                                    if seen.contains(flat(m as int, r, c)) && !seen_mid.contains(
                                        flat(m as int, r, c),
                                    ) {
                                        lemma_flat_injective(
                                            m as int,
                                            r,
                                            c,
                                            ny as int,
                                            nx as int,
                                        );
                                    }
                                }
                                assert forall|i: int| 0 <= i < st@.len() implies (#[trigger] st@[i]).0
                                    < n && st@[i].1 < m && used@[st@[i].0 as int]@[st@[i].1 as int] by {
                                    if i < st_mid.len() {
                                        assert(st@[i] == st_mid[i]);
                                    }
                                }
                                assert(st@[st_mid.len() as int] == (ny, nx));
                                assert forall|p: (usize, usize)| !st@.contains(p) implies !st_mid.contains(
                                    p,
                                ) by {
                                    if st_mid.contains(p) {
                                        let i = choose|i: int| 0 <= i < st_mid.len() && st_mid[i] == p;
                                        assert(st@[i] == p);
                                    }
                                }
                            }
                        }
                    },
                    None => {},
                }
                d += 1;
            }
        }
        let ghost area = marked_area(used);
        proof {
            assert(st@.len() == 0);
            assert forall|p: (usize, usize)| !st@.contains(p) by {}
            assert forall|u: (int, int), d: int|
                area.contains(u) && 0 <= d < 4 && passable(
                    land,
                    #[trigger] step(u.0, u.1, d),
                ) implies area.contains(step(u.0, u.1, d)) by {
                assert(!st@.contains((u.0 as usize, u.1 as usize)));
            }
            assert(closed_under_steps(land, area));
            assert(area.contains(s));
        }
        let mut y: usize = 0;
        while y < n
            invariant
                y <= n,
                land == rows_of(*grid),
                area == marked_area(used),
                closed_under_steps(land, area),
                area.contains(s),
                passable(land, s),
                grid@.len() == n,
                forall|r: int| 0 <= r < n ==> (#[trigger] grid@[r])@.len() == m,
                used@.len() == n,
                forall|r: int| 0 <= r < n ==> (#[trigger] used@[r])@.len() == m,
                forall|r: int, c: int|
                    0 <= r < n && 0 <= c < m && #[trigger] used@[r]@[c] ==> linked(
                        land,
                        s,
                        (r, c),
                    ),
                forall|p: (int, int)| 0 <= p.0 < y && passable(land, p) ==> used@[p.0]@[p.1],
            decreases n - y,
        {
            let mut x: usize = 0;
            while x < m
                invariant
                    y < n,
                    x <= m,
                    land == rows_of(*grid),
                    area == marked_area(used),
                    closed_under_steps(land, area),
                    area.contains(s),
                    passable(land, s),
                    grid@.len() == n,
                    forall|r: int| 0 <= r < n ==> (#[trigger] grid@[r])@.len() == m,
                    used@.len() == n,
                    forall|r: int| 0 <= r < n ==> (#[trigger] used@[r])@.len() == m,
                    forall|p: (int, int)| 0 <= p.0 < y && passable(land, p) ==> used@[p.0]@[p.1],
                    forall|p: (int, int)|
                        p.0 == y && 0 <= p.1 < x && passable(land, p) ==> used@[p.0]@[p.1],
                decreases m - x,
            {
                if !used[y][x] && grid[y][x].cell_type != CellType::Mountains {
                    proof {
                        let v = (y as int, x as int);
                        assert(passable(land, v));
                        if connected(land) {
                            assert(linked(land, s, v));
                            lemma_closed_holds_linked(land, area, s, v);
                            assert(area.contains(v));
                        }
                    }
                    return false;
                }
                x += 1;
            }
            y += 1;
        }
        proof {
            assert forall|a: (int, int), b: (int, int)|
                passable(land, a) && passable(land, b) implies #[trigger] linked(land, a, b) by {
                assert(used@[a.0]@[a.1]);
                assert(used@[b.0]@[b.1]);
                lemma_linked_back(land, s, a);
                lemma_linked_through(land, a, s, b);
            }
        }
        true
    }
}

/// On a grid without mountains, every square can be walked to from the
/// corner: along the top row, then down.
proof fn lemma_open_grid_from_corner(grid: Seq<Seq<GameCell>>, n: int, m: int, y: int, x: int)
    requires
        grid.len() == n,
        forall|r: int| 0 <= r < n ==> (#[trigger] grid[r]).len() == m,
        forall|p: (int, int)| 0 <= p.0 < n && 0 <= p.1 < m ==> passable(grid, p),
        0 <= y < n,
        0 <= x < m,
    ensures
        linked(grid, (0, 0), (y, x)),
    decreases y + x,
{
    if y > 0 {
        lemma_open_grid_from_corner(grid, n, m, y - 1, x);
        assert(neighbours((y - 1, x), (y, x)));
        lemma_linked_step(grid, (0, 0), (y - 1, x), (y, x));
    } else if x > 0 {
        lemma_open_grid_from_corner(grid, n, m, y, x - 1);
        assert(neighbours((y, x - 1), (y, x)));
        lemma_linked_step(grid, (0, 0), (y, x - 1), (y, x));
    } else {
        lemma_linked_self(grid, (0, 0));
    }
}

/// A grid without mountains hangs together.
pub proof fn lemma_open_grid_connected(grid: Seq<Seq<GameCell>>, n: int, m: int)
    requires
        grid.len() == n,
        forall|r: int| 0 <= r < n ==> (#[trigger] grid[r]).len() == m,
        forall|p: (int, int)| 0 <= p.0 < n && 0 <= p.1 < m ==> passable(grid, p),
    ensures
        connected(grid),
{
    assert forall|a: (int, int), b: (int, int)|
        passable(grid, a) && passable(grid, b) implies #[trigger] linked(grid, a, b) by {
        lemma_open_grid_from_corner(grid, n, m, a.0, a.1);
        lemma_open_grid_from_corner(grid, n, m, b.0, b.1);
        lemma_linked_back(grid, (0, 0), a);
        lemma_linked_through(grid, a, (0, 0), b);
    }
}

/// Two grids with the same passable squares have the same links.
pub proof fn lemma_same_ground_same_links(
    g1: Seq<Seq<GameCell>>,
    g2: Seq<Seq<GameCell>>,
    a: (int, int),
    b: (int, int),
)
    requires
        forall|p: (int, int)| passable(g1, p) == passable(g2, p),
        linked(g1, a, b),
    ensures
        linked(g2, a, b),
{
    let path = choose|path: Seq<(int, int)>| #[trigger]
        is_path(g1, path) && path.first() == a && path.last() == b;
    assert forall|i: int| 0 <= i < path.len() implies passable(g2, #[trigger] path[i]) by {
        assert(passable(g1, path[i]));
    }
    assert(is_path(g2, path) && path.first() == a && path.last() == b);
}

/// Two grids with the same passable squares hang together or fall apart
/// together.
pub proof fn lemma_same_ground(g1: Seq<Seq<GameCell>>, g2: Seq<Seq<GameCell>>)
    requires
        forall|p: (int, int)| passable(g1, p) == passable(g2, p),
    ensures
        connected(g1) == connected(g2),
{
    if connected(g1) {
        assert forall|a: (int, int), b: (int, int)|
            passable(g2, a) && passable(g2, b) implies #[trigger] linked(g2, a, b) by {
            assert(passable(g1, a) && passable(g1, b));
            assert(linked(g1, a, b));
            lemma_same_ground_same_links(g1, g2, a, b);
        }
    }
    if connected(g2) {
        assert forall|a: (int, int), b: (int, int)|
            passable(g1, a) && passable(g1, b) implies #[trigger] linked(g1, a, b) by {
            assert(passable(g2, a) && passable(g2, b));
            assert(linked(g2, a, b));
            lemma_same_ground_same_links(g2, g1, a, b);
        }
    }
}

} // verus!
