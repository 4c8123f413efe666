//! Why a carved maze is connected.
//!
//! While the rows are carved from the top, three things hold of the rows
//! carved so far: cells of the newest row that share a set are joined by a
//! path; every cell is joined to some cell of the newest row; and every set of
//! the newest row has a cell that is open downwards. The row below inherits
//! its sets through those open cells, so the same holds again once it is
//! carved. The last row is merged into one set, which joins everything.

use crate::cell::Container;
use crate::chance::Decision;
use crate::passage::{
    connected, in_grid, joined, lemma_joined_back, lemma_joined_inside, lemma_joined_kept,
    lemma_joined_self, lemma_joined_step, lemma_joined_through, opens_down, opens_right, passage,
    passages_kept,
};
use crate::row::{
    all_merged, blank_row, bottom_carved, bottom_closed, has_other_way_down, last_row_sealed,
    lemma_all_merged, lemma_orphans_named, no_orphans, orphans_named, right_carved, row_finished,
    scratch_below, sides_sealed,
};
use vstd::prelude::*;

verus! {

/// Every row of the grid has `width` cells.
pub open spec fn even(grid: Seq<Seq<Container>>, width: nat) -> bool {
    forall|r: int| 0 <= r < grid.len() ==> (#[trigger] grid[r]).len() == width
}

/// The set of cell `c` has a member that is open downwards, or one at or after
/// column `k`, whose bottom wall is not decided yet.
pub open spec fn keeps_way_down(row: Seq<Container>, c: int, k: int) -> bool {
    exists|j: int|
        0 <= j < row.len() && (#[trigger] row[j]).set == row[c].set && (j >= k
            || !row[j].bottom_wall)
}

/// Every set of the row has a member that is open downwards.
pub open spec fn sets_open_down(row: Seq<Container>) -> bool {
    forall|c: int| 0 <= c < row.len() ==> #[trigger] keeps_way_down(row, c, row.len() as int)
}

/// Cells of the last row of the grid that share a set are joined.
pub open spec fn sets_joined(grid: Seq<Seq<Container>>) -> bool {
    let r = grid.len() - 1;
    forall|c1: int, c2: int|
        0 <= c1 < grid[r].len() && 0 <= c2 < grid[r].len() && grid[r][c1].set == grid[r][c2].set
            ==> #[trigger] joined(grid, (r, c1), (r, c2))
}

/// The cell at `at` is joined to some cell of the last row of the grid.
pub open spec fn reaches_last(grid: Seq<Seq<Container>>, at: (int, int)) -> bool {
    exists|c: int| #[trigger] joined(grid, at, (grid.len() - 1, c))
}

/// What holds of the rows carved so far.
pub open spec fn carved_so_far(grid: Seq<Seq<Container>>, width: nat) -> bool {
    &&& grid.len() >= 1
    &&& width >= 1
    &&& even(grid, width)
    &&& sets_joined(grid)
    &&& forall|at: (int, int)| in_grid(grid, at) ==> #[trigger] reaches_last(grid, at)
    &&& no_orphans(grid[grid.len() - 1])
    &&& sets_open_down(grid[grid.len() - 1])
}

/// The cell at `at` is joined to a cell of the last row of `above` under which
/// the scratch row carries a set.
pub open spec fn reaches_open(above: Seq<Seq<Container>>, scratch: Seq<Container>, at: (
    int,
    int,
)) -> bool {
    exists|c: int|
        0 <= c < scratch.len() && scratch[c].set != 0 && #[trigger] joined(
            above,
            at,
            (above.len() - 1, c),
        )
}

/// What holds of a scratch row and the rows above it: a cell that carries a
/// set lies under an open cell; cells that share a set lie under joined cells;
/// and every cell above is joined to a cell over a set.
pub open spec fn hangs_under(above: Seq<Seq<Container>>, scratch: Seq<Container>, width: nat) -> bool {
    &&& 1 <= width <= usize::MAX
    &&& even(above, width)
    &&& scratch.len() == width
    &&& forall|c: int|
        0 <= c < width && (#[trigger] scratch[c]).set != 0 ==> above.len() >= 1 && !above[above.len()
            - 1][c].bottom_wall
    &&& forall|c1: int, c2: int|
        0 <= c1 < width && 0 <= c2 < width && scratch[c1].set == scratch[c2].set && scratch[c1].set
            != 0 ==> #[trigger] joined(above, (above.len() - 1, c1), (above.len() - 1, c2))
    &&& forall|at: (int, int)| in_grid(above, at) ==> #[trigger] reaches_open(above, scratch, at)
}

/// The row with every right wall raised from column `k` on: the pairs that the
/// sweep has not settled yet count as closed.
pub open spec fn walled_from(row: Seq<Container>, k: int) -> Seq<Container> {
    Seq::new(
        row.len(),
        |c: int|
            if c >= k {
                row[c].with_right(true)
            } else {
                row[c]
            },
    )
}

/// What holds while the pairs of a row are settled, `k` of them so far: no
/// cell is without a set, cells that share a set are joined, and every cell
/// above is joined to some cell of the row.
pub open spec fn linked(above: Seq<Seq<Container>>, row: Seq<Container>, k: int) -> bool {
    let grid = above.push(walled_from(row, k));
    let r = above.len() as int;
    &&& no_orphans(row)
    &&& forall|c1: int, c2: int|
        0 <= c1 < row.len() && 0 <= c2 < row.len() && row[c1].set == row[c2].set
            ==> #[trigger] joined(grid, (r, c1), (r, c2))
    &&& forall|at: (int, int)| in_grid(above, at) ==> #[trigger] reaches_last(grid, at)
}

/// Adding a row below keeps every passage.
pub proof fn lemma_push_keeps(above: Seq<Seq<Container>>, row: Seq<Container>)
    ensures
        passages_kept(above, above.push(row)),
{
    let grid = above.push(row);
    assert forall|a: (int, int)| #[trigger] in_grid(above, a) implies in_grid(grid, a) by {
        assert(grid[a.0] == above[a.0]);
    }
    assert forall|a: (int, int), b: (int, int)| #[trigger]
        passage(above, a, b) implies passage(grid, a, b) by {
        assert(in_grid(above, a) && in_grid(above, b));
        assert(grid[a.0] == above[a.0]);
        assert(grid[b.0] == above[b.0]);
    }
}

/// Replacing the last row by one that is open to the right wherever the old
/// one was keeps every passage.
pub proof fn lemma_swap_keeps(above: Seq<Seq<Container>>, old_row: Seq<Container>, new_row: Seq<
    Container,
>)
    requires
        old_row.len() == new_row.len(),
        forall|c: int|
            0 <= c < old_row.len() - 1 && !(#[trigger] old_row[c]).right_wall
                ==> !new_row[c].right_wall,
    ensures
        passages_kept(above.push(old_row), above.push(new_row)),
{
    let from = above.push(old_row);
    let to = above.push(new_row);
    let r = above.len() as int;
    assert forall|a: (int, int)| #[trigger] in_grid(from, a) implies in_grid(to, a) by {
        if a.0 < r {
            assert(from[a.0] == to[a.0]);
        }
    }
    assert forall|a: (int, int)| #[trigger] opens_right(from, a) implies opens_right(to, a) by {
        if a.0 < r {
            assert(from[a.0] == to[a.0]);
        } else {
            assert(!old_row[a.1].right_wall);
        }
    }
    assert forall|a: (int, int)| #[trigger] opens_down(from, a) implies opens_down(to, a) by {
        assert(a.0 < r);
        assert(from[a.0] == to[a.0]);
        if a.0 + 1 < r {
            assert(from[a.0 + 1] == to[a.0 + 1]);
        }
    }
    assert forall|a: (int, int), b: (int, int)| #[trigger]
        passage(from, a, b) implies passage(to, a, b) by {
        if opens_right(from, a) && b == (a.0, a.1 + 1) {
            assert(opens_right(to, a));
        } else if opens_right(from, b) && a == (b.0, b.1 + 1) {
            assert(opens_right(to, b));
        } else if opens_down(from, a) && b == (a.0 + 1, a.1) {
            assert(opens_down(to, a));
        } else {
            assert(opens_down(to, b));
        }
    }
}

/// Deciding bottom walls changes nothing but bottom walls, and leaves every
/// set a way down.
pub proof fn lemma_bottom_carved(row: Seq<Container>, plan: Seq<Decision>, k: nat)
    requires
        k <= row.len(),
    ensures
        ({
            let down = bottom_carved(row, plan, k);
            &&& down.len() == row.len()
            &&& forall|c: int|
                0 <= c < row.len() ==> #[trigger] down[c] == row[c].with_bottom(
                    down[c].bottom_wall,
                )
            &&& forall|c: int| 0 <= c < row.len() ==> #[trigger] keeps_way_down(down, c, k as int)
        }),
    decreases k,
{
    let down = bottom_carved(row, plan, k);
    if k == 0 {
        assert forall|c: int| 0 <= c < row.len() implies #[trigger] keeps_way_down(
            down,
            c,
            k as int,
        ) by {
            assert(down[c].set == row[c].set);
        }
    } else {
        lemma_bottom_carved(row, plan, (k - 1) as nat);
        let prev = bottom_carved(row, plan, (k - 1) as nat);
        let at = k - 1;
        let wall = plan[at].wall_below && has_other_way_down(prev, at);
        assert forall|c: int| 0 <= c < row.len() implies #[trigger] keeps_way_down(
            down,
            c,
            k as int,
        ) by {
            assert(keeps_way_down(prev, c, k - 1));
            let j = choose|j: int|
                0 <= j < prev.len() && (#[trigger] prev[j]).set == prev[c].set && (j >= k - 1
                    || !prev[j].bottom_wall);
            if j != at {
                assert(down[j].set == down[c].set);
            } else if !wall {
                assert(down[at].set == down[c].set);
            } else {
                let other = choose|i: int|
                    0 <= i < prev.len() && i != at && (#[trigger] prev[i]).set == prev[at].set && (i
                        > at || !prev[i].bottom_wall);
                assert(down[other].set == down[c].set);
            }
        }
    }
}

/// A blank scratch row hangs under nothing.
pub proof fn lemma_blank_hangs(width: nat)
    requires
        1 <= width <= usize::MAX,
    ensures
        hangs_under(Seq::empty(), blank_row(width), width),
{
}

/// The scratch row that carved rows hand down hangs under them.
pub proof fn lemma_scratch_hangs(grid: Seq<Seq<Container>>, width: nat)
    requires
        carved_so_far(grid, width),
        width <= usize::MAX,
    ensures
        hangs_under(grid, scratch_below(grid[grid.len() - 1]), width),
{
    let r = grid.len() - 1;
    let last = grid[r];
    let scratch = scratch_below(last);
    assert forall|c1: int, c2: int|
        0 <= c1 < width && 0 <= c2 < width && scratch[c1].set == scratch[c2].set && scratch[c1].set
            != 0 implies #[trigger] joined(grid, (r, c1), (r, c2)) by {
        assert(last[c1].set == last[c2].set);
    }
    assert forall|at: (int, int)| in_grid(grid, at) implies #[trigger] reaches_open(
        grid,
        scratch,
        at,
    ) by {
        assert(reaches_last(grid, at));
        let c = choose|c: int| #[trigger] joined(grid, at, (r, c));
        lemma_joined_inside(grid, at, (r, c));
        assert(keeps_way_down(last, c, last.len() as int));
        let j = choose|j: int|
            0 <= j < last.len() && (#[trigger] last[j]).set == last[c].set && (j >= last.len()
                || !last[j].bottom_wall);
        assert(joined(grid, (r, c), (r, j)));
        lemma_joined_through(grid, at, (r, c), (r, j));
        assert(scratch[j].set != 0);
    }
}

/// In a grid whose last row lies under `above`, a cell under an open cell is
/// joined to it.
proof fn lemma_joined_down(above: Seq<Seq<Container>>, row: Seq<Container>, c: int)
    requires
        above.len() >= 1,
        0 <= c < row.len(),
        above[above.len() - 1].len() == row.len(),
        !above[above.len() - 1][c].bottom_wall,
    ensures
        joined(above.push(row), (above.len() - 1, c), (above.len() as int, c)),
        joined(above.push(row), (above.len() as int, c), (above.len() - 1, c)),
{
    let grid = above.push(row);
    let r = above.len() as int;
    assert(grid[r - 1] == above[r - 1]);
    assert(grid[r] == row);
    assert(opens_down(grid, (r - 1, c)));
    assert(passage(grid, (r - 1, c), (r, c)));
    lemma_joined_step(grid, (r - 1, c), (r, c));
    lemma_joined_back(grid, (r - 1, c), (r, c));
}

/// Once its orphans are named, and before any pair is settled, a scratch row
/// that hangs under the rows above is linked to them.
pub proof fn lemma_named_linked(above: Seq<Seq<Container>>, scratch: Seq<Container>, width: nat)
    requires
        hangs_under(above, scratch, width),
    ensures
        orphans_named(scratch, width).len() == width,
        linked(above, orphans_named(scratch, width), 0),
{
    let named = orphans_named(scratch, width);
    lemma_orphans_named(scratch, width);
    let closed = walled_from(named, 0);
    let grid = above.push(closed);
    let r = above.len() as int;
    lemma_push_keeps(above, closed);
    assert(grid[r] == closed);
    assert forall|c1: int, c2: int|
        0 <= c1 < named.len() && 0 <= c2 < named.len() && named[c1].set
            == named[c2].set implies #[trigger] joined(grid, (r, c1), (r, c2)) by {
        if c1 == c2 {
            lemma_joined_self(grid, (r, c1));
        } else {
            if scratch[c1].set == 0 {
                assert(named[c1].set != named[c2].set);
            }
            if scratch[c2].set == 0 {
                assert(named[c2].set != named[c1].set);
            }
            assert(named[c1].set == scratch[c1].set);
            assert(named[c2].set == scratch[c2].set);
            assert(joined(above, (r - 1, c1), (r - 1, c2)));
            lemma_joined_kept(above, grid, (r - 1, c1), (r - 1, c2));
            lemma_joined_down(above, closed, c1);
            lemma_joined_down(above, closed, c2);
            lemma_joined_through(grid, (r, c1), (r - 1, c1), (r - 1, c2));
            lemma_joined_through(grid, (r, c1), (r - 1, c2), (r, c2));
        }
    }
    assert forall|at: (int, int)| in_grid(above, at) implies #[trigger] reaches_last(grid, at) by {
        assert(reaches_open(above, scratch, at));
        let c = choose|c: int|
            0 <= c < scratch.len() && scratch[c].set != 0 && #[trigger] joined(
                above,
                at,
                (above.len() - 1, c),
            );
        lemma_joined_kept(above, grid, at, (r - 1, c));
        lemma_joined_down(above, closed, c);
        lemma_joined_through(grid, at, (r - 1, c), (r, c));
        assert(joined(grid, at, (grid.len() - 1, c)));
    }
}

/// Settling pairs keeps the row linked: a wall changes nothing, and a merge
/// joins two sets whose cells were joined among themselves through the pair
/// that is opened.
pub proof fn lemma_right_linked(
    above: Seq<Seq<Container>>,
    row: Seq<Container>,
    plan: Seq<Decision>,
    k: nat,
    width: nat,
)
    requires
        row.len() == width,
        k < width,
        linked(above, row, 0),
    ensures
        right_carved(row, plan, k).len() == width,
        linked(above, right_carved(row, plan, k), k as int),
    decreases k,
{
    if k > 0 {
        lemma_right_linked(above, row, plan, (k - 1) as nat, width);
        let prev = right_carved(row, plan, (k - 1) as nat);
        let next = right_carved(row, plan, k);
        let c = k - 1;
        let r = above.len() as int;
        let before = walled_from(prev, k - 1);
        let after = walled_from(next, k as int);
        let g0 = above.push(before);
        let g1 = above.push(after);
        assert(g0[r] == before);
        assert(g1[r] == after);
        if prev[c].set == prev[c + 1].set || plan[c].wall_right {
            assert(after =~= before);
            assert forall|c1: int, c2: int|
                0 <= c1 < next.len() && 0 <= c2 < next.len() && next[c1].set
                    == next[c2].set implies #[trigger] joined(g1, (r, c1), (r, c2)) by {
                assert(prev[c1].set == prev[c2].set);
                assert(joined(g0, (r, c1), (r, c2)));
            }
            assert forall|at: (int, int)| in_grid(above, at) implies #[trigger] reaches_last(
                g1,
                at,
            ) by {
                assert(reaches_last(g0, at));
            }
        } else {
            let from = prev[c + 1].set;
            let into = prev[c].set;
            lemma_swap_keeps(above, before, after);
            assert(opens_right(g1, (r, c)));
            assert(passage(g1, (r, c), (r, c + 1)));
            lemma_joined_step(g1, (r, c), (r, c + 1));
            lemma_joined_back(g1, (r, c), (r, c + 1));
            assert forall|c1: int, c2: int|
                0 <= c1 < next.len() && 0 <= c2 < next.len() && next[c1].set
                    == next[c2].set implies #[trigger] joined(g1, (r, c1), (r, c2)) by {
                if prev[c1].set == prev[c2].set {
                    assert(joined(g0, (r, c1), (r, c2)));
                    lemma_joined_kept(g0, g1, (r, c1), (r, c2));
                } else if prev[c1].set == from {
                    assert(prev[c2].set == into);
                    assert(joined(g0, (r, c1), (r, c + 1)));
                    assert(joined(g0, (r, c), (r, c2)));
                    lemma_joined_kept(g0, g1, (r, c1), (r, c + 1));
                    lemma_joined_kept(g0, g1, (r, c), (r, c2));
                    lemma_joined_through(g1, (r, c1), (r, c + 1), (r, c));
                    lemma_joined_through(g1, (r, c1), (r, c), (r, c2));
                } else {
                    assert(prev[c2].set == from);
                    assert(prev[c1].set == into);
                    assert(joined(g0, (r, c1), (r, c)));
                    assert(joined(g0, (r, c + 1), (r, c2)));
                    lemma_joined_kept(g0, g1, (r, c1), (r, c));
                    lemma_joined_kept(g0, g1, (r, c + 1), (r, c2));
                    lemma_joined_through(g1, (r, c1), (r, c), (r, c + 1));
                    lemma_joined_through(g1, (r, c1), (r, c + 1), (r, c2));
                }
            }
            assert forall|at: (int, int)| in_grid(above, at) implies #[trigger] reaches_last(
                g1,
                at,
            ) by {
                assert(reaches_last(g0, at));
                let j = choose|j: int| #[trigger] joined(g0, at, (g0.len() - 1, j));
                lemma_joined_kept(g0, g1, at, (r, j));
                assert(joined(g1, at, (g1.len() - 1, j)));
            }
        }
    }
}

/// Carving a row from a scratch row that hangs under the rows above gives
/// rows of which all holds that held of the rows above.
pub proof fn lemma_row_carved(
    above: Seq<Seq<Container>>,
    scratch: Seq<Container>,
    plan: Seq<Decision>,
    first: bool,
    width: nat,
)
    requires
        hangs_under(above, scratch, width),
    ensures
        row_finished(scratch, plan, first).len() == width,
        carved_so_far(above.push(row_finished(scratch, plan, first)), width),
{
    let named = orphans_named(scratch, width);
    lemma_named_linked(above, scratch, width);
    let across = right_carved(named, plan, (width - 1) as nat);
    lemma_right_linked(above, named, plan, (width - 1) as nat, width);
    let down = bottom_carved(across, plan, width);
    lemma_bottom_carved(across, plan, width);
    let done = sides_sealed(down, first);
    assert(done == row_finished(scratch, plan, first));
    let r = above.len() as int;
    let closed = walled_from(across, width - 1);
    let g0 = above.push(closed);
    let grid = above.push(done);
    assert(grid[r] == done);
    lemma_swap_keeps(above, closed, done);
    assert forall|c: int| 0 <= c < width implies (#[trigger] done[c]).set == across[c].set
        && done[c].bottom_wall == down[c].bottom_wall by {
        assert(down[c] == across[c].with_bottom(down[c].bottom_wall));
    }
    assert forall|c1: int, c2: int|
        0 <= c1 < grid[r].len() && 0 <= c2 < grid[r].len() && grid[r][c1].set
            == grid[r][c2].set implies #[trigger] joined(grid, (r, c1), (r, c2)) by {
        assert(done[c1].set == across[c1].set);
        assert(done[c2].set == across[c2].set);
        assert(joined(g0, (r, c1), (r, c2)));
        lemma_joined_kept(g0, grid, (r, c1), (r, c2));
    }
    assert forall|at: (int, int)| in_grid(grid, at) implies #[trigger] reaches_last(grid, at) by {
        if at.0 < r {
            assert(grid[at.0] == above[at.0]);
            assert(in_grid(above, at));
            assert(reaches_last(g0, at));
            let j = choose|j: int| #[trigger] joined(g0, at, (g0.len() - 1, j));
            lemma_joined_kept(g0, grid, at, (r, j));
            assert(joined(grid, at, (grid.len() - 1, j)));
        } else {
            lemma_joined_self(grid, at);
            assert(joined(grid, at, (grid.len() - 1, at.1)));
        }
    }
    assert forall|c: int| 0 <= c < done.len() implies (#[trigger] done[c]).set != 0 by {
        assert(across[c].set != 0);
    }
    assert forall|c: int| 0 <= c < done.len() implies #[trigger] keeps_way_down(
        done,
        c,
        done.len() as int,
    ) by {
        assert(keeps_way_down(down, c, width as int));
        let j = choose|j: int|
            0 <= j < down.len() && (#[trigger] down[j]).set == down[c].set && (j >= width
                || !down[j].bottom_wall);
        assert(done[j].set == done[c].set && !done[j].bottom_wall);
    }
    assert forall|i: int| 0 <= i < grid.len() implies (#[trigger] grid[i]).len() == width by {
        if i < r {
            assert(grid[i] == above[i]);
        }
    }
}

/// Merging the pairs of the last row only adds passages and keeps cells that
/// share a set joined.
pub proof fn lemma_merged_linked(
    above: Seq<Seq<Container>>,
    row: Seq<Container>,
    k: nat,
    width: nat,
)
    requires
        carved_so_far(above.push(row), width),
        k < width,
    ensures
        all_merged(row, k).len() == width,
        passages_kept(above.push(row), above.push(all_merged(row, k))),
        sets_joined(above.push(all_merged(row, k))),
    decreases k,
{
    let r = above.len() as int;
    let start = above.push(row);
    assert(start[r] == row);
    lemma_all_merged(row, k);
    if k > 0 {
        lemma_merged_linked(above, row, (k - 1) as nat, width);
        lemma_all_merged(row, (k - 1) as nat);
        let prev = all_merged(row, (k - 1) as nat);
        let next = all_merged(row, k);
        let c = k - 1;
        let g0 = above.push(prev);
        let g1 = above.push(next);
        assert(g0[r] == prev);
        assert(g1[r] == next);
        assert(g0.len() - 1 == r);
        assert(g1.len() - 1 == r);
        if prev[c].set != prev[c + 1].set {
            let from = prev[c + 1].set;
            let into = prev[c].set;
            lemma_swap_keeps(above, prev, next);
            assert(opens_right(g1, (r, c)));
            assert(passage(g1, (r, c), (r, c + 1)));
            lemma_joined_step(g1, (r, c), (r, c + 1));
            lemma_joined_back(g1, (r, c), (r, c + 1));
            assert forall|c1: int, c2: int|
                0 <= c1 < g1[r].len() && 0 <= c2 < g1[r].len() && g1[r][c1].set
                    == g1[r][c2].set implies #[trigger] joined(g1, (r, c1), (r, c2)) by {
                if prev[c1].set == prev[c2].set {
                    assert(joined(g0, (r, c1), (r, c2)));
                    lemma_joined_kept(g0, g1, (r, c1), (r, c2));
                } else if prev[c1].set == from {
                    assert(prev[c2].set == into);
                    assert(joined(g0, (r, c1), (r, c + 1)));
                    assert(joined(g0, (r, c), (r, c2)));
                    lemma_joined_kept(g0, g1, (r, c1), (r, c + 1));
                    lemma_joined_kept(g0, g1, (r, c), (r, c2));
                    lemma_joined_through(g1, (r, c1), (r, c + 1), (r, c));
                    lemma_joined_through(g1, (r, c1), (r, c), (r, c2));
                } else {
                    assert(prev[c2].set == from);
                    assert(prev[c1].set == into);
                    assert(joined(g0, (r, c1), (r, c)));
                    assert(joined(g0, (r, c + 1), (r, c2)));
                    lemma_joined_kept(g0, g1, (r, c1), (r, c));
                    lemma_joined_kept(g0, g1, (r, c + 1), (r, c2));
                    lemma_joined_through(g1, (r, c1), (r, c), (r, c + 1));
                    lemma_joined_through(g1, (r, c1), (r, c + 1), (r, c2));
                }
            }
        }
    }
}

/// A grid in which every cell is joined to every other stays so when passages
/// are added and no cell is.
pub proof fn lemma_connected_kept(from: Seq<Seq<Container>>, to: Seq<Seq<Container>>)
    requires
        connected(from),
        passages_kept(from, to),
        forall|a: (int, int)| #[trigger] in_grid(to, a) ==> in_grid(from, a),
    ensures
        connected(to),
{
    assert forall|a: (int, int), b: (int, int)|
        in_grid(to, a) && in_grid(to, b) implies #[trigger] joined(to, a, b) by {
        assert(joined(from, a, b));
        lemma_joined_kept(from, to, a, b);
    }
}

/// Sealing the last row joins every cell of the maze to every other.
pub proof fn lemma_last_row_connects(above: Seq<Seq<Container>>, row: Seq<Container>, width: nat)
    requires
        carved_so_far(above.push(row), width),
    ensures
        connected(above.push(last_row_sealed(row))),
{
    let r = above.len() as int;
    let start = above.push(row);
    assert(start[r] == row);
    let merged = all_merged(row, (width - 1) as nat);
    let grid = above.push(merged);
    assert(grid[r] == merged);
    lemma_merged_linked(above, row, (width - 1) as nat, width);
    lemma_all_merged(row, (width - 1) as nat);
    assert forall|a: (int, int), b: (int, int)|
        in_grid(grid, a) && in_grid(grid, b) implies #[trigger] joined(grid, a, b) by {
        assert(in_grid(start, a)) by {
            if a.0 < r {
                assert(grid[a.0] == start[a.0]);
            }
        }
        assert(in_grid(start, b)) by {
            if b.0 < r {
                assert(grid[b.0] == start[b.0]);
            }
        }
        assert(reaches_last(start, a));
        assert(reaches_last(start, b));
        let ca = choose|c: int| #[trigger] joined(start, a, (start.len() - 1, c));
        let cb = choose|c: int| #[trigger] joined(start, b, (start.len() - 1, c));
        lemma_joined_inside(start, a, (r, ca));
        lemma_joined_inside(start, b, (r, cb));
        lemma_joined_kept(start, grid, a, (r, ca));
        lemma_joined_kept(start, grid, b, (r, cb));
        assert(merged[ca].set == merged[0].set);
        assert(merged[cb].set == merged[0].set);
        assert(joined(grid, (r, ca), (r, cb)));
        lemma_joined_back(grid, b, (r, cb));
        lemma_joined_through(grid, a, (r, ca), (r, cb));
        lemma_joined_through(grid, a, (r, cb), b);
    }
    let sealed = bottom_closed(merged);
    assert(sealed == last_row_sealed(row));
    let end = above.push(sealed);
    lemma_swap_keeps(above, merged, sealed);
    assert forall|a: (int, int)| #[trigger] in_grid(end, a) implies in_grid(grid, a) by {
        if a.0 < r {
            assert(grid[a.0] == end[a.0]);
        } else {
            assert(end[r] == sealed);
        }
    }
    lemma_connected_kept(grid, end);
}

} // verus!
