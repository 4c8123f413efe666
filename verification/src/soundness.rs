//! What holds of every carved maze, whatever the decisions: its outer walls
//! stand, no cell is left without a set, and every cell can be reached from
//! every other.

use crate::carving::{
    carved, carved_row, finished_at, finished_rows, lemma_rows_keep_width, rectangular, scratch_at,
};
use crate::cell::Container;
use crate::chance::Decision;
use crate::linking::{
    carved_so_far, lemma_blank_hangs, lemma_bottom_carved, lemma_connected_kept,
    lemma_last_row_connects, lemma_row_carved, lemma_scratch_hangs,
};
use crate::passage::{connected, in_grid, opens_down, opens_right, passage};
use crate::row::{
    all_merged, blank_row, bottom_carved, last_row_sealed, lemma_all_merged, lemma_orphans_named,
    lemma_right_carved, no_orphans, orphans_named, right_carved, spawns_tagged,
};
use vstd::prelude::*;

verus! {

/// The outer walls stand: top walls along the first row, bottom walls along the
/// last, left walls down the first column and right walls down the last.
pub open spec fn enclosed(grid: Seq<Seq<Container>>) -> bool {
    forall|r: int, c: int|
        0 <= r < grid.len() && 0 <= c < grid[r].len() ==> {
            let cell = #[trigger] grid[r][c];
            &&& r == 0 ==> cell.top_wall
            &&& r == grid.len() - 1 ==> cell.bottom_wall
            &&& c == 0 ==> cell.left_wall
            &&& c == grid[r].len() - 1 ==> cell.right_wall
        }
}

/// No cell of the grid is without a set.
pub open spec fn all_assigned(grid: Seq<Seq<Container>>) -> bool {
    forall|r: int| 0 <= r < grid.len() ==> no_orphans(#[trigger] grid[r])
}

/// The grid has `height` rows of `width` cells.
pub open spec fn has_size(grid: Seq<Seq<Container>>, height: nat, width: nat) -> bool {
    &&& grid.len() == height
    &&& forall|r: int| 0 <= r < grid.len() ==> (#[trigger] grid[r]).len() == width
}

/// What holds of the rows while they are carved holds after each row.
pub proof fn lemma_rows_carved(plan: Seq<Seq<Decision>>, r: nat)
    requires
        rectangular(plan),
        r < plan.len(),
    ensures
        carved_so_far(finished_rows(plan, r + 1), plan[0].len()),
    decreases r,
{
    let width = plan[0].len();
    let done = finished_at(plan, r);
    let rows = finished_rows(plan, r + 1);
    if r == 0 {
        let above = Seq::<Seq<Container>>::empty();
        lemma_blank_hangs(width);
        lemma_row_carved(above, blank_row(width), plan[0], true, width);
        assert(rows =~= above.push(done));
    } else {
        let above = finished_rows(plan, r);
        lemma_rows_carved(plan, (r - 1) as nat);
        lemma_scratch_hangs(above, width);
        assert(above[above.len() - 1] == finished_at(plan, (r - 1) as nat));
        lemma_row_carved(above, scratch_at(plan, r), plan[r as int], false, width);
        assert(rows =~= above.push(done));
    }
}

/// What holds of each row of a carved maze: it is as wide as the plan, no cell
/// of it is without a set, and its outer walls stand.
pub proof fn lemma_carved_row(plan: Seq<Seq<Decision>>, r: int)
    requires
        rectangular(plan),
        0 <= r < plan.len(),
    ensures
        ({
            let row = carved_row(plan, r);
            &&& row.len() == plan[0].len()
            &&& no_orphans(row)
            &&& row[0].left_wall
            &&& row[row.len() - 1].right_wall
            &&& r == 0 ==> forall|c: int| 0 <= c < row.len() ==> (#[trigger] row[c]).top_wall
            &&& r == plan.len() - 1 ==> forall|c: int|
                0 <= c < row.len() ==> (#[trigger] row[c]).bottom_wall
        }),
{
    let width = plan[0].len();
    let done = finished_at(plan, r as nat);
    lemma_rows_keep_width(plan, r as nat);
    lemma_rows_carved(plan, r as nat);
    let rows = finished_rows(plan, (r + 1) as nat);
    assert(rows[rows.len() - 1] == done);
    assert(no_orphans(done));
    if r == plan.len() - 1 {
        lemma_all_merged(done, (width - 1) as nat);
        let merged = all_merged(done, (width - 1) as nat);
        assert(merged[0] == done[0].with_set(merged[0].set).with_right(merged[0].right_wall));
        assert forall|c: int| 0 <= c < width implies (#[trigger] carved_row(plan, r)[c]).top_wall
            == done[c].top_wall by {
            assert(merged[c] == done[c].with_set(merged[c].set).with_right(merged[c].right_wall));
        }
    }
}

/// Walls between cells are kept on right and bottom flags alone: a left wall
/// stands on the first column and nowhere else, and the top flag, raised along
/// the first row, is handed down to every row below it.
pub open spec fn walls_kept_right_and_below(grid: Seq<Seq<Container>>) -> bool {
    forall|r: int, c: int|
        0 <= r < grid.len() && 0 <= c < grid[r].len() ==> {
            let cell = #[trigger] grid[r][c];
            &&& cell.top_wall
            &&& cell.left_wall <==> c == 0
        }
}

/// What holds of the left and top flags of each row as it is carved.
pub proof fn lemma_finished_sides(plan: Seq<Seq<Decision>>, r: nat)
    requires
        rectangular(plan),
        r < plan.len(),
    ensures
        forall|c: int|
            0 <= c < plan[0].len() ==> {
                let cell = #[trigger] finished_at(plan, r)[c];
                &&& cell.top_wall
                &&& cell.left_wall <==> c == 0
            },
    decreases r,
{
    let width = plan[0].len();
    let scratch = scratch_at(plan, r);
    lemma_rows_keep_width(plan, r);
    if r > 0 {
        lemma_finished_sides(plan, (r - 1) as nat);
        lemma_rows_keep_width(plan, (r - 1) as nat);
    }
    let named = orphans_named(scratch, width);
    lemma_orphans_named(scratch, width);
    let across = right_carved(named, plan[r as int], (width - 1) as nat);
    lemma_right_carved(named, plan[r as int], (width - 1) as nat);
    let down = bottom_carved(across, plan[r as int], width);
    lemma_bottom_carved(across, plan[r as int], width);
    assert forall|c: int| 0 <= c < width implies {
        let cell = #[trigger] finished_at(plan, r)[c];
        &&& cell.top_wall
        &&& cell.left_wall <==> c == 0
    } by {
        assert(named[c] == scratch[c].with_set(named[c].set));
        assert(across[c] == named[c].with_set(across[c].set).with_right(across[c].right_wall));
        assert(down[c] == across[c].with_bottom(down[c].bottom_wall));
        if r > 0 {
            let above = finished_at(plan, (r - 1) as nat)[c];
            assert(above.top_wall);
        }
    }
}

/// In a carved maze, walls between cells are kept on right and bottom flags
/// alone, whatever the decisions.
pub proof fn lemma_carved_sides(plan: Seq<Seq<Decision>>)
    requires
        rectangular(plan),
    ensures
        walls_kept_right_and_below(carved(plan)),
{
    let grid = carved(plan);
    let width = plan[0].len();
    assert forall|r: int, c: int| 0 <= r < grid.len() && 0 <= c < grid[r].len() implies {
        let cell = #[trigger] grid[r][c];
        &&& cell.top_wall
        &&& cell.left_wall <==> c == 0
    } by {
        lemma_carved_row(plan, r);
        lemma_finished_sides(plan, r as nat);
        lemma_rows_keep_width(plan, r as nat);
        let done = finished_at(plan, r as nat);
        assert(done[c].top_wall);
        if r == plan.len() - 1 {
            lemma_rows_carved(plan, r as nat);
            let rows = finished_rows(plan, (r + 1) as nat);
            assert(rows[rows.len() - 1] == done);
            lemma_all_merged(done, (width - 1) as nat);
            let merged = all_merged(done, (width - 1) as nat);
            assert(merged[c] == done[c].with_set(merged[c].set).with_right(merged[c].right_wall));
        }
    }
}

/// Carving is a function of the plan: two plans that hold the same decisions
/// give the same maze.
pub proof fn lemma_same_plan_same_maze(first: Seq<Seq<Decision>>, second: Seq<Seq<Decision>>)
    requires
        first.len() == second.len(),
        forall|r: int| 0 <= r < first.len() ==> (#[trigger] first[r]).len() == second[r].len(),
        forall|r: int, c: int|
            0 <= r < first.len() && 0 <= c < first[r].len() ==> #[trigger] first[r][c]
                == second[r][c],
    ensures
        carved(first) == carved(second),
{
    assert(first =~~= second);
}

/// A carved maze has the size of its plan.
pub proof fn lemma_carved_size(plan: Seq<Seq<Decision>>)
    requires
        rectangular(plan),
    ensures
        has_size(carved(plan), plan.len(), plan[0].len()),
{
    assert forall|r: int| 0 <= r < carved(plan).len() implies (#[trigger] carved(plan)[r]).len()
        == plan[0].len() by {
        lemma_carved_row(plan, r);
    }
}

/// The outer walls of a carved maze stand, whatever the decisions.
pub proof fn lemma_carved_enclosed(plan: Seq<Seq<Decision>>)
    requires
        rectangular(plan),
    ensures
        enclosed(carved(plan)),
{
    let grid = carved(plan);
    assert forall|r: int, c: int| 0 <= r < grid.len() && 0 <= c < grid[r].len() implies {
        let cell = #[trigger] grid[r][c];
        &&& r == 0 ==> cell.top_wall
        &&& r == grid.len() - 1 ==> cell.bottom_wall
        &&& c == 0 ==> cell.left_wall
        &&& c == grid[r].len() - 1 ==> cell.right_wall
    } by {
        lemma_carved_row(plan, r);
    }
}

/// A maze of a single cell is that cell walled on all four sides.
pub proof fn lemma_single_cell_walled(plan: Seq<Seq<Decision>>)
    requires
        rectangular(plan),
        plan.len() == 1,
        plan[0].len() == 1,
    ensures
        carved(plan).len() == 1,
        carved(plan)[0].len() == 1,
        carved(plan)[0][0].wall_count() == 4,
{
    lemma_carved_size(plan);
    lemma_carved_enclosed(plan);
    let cell = carved(plan)[0][0];
    assert(cell.top_wall && cell.bottom_wall && cell.left_wall && cell.right_wall);
}

/// No cell of a carved maze is left without a set, whatever the decisions.
pub proof fn lemma_carved_assigned(plan: Seq<Seq<Decision>>)
    requires
        rectangular(plan),
    ensures
        all_assigned(carved(plan)),
{
    let grid = carved(plan);
    assert forall|r: int| 0 <= r < grid.len() implies no_orphans(#[trigger] grid[r]) by {
        lemma_carved_row(plan, r);
    }
}

/// Every cell of a carved maze can be reached from every other through
/// passages, whatever the decisions.
pub proof fn lemma_carved_connected(plan: Seq<Seq<Decision>>)
    requires
        rectangular(plan),
    ensures
        connected(carved(plan)),
{
    let height = plan.len();
    let width = plan[0].len();
    let above = finished_rows(plan, (height - 1) as nat);
    let done = finished_at(plan, (height - 1) as nat);
    lemma_rows_carved(plan, (height - 1) as nat);
    assert(finished_rows(plan, height) =~= above.push(done));
    lemma_last_row_connects(above, done, width);
    let bare = above.push(last_row_sealed(done));
    let grid = carved(plan);
    lemma_carved_size(plan);
    assert forall|r: int| 0 <= r < height implies #[trigger] grid[r] == spawns_tagged(
        bare[r],
        plan[r],
    ) && bare[r].len() == width by {
        lemma_rows_keep_width(plan, r as nat);
        lemma_carved_row(plan, r);
    }
    assert forall|a: (int, int)| #[trigger] in_grid(bare, a) implies in_grid(grid, a) by {
        assert(grid[a.0].len() == width);
    }
    assert forall|a: (int, int)| #[trigger] in_grid(grid, a) implies in_grid(bare, a) by {
        assert(grid[a.0].len() == width);
    }
    assert forall|a: (int, int)| #[trigger] opens_right(bare, a) implies opens_right(grid, a) by {
        assert(grid[a.0] == spawns_tagged(bare[a.0], plan[a.0]));
    }
    assert forall|a: (int, int)| #[trigger] opens_down(bare, a) implies opens_down(grid, a) by {
        assert(grid[a.0] == spawns_tagged(bare[a.0], plan[a.0]));
    }
    assert forall|a: (int, int), b: (int, int)| #[trigger]
        passage(bare, a, b) implies passage(grid, a, b) by {
        if opens_right(bare, a) && b == (a.0, a.1 + 1) {
            assert(opens_right(grid, a));
        } else if opens_right(bare, b) && a == (b.0, b.1 + 1) {
            assert(opens_right(grid, b));
        } else if opens_down(bare, a) && b == (a.0 + 1, a.1) {
            assert(opens_down(grid, a));
        } else {
            assert(opens_down(grid, b));
        }
    }
    lemma_connected_kept(bare, grid);
}

} // verus!
