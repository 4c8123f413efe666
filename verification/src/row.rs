//! Carving one row of a maze.
//!
//! A row is carved from a scratch row that carries the connectivity sets down
//! from the row above. Cells in one set are known to be joined by passages
//! already carved. The steps are, in order: cells without a set get a fresh
//! one; neighbours in different sets are either walled off or joined; cells
//! are closed downwards, but never the last open cell of a set; the outer
//! walls are raised.
//!
//! Each step is described by a spec function on `Seq<Container>` and carried
//! out by an executable function that is proved to compute it.

use crate::cell::Container;
use crate::chance::Decision;
use crate::index::RowSetIndex;
use vstd::prelude::*;

verus! {

/// Some cell of the row belongs to set `id`.
pub open spec fn in_use(row: Seq<Container>, id: usize) -> bool {
    exists|c: int| 0 <= c < row.len() && (#[trigger] row[c]).set == id
}

/// No cell of the row is without a set.
pub open spec fn no_orphans(row: Seq<Container>) -> bool {
    forall|c: int| 0 <= c < row.len() ==> (#[trigger] row[c]).set != 0
}

/// `id` is the smallest positive set id that no cell of the row carries.
pub open spec fn is_fresh_id(row: Seq<Container>, id: usize) -> bool {
    &&& id >= 1
    &&& !in_use(row, id)
    &&& forall|h: usize| 1 <= h < id ==> #[trigger] in_use(row, h)
}

/// The smallest positive set id that no cell of the row carries.
pub open spec fn fresh_id(row: Seq<Container>) -> usize {
    choose|id: usize| is_fresh_id(row, id)
}

/// The row after the first `k` cells were looked at and each of them that had
/// no set was given the fresh id of the row as it stood then.
pub open spec fn orphans_named(row: Seq<Container>, k: nat) -> Seq<Container>
    decreases k,
{
    if k == 0 {
        row
    } else {
        let prev = orphans_named(row, (k - 1) as nat);
        let c = k - 1;
        if prev[c].set == 0 {
            prev.update(c, prev[c].with_set(fresh_id(prev)))
        } else {
            prev
        }
    }
}

/// The row with every cell of set `from` moved to set `into`.
pub open spec fn relabelled(row: Seq<Container>, from: usize, into: usize) -> Seq<Container> {
    Seq::new(
        row.len(),
        |c: int|
            if row[c].set == from {
                row[c].with_set(into)
            } else {
                row[c]
            },
    )
}

/// The row after the first `k` pairs of neighbours were settled, left to right.
///
/// A pair already in one set gets a wall, so that no loop is closed inside a
/// set. A pair in different sets gets a wall if the decision of the left cell
/// asks for one; otherwise the pair stays open and the set of the right cell is
/// merged into the set of the left cell.
pub open spec fn right_carved(row: Seq<Container>, plan: Seq<Decision>, k: nat) -> Seq<Container>
    decreases k,
{
    if k == 0 {
        row
    } else {
        let prev = right_carved(row, plan, (k - 1) as nat);
        let c = k - 1;
        if prev[c].set == prev[c + 1].set || plan[c].wall_right {
            prev.update(c, prev[c].with_right(true))
        } else {
            relabelled(prev, prev[c + 1].set, prev[c].set).update(c, prev[c].with_right(false))
        }
    }
}

/// While the bottom walls are decided left to right and column `c` is next:
/// the set of `c` has another member that can still lead down, either one to
/// the right of `c`, not decided yet, or one that was left open.
pub open spec fn has_other_way_down(row: Seq<Container>, c: int) -> bool {
    exists|j: int|
        0 <= j < row.len() && j != c && (#[trigger] row[j]).set == row[c].set && (j > c
            || !row[j].bottom_wall)
}

/// The row after the bottom walls of the first `k` cells were decided.
///
/// A cell is closed downwards if its decision asks for that and its set keeps
/// another way down.
pub open spec fn bottom_carved(row: Seq<Container>, plan: Seq<Decision>, k: nat) -> Seq<
    Container,
>
    decreases k,
{
    if k == 0 {
        row
    } else {
        let prev = bottom_carved(row, plan, (k - 1) as nat);
        let c = k - 1;
        prev.update(c, prev[c].with_bottom(plan[c].wall_below && has_other_way_down(prev, c)))
    }
}

/// The row with its outer walls raised: left wall on the first cell, right wall
/// on the last cell, and top walls all along if it is the first row.
pub open spec fn sides_sealed(row: Seq<Container>, first: bool) -> Seq<Container> {
    Seq::new(
        row.len(),
        |c: int|
            Container {
                top_wall: first || row[c].top_wall,
                left_wall: c == 0 || row[c].left_wall,
                right_wall: c == row.len() - 1 || row[c].right_wall,
                ..row[c]
            },
    )
}

/// The row that is carved from a scratch row.
pub open spec fn row_finished(scratch: Seq<Container>, plan: Seq<Decision>, first: bool) -> Seq<
    Container,
> {
    let named = orphans_named(scratch, scratch.len());
    let across = right_carved(named, plan, (scratch.len() - 1) as nat);
    let down = bottom_carved(across, plan, scratch.len());
    sides_sealed(down, first)
}

/// The scratch row for the row below a finished row: a cell under a bottom wall
/// starts without a set, every other cell inherits the set above it; right
/// walls are cleared but for the outer one, and so are bottom walls.
pub open spec fn scratch_below(row: Seq<Container>) -> Seq<Container> {
    Seq::new(
        row.len(),
        |c: int|
            Container {
                set: if row[c].bottom_wall {
                    0
                } else {
                    row[c].set
                },
                right_wall: c == row.len() - 1,
                bottom_wall: false,
                ..row[c]
            },
    )
}

/// The last row after its first `k` pairs of neighbours were looked at: every
/// pair still in different sets is opened and merged.
pub open spec fn all_merged(row: Seq<Container>, k: nat) -> Seq<Container>
    decreases k,
{
    if k == 0 {
        row
    } else {
        let prev = all_merged(row, (k - 1) as nat);
        let c = k - 1;
        if prev[c].set == prev[c + 1].set {
            prev
        } else {
            relabelled(prev, prev[c + 1].set, prev[c].set).update(c, prev[c].with_right(false))
        }
    }
}

/// The row with every bottom wall raised.
pub open spec fn bottom_closed(row: Seq<Container>) -> Seq<Container> {
    Seq::new(row.len(), |c: int| row[c].with_bottom(true))
}

/// The last row of a maze, made from a finished row: all its cells are merged
/// into one set and it is closed downwards.
pub open spec fn last_row_sealed(row: Seq<Container>) -> Seq<Container> {
    bottom_closed(all_merged(row, (row.len() - 1) as nat))
}

/// The row with the spawn permissions that the decisions give.
pub open spec fn spawns_tagged(row: Seq<Container>, plan: Seq<Decision>) -> Seq<Container> {
    Seq::new(row.len(), |c: int| row[c].with_spawn(plan[c].spawn))
}

/// A scratch row for the first row of a maze: `width` blank cells.
pub open spec fn blank_row(width: nat) -> Seq<Container> {
    Seq::new(width, |c: int| Container::blank())
}

/// There is only one fresh id.
pub proof fn lemma_fresh_id_unique(row: Seq<Container>, id: usize)
    requires
        is_fresh_id(row, id),
    ensures
        fresh_id(row) == id,
{
    let chosen = fresh_id(row);
    assert(is_fresh_id(row, chosen));
    if chosen < id {
        assert(in_use(row, chosen));
    } else if id < chosen {
        assert(in_use(row, id));
    }
}

/// Ids that are all in use cannot outnumber the cells: if every id from 0 to
/// `top` is carried by some cell, the row has more than `top` cells.
pub proof fn lemma_ids_fit(row: Seq<Container>, top: usize)
    requires
        forall|h: usize| h <= top ==> #[trigger] in_use(row, h),
    ensures
        top < row.len(),
    decreases top,
{
    assert(in_use(row, top));
    let c = choose|c: int| 0 <= c < row.len() && (#[trigger] row[c]).set == top;
    if top > 0 {
        let rest = row.remove(c);
        let below = (top - 1) as usize;
        assert forall|h: usize| h <= below implies #[trigger] in_use(rest, h) by {
            assert(in_use(row, h));
            let j = choose|j: int| 0 <= j < row.len() && (#[trigger] row[j]).set == h;
            if j < c {
                assert(rest[j].set == h);
            } else {
                assert(rest[j - 1].set == h);
            }
        }
        lemma_ids_fit(rest, below);
    }
}

/// Searching upwards from `from` finds a fresh id before the ids run out.
proof fn lemma_find_fresh(row: Seq<Container>, from: usize)
    requires
        in_use(row, 0),
        row.len() <= usize::MAX,
        from >= 1,
        forall|h: usize| 1 <= h < from ==> #[trigger] in_use(row, h),
    ensures
        exists|id: usize| is_fresh_id(row, id),
    decreases row.len() - from,
{
    if in_use(row, from) {
        lemma_ids_fit(row, from);
        lemma_find_fresh(row, (from + 1) as usize);
    } else {
        assert(is_fresh_id(row, from));
    }
}

/// A row that holds a cell without a set has a fresh id.
pub proof fn lemma_fresh_id_exists(row: Seq<Container>)
    requires
        in_use(row, 0),
        row.len() <= usize::MAX,
    ensures
        is_fresh_id(row, fresh_id(row)),
{
    lemma_find_fresh(row, 1);
}

/// What naming the orphans among the first `k` cells does: it changes nothing
/// but the sets of those orphans, leaves none of them without a set, and gives
/// each of them a set of its own.
pub proof fn lemma_orphans_named(row: Seq<Container>, k: nat)
    requires
        k <= row.len(),
        row.len() <= usize::MAX,
    ensures
        ({
            let named = orphans_named(row, k);
            &&& named.len() == row.len()
            &&& forall|c: int|
                0 <= c < row.len() ==> #[trigger] named[c] == row[c].with_set(named[c].set)
            &&& forall|c: int|
                0 <= c < row.len() && (row[c].set != 0 || c >= k) ==> (#[trigger] named[c]).set
                    == row[c].set
            &&& forall|c: int| 0 <= c < k ==> (#[trigger] named[c]).set != 0
            &&& forall|c: int, j: int|
                0 <= c < k && row[c].set == 0 && 0 <= j < row.len() && j != c ==> (
                #[trigger] named[c]).set != (#[trigger] named[j]).set
        }),
    decreases k,
{
    if k > 0 {
        lemma_orphans_named(row, (k - 1) as nat);
        let prev = orphans_named(row, (k - 1) as nat);
        let named = orphans_named(row, k);
        let last = k - 1;
        if prev[last].set == 0 {
            assert(in_use(prev, 0));
            lemma_fresh_id_exists(prev);
            let id = fresh_id(prev);
            assert(!in_use(prev, id));
            assert forall|c: int, j: int|
                0 <= c < k && row[c].set == 0 && 0 <= j < row.len() && j != c implies (
            #[trigger] named[c]).set != (#[trigger] named[j]).set by {
                if c == last {
                    assert(prev[j].set != id);
                } else if j == last {
                    assert(prev[c].set != id);
                } else {
                    assert(prev[c].set != prev[j].set);
                }
            }
        } else {
            assert forall|c: int, j: int|
                0 <= c < k && row[c].set == 0 && 0 <= j < row.len() && j != c implies (
            #[trigger] named[c]).set != (#[trigger] named[j]).set by {
                assert(prev[c].set != prev[j].set);
            }
        }
    }
}

/// Settling pairs changes nothing but sets and right walls.
pub proof fn lemma_right_carved(row: Seq<Container>, plan: Seq<Decision>, k: nat)
    requires
        k < row.len(),
    ensures
        ({
            let across = right_carved(row, plan, k);
            &&& across.len() == row.len()
            &&& forall|c: int|
                0 <= c < row.len() ==> #[trigger] across[c] == row[c].with_set(
                    across[c].set,
                ).with_right(across[c].right_wall)
        }),
    decreases k,
{
    if k > 0 {
        lemma_right_carved(row, plan, (k - 1) as nat);
    }
}

/// What merging the first `k` pairs of a row does: it changes nothing but sets
/// and right walls, raises no wall, leaves the right walls from column `k` on
/// alone, leaves no cell without a set, and puts the first `k + 1` cells in
/// one set.
pub proof fn lemma_all_merged(row: Seq<Container>, k: nat)
    requires
        k < row.len(),
        no_orphans(row),
    ensures
        ({
            let merged = all_merged(row, k);
            &&& merged.len() == row.len()
            &&& no_orphans(merged)
            &&& forall|c: int|
                0 <= c < row.len() ==> #[trigger] merged[c] == row[c].with_set(
                    merged[c].set,
                ).with_right(merged[c].right_wall)
            &&& forall|c: int|
                0 <= c < row.len() && (c >= k || (#[trigger] row[c]).right_wall)
                    ==> merged[c].right_wall == row[c].right_wall || !merged[c].right_wall
            &&& forall|c: int|
                k <= c < row.len() ==> (#[trigger] merged[c]).right_wall == row[c].right_wall
            &&& forall|c: int| 0 <= c <= k ==> (#[trigger] merged[c]).set == merged[0].set
        }),
    decreases k,
{
    if k > 0 {
        lemma_all_merged(row, (k - 1) as nat);
    }
}

/// Naming orphans, settling pairs and deciding bottom walls keep the row's length.
pub proof fn lemma_steps_keep_length(row: Seq<Container>, plan: Seq<Decision>, k: nat)
    requires
        k <= row.len(),
    ensures
        orphans_named(row, k).len() == row.len(),
        bottom_carved(row, plan, k).len() == row.len(),
        k < row.len() ==> right_carved(row, plan, k).len() == row.len(),
        k < row.len() ==> all_merged(row, k).len() == row.len(),
    decreases k,
{
    if k > 0 {
        lemma_steps_keep_length(row, plan, (k - 1) as nat);
    }
}

/// Gives every cell without a set a fresh one, left to right, and enters the
/// new sets in the index.
pub(crate) fn name_orphans(row: &mut Vec<Container>, index: &mut RowSetIndex)
    requires
        old(index).tracks(old(row)@, 0),
    ensures
        final(row)@ == orphans_named(old(row)@, old(row)@.len()),
        final(index).tracks(final(row)@, 0),
        no_orphans(final(row)@),
{
    let ghost start = row@;
    let mut c: usize = 0;
    while c < row.len()
        invariant
            c <= row.len(),
            row.len() == start.len(),
            row@ == orphans_named(start, c as nat),
            index.tracks(row@, 0),
        decreases row.len() - c,
    {
        if row[c].set == 0 {
            let ghost before = row@;
            let id = index.smallest_free_id(Ghost(before));
            row[c].set = id;
            index.add_singleton(id, c, Ghost(before));
        }
        c += 1;
    }
    proof {
        lemma_orphans_named(start, start.len());
    }
}

/// Settles every pair of neighbours, left to right: wall or merge.
pub(crate) fn carve_right(row: &mut Vec<Container>, plan: &Vec<Decision>, index: &mut RowSetIndex)
    requires
        old(row).len() >= 1,
        plan.len() == old(row).len(),
        no_orphans(old(row)@),
        old(index).tracks(old(row)@, 0),
    ensures
        final(row)@ == right_carved(old(row)@, plan@, (old(row)@.len() - 1) as nat),
        final(index).tracks(final(row)@, 0),
        no_orphans(final(row)@),
{
    let ghost start = row@;
    let mut c: usize = 0;
    while c < row.len() - 1
        invariant
            row.len() >= 1,
            c <= row.len() - 1,
            row.len() == start.len(),
            plan.len() == row.len(),
            row@ == right_carved(start, plan@, c as nat),
            index.tracks(row@, 0),
            no_orphans(row@),
        decreases row.len() - c,
    {
        let left = row[c].set;
        let right = row[c + 1].set;
        if left == right || plan[c].wall_right {
            let ghost before = row@;
            row[c].right_wall = true;
            proof {
                index.lemma_tracks_alike(before, row@, 0);
            }
        } else {
            proof {
                index.lemma_ids_indexed(row@, left);
                index.lemma_ids_indexed(row@, right);
            }
            index.merge(row, right, left);
            let ghost before = row@;
            row[c].right_wall = false;
            proof {
                index.lemma_tracks_alike(before, row@, 0);
            }
        }
        c += 1;
    }
}

/// Decides the bottom wall of every cell, left to right. The index is used
/// up: it counts, per set, the cells that can still lead down.
pub(crate) fn carve_bottom(row: &mut Vec<Container>, plan: &Vec<Decision>, open: RowSetIndex)
    requires
        plan.len() == old(row).len(),
        no_orphans(old(row)@),
        open.tracks(old(row)@, 0),
    ensures
        final(row)@ == bottom_carved(old(row)@, plan@, old(row)@.len()),
        final(row)@.len() == old(row)@.len(),
        forall|c: int| 0 <= c < old(row)@.len() ==> (#[trigger] final(row)@[c]).set == old(row)@[c].set,
{
    let ghost start = row@;
    let mut open = open;
    let mut c: usize = 0;
    while c < row.len()
        invariant
            c <= row.len(),
            row.len() == start.len(),
            plan.len() == row.len(),
            row@ == bottom_carved(start, plan@, c as nat),
            open.tracks(row@, c as int),
            forall|j: int| 0 <= j < start.len() ==> (#[trigger] row@[j]).set == start[j].set,
            no_orphans(start),
        decreases row.len() - c,
    {
        let ghost before = row@;
        let set = row[c].set;
        let wall = plan[c].wall_below && !open.is_last_way_down(c, set, Ghost(before));
        row[c].bottom_wall = wall;
        if wall {
            open.close(c, set, Ghost(before));
        } else {
            proof {
                open.lemma_left_open(before, c as int);
            }
        }
        c += 1;
    }
}

/// Raises the outer walls of the row.
pub(crate) fn seal_sides(row: &mut Vec<Container>, first: bool)
    ensures
        final(row)@ == sides_sealed(old(row)@, first),
{
    let ghost start = row@;
    let width = row.len();
    let mut c: usize = 0;
    while c < width
        invariant
            c <= width,
            width == row.len(),
            row.len() == start.len(),
            forall|j: int| 0 <= j < c ==> #[trigger] row@[j] == sides_sealed(start, first)[j],
            forall|j: int| c <= j < row.len() ==> #[trigger] row@[j] == start[j],
        decreases width - c,
    {
        if first {
            row[c].top_wall = true;
        }
        if c == 0 {
            row[c].left_wall = true;
        }
        if c == width - 1 {
            row[c].right_wall = true;
        }
        c += 1;
    }
    assert(row@ =~= sides_sealed(start, first));
}

/// Carves a row out of its scratch row, and returns the index of its sets.
pub(crate) fn finish_row(row: &mut Vec<Container>, plan: &Vec<Decision>, first: bool) -> (index:
    RowSetIndex)
    requires
        old(row).len() >= 1,
        plan.len() == old(row).len(),
    ensures
        final(row)@ == row_finished(old(row)@, plan@, first),
        final(row).len() == old(row).len(),
        index.tracks(final(row)@, 0),
        no_orphans(final(row)@),
{
    proof {
        let named = orphans_named(row@, row@.len());
        lemma_steps_keep_length(row@, plan@, row@.len());
        lemma_steps_keep_length(named, plan@, (row@.len() - 1) as nat);
    }
    let mut index = RowSetIndex::build(row);
    name_orphans(row, &mut index);
    carve_right(row, plan, &mut index);
    let ghost across = row@;
    let open = index.snapshot();
    carve_bottom(row, plan, open);
    seal_sides(row, first);
    proof {
        index.lemma_tracks_alike(across, row@, 0);
    }
    index
}

/// Turns a finished row into the scratch row for the row below it.
pub(crate) fn drop_to_next(row: &mut Vec<Container>)
    ensures
        final(row)@ == scratch_below(old(row)@),
{
    let ghost start = row@;
    let width = row.len();
    let mut c: usize = 0;
    while c < width
        invariant
            c <= width,
            width == row.len(),
            row.len() == start.len(),
            forall|j: int| 0 <= j < c ==> #[trigger] row@[j] == scratch_below(start)[j],
            forall|j: int| c <= j < row.len() ==> #[trigger] row@[j] == start[j],
        decreases width - c,
    {
        if row[c].bottom_wall {
            row[c].set = 0;
            row[c].bottom_wall = false;
        }
        row[c].right_wall = c == width - 1;
        c += 1;
    }
    assert(row@ =~= scratch_below(start));
}

/// A copy of the row.
fn copy_row(row: &Vec<Container>) -> (copy: Vec<Container>)
    ensures
        copy@ == row@,
{
    let mut copy: Vec<Container> = Vec::new();
    let mut c: usize = 0;
    while c < row.len()
        invariant
            c <= row.len(),
            copy.len() == c,
            forall|j: int| 0 <= j < c ==> #[trigger] copy@[j] == row@[j],
        decreases row.len() - c,
    {
        copy.push(row[c]);
        c += 1;
    }
    assert(copy@ =~= row@);
    copy
}

/// Carves one row from its scratch row, and hands down the scratch row for
/// the row below: the finished row first, the new scratch row second.
///
/// There is no row to carve if the scratch row is empty or the plan has not
/// one decision per cell.
pub fn advance_row(scratch: &Vec<Container>, plan: &Vec<Decision>, first: bool) -> (made: Option<
    (Vec<Container>, Vec<Container>),
>)
    ensures
        made is Some <==> scratch@.len() >= 1 && plan@.len() == scratch@.len(),
        made matches Some((done, below)) ==> done@ == row_finished(scratch@, plan@, first)
            && below@ == scratch_below(done@),
{
    if scratch.len() == 0 || plan.len() != scratch.len() {
        return None;
    }
    let mut done = copy_row(scratch);
    let _ = finish_row(&mut done, plan, first);
    let mut below = copy_row(&done);
    drop_to_next(&mut below);
    Some((done, below))
}

/// Turns a finished row into the last row of the maze.
pub(crate) fn seal_last(row: &mut Vec<Container>, index: RowSetIndex)
    requires
        old(row).len() >= 1,
        no_orphans(old(row)@),
        index.tracks(old(row)@, 0),
    ensures
        final(row)@ == last_row_sealed(old(row)@),
{
    let ghost start = row@;
    let mut index = index;
    let width = row.len();
    let mut c: usize = 0;
    while c < width - 1
        invariant
            width >= 1,
            c <= width - 1,
            width == row.len(),
            row.len() == start.len(),
            row@ == all_merged(start, c as nat),
            index.tracks(row@, 0),
            no_orphans(row@),
        decreases width - c,
    {
        let left = row[c].set;
        let right = row[c + 1].set;
        if left != right {
            proof {
                index.lemma_ids_indexed(row@, left);
                index.lemma_ids_indexed(row@, right);
            }
            index.merge(row, right, left);
            let ghost before = row@;
            row[c].right_wall = false;
            proof {
                index.lemma_tracks_alike(before, row@, 0);
            }
        }
        c += 1;
    }
    let ghost merged = row@;
    let mut c: usize = 0;
    while c < width
        invariant
            c <= width,
            width == row.len(),
            row.len() == merged.len(),
            forall|j: int| 0 <= j < c ==> #[trigger] row@[j] == bottom_closed(merged)[j],
            forall|j: int| c <= j < row.len() ==> #[trigger] row@[j] == merged[j],
        decreases width - c,
    {
        row[c].bottom_wall = true;
        c += 1;
    }
    assert(row@ =~= bottom_closed(merged));
}

/// A copy of the row with the spawn permissions that the decisions give.
pub(crate) fn tag_spawns(row: &Vec<Container>, plan: &Vec<Decision>) -> (tagged: Vec<Container>)
    requires
        plan.len() == row.len(),
    ensures
        tagged@ == spawns_tagged(row@, plan@),
{
    let mut tagged: Vec<Container> = Vec::new();
    let mut c: usize = 0;
    while c < row.len()
        invariant
            c <= row.len(),
            plan.len() == row.len(),
            tagged.len() == c,
            forall|j: int| 0 <= j < c ==> #[trigger] tagged@[j] == spawns_tagged(row@, plan@)[j],
        decreases row.len() - c,
    {
        let mut cell = row[c];
        cell.let_spawn = plan[c].spawn;
        tagged.push(cell);
        c += 1;
    }
    assert(tagged@ =~= spawns_tagged(row@, plan@));
    tagged
}

/// A scratch row of `width` blank cells.
pub(crate) fn new_blank_row(width: usize) -> (row: Vec<Container>)
    ensures
        row@ == blank_row(width as nat),
{
    let mut row: Vec<Container> = Vec::new();
    let mut c: usize = 0;
    while c < width
        invariant
            c <= width,
            row.len() == c,
            forall|j: int| 0 <= j < c ==> #[trigger] row@[j] == Container::blank(),
        decreases width - c,
    {
        row.push(
            Container {
                left_wall: false,
                right_wall: false,
                bottom_wall: false,
                top_wall: false,
                set: 0,
                let_spawn: false,
            },
        );
        c += 1;
    }
    assert(row@ =~= blank_row(width as nat));
    row
}

} // verus!
