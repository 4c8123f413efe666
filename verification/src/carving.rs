//! Which maze a plan of decisions gives.
//!
//! The rows are carved top to bottom. Each row is carved from a scratch row:
//! blank cells for the first row, and for every other row what the row above
//! hands down. The last row is sealed, and every cell gets the spawn
//! permission that its decision holds.

use crate::cell::Container;
use crate::chance::Decision;
use crate::row::{
    blank_row, last_row_sealed, lemma_steps_keep_length, orphans_named, right_carved,
    row_finished, scratch_below, spawns_tagged,
};
use vstd::prelude::*;

verus! {

/// A plan has at least one row and one column, all its rows are equally long,
/// and a row is no longer than a row of cells can be.
pub open spec fn rectangular(plan: Seq<Seq<Decision>>) -> bool {
    &&& plan.len() >= 1
    &&& 1 <= plan[0].len() <= usize::MAX
    &&& forall|r: int| 0 <= r < plan.len() ==> (#[trigger] plan[r]).len() == plan[0].len()
}

/// The scratch row from which row `r` of the maze is carved: blank cells for
/// the first row, and below that what the finished row above hands down.
pub open spec fn scratch_at(plan: Seq<Seq<Decision>>, r: nat) -> Seq<Container>
    decreases r, 0nat,
{
    if r == 0 {
        blank_row(plan[0].len())
    } else {
        scratch_below(finished_at(plan, (r - 1) as nat))
    }
}

/// Row `r` as it is carved from its scratch row, before the last row is sealed
/// and before spawn permissions are given.
pub open spec fn finished_at(plan: Seq<Seq<Decision>>, r: nat) -> Seq<Container>
    decreases r, 1nat,
{
    row_finished(scratch_at(plan, r), plan[r as int], r == 0)
}

/// Row `r` of the maze that the plan gives.
pub open spec fn carved_row(plan: Seq<Seq<Decision>>, r: int) -> Seq<Container> {
    let finished = finished_at(plan, r as nat);
    let walls = if r == plan.len() - 1 {
        last_row_sealed(finished)
    } else {
        finished
    };
    spawns_tagged(walls, plan[r])
}

/// The maze that the plan gives.
pub open spec fn carved(plan: Seq<Seq<Decision>>) -> Seq<Seq<Container>> {
    Seq::new(plan.len(), |r: int| carved_row(plan, r))
}

/// The grid is the maze that some plan gives.
pub open spec fn is_carving(grid: Seq<Seq<Container>>) -> bool {
    exists|plan: Seq<Seq<Decision>>| rectangular(plan) && #[trigger] carved(plan) == grid
}

/// Scratch rows and finished rows are as wide as the plan.
pub proof fn lemma_rows_keep_width(plan: Seq<Seq<Decision>>, r: nat)
    requires
        rectangular(plan),
        r < plan.len(),
    ensures
        scratch_at(plan, r).len() == plan[0].len(),
        finished_at(plan, r).len() == plan[0].len(),
        carved_row(plan, r as int).len() == plan[0].len(),
    decreases r,
{
    if r > 0 {
        lemma_rows_keep_width(plan, (r - 1) as nat);
    }
    let scratch = scratch_at(plan, r);
    let width = scratch.len();
    let named = orphans_named(scratch, width);
    let across = right_carved(named, plan[r as int], (width - 1) as nat);
    lemma_steps_keep_length(scratch, plan[r as int], width);
    lemma_steps_keep_length(named, plan[r as int], (width - 1) as nat);
    lemma_steps_keep_length(across, plan[r as int], width);
    lemma_steps_keep_length(finished_at(plan, r), plan[r as int], (width - 1) as nat);
}

/// The first `n` rows as they are carved from their scratch rows.
pub open spec fn finished_rows(plan: Seq<Seq<Decision>>, n: nat) -> Seq<Seq<Container>> {
    Seq::new(n, |r: int| finished_at(plan, r as nat))
}

} // verus!
