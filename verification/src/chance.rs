//! The random decisions that shape a maze.
//!
//! The generator never asks for randomness while it carves. Every choice it
//! may have to make is written down beforehand as a [`Decision`] per cell, so
//! that carving is a function of the decisions alone. The decisions come from
//! uniform draws, either supplied by the caller or taken from the thread's
//! random number generator.

use rand::Rng;
use vstd::prelude::*;

verus! {

/// Number of outcomes of a wall draw.
pub const WALL_DRAWS: u8 = 10;

/// Number of outcomes of a spawn draw.
pub const SPAWN_DRAWS: u8 = 7;

/// What the generator is asked to do at one cell, where it has a choice.
#[derive(Debug, Clone, Copy, PartialEq, Eq, Structural)]
pub struct Decision {
    /// Keep this cell apart from its right neighbour if they are not joined yet.
    pub wall_right: bool,
    /// Close this cell downwards unless its set would lose its last way down.
    pub wall_below: bool,
    /// Allow a trainer to spawn in this cell.
    pub spawn: bool,
}

/// Three of the ten outcomes of a wall draw ask for a wall.
pub open spec fn asks_for_wall(draw: u8) -> bool {
    draw == 3 || draw == 5 || draw == 8
}

/// One of the seven outcomes of a spawn draw allows a spawn.
pub open spec fn asks_for_spawn(draw: u8) -> bool {
    draw == 2
}

/// The decision that three draws stand for.
pub open spec fn decision_of(right: u8, below: u8, spawn: u8) -> Decision {
    Decision {
        wall_right: asks_for_wall(right),
        wall_below: asks_for_wall(below),
        spawn: asks_for_spawn(spawn),
    }
}

/// Whether a wall draw asks for a wall.
pub fn wall_wanted(draw: u8) -> (wanted: bool)
    ensures
        wanted == asks_for_wall(draw),
{
    draw == 3 || draw == 8 || draw == 5
}

/// Whether a spawn draw allows a spawn.
pub fn spawn_wanted(draw: u8) -> (wanted: bool)
    ensures
        wanted == asks_for_spawn(draw),
{
    draw == 2
}

/// Turns a wall draw for the right side, one for the bottom side and a spawn
/// draw into the decision for a cell.
pub fn decide(right: u8, below: u8, spawn: u8) -> (decision: Decision)
    ensures
        decision == decision_of(right, below, spawn),
{
    Decision {
        wall_right: wall_wanted(right),
        wall_below: wall_wanted(below),
        spawn: spawn_wanted(spawn),
    }
}

/// Draws a number below `bound` from the thread's random number generator.
///
/// Calls `rand::thread_rng().gen_range(0..bound)`. `gen_range` panics on an
/// empty range, which `bound > 0` rules out, and samples from the half-open
/// range otherwise; nothing but the range is claimed of the value.
#[verifier::external_body]
pub(crate) fn draw_below(bound: u8) -> (draw: u8)
    requires
        bound > 0,
    ensures
        draw < bound,
{
    rand::thread_rng().gen_range(0..bound)
}

/// A decision drawn at random: walls with probability 3/10 each, the spawn
/// permission with probability 1/7.
pub(crate) fn random_decision() -> (decision: Decision) {
    let right = draw_below(WALL_DRAWS);
    let below = draw_below(WALL_DRAWS);
    let spawn = draw_below(SPAWN_DRAWS);
    decide(right, below, spawn)
}

/// A plan of `height` rows of `width` decisions, each drawn at random.
pub(crate) fn random_plan(height: usize, width: usize) -> (plan: Vec<Vec<Decision>>)
    ensures
        plan@.len() == height,
        forall|r: int| 0 <= r < height ==> (#[trigger] plan@[r])@.len() == width,
{
    let mut plan: Vec<Vec<Decision>> = Vec::new();
    let mut r: usize = 0;
    while r < height
        invariant
            r <= height,
            plan@.len() == r,
            forall|i: int| 0 <= i < r ==> (#[trigger] plan@[i])@.len() == width,
        decreases height - r,
    {
        let mut row: Vec<Decision> = Vec::new();
        let mut c: usize = 0;
        while c < width
            invariant
                c <= width,
                row@.len() == c,
            decreases width - c,
        {
            row.push(random_decision());
            c += 1;
        }
        plan.push(row);
        r += 1;
    }
    plan
}

} // verus!
