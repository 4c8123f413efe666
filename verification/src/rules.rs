//! Small rules of the overworld: how the player slows down, when two areas
//! of the screen touch, how strong wild monsters are and how often they show.

use crate::area::{held, Area};
use crate::chance::draw_below;
use vstd::prelude::*;

verus! {

/// Number of outcomes of an encounter draw.
pub const ENCOUNTER_DRAWS: u8 = 100;

/// The acceleration that acts on a velocity: the one asked for, or, where
/// none is asked for, one step against the movement.
pub open spec fn resisted(vel: int, deltav: int) -> int {
    if deltav != 0 {
        deltav
    } else if vel > 0 {
        -1
    } else if vel < 0 {
        1
    } else {
        0
    }
}

/// Slows a moving player down while no acceleration is asked for: the change
/// of velocity is `deltav` if that is not zero, else one step towards rest.
pub fn resist(vel: i32, deltav: i32) -> (change: i32)
    ensures
        change == resisted(vel as int, deltav as int),
{
    if deltav == 0 {
        if vel > 0 {
            -1
        } else if vel < 0 {
            1
        } else {
            deltav
        }
    } else {
        deltav
    }
}

/// The first area is not clear of the second: neither wholly above, below,
/// left nor right of it. Areas that share an edge touch.
pub open spec fn touching(a: Area, b: Area) -> bool {
    !(a.bottom() < b.top() || a.top() > b.bottom() || a.right() < b.left() || a.left() > b.right())
}

/// Whether two areas overlap or share an edge.
pub fn check_collision(a: &Area, b: &Area) -> (hit: bool)
    ensures
        hit == touching(*a, *b),
{
    if a.bottom_side() < b.top_side() || a.top_side() > b.bottom_side() || a.right_side()
        < b.left_side() || a.left_side() > b.right_side() {
        false
    } else {
        true
    }
}

/// The first area lies inside the second and touches none of its edges.
pub open spec fn strictly_within(small: Area, large: Area) -> bool {
    &&& small.left() > large.left()
    &&& small.right() < large.right()
    &&& small.top() > large.top()
    &&& small.bottom() < large.bottom()
}

/// Whether the first area lies strictly inside the second.
pub fn check_within(small: &Area, large: &Area) -> (inside: bool)
    ensures
        inside == strictly_within(*small, *large),
{
    if small.left_side() > large.left_side() && small.right_side() < large.right_side()
        && small.top_side() > large.top_side() && small.top_side() > large.top_side()
        && small.bottom_side() < large.bottom_side() {
        true
    } else {
        false
    }
}

/// The fastest that the player moves along either axis, in steps per frame.
pub const MAX_SPEED: i32 = 5;

/// By how much a pressed key changes the velocity in one frame.
pub const ACCEL_RATE: i32 = 1;

/// The velocity of the next frame: the velocity changed by the acceleration
/// that acts on it, and no faster than the speed limit.
pub open spec fn next_velocity(vel: int, deltav: int) -> int {
    held(vel + resisted(vel, deltav), -(MAX_SPEED as int), MAX_SPEED as int)
}

/// The velocity of the next frame along one axis, from the velocity of this
/// frame and the acceleration asked for.
pub fn step_velocity(vel: i32, deltav: i32) -> (next: i32)
    ensures
        next == next_velocity(vel as int, deltav as int),
{
    let next: i64 = vel as i64 + resist(vel, deltav) as i64;
    if next < -(MAX_SPEED as i64) {
        -MAX_SPEED
    } else if next > MAX_SPEED as i64 {
        MAX_SPEED
    } else {
        next as i32
    }
}

/// The player after the first `n` areas were tried: each area that the player
/// touches, where the areas before it have left the player, sets the player
/// back by the velocity.
pub open spec fn held_back(player: Area, walls: Seq<Area>, x_vel: int, y_vel: int, n: nat) -> Area
    decreases n,
{
    if n == 0 {
        player
    } else {
        let before = held_back(player, walls, x_vel, y_vel, (n - 1) as nat);
        if touching(before, walls[n - 1]) {
            before.shifted(-x_vel, -y_vel)
        } else {
            before
        }
    }
}

/// One of the first `n` areas set the player back.
pub open spec fn was_held_back(player: Area, walls: Seq<Area>, x_vel: int, y_vel: int, n: nat) -> bool
    decreases n,
{
    if n == 0 {
        false
    } else {
        let before = held_back(player, walls, x_vel, y_vel, (n - 1) as nat);
        touching(before, walls[n - 1]) || was_held_back(
            player,
            walls,
            x_vel,
            y_vel,
            (n - 1) as nat,
        )
    }
}

/// Keeps the player out of the walls: tries the walls in order and sets the
/// player back by the velocity for each wall that the player touches. Returns
/// the player's area afterwards and whether any wall was touched.
pub fn hold_back(player: &Area, walls: &Vec<Area>, x_vel: i32, y_vel: i32) -> (held: (Area, bool))
    ensures
        held.0 == held_back(*player, walls@, x_vel as int, y_vel as int, walls@.len()),
        held.1 == was_held_back(*player, walls@, x_vel as int, y_vel as int, walls@.len()),
{
    let mut at = *player;
    let mut touched = false;
    let mut i: usize = 0;
    while i < walls.len()
        invariant
            i <= walls.len(),
            at == held_back(*player, walls@, x_vel as int, y_vel as int, i as nat),
            touched == was_held_back(*player, walls@, x_vel as int, y_vel as int, i as nat),
        decreases walls.len() - i,
    {
        if check_collision(&at, &walls[i]) {
            at = at.shift(-(x_vel as i64), -(y_vel as i64));
            touched = true;
        }
        i += 1;
    }
    (at, touched)
}

/// Whether the player touches any of the areas.
pub fn touches_any(player: &Area, areas: &Vec<Area>) -> (found: bool)
    ensures
        found == exists|i: int| 0 <= i < areas@.len() && touching(*player, #[trigger] areas@[i]),
{
    let mut i: usize = 0;
    while i < areas.len()
        invariant
            i <= areas.len(),
            forall|j: int| 0 <= j < i ==> !touching(*player, #[trigger] areas@[j]),
        decreases areas.len() - i,
    {
        if check_collision(player, &areas[i]) {
            return true;
        }
        i += 1;
    }
    false
}

/// The experience of an opponent: 10, 30 or 50 points, by difficulty, for each
/// badge of the player and once more.
pub open spec fn experience_points(difficulty: usize, badges: usize) -> int {
    if difficulty == 0 {
        10 * (1 + badges)
    } else if difficulty == 1 {
        30 * (1 + badges)
    } else {
        50 * (1 + badges)
    }
}

/// The experience of an opponent at the given difficulty for a player with the
/// given number of badges.
pub fn experience(difficulty: usize, badges: usize) -> (points: usize)
    requires
        experience_points(difficulty, badges) <= usize::MAX,
    ensures
        points == experience_points(difficulty, badges),
{
    match difficulty {
        0 => 10 * (1 + badges),
        1 => 30 * (1 + badges),
        _ => 50 * (1 + badges),
    }
}

/// One of the hundred outcomes of an encounter draw brings a wild monster.
pub open spec fn brings_encounter(draw: u8) -> bool {
    draw == 2
}

/// Whether an encounter draw brings a wild monster.
pub fn encounter_wanted(draw: u8) -> (wanted: bool)
    ensures
        wanted == brings_encounter(draw),
{
    draw == 2
}

/// Decides at random, with probability 1/100, whether a wild monster shows.
pub fn random_spawn() -> (shows: bool) {
    encounter_wanted(draw_below(ENCOUNTER_DRAWS))
}

} // verus!
