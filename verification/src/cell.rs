//! One position of a gym maze.

use crate::chance::{asks_for_spawn, draw_below, spawn_wanted, SPAWN_DRAWS};
use vstd::prelude::*;

verus! {

/// A cell of the maze grid: a wall flag for each side, the connectivity set the
/// cell belongs to while its row is being carved, and whether a trainer may
/// spawn in it.
///
/// A `set` of 0 means "not assigned to any set yet".
#[derive(Debug, Clone, Copy, PartialEq, Eq, Structural)]
pub struct Container {
    pub left_wall: bool,
    pub right_wall: bool,
    pub bottom_wall: bool,
    pub top_wall: bool,
    pub set: usize,
    pub let_spawn: bool,
}

impl Container {
    /// Number of sides of the cell that carry a wall.
    pub open spec fn wall_count(self) -> nat {
        (if self.left_wall { 1nat } else { 0nat })
            + (if self.right_wall { 1nat } else { 0nat })
            + (if self.top_wall { 1nat } else { 0nat })
            + (if self.bottom_wall { 1nat } else { 0nat })
    }

    /// A corner is a cell closed on exactly three of its four sides.
    pub open spec fn is_corner(self) -> bool {
        self.wall_count() == 3
    }

    /// A cell with no walls, no set and no spawn permission.
    pub open spec fn blank() -> Container {
        Container {
            left_wall: false,
            right_wall: false,
            bottom_wall: false,
            top_wall: false,
            set: 0,
            let_spawn: false,
        }
    }

    /// The same cell in another connectivity set.
    pub open spec fn with_set(self, set: usize) -> Container {
        Container { set, ..self }
    }

    /// The same cell with its right wall raised or removed.
    pub open spec fn with_right(self, wall: bool) -> Container {
        Container { right_wall: wall, ..self }
    }

    /// The same cell with its bottom wall raised or removed.
    pub open spec fn with_bottom(self, wall: bool) -> Container {
        Container { bottom_wall: wall, ..self }
    }

    /// The same cell with its spawn permission replaced.
    pub open spec fn with_spawn(self, spawn: bool) -> Container {
        Container { let_spawn: spawn, ..self }
    }

    /// Tells whether exactly three of the four wall flags are set.
    pub fn determine_corner(&self) -> (corner: bool)
        ensures
            corner == self.is_corner(),
    {
        let mut walls: u8 = 0;
        if self.left_wall {
            walls = walls + 1;
        }
        if self.right_wall {
            walls = walls + 1;
        }
        if self.top_wall {
            walls = walls + 1;
        }
        if self.bottom_wall {
            walls = walls + 1;
        }
        walls == 3
    }

    /// Gives or denies the spawn permission as a spawn draw says, and returns
    /// the permission.
    pub fn apply_spawn_draw(&mut self, draw: u8) -> (spawn: bool)
        ensures
            spawn == asks_for_spawn(draw),
            *final(self) == old(self).with_spawn(spawn),
    {
        self.let_spawn = spawn_wanted(draw);
        self.let_spawn
    }

    /// Gives the spawn permission with probability 1/7, whatever the walls of
    /// the cell, and returns the permission.
    pub fn assign_spawn(&mut self) -> (spawn: bool)
        ensures
            *final(self) == old(self).with_spawn(spawn),
    {
        let draw = draw_below(SPAWN_DRAWS);
        self.apply_spawn_draw(draw)
    }
}

} // verus!
