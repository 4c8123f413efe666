//! The maze of a gym: a grid of cells carved row by row.
//!
//! [`Maze::from_decisions`] carves the maze that a plan of decisions gives,
//! and [`Maze::create_random_maze`] draws the plan at random.

use crate::carving::{
    carved, carved_row, finished_at, is_carving, lemma_rows_keep_width, rectangular, scratch_at,
};
use crate::cell::Container;
use crate::chance::{random_plan, Decision};
use crate::passage::connected;
use crate::row::{drop_to_next, finish_row, new_blank_row, seal_last, tag_spawns};
use crate::soundness::{
    all_assigned, enclosed, lemma_carved_assigned, lemma_carved_connected, lemma_carved_enclosed,
    lemma_carved_sides, walls_kept_right_and_below,
};
use vstd::prelude::*;

verus! {

/// Why no maze was made.
#[derive(Debug, Clone, Copy, PartialEq, Eq, Structural)]
pub enum MazeError {
    /// The maze was asked to have no rows or no columns, or the rows of the
    /// plan differ in length.
    InvalidDimensions,
}

impl MazeError {
    /// The error in words.
    pub fn message(&self) -> (text: &'static str)
        ensures
            text@ == "a maze needs at least one row and one column, and rows of equal length"@,
    {
        "a maze needs at least one row and one column, and rows of equal length"
    }
}

/// A finished maze: `maze_height` rows of `maze_width` cells each.
#[derive(Debug, Clone)]
pub struct Maze {
    pub maze: Vec<Vec<Container>>,
    pub maze_width: usize,
    pub maze_height: usize,
}

/// The decisions of a plan, row by row.
pub open spec fn rows_of(plan: &Vec<Vec<Decision>>) -> Seq<Seq<Decision>> {
    Seq::new(plan@.len(), |r: int| plan@[r]@)
}

impl View for Maze {
    type V = Seq<Seq<Container>>;

    /// The cells of the maze, row by row.
    open spec fn view(&self) -> Seq<Seq<Container>> {
        Seq::new(self.maze@.len(), |r: int| self.maze@[r]@)
    }
}

/// Whether the plan has at least one row and one column and rows of one length.
fn is_rectangular(plan: &Vec<Vec<Decision>>) -> (ok: bool)
    ensures
        ok == rectangular(rows_of(plan)),
{
    if plan.len() == 0 {
        return false;
    }
    let width = plan[0].len();
    if width == 0 {
        return false;
    }
    let mut r: usize = 0;
    while r < plan.len()
        invariant
            r <= plan.len(),
            plan.len() >= 1,
            width == plan@[0]@.len(),
            forall|i: int| 0 <= i < r ==> (#[trigger] rows_of(plan)[i]).len() == width,
        decreases plan.len() - r,
    {
        if plan[r].len() != width {
            assert(rows_of(plan)[r as int].len() != rows_of(plan)[0].len());
            return false;
        }
        r += 1;
    }
    true
}

impl Maze {
    /// The maze has the size it declares, and that size is not empty.
    pub open spec fn wf(&self) -> bool {
        &&& self.maze_height >= 1
        &&& self.maze_width >= 1
        &&& self.maze@.len() == self.maze_height
        &&& forall|r: int|
            0 <= r < self.maze@.len() ==> (#[trigger] self.maze@[r])@.len() == self.maze_width
    }

    /// The maze is usable: it has the size it declares, its outer walls stand,
    /// no cell is without a set, its inner walls are kept on right and bottom
    /// flags alone, and every cell can be reached from every other.
    pub open spec fn sound(&self) -> bool {
        &&& self.wf()
        &&& enclosed(self@)
        &&& all_assigned(self@)
        &&& walls_kept_right_and_below(self@)
        &&& connected(self@)
    }

    /// Carves the maze that a plan of decisions gives, one decision per cell.
    ///
    /// The size of the maze is the size of the plan. The same plan always
    /// gives the same maze, and whatever the plan, the maze is sound. Fails if
    /// and only if the plan has no rows, no columns or rows of different
    /// lengths.
    pub fn from_decisions(plan: &Vec<Vec<Decision>>) -> (made: Result<Maze, MazeError>)
        ensures
            made is Ok <==> rectangular(rows_of(plan)),
            made matches Ok(maze) ==> {
                &&& maze@ == carved(rows_of(plan))
                &&& maze.sound()
                &&& maze.maze_height == plan@.len()
                &&& maze.maze_width == plan@[0]@.len()
            },
            made matches Err(error) ==> error == MazeError::InvalidDimensions,
    {
        if !is_rectangular(plan) {
            return Err(MazeError::InvalidDimensions);
        }
        let ghost decisions = rows_of(plan);
        let height = plan.len();
        let width = plan[0].len();
        let mut maze: Vec<Vec<Container>> = Vec::new();
        let mut scratch = new_blank_row(width);
        let mut r: usize = 0;
        while r < height
            invariant
                r <= height,
                height == plan@.len(),
                width == plan@[0]@.len(),
                decisions == rows_of(plan),
                rectangular(decisions),
                maze@.len() == r,
                r < height ==> scratch@ == scratch_at(decisions, r as nat),
                forall|i: int| 0 <= i < r ==> (#[trigger] maze@[i])@ == carved_row(decisions, i),
            decreases height - r,
        {
            proof {
                lemma_rows_keep_width(decisions, r as nat);
            }
            assert(decisions[r as int] == plan@[r as int]@);
            let index = finish_row(&mut scratch, &plan[r], r == 0);
            assert(scratch@ == finished_at(decisions, r as nat));
            if r + 1 < height {
                let row = tag_spawns(&scratch, &plan[r]);
                maze.push(row);
                drop_to_next(&mut scratch);
            } else {
                seal_last(&mut scratch, index);
                let row = tag_spawns(&scratch, &plan[r]);
                maze.push(row);
            }
            r += 1;
        }
        let made = Maze { maze, maze_width: width, maze_height: height };
        proof {
            assert forall|i: int| 0 <= i < made.maze@.len() implies (#[trigger] made.maze@[i])@.len()
                == width by {
                lemma_rows_keep_width(decisions, i as nat);
            }
            assert(made@ =~= carved(decisions));
            lemma_carved_enclosed(decisions);
            lemma_carved_assigned(decisions);
            lemma_carved_sides(decisions);
            lemma_carved_connected(decisions);
        }
        Ok(made)
    }

    /// Carves a maze of the given size from decisions drawn at random.
    ///
    /// Whatever is drawn, the maze is sound. Fails if and only if `height` or
    /// `width` is zero.
    pub fn create_random_maze(height: usize, width: usize) -> (made: Result<Maze, MazeError>)
        ensures
            made is Ok <==> height >= 1 && width >= 1,
            made matches Ok(maze) ==> {
                &&& maze.sound()
                &&& maze.maze_height == height
                &&& maze.maze_width == width
                &&& is_carving(maze@)
            },
            made matches Err(error) ==> error == MazeError::InvalidDimensions,
    {
        if height == 0 || width == 0 {
            return Err(MazeError::InvalidDimensions);
        }
        let plan = random_plan(height, width);
        assert(rectangular(rows_of(&plan)));
        Maze::from_decisions(&plan)
    }
}

/// The height and width of the maze of each gym. Gyms past the third share
/// the size of the fourth.
pub open spec fn gym_maze_size(gym_no: usize) -> (usize, usize) {
    if gym_no == 0 {
        (16, 9)
    } else if gym_no == 1 {
        (9, 6)
    } else if gym_no == 2 {
        (20, 16)
    } else {
        (15, 15)
    }
}

/// The place of a gym's maze among the mazes of all gyms.
pub open spec fn gym_maze_slot(gym_no: usize) -> int {
    if gym_no <= 2 {
        gym_no as int
    } else {
        3
    }
}

/// Replaces the maze of a gym by a newly carved one of that gym's size, sound
/// like every carved maze. The other mazes stay as they are.
pub fn reload_maze(gym_mazes: &mut Vec<Maze>, gym_no: usize)
    requires
        gym_maze_slot(gym_no) < old(gym_mazes)@.len(),
    ensures
        final(gym_mazes)@.len() == old(gym_mazes)@.len(),
        forall|i: int|
            0 <= i < old(gym_mazes)@.len() && i != gym_maze_slot(gym_no) ==> final(gym_mazes)@[i]
                == old(gym_mazes)@[i],
        ({
            let maze = final(gym_mazes)@[gym_maze_slot(gym_no)];
            &&& maze.sound()
            &&& maze.maze_height == gym_maze_size(gym_no).0
            &&& maze.maze_width == gym_maze_size(gym_no).1
            &&& is_carving(maze@)
        }),
{
    let made = match gym_no {
        0 => Maze::create_random_maze(16, 9),
        1 => Maze::create_random_maze(9, 6),
        2 => Maze::create_random_maze(20, 16),
        _ => Maze::create_random_maze(15, 15),
    };
    let slot: usize = if gym_no <= 2 {
        gym_no
    } else {
        3
    };
    match made {
        Ok(maze) => {
            gym_mazes[slot] = maze;
        },
        Err(_) => {},
    }
}

} // verus!
