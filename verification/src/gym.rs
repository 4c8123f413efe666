//! The gyms: where they stand in town, how large their maze cells are on
//! screen, and which areas of the screen their walls and trainers take.
//!
//! Nothing here draws. The areas are handed to whoever draws them and tests
//! the player against them.

use crate::area::{held, Area};
use crate::cell::Container;
use crate::maze::Maze;
use vstd::prelude::*;

verus! {

/// Side of the square that the player takes on screen.
pub const PLAYER_SIZE: i32 = 32;

/// Side of the square that a trainer takes on screen.
pub const NPC_SIZE: u32 = 32;

/// Width of the camera.
pub const CAM_W: u32 = 1280;

/// Height of the camera.
pub const CAM_H: u32 = 960;

/// Width of the background.
pub const BG_W: u32 = 1380;

/// Height of the background.
pub const BG_H: u32 = 1980;

/// Thickness of a wall on screen.
pub const WALL: u32 = 5;

/// The area of a gym that lets the player out.
pub open spec fn way_out() -> Area {
    Area { x: 1240, y: 0, width: 100, height: 50 }
}

/// The area of a gym that lets the player out.
pub fn exit_area() -> (area: Area)
    ensures
        area == way_out(),
{
    Area { x: 1240, y: 0, width: 100, height: 50 }
}

/// Where the player stands in town after leaving a gym.
pub open spec fn gym_door(gym_index: usize) -> (i32, i32) {
    if gym_index == 0 {
        (410, 260)
    } else if gym_index == 1 {
        (1190, 600)
    } else if gym_index == 2 {
        (880, 400)
    } else {
        (380, 600)
    }
}

/// Where the player stands in town after leaving the gym.
pub fn gym_coordinates(gym_index: usize) -> (at: (i32, i32))
    ensures
        at == gym_door(gym_index),
{
    match gym_index {
        0 => (410, 260),
        1 => (1190, 600),
        2 => (880, 400),
        _ => (380, 600),
    }
}

/// Width and height of a maze cell of the gym on screen.
pub open spec fn cell_size(gym_no: usize) -> (u32, u32) {
    if gym_no == 0 {
        (140, 70)
    } else if gym_no == 1 {
        (212, 79)
    } else if gym_no == 2 {
        (79, 70)
    } else {
        (85, 70)
    }
}

/// Width and height of a maze cell of the gym on screen.
pub fn gym_cell_size(gym_no: usize) -> (size: (u32, u32))
    ensures
        size == cell_size(gym_no),
{
    if gym_no == 0 {
        (140, 70)
    } else if gym_no == 1 {
        (212, 79)
    } else if gym_no == 2 {
        (79, 70)
    } else {
        (85, 70)
    }
}

/// The colours of a gym, each as red, green and blue: the floor first, the
/// walls second.
pub open spec fn colors(gym_no: usize) -> ((u8, u8, u8), (u8, u8, u8)) {
    if gym_no == 0 {
        ((0x57, 0x89, 0xA2), (0x60, 0x29, 0x8A))
    } else if gym_no == 1 {
        ((0x52, 0x83, 0x4A), (0xA8, 0x2D, 0x16))
    } else if gym_no == 2 {
        ((0x29, 0x39, 0x6A), (0xEE, 0xB0, 0x45))
    } else {
        ((0x5A, 0x4A, 0x41), (0xBD, 0x41, 0x41))
    }
}

/// The colours of a gym, each as red, green and blue: the floor first, the
/// walls second.
pub fn gym_colors(gym_no: usize) -> (pair: ((u8, u8, u8), (u8, u8, u8)))
    ensures
        pair == colors(gym_no),
{
    if gym_no == 0 {
        ((0x57, 0x89, 0xA2), (0x60, 0x29, 0x8A))
    } else if gym_no == 1 {
        ((0x52, 0x83, 0x4A), (0xA8, 0x2D, 0x16))
    } else if gym_no == 2 {
        ((0x29, 0x39, 0x6A), (0xEE, 0xB0, 0x45))
    } else {
        ((0x5A, 0x4A, 0x41), (0xBD, 0x41, 0x41))
    }
}

/// The part of the background that the camera shows while the player is at
/// the given position: centred on the player as far as the background goes.
pub open spec fn camera(player_x: i32, player_y: i32) -> Area {
    Area {
        x: held(player_x + PLAYER_SIZE / 2 - CAM_W / 2, 0, BG_W - CAM_W) as i32,
        y: held(player_y + PLAYER_SIZE / 2 - CAM_H / 2 + 450, 0, BG_H - CAM_H) as i32,
        width: CAM_W,
        height: CAM_H,
    }
}

/// The part of the background that the camera shows while the player is at
/// the given position.
pub fn determine_cur_bg(player_x: i32, player_y: i32) -> (shown: Area)
    ensures
        shown == camera(player_x, player_y),
        0 <= shown.x <= 100,
        0 <= shown.y <= 1020,
{
    let x: i64 = player_x as i64 + 16 - 640;
    let y: i64 = player_y as i64 + 16 - 480 + 450;
    let x: i64 = if x < 0 {
        0
    } else if x > 100 {
        100
    } else {
        x
    };
    let y: i64 = if y < 0 {
        0
    } else if y > 1020 {
        1020
    } else {
        y
    };
    Area { x: x as i32, y: y as i32, width: CAM_W, height: CAM_H }
}

/// The areas that the walls of one cell take on screen, in the order top,
/// left, right, bottom. Top walls show on the first row only. `size` is the
/// size of a cell and `shown` the part of the background on screen.
pub open spec fn cell_wall_areas(
    cell: Container,
    r: int,
    c: int,
    size: (u32, u32),
    shown: Area,
) -> Seq<Area> {
    let left = (c * size.0 - shown.x) as i32;
    let right = ((c + 1) * size.0 - shown.x) as i32;
    let top = (r * size.1 - shown.y) as i32;
    let bottom = ((r + 1) * size.1 - shown.y) as i32;
    let across = (size.1 + WALL) as u32;
    (if r == 0 && cell.top_wall {
        seq![Area { x: left, y: top, width: size.0, height: WALL }]
    } else {
        seq![]
    }) + (if cell.left_wall {
        seq![Area { x: left, y: top, width: WALL, height: across }]
    } else {
        seq![]
    }) + (if cell.right_wall {
        seq![Area { x: right, y: top, width: WALL, height: across }]
    } else {
        seq![]
    }) + (if cell.bottom_wall {
        seq![Area { x: left, y: bottom, width: size.0, height: WALL }]
    } else {
        seq![]
    })
}

/// The wall areas of the first `n` cells of a row, left to right.
pub open spec fn row_wall_areas(
    row: Seq<Container>,
    r: int,
    n: nat,
    size: (u32, u32),
    shown: Area,
) -> Seq<Area>
    decreases n,
{
    if n == 0 {
        seq![]
    } else {
        row_wall_areas(row, r, (n - 1) as nat, size, shown) + cell_wall_areas(
            row[n - 1],
            r,
            n - 1,
            size,
            shown,
        )
    }
}

/// The wall areas of the first `n` rows of a grid, top to bottom.
pub open spec fn grid_wall_areas(
    grid: Seq<Seq<Container>>,
    n: nat,
    size: (u32, u32),
    shown: Area,
) -> Seq<Area>
    decreases n,
{
    if n == 0 {
        seq![]
    } else {
        grid_wall_areas(grid, (n - 1) as nat, size, shown) + row_wall_areas(
            grid[n - 1],
            n - 1,
            grid[n - 1].len(),
            size,
            shown,
        )
    }
}

/// The areas of the gym that the player cannot enter: the walls of its maze,
/// then the start sign, then the two bars of the entrance.
pub open spec fn gym_wall_areas(
    grid: Seq<Seq<Container>>,
    gym_no: usize,
    player_x: i32,
    player_y: i32,
) -> Seq<Area> {
    let size = cell_size(gym_no);
    grid_wall_areas(grid, grid.len(), size, camera(player_x, player_y)) + seq![
        Area { x: 1270, y: 0, width: 140, height: 80 },
        Area { x: 1150, y: 0, width: size.0, height: WALL },
        Area { x: 1150, y: size.1 as i32, width: size.0, height: WALL },
    ]
}

/// The maze is small enough for the positions of all its cells on screen
/// to be 32-bit numbers.
pub open spec fn fits_screen(maze: &Maze, gym_no: usize) -> bool {
    &&& maze.wf()
    &&& (maze.maze_width + 1) * cell_size(gym_no).0 <= i32::MAX
    &&& (maze.maze_height + 1) * cell_size(gym_no).1 <= i32::MAX
}

/// The areas of the gym that the player cannot enter while standing at the
/// given position, in the order in which they are drawn.
pub fn wall_areas(maze: &Maze, gym_no: usize, player_x: i32, player_y: i32) -> (areas: Vec<Area>)
    requires
        fits_screen(maze, gym_no),
    ensures
        areas@ == gym_wall_areas(maze@, gym_no, player_x, player_y),
{
    let size = gym_cell_size(gym_no);
    let x_step: i64 = size.0 as i64;
    let y_step: i64 = size.1 as i64;
    let shown = determine_cur_bg(player_x, player_y);
    let ghost grid = maze@;
    let mut areas: Vec<Area> = Vec::new();
    let mut top: i64 = 0;
    let mut r: usize = 0;
    while r < maze.maze_height
        invariant
            r <= maze.maze_height,
            fits_screen(maze, gym_no),
            size == cell_size(gym_no),
            x_step == size.0,
            y_step == size.1,
            shown == camera(player_x, player_y),
            0 <= shown.x <= 100,
            0 <= shown.y <= 1020,
            grid == maze@,
            top == r * y_step,
            areas@ == grid_wall_areas(grid, r as nat, size, shown),
        decreases maze.maze_height - r,
    {
        let row = &maze.maze[r];
        assert(row@ == grid[r as int]);
        let ghost above = areas@;
        let mut left: i64 = 0;
        let mut c: usize = 0;
        assert((r + 1) * y_step <= (maze.maze_height + 1) * y_step) by (nonlinear_arith)
            requires
                r < maze.maze_height,
                y_step >= 0,
        ;
        assert((r + 1) * y_step == r * y_step + y_step) by (nonlinear_arith);
        while c < row.len()
            invariant
                c <= row.len(),
                row.len() == maze.maze_width,
                row@ == grid[r as int],
                (maze.maze_width + 1) * x_step <= i32::MAX,
                size == cell_size(gym_no),
                x_step == size.0,
                y_step == size.1,
                0 <= shown.x <= 100,
                0 <= shown.y <= 1020,
                top == r * y_step,
                0 <= top,
                top + y_step == (r + 1) * y_step,
                top + y_step <= i32::MAX,
                left == c * x_step,
                areas@ == above + row_wall_areas(row@, r as int, c as nat, size, shown),
            decreases row.len() - c,
        {
            assert((c + 1) * x_step <= (maze.maze_width + 1) * x_step) by (nonlinear_arith)
                requires
                    c < maze.maze_width,
                    x_step >= 0,
            ;
            assert((c + 1) * x_step == c * x_step + x_step) by (nonlinear_arith);
            assert(0 <= c * x_step) by (nonlinear_arith)
                requires
                    x_step >= 0,
            ;
            let ghost before = areas@;
            let cell = row[c];
            let x: i32 = (left - shown.x as i64) as i32;
            let x_right: i32 = (left + x_step - shown.x as i64) as i32;
            let y: i32 = (top - shown.y as i64) as i32;
            let y_bottom: i32 = (top + y_step - shown.y as i64) as i32;
            if r == 0 && cell.top_wall {
                areas.push(Area { x, y, width: size.0, height: WALL });
            }
            if cell.left_wall {
                areas.push(Area { x, y, width: WALL, height: size.1 + WALL });
            }
            if cell.right_wall {
                areas.push(Area { x: x_right, y, width: WALL, height: size.1 + WALL });
            }
            if cell.bottom_wall {
                areas.push(Area { x, y: y_bottom, width: size.0, height: WALL });
            }
            assert(areas@ =~= before + cell_wall_areas(cell, r as int, c as int, size, shown));
            assert(areas@ =~= above + row_wall_areas(row@, r as int, (c + 1) as nat, size, shown));
            left = left + x_step;
            c += 1;
        }
        top = top + y_step;
        r += 1;
    }
    areas.push(Area { x: 1270, y: 0, width: 140, height: 80 });
    areas.push(Area { x: 1150, y: 0, width: size.0, height: WALL });
    areas.push(Area { x: 1150, y: size.1 as i32, width: size.0, height: WALL });
    assert(areas@ =~= gym_wall_areas(maze@, gym_no, player_x, player_y));
    areas
}

/// How far right of a cell's left edge a trainer stands: half of what each
/// column would get of a 1280 wide screen, less 20.
pub open spec fn trainer_inset(width: usize) -> int {
    1280int / (width as int) / 2 - 20
}

/// The area that a trainer in the cell at row `r` and column `c` takes.
pub open spec fn trainer_area(r: int, c: int, size: (u32, u32), width: usize, shown: Area) -> Area {
    Area {
        x: (c * size.0 + 6 + trainer_inset(width) - shown.x) as i32,
        y: (r * size.1 + 6 + 2 - shown.y) as i32,
        width: NPC_SIZE,
        height: NPC_SIZE,
    }
}

/// A trainer stands in every corner cell that allows a spawn.
pub open spec fn holds_trainer(cell: Container) -> bool {
    cell.is_corner() && cell.let_spawn
}

/// The areas of the trainers in the first `n` cells of a row, left to right.
pub open spec fn row_trainer_areas(
    row: Seq<Container>,
    r: int,
    n: nat,
    size: (u32, u32),
    width: usize,
    shown: Area,
) -> Seq<Area>
    decreases n,
{
    if n == 0 {
        seq![]
    } else {
        let before = row_trainer_areas(row, r, (n - 1) as nat, size, width, shown);
        if holds_trainer(row[n - 1]) {
            before.push(trainer_area(r, n - 1, size, width, shown))
        } else {
            before
        }
    }
}

/// The areas of the trainers in the first `n` rows of a grid, top to bottom.
pub open spec fn grid_trainer_areas(
    grid: Seq<Seq<Container>>,
    n: nat,
    size: (u32, u32),
    width: usize,
    shown: Area,
) -> Seq<Area>
    decreases n,
{
    if n == 0 {
        seq![]
    } else {
        grid_trainer_areas(grid, (n - 1) as nat, size, width, shown) + row_trainer_areas(
            grid[n - 1],
            n - 1,
            grid[n - 1].len(),
            size,
            width,
            shown,
        )
    }
}

/// The areas of the trainers of a gym: one in every corner cell that allows a
/// spawn, but for the last row, which is the gym leader's.
pub open spec fn gym_trainer_areas(
    grid: Seq<Seq<Container>>,
    gym_no: usize,
    player_x: i32,
    player_y: i32,
) -> Seq<Area> {
    grid_trainer_areas(
        grid,
        (grid.len() - 1) as nat,
        cell_size(gym_no),
        grid[0].len() as usize,
        camera(player_x, player_y),
    )
}

/// The area of the gym leader, who stands in the first cell of the last row.
pub open spec fn gym_leader_area(
    grid: Seq<Seq<Container>>,
    gym_no: usize,
    player_x: i32,
    player_y: i32,
) -> Area {
    trainer_area(
        grid.len() - 1,
        0,
        cell_size(gym_no),
        grid[0].len() as usize,
        camera(player_x, player_y),
    )
}

/// The maze is small enough for the positions of all its trainers on screen
/// to be 32-bit numbers.
pub open spec fn trainers_fit_screen(maze: &Maze, gym_no: usize) -> bool {
    &&& maze.wf()
    &&& (maze.maze_width - 1) * cell_size(gym_no).0 + 626 <= i32::MAX
    &&& (maze.maze_height - 1) * cell_size(gym_no).1 + 8 <= i32::MAX
}

/// The areas of the trainers of the gym and the area of its leader, while the
/// player stands at the given position.
pub fn npc_areas(maze: &Maze, gym_no: usize, player_x: i32, player_y: i32) -> (areas: (
    Vec<Area>,
    Area,
))
    requires
        trainers_fit_screen(maze, gym_no),
    ensures
        areas.0@ == gym_trainer_areas(maze@, gym_no, player_x, player_y),
        areas.1 == gym_leader_area(maze@, gym_no, player_x, player_y),
{
    let size = gym_cell_size(gym_no);
    let x_step: i64 = size.0 as i64;
    let y_step: i64 = size.1 as i64;
    let width = maze.maze_width;
    let inset: i64 = (1280 / width / 2) as i64 - 20;
    assert(inset == trainer_inset(width));
    assert(-20 <= inset <= 620);
    let shown = determine_cur_bg(player_x, player_y);
    let ghost grid = maze@;
    assert(grid[0].len() == width) by {
        assert(maze.maze@[0]@.len() == width);
    }
    let mut trainers: Vec<Area> = Vec::new();
    let mut top: i64 = 0;
    let mut r: usize = 0;
    while r < maze.maze_height - 1
        invariant
            r <= maze.maze_height - 1,
            trainers_fit_screen(maze, gym_no),
            size == cell_size(gym_no),
            x_step == size.0,
            y_step == size.1,
            width == maze.maze_width,
            inset == trainer_inset(width),
            -20 <= inset <= 620,
            shown == camera(player_x, player_y),
            0 <= shown.x <= 100,
            0 <= shown.y <= 1020,
            grid == maze@,
            top == r * y_step,
            trainers@ == grid_trainer_areas(grid, r as nat, size, width, shown),
        decreases maze.maze_height - r,
    {
        let row = &maze.maze[r];
        assert(row@ == grid[r as int]);
        let ghost above = trainers@;
        assert(r * y_step <= (maze.maze_height - 1) * y_step) by (nonlinear_arith)
            requires
                r < maze.maze_height - 1,
                y_step >= 0,
        ;
        assert(0 <= r * y_step) by (nonlinear_arith)
            requires
                y_step >= 0,
        ;
        assert((r + 1) * y_step == r * y_step + y_step) by (nonlinear_arith);
        let mut left: i64 = 0;
        let mut c: usize = 0;
        while c < row.len()
            invariant
                c <= row.len(),
                row.len() == maze.maze_width,
                row@ == grid[r as int],
                (maze.maze_width - 1) * x_step + 626 <= i32::MAX,
                size == cell_size(gym_no),
                x_step == size.0,
                y_step == size.1,
                width == maze.maze_width,
                inset == trainer_inset(width),
                -20 <= inset <= 620,
                0 <= shown.x <= 100,
                0 <= shown.y <= 1020,
                top == r * y_step,
                0 <= top,
                top + 8 <= i32::MAX,
                left == c * x_step,
                trainers@ == above + row_trainer_areas(
                    row@,
                    r as int,
                    c as nat,
                    size,
                    width,
                    shown,
                ),
            decreases row.len() - c,
        {
            assert(c * x_step <= (maze.maze_width - 1) * x_step) by (nonlinear_arith)
                requires
                    c < maze.maze_width,
                    x_step >= 0,
            ;
            assert((c + 1) * x_step == c * x_step + x_step) by (nonlinear_arith);
            assert(0 <= c * x_step) by (nonlinear_arith)
                requires
                    x_step >= 0,
            ;
            let cell = row[c];
            if cell.determine_corner() && cell.let_spawn {
                let x: i32 = (left + 6 + inset - shown.x as i64) as i32;
                let y: i32 = (top + 6 + 2 - shown.y as i64) as i32;
                trainers.push(Area { x, y, width: NPC_SIZE, height: NPC_SIZE });
            }
            assert(trainers@ =~= above + row_trainer_areas(
                row@,
                r as int,
                (c + 1) as nat,
                size,
                width,
                shown,
            ));
            left = left + x_step;
            c += 1;
        }
        top = top + y_step;
        r += 1;
    }
    let x: i32 = (6 + inset - shown.x as i64) as i32;
    let y: i32 = (top + 6 + 2 - shown.y as i64) as i32;
    let leader = Area { x, y, width: NPC_SIZE, height: NPC_SIZE };
    (trainers, leader)
}

} // verus!
