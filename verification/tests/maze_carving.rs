use monster_town::cell::Container;
use monster_town::chance::{decide, Decision};
use monster_town::maze::{reload_maze, Maze, MazeError};
use rand::rngs::StdRng;
use rand::{Rng, SeedableRng};
use std::collections::VecDeque;

const NO: Decision = Decision { wall_right: false, wall_below: false, spawn: false };
const RIGHT: Decision = Decision { wall_right: true, wall_below: false, spawn: false };
const BELOW: Decision = Decision { wall_right: false, wall_below: true, spawn: false };
const BOTH: Decision = Decision { wall_right: true, wall_below: true, spawn: false };

fn cell(left: bool, right: bool, top: bool, bottom: bool, set: usize, spawn: bool) -> Container {
    Container {
        left_wall: left,
        right_wall: right,
        bottom_wall: bottom,
        top_wall: top,
        set,
        let_spawn: spawn,
    }
}

fn seeded_plan(seed: u64, height: usize, width: usize) -> Vec<Vec<Decision>> {
    let mut rng = StdRng::seed_from_u64(seed);
    let mut plan = Vec::new();
    for _ in 0..height {
        let mut row = Vec::new();
        for _ in 0..width {
            let right: u8 = rng.gen_range(0..10);
            let below: u8 = rng.gen_range(0..10);
            let spawn: u8 = rng.gen_range(0..7);
            row.push(decide(right, below, spawn));
        }
        plan.push(row);
    }
    plan
}

fn has_declared_size(maze: &Maze, height: usize, width: usize) -> bool {
    maze.maze_height == height
        && maze.maze_width == width
        && maze.maze.len() == height
        && maze.maze.iter().all(|row| row.len() == width)
}

fn outer_walls_stand(maze: &Maze) -> bool {
    let h = maze.maze_height;
    let w = maze.maze_width;
    (0..w).all(|c| maze.maze[0][c].top_wall)
        && (0..w).all(|c| maze.maze[h - 1][c].bottom_wall)
        && (0..h).all(|r| maze.maze[r][0].left_wall)
        && (0..h).all(|r| maze.maze[r][w - 1].right_wall)
}

fn no_cell_without_set(maze: &Maze) -> bool {
    maze.maze.iter().all(|row| row.iter().all(|c| c.set != 0))
}

fn reachable_from_origin(maze: &Maze) -> usize {
    let h = maze.maze_height;
    let w = maze.maze_width;
    let mut seen = vec![vec![false; w]; h];
    let mut queue = VecDeque::new();
    seen[0][0] = true;
    queue.push_back((0usize, 0usize));
    let mut count = 0;
    while let Some((r, c)) = queue.pop_front() {
        count += 1;
        if c + 1 < w && !maze.maze[r][c].right_wall && !seen[r][c + 1] {
            seen[r][c + 1] = true;
            queue.push_back((r, c + 1));
        }
        if c > 0 && !maze.maze[r][c - 1].right_wall && !seen[r][c - 1] {
            seen[r][c - 1] = true;
            queue.push_back((r, c - 1));
        }
        if r + 1 < h && !maze.maze[r][c].bottom_wall && !seen[r + 1][c] {
            seen[r + 1][c] = true;
            queue.push_back((r + 1, c));
        }
        if r > 0 && !maze.maze[r - 1][c].bottom_wall && !seen[r - 1][c] {
            seen[r - 1][c] = true;
            queue.push_back((r - 1, c));
        }
    }
    count
}

fn is_sound(maze: &Maze, height: usize, width: usize) -> bool {
    has_declared_size(maze, height, width)
        && outer_walls_stand(maze)
        && no_cell_without_set(maze)
        && reachable_from_origin(maze) == height * width
}

#[test]
fn zero_height_is_rejected() {
    assert_eq!(Maze::create_random_maze(0, 5).err(), Some(MazeError::InvalidDimensions));
}

#[test]
fn zero_width_is_rejected() {
    assert_eq!(Maze::create_random_maze(5, 0).err(), Some(MazeError::InvalidDimensions));
}

#[test]
fn zero_by_zero_is_rejected() {
    assert_eq!(Maze::create_random_maze(0, 0).err(), Some(MazeError::InvalidDimensions));
}

#[test]
fn empty_plan_is_rejected() {
    let plan: Vec<Vec<Decision>> = Vec::new();
    assert_eq!(Maze::from_decisions(&plan).err(), Some(MazeError::InvalidDimensions));
}

#[test]
fn plan_without_columns_is_rejected() {
    let plan: Vec<Vec<Decision>> = vec![Vec::new(), Vec::new()];
    assert_eq!(Maze::from_decisions(&plan).err(), Some(MazeError::InvalidDimensions));
}

#[test]
fn ragged_plan_is_rejected() {
    let plan = vec![vec![NO, NO], vec![NO]];
    assert_eq!(Maze::from_decisions(&plan).err(), Some(MazeError::InvalidDimensions));
    let plan = vec![vec![NO], vec![NO, NO]];
    assert_eq!(Maze::from_decisions(&plan).err(), Some(MazeError::InvalidDimensions));
}

#[test]
fn error_has_a_message() {
    assert_eq!(
        MazeError::InvalidDimensions.message(),
        "a maze needs at least one row and one column, and rows of equal length"
    );
}

#[test]
fn single_cell_is_walled_on_all_sides() {
    for _ in 0..20 {
        let maze = Maze::create_random_maze(1, 1).unwrap();
        assert!(has_declared_size(&maze, 1, 1));
        let c = maze.maze[0][0];
        assert!(c.left_wall && c.right_wall && c.top_wall && c.bottom_wall);
        assert_ne!(c.set, 0);
    }
}

#[test]
fn single_cell_from_every_decision() {
    for decision in [NO, RIGHT, BELOW, BOTH] {
        let maze = Maze::from_decisions(&vec![vec![decision]]).unwrap();
        assert_eq!(maze.maze, vec![vec![cell(true, true, true, true, 1, false)]]);
        assert_eq!(maze.maze_height, 1);
        assert_eq!(maze.maze_width, 1);
    }
}

#[test]
fn single_cell_takes_spawn_from_decision() {
    let plan = vec![vec![Decision { wall_right: false, wall_below: false, spawn: true }]];
    let maze = Maze::from_decisions(&plan).unwrap();
    assert_eq!(maze.maze, vec![vec![cell(true, true, true, true, 1, true)]]);
}

#[test]
fn single_row_without_walls_is_one_corridor() {
    let maze = Maze::from_decisions(&vec![vec![NO, NO, NO]]).unwrap();
    assert_eq!(
        maze.maze,
        vec![vec![
            cell(true, false, true, true, 1, false),
            cell(false, false, true, true, 1, false),
            cell(false, true, true, true, 1, false),
        ]]
    );
}

#[test]
fn single_row_with_walls_is_opened_again() {
    let maze = Maze::from_decisions(&vec![vec![RIGHT, RIGHT, RIGHT]]).unwrap();
    assert_eq!(
        maze.maze,
        vec![vec![
            cell(true, false, true, true, 1, false),
            cell(false, false, true, true, 1, false),
            cell(false, true, true, true, 1, false),
        ]]
    );
}

#[test]
fn lone_cells_keep_their_way_down() {
    let maze = Maze::from_decisions(&vec![vec![BOTH, BELOW], vec![NO, NO]]).unwrap();
    assert_eq!(
        maze.maze,
        vec![
            vec![cell(true, true, true, false, 1, false), cell(false, true, true, false, 2, false)],
            vec![cell(true, false, true, true, 1, false), cell(false, true, true, true, 1, false)],
        ]
    );
}

#[test]
fn last_open_cell_of_a_set_stays_open() {
    let maze = Maze::from_decisions(&vec![vec![BELOW, BELOW], vec![NO, NO]]).unwrap();
    assert_eq!(
        maze.maze,
        vec![
            vec![cell(true, false, true, true, 1, false), cell(false, true, true, false, 1, false)],
            vec![cell(true, false, true, true, 2, false), cell(false, true, true, true, 2, false)],
        ]
    );
}

#[test]
fn cell_under_a_wall_gets_the_smallest_free_set() {
    let plan = vec![vec![RIGHT, BELOW, NO], vec![RIGHT, RIGHT, NO], vec![NO, NO, NO]];
    let maze = Maze::from_decisions(&plan).unwrap();
    let sets: Vec<Vec<usize>> =
        maze.maze.iter().map(|row| row.iter().map(|c| c.set).collect()).collect();
    assert_eq!(sets, vec![vec![1, 2, 2], vec![1, 3, 2], vec![1, 1, 1]]);
    let right: Vec<Vec<bool>> =
        maze.maze.iter().map(|row| row.iter().map(|c| c.right_wall).collect()).collect();
    assert_eq!(
        right,
        vec![vec![true, false, true], vec![true, true, true], vec![false, false, true]]
    );
    let bottom: Vec<Vec<bool>> =
        maze.maze.iter().map(|row| row.iter().map(|c| c.bottom_wall).collect()).collect();
    assert_eq!(
        bottom,
        vec![vec![false, true, false], vec![false, false, false], vec![true, true, true]]
    );
}

#[test]
fn neighbours_in_one_set_get_a_wall() {
    let plan = vec![vec![NO, NO], vec![NO, NO]];
    let maze = Maze::from_decisions(&plan).unwrap();
    assert!(!maze.maze[0][0].right_wall);
    assert!(maze.maze[1][0].right_wall);
    assert!(!maze.maze[0][0].bottom_wall && !maze.maze[0][1].bottom_wall);
}

#[test]
fn spawn_permissions_follow_the_plan() {
    let yes = Decision { wall_right: false, wall_below: false, spawn: true };
    let plan = vec![vec![yes, NO, yes], vec![NO, yes, NO]];
    let maze = Maze::from_decisions(&plan).unwrap();
    let spawns: Vec<Vec<bool>> =
        maze.maze.iter().map(|row| row.iter().map(|c| c.let_spawn).collect()).collect();
    assert_eq!(spawns, vec![vec![true, false, true], vec![false, true, false]]);
}

#[test]
fn same_plan_gives_same_maze() {
    for seed in 0..20u64 {
        let plan = seeded_plan(seed, 12, 9);
        let first = Maze::from_decisions(&plan).unwrap();
        let second = Maze::from_decisions(&plan).unwrap();
        assert_eq!(first.maze, second.maze);
        assert_eq!(first.maze_height, second.maze_height);
        assert_eq!(first.maze_width, second.maze_width);
    }
}

#[test]
fn same_seed_gives_same_maze() {
    let first = Maze::from_decisions(&seeded_plan(42, 16, 9)).unwrap();
    let second = Maze::from_decisions(&seeded_plan(42, 16, 9)).unwrap();
    assert_eq!(first.maze, second.maze);
}

#[test]
fn seeded_mazes_are_sound() {
    for seed in 0..60u64 {
        let height = 1 + (seed as usize % 7);
        let width = 1 + (seed as usize / 7);
        let maze = Maze::from_decisions(&seeded_plan(seed, height, width)).unwrap();
        assert!(is_sound(&maze, height, width), "seed {}", seed);
    }
}

#[test]
fn random_mazes_are_sound() {
    for (height, width) in [(1, 1), (1, 8), (8, 1), (2, 2), (16, 9), (9, 6), (20, 16), (15, 15)] {
        for _ in 0..10 {
            let maze = Maze::create_random_maze(height, width).unwrap();
            assert!(is_sound(&maze, height, width), "{} by {}", height, width);
        }
    }
}

#[test]
fn all_walls_wanted_still_connects() {
    let plan = vec![vec![BOTH; 7]; 6];
    let maze = Maze::from_decisions(&plan).unwrap();
    assert!(is_sound(&maze, 6, 7));
}

#[test]
fn no_walls_wanted_still_encloses() {
    let plan = vec![vec![NO; 7]; 6];
    let maze = Maze::from_decisions(&plan).unwrap();
    assert!(is_sound(&maze, 6, 7));
}

#[test]
fn successive_mazes_are_each_sound() {
    let first = Maze::create_random_maze(15, 15).unwrap();
    let second = Maze::create_random_maze(15, 15).unwrap();
    assert!(is_sound(&first, 15, 15));
    assert!(is_sound(&second, 15, 15));
}

#[test]
fn random_mazes_differ_and_carve_inner_walls() {
    let first = Maze::create_random_maze(20, 20).unwrap();
    let second = Maze::create_random_maze(20, 20).unwrap();
    assert_ne!(first.maze, second.maze);
    let inner_bottom_walls = first.maze[..19]
        .iter()
        .map(|row| row.iter().filter(|c| c.bottom_wall).count())
        .sum::<usize>();
    assert!(inner_bottom_walls > 0);
    let open_below = first.maze[..19]
        .iter()
        .map(|row| row.iter().filter(|c| !c.bottom_wall).count())
        .sum::<usize>();
    assert!(open_below > 0);
}

#[test]
fn spawn_rate_is_about_one_in_seven() {
    let maze = Maze::create_random_maze(60, 60).unwrap();
    let cells = 3600usize;
    let tagged: usize =
        maze.maze.iter().map(|row| row.iter().filter(|c| c.let_spawn).count()).sum();
    // Expected 514 with a standard deviation of 21.
    assert!(tagged > 380 && tagged < 650, "{} of {} cells tagged", tagged, cells);
}

#[test]
fn top_walls_are_carried_down_and_left_walls_are_not() {
    let maze = Maze::from_decisions(&seeded_plan(7, 6, 5)).unwrap();
    for row in maze.maze.iter() {
        for (c, cell) in row.iter().enumerate() {
            assert!(cell.top_wall);
            assert_eq!(cell.left_wall, c == 0);
        }
    }
}

#[test]
fn reload_replaces_one_maze_with_the_gym_size() {
    let sizes = [(16usize, 9usize), (9, 6), (20, 16), (15, 15)];
    for gym_no in 0..4usize {
        let mut mazes: Vec<Maze> = (0..4)
            .map(|_| Maze::from_decisions(&vec![vec![NO, NO], vec![NO, NO]]).unwrap())
            .collect();
        let before = mazes[0].maze.clone();
        reload_maze(&mut mazes, gym_no);
        assert_eq!(mazes.len(), 4);
        for (i, maze) in mazes.iter().enumerate() {
            if i == gym_no {
                assert!(is_sound(maze, sizes[i].0, sizes[i].1));
            } else {
                assert_eq!(maze.maze, before);
                assert_eq!((maze.maze_height, maze.maze_width), (2, 2));
            }
        }
    }
}

#[test]
fn reload_of_a_later_gym_replaces_the_fourth_maze() {
    let mut mazes: Vec<Maze> =
        (0..5).map(|_| Maze::from_decisions(&vec![vec![NO]]).unwrap()).collect();
    reload_maze(&mut mazes, 9);
    assert_eq!(mazes.len(), 5);
    assert!(is_sound(&mazes[3], 15, 15));
    for i in [0usize, 1, 2, 4] {
        assert_eq!((mazes[i].maze_height, mazes[i].maze_width), (1, 1));
    }
}
