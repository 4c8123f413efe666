use monster_town::area::Area;
use monster_town::chance::Decision;
use monster_town::gym::{
    determine_cur_bg, gym_cell_size, gym_colors, gym_coordinates, npc_areas, wall_areas,
};
use monster_town::maze::Maze;

const NO: Decision = Decision { wall_right: false, wall_below: false, spawn: false };

fn area(x: i32, y: i32, width: u32, height: u32) -> Area {
    Area { x, y, width, height }
}

#[test]
fn each_gym_has_its_door() {
    assert_eq!(gym_coordinates(0), (410, 260));
    assert_eq!(gym_coordinates(1), (1190, 600));
    assert_eq!(gym_coordinates(2), (880, 400));
    assert_eq!(gym_coordinates(3), (380, 600));
}

#[test]
fn later_gyms_share_the_fourth_door() {
    assert_eq!(gym_coordinates(4), (380, 600));
    assert_eq!(gym_coordinates(usize::MAX), (380, 600));
}

#[test]
fn each_gym_has_its_cell_size() {
    assert_eq!(gym_cell_size(0), (140, 70));
    assert_eq!(gym_cell_size(1), (212, 79));
    assert_eq!(gym_cell_size(2), (79, 70));
    assert_eq!(gym_cell_size(3), (85, 70));
    assert_eq!(gym_cell_size(8), (85, 70));
}

#[test]
fn each_gym_has_its_colors() {
    assert_eq!(gym_colors(0), ((0x57, 0x89, 0xA2), (0x60, 0x29, 0x8A)));
    assert_eq!(gym_colors(1), ((0x52, 0x83, 0x4A), (0xA8, 0x2D, 0x16)));
    assert_eq!(gym_colors(2), ((0x29, 0x39, 0x6A), (0xEE, 0xB0, 0x45)));
    assert_eq!(gym_colors(3), ((0x5A, 0x4A, 0x41), (0xBD, 0x41, 0x41)));
    assert_eq!(gym_colors(5), ((0x5A, 0x4A, 0x41), (0xBD, 0x41, 0x41)));
}

#[test]
fn camera_stays_on_the_background() {
    assert_eq!(determine_cur_bg(0, 0), area(0, 0, 1280, 960));
    assert_eq!(determine_cur_bg(1000, 2000), area(100, 1020, 1280, 960));
    assert_eq!(determine_cur_bg(-500, -500), area(0, 0, 1280, 960));
}

#[test]
fn camera_follows_the_player_in_between() {
    assert_eq!(determine_cur_bg(700, 100), area(76, 86, 1280, 960));
    assert_eq!(determine_cur_bg(624, 14), area(0, 0, 1280, 960));
    assert_eq!(determine_cur_bg(625, 15), area(1, 1, 1280, 960));
    assert_eq!(determine_cur_bg(724, 1034), area(100, 1020, 1280, 960));
}

#[test]
fn camera_takes_extreme_positions() {
    assert_eq!(determine_cur_bg(i32::MAX, i32::MAX), area(100, 1020, 1280, 960));
    assert_eq!(determine_cur_bg(i32::MIN, i32::MIN), area(0, 0, 1280, 960));
}

#[test]
fn single_cell_shows_four_walls_and_the_entrance() {
    let maze = Maze::from_decisions(&vec![vec![NO]]).unwrap();
    assert_eq!(
        wall_areas(&maze, 0, 0, 0),
        vec![
            area(0, 0, 140, 5),
            area(0, 0, 5, 75),
            area(140, 0, 5, 75),
            area(0, 70, 140, 5),
            area(1270, 0, 140, 80),
            area(1150, 0, 140, 5),
            area(1150, 70, 140, 5),
        ]
    );
}

#[test]
fn walls_move_against_the_camera() {
    let maze = Maze::from_decisions(&vec![vec![NO]]).unwrap();
    assert_eq!(
        wall_areas(&maze, 1, 700, 100),
        vec![
            area(-76, -86, 212, 5),
            area(-76, -86, 5, 84),
            area(136, -86, 5, 84),
            area(-76, -7, 212, 5),
            area(1270, 0, 140, 80),
            area(1150, 0, 212, 5),
            area(1150, 79, 212, 5),
        ]
    );
}

#[test]
fn top_walls_show_on_the_first_row_only() {
    let maze = Maze::from_decisions(&vec![vec![NO, NO], vec![NO, NO]]).unwrap();
    // first row: both cells open to the right and below; second row: walled apart
    assert_eq!(
        wall_areas(&maze, 2, 0, 0),
        vec![
            area(0, 0, 79, 5),
            area(0, 0, 5, 75),
            area(79, 0, 79, 5),
            area(158, 0, 5, 75),
            area(0, 70, 5, 75),
            area(79, 70, 5, 75),
            area(0, 140, 79, 5),
            area(158, 70, 5, 75),
            area(79, 140, 79, 5),
            area(1270, 0, 140, 80),
            area(1150, 0, 79, 5),
            area(1150, 70, 79, 5),
        ]
    );
}

#[test]
fn every_wall_of_a_random_maze_is_listed() {
    let maze = Maze::create_random_maze(16, 9).unwrap();
    let walls: usize = maze
        .maze
        .iter()
        .enumerate()
        .map(|(r, row)| {
            row.iter()
                .map(|c| {
                    (r == 0 && c.top_wall) as usize
                        + c.left_wall as usize
                        + c.right_wall as usize
                        + c.bottom_wall as usize
                })
                .sum::<usize>()
        })
        .sum();
    assert_eq!(wall_areas(&maze, 0, 300, 300).len(), walls + 3);
}

#[test]
fn trainers_stand_in_corners_that_allow_a_spawn() {
    let spawn_below = Decision { wall_right: false, wall_below: true, spawn: true };
    let maze = Maze::from_decisions(&vec![vec![spawn_below, spawn_below], vec![NO, NO]]).unwrap();
    assert!(maze.maze[0][0].determine_corner());
    assert!(!maze.maze[0][1].determine_corner());
    let (trainers, leader) = npc_areas(&maze, 1, 0, 0);
    assert_eq!(trainers, vec![area(306, 8, 32, 32)]);
    assert_eq!(leader, area(306, 87, 32, 32));
}

#[test]
fn corners_without_spawn_permission_stay_empty() {
    let below = Decision { wall_right: false, wall_below: true, spawn: false };
    let maze = Maze::from_decisions(&vec![vec![below, below], vec![NO, NO]]).unwrap();
    let (trainers, leader) = npc_areas(&maze, 0, 0, 0);
    assert_eq!(trainers, Vec::<Area>::new());
    assert_eq!(leader, area(306, 78, 32, 32));
}

#[test]
fn no_trainer_stands_in_the_last_row() {
    let spawn = Decision { wall_right: false, wall_below: false, spawn: true };
    let maze = Maze::from_decisions(&vec![vec![spawn]]).unwrap();
    let (trainers, leader) = npc_areas(&maze, 3, 700, 100);
    // one column: inset 1280 / 1 / 2 - 20 = 620
    assert_eq!(trainers, Vec::<Area>::new());
    assert_eq!(leader, area(6 + 620 - 76, 8 - 86, 32, 32));
}

#[test]
fn trainers_are_listed_row_by_row() {
    let spawn = Decision { wall_right: true, wall_below: false, spawn: true };
    let plan = vec![vec![spawn; 3]; 3];
    let maze = Maze::from_decisions(&plan).unwrap();
    let (trainers, _) = npc_areas(&maze, 2, 0, 0);
    let mut expected = Vec::new();
    for r in 0..2 {
        for c in 0..3 {
            if maze.maze[r][c].determine_corner() {
                expected.push(area(c as i32 * 79 + 6 + 193, r as i32 * 70 + 8, 32, 32));
            }
        }
    }
    assert!(!expected.is_empty());
    assert_eq!(trainers, expected);
}
