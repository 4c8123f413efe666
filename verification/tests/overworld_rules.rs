use monster_town::area::{Area, MAX_POSITION, MIN_POSITION};
use monster_town::gym::exit_area;
use monster_town::rules::{
    check_collision, check_within, encounter_wanted, experience, hold_back, random_spawn, resist,
    step_velocity, touches_any,
};

fn area(x: i32, y: i32, width: u32, height: u32) -> Area {
    Area { x, y, width, height }
}

#[test]
fn resting_player_is_slowed_towards_rest() {
    assert_eq!(resist(5, 0), -1);
    assert_eq!(resist(-3, 0), 1);
    assert_eq!(resist(0, 0), 0);
}

#[test]
fn asked_acceleration_is_kept() {
    assert_eq!(resist(5, 2), 2);
    assert_eq!(resist(0, -4), -4);
    assert_eq!(resist(-5, -1), -1);
    assert_eq!(resist(i32::MAX, i32::MIN), i32::MIN);
}

#[test]
fn experience_grows_with_badges_and_difficulty() {
    assert_eq!(experience(0, 0), 10);
    assert_eq!(experience(0, 4), 50);
    assert_eq!(experience(1, 0), 30);
    assert_eq!(experience(1, 2), 90);
    assert_eq!(experience(2, 3), 200);
    assert_eq!(experience(9, 1), 100);
}

#[test]
fn sides_of_an_area() {
    let a = area(-3, 4, 10, 20);
    assert_eq!(a.left_side(), -3);
    assert_eq!(a.right_side(), 7);
    assert_eq!(a.top_side(), 4);
    assert_eq!(a.bottom_side(), 24);
    let far = area(i32::MAX, i32::MAX, u32::MAX, u32::MAX);
    assert_eq!(far.right_side(), i32::MAX as i64 + u32::MAX as i64);
    assert_eq!(far.bottom_side(), i32::MAX as i64 + u32::MAX as i64);
}

#[test]
fn overlapping_areas_collide() {
    assert!(check_collision(&area(0, 0, 10, 10), &area(5, 5, 10, 10)));
    assert!(check_collision(&area(5, 5, 10, 10), &area(0, 0, 10, 10)));
    assert!(check_collision(&area(0, 0, 10, 10), &area(2, 2, 3, 3)));
}

#[test]
fn areas_that_share_an_edge_collide() {
    assert!(check_collision(&area(0, 0, 10, 10), &area(10, 0, 5, 5)));
    assert!(check_collision(&area(0, 0, 10, 10), &area(0, 10, 5, 5)));
    assert!(check_collision(&area(0, 0, 10, 10), &area(10, 10, 5, 5)));
}

#[test]
fn areas_apart_do_not_collide() {
    assert!(!check_collision(&area(0, 0, 10, 10), &area(11, 0, 5, 5)));
    assert!(!check_collision(&area(0, 0, 10, 10), &area(0, 11, 5, 5)));
    assert!(!check_collision(&area(11, 0, 5, 5), &area(0, 0, 10, 10)));
    assert!(!check_collision(&area(0, 11, 5, 5), &area(0, 0, 10, 10)));
}

#[test]
fn area_strictly_inside_is_within() {
    assert!(check_within(&area(5, 5, 2, 2), &area(0, 0, 10, 10)));
    assert!(check_within(&area(1, 1, 8, 8), &area(0, 0, 10, 10)));
}

#[test]
fn area_on_an_edge_is_not_within() {
    assert!(!check_within(&area(0, 5, 2, 2), &area(0, 0, 10, 10)));
    assert!(!check_within(&area(5, 0, 2, 2), &area(0, 0, 10, 10)));
    assert!(!check_within(&area(8, 5, 2, 2), &area(0, 0, 10, 10)));
    assert!(!check_within(&area(5, 8, 2, 2), &area(0, 0, 10, 10)));
    assert!(!check_within(&area(0, 0, 10, 10), &area(0, 0, 10, 10)));
}

#[test]
fn one_encounter_draw_in_a_hundred_hits() {
    let hits: Vec<u8> = (0u8..100).filter(|d| encounter_wanted(*d)).collect();
    assert_eq!(hits, vec![2]);
    assert!(!encounter_wanted(100));
    assert!(!encounter_wanted(255));
}

#[test]
fn wild_monsters_show_about_once_in_a_hundred() {
    let trials = 20000u32;
    let mut shown = 0u32;
    for _ in 0..trials {
        if random_spawn() {
            shown += 1;
        }
    }
    // Expected 200 with a standard deviation of 14.
    assert!(shown > 100 && shown < 320, "{} of {}", shown, trials);
}

#[test]
fn velocity_follows_the_keys_up_to_the_limit() {
    assert_eq!(step_velocity(0, 1), 1);
    assert_eq!(step_velocity(4, 1), 5);
    assert_eq!(step_velocity(5, 1), 5);
    assert_eq!(step_velocity(-5, -1), -5);
    assert_eq!(step_velocity(2, -1), 1);
}

#[test]
fn velocity_decays_without_keys() {
    assert_eq!(step_velocity(3, 0), 2);
    assert_eq!(step_velocity(-3, 0), -2);
    assert_eq!(step_velocity(1, 0), 0);
    assert_eq!(step_velocity(0, 0), 0);
}

#[test]
fn velocity_is_limited_for_any_input() {
    assert_eq!(step_velocity(i32::MAX, i32::MAX), 5);
    assert_eq!(step_velocity(i32::MIN, i32::MIN), -5);
    assert_eq!(step_velocity(i32::MAX, 0), 5);
    assert_eq!(step_velocity(100, -200), -5);
}

#[test]
fn shift_moves_the_corner_and_keeps_the_size() {
    assert_eq!(area(10, 10, 5, 7).shift(3, -4), area(13, 6, 5, 7));
    assert_eq!(area(-1, -1, 5, 7).shift(0, 0), area(-1, -1, 5, 7));
}

#[test]
fn shift_stops_at_the_last_position() {
    assert_eq!(area(MAX_POSITION, 0, 1, 1).shift(10, 0), area(MAX_POSITION, 0, 1, 1));
    assert_eq!(area(0, MIN_POSITION, 1, 1).shift(0, -10), area(0, MIN_POSITION, 1, 1));
    assert_eq!(area(0, 0, 1, 1).shift(i64::MAX, i64::MIN), area(MAX_POSITION, MIN_POSITION, 1, 1));
    assert_eq!(MAX_POSITION, i32::MAX / 2);
    assert_eq!(MIN_POSITION, i32::MIN / 2);
}

#[test]
fn touched_wall_sets_the_player_back() {
    let player = area(0, 0, 10, 10);
    let walls = vec![area(10, 0, 5, 5), area(40, 40, 5, 5)];
    assert_eq!(hold_back(&player, &walls, 2, 1), (area(-2, -1, 10, 10), true));
}

#[test]
fn untouched_walls_leave_the_player() {
    let player = area(0, 0, 10, 10);
    let walls = vec![area(11, 0, 5, 5), area(40, 40, 5, 5)];
    assert_eq!(hold_back(&player, &walls, 2, 1), (player, false));
    assert_eq!(hold_back(&player, &Vec::new(), 2, 1), (player, false));
}

#[test]
fn walls_are_tried_one_after_the_other() {
    let player = area(0, 0, 10, 10);
    // The second wall is touched before the first has set the player back, not after.
    let walls = vec![area(10, 0, 5, 5), area(9, 0, 5, 5)];
    assert_eq!(hold_back(&player, &walls, 3, 0), (area(-3, 0, 10, 10), true));
    // Two walls that are both still touched set the player back twice.
    let walls = vec![area(10, 0, 5, 5), area(5, 0, 5, 5)];
    assert_eq!(hold_back(&player, &walls, 3, 0), (area(-6, 0, 10, 10), true));
}

#[test]
fn player_touches_any_of_the_areas() {
    let player = area(0, 0, 10, 10);
    assert!(touches_any(&player, &vec![area(50, 50, 1, 1), area(10, 10, 1, 1)]));
    assert!(!touches_any(&player, &vec![area(50, 50, 1, 1), area(11, 11, 1, 1)]));
    assert!(!touches_any(&player, &Vec::new()));
}

#[test]
fn the_way_out_is_in_the_top_right() {
    assert_eq!(exit_area(), area(1240, 0, 100, 50));
}
